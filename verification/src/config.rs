//! Configuration: its defaults and the small rules it is read and written by.
//!
//! The file is `~/.config/photomem/config.toml` on every platform: a config
//! file is something to edit by hand, and that is where it can be found.
//! Reading it, and the TOML, are the caller's part.
use vstd::prelude::*;
use crate::ocr::{default_languages, language_texts, DEFAULT_LANGUAGE};
use crate::store::{join, join_path};
use crate::number::{decimal, decimal_chars};
use crate::text::{chars_of, find_at, find_from, lemma_find_from, push_all, push_str, slice_of, string_of};

verus! {

/// Control+Option+N, not `Super+N`: "Super" is Command on macOS, and a
/// global Cmd+N would swallow "New" in every application.
pub const DEFAULT_HOTKEY: &'static str = "Ctrl+Alt+N";

/// Whether saving a note also commits it. On by default, but it does nothing
/// until the vault is a git repo, which is the user running `git init`.
#[derive(Debug, Clone, Copy, PartialEq, Eq)]
pub struct SyncConfig {
    pub enabled: bool,
}

impl Default for SyncConfig {
    fn default() -> (r: SyncConfig)
        ensures
            r.enabled,
    {
        SyncConfig { enabled: true }
    }
}

/// Which languages the recogniser is told to expect, spelled as tesseract
/// spells them.
#[derive(Debug, Clone, PartialEq, Eq)]
pub struct OcrConfig {
    pub languages: Vec<String>,
}

impl Default for OcrConfig {
    fn default() -> (r: OcrConfig)
        ensures
            language_texts(r.languages@) == seq![DEFAULT_LANGUAGE@],
    {
        OcrConfig { languages: default_languages() }
    }
}

/// `item` in double quotes.
pub open spec fn quoted_item(item: Seq<char>) -> Seq<char> {
    seq!['"'] + item + seq!['"']
}

/// A list written as TOML: items quoted, then `, ` between them. Small
/// enough to write by hand, which keeps TOML out of the template, which is
/// plain replacement everywhere else.
pub open spec fn toml_array(items: Seq<Seq<char>>) -> Seq<char> {
    seq!['['] + joined_quoted(items) + seq![']']
}

/// Items quoted, with `, ` between them.
pub open spec fn joined_quoted(items: Seq<Seq<char>>) -> Seq<char>
    decreases items.len(),
{
    if items.len() == 0 {
        Seq::empty()
    } else if items.len() == 1 {
        quoted_item(items[0])
    } else {
        joined_quoted(items.drop_last()) + seq![',', ' '] + quoted_item(items.last())
    }
}

/// A list of strings as TOML writes it.
pub fn toml_list(items: &[String]) -> (r: String)
    ensures
        r@ == toml_array(language_texts(items@)),
{
    let ghost all = language_texts(items@);
    let mut out: Vec<char> = Vec::new();
    out.push('[');
    let mut i: usize = 0;
    while i < items.len()
        invariant
            i <= items@.len(),
            all == language_texts(items@),
            out@ == seq!['['] + joined_quoted(all.subrange(0, i as int)),
        decreases items.len() - i,
    {
        assert(all.subrange(0, i + 1).drop_last() =~= all.subrange(0, i as int));
        assert(all.subrange(0, i + 1).last() == items@[i as int]@);
        if i > 0 {
            out.push(',');
            out.push(' ');
        }
        out.push('"');
        let c = chars_of(items[i].as_str());
        push_all(&mut out, c.as_slice());
        out.push('"');
        assert(out@ =~= seq!['['] + joined_quoted(all.subrange(0, i + 1)));
        i += 1;
    }
    out.push(']');
    assert(all.subrange(0, all.len() as int) =~= all);
    string_of(out.as_slice())
}

/// `Path::strip_prefix("~")` of a path, as text.
pub uninterp spec fn tilde_rest(p: Seq<char>) -> Option<Seq<char>>;

/// Calls `Path::strip_prefix("~")`: the rest of the path when its first
/// component is `~`; what it yields is named.
#[verifier::external_body]
fn strip_tilde(p: &str) -> (r: Option<String>)
    ensures
        r is None <==> tilde_rest(p@) is None,
        r matches Some(s) ==> tilde_rest(p@) == Some(s@),
{
    match std::path::Path::new(p).strip_prefix("~") {
        Ok(rest) => Some(rest.to_string_lossy().into_owned()),
        Err(_) => None,
    }
}

/// A path with a leading `~` component taken as `home`.
pub fn expand_tilde(p: &str, home: &str) -> (r: String)
    ensures
        r@ == match tilde_rest(p@) {
            Some(rest) => join(home@, rest),
            None => p@,
        },
{
    match strip_tilde(p) {
        Some(rest) => join_path(home, rest.as_str()),
        None => String::from_str(p),
    }
}

// ---------------------------------------------------------------------------
// The template written on first run.
// ---------------------------------------------------------------------------

/// The file written on first run, so the configuration is discoverable and
/// documents itself. Each `{name}` is filled in with a setting.
pub const TEMPLATE: &'static str = "# photomem configuration

# The notes repository. Created on first save; make it a git repo to sync it.
vault = \"{vault}\"

# The global capture hotkey. macOS only — on Linux this is a compositor binding.
# Modifiers: Ctrl, Alt, Shift, Cmd (or Super). Takes effect on restart.
hotkey = \"{hotkey}\"

[sync]
# Commit each saved note to the vault's git repo, and push it if that repo has
# a remote. Does nothing until the vault is a git repo, so `git init` there is
# what actually turns sync on.
enabled = {sync_enabled}

[image]
# Pasted images are scaled to this long edge and re-encoded as WebP. Measured on
# a 4K screenshot: 1200 is 62 KB but too soft to read, 1600 is 104 KB and legible,
# 1920 is 145 KB and sharp. Window captures are usually below this and untouched.
max_edge = {max_edge}
thumb_edge = {thumb_edge}
quality = {quality}

[ocr]
# Text inside pasted screenshots is read in the background and put into the
# search index only -- never into the note. Named as tesseract names them.
# Adding a language makes every image read under the old list stale, and they
# are re-read in the background, since the pictures are kept forever.
languages = {languages}
";

/// `s` from `i` on with every occurrence of `p` replaced by `w`, left to
/// right and without overlaps.
pub open spec fn replaced_from(s: Seq<char>, p: Seq<char>, w: Seq<char>, i: int) -> Seq<char>
    decreases s.len() + 1 - i,
{
    if 0 <= i <= s.len() && p.len() > 0 {
        match find_from(s, p, i) {
            Some(k) => {
                proof {
                    lemma_find_from(s, p, i);
                }
                s.subrange(i, k) + w + replaced_from(s, p, w, k + p.len())
            },
            None => s.subrange(i, s.len() as int),
        }
    } else {
        Seq::empty()
    }
}

/// `str::replace`: every occurrence of `p` in `s` replaced by `w`.
pub open spec fn replaced(s: Seq<char>, p: Seq<char>, w: Seq<char>) -> Seq<char> {
    replaced_from(s, p, w, 0)
}

/// Every occurrence of `p` in `s` replaced by `w`.
pub fn replace(s: &str, p: &str, w: &str) -> (r: String)
    requires
        p@.len() > 0,
    ensures
        r@ == replaced(s@, p@, w@),
{
    let c = chars_of(s);
    let pc = chars_of(p);
    let n = c.len();
    let mut out: Vec<char> = Vec::new();
    let mut i: usize = 0;
    loop
        invariant
            i <= n == c@.len(),
            c@ == s@,
            pc@ == p@,
            p@.len() > 0,
            out@ + replaced_from(c@, pc@, w@, i as int) == replaced(s@, p@, w@),
        decreases n + 1 - i,
    {
        match find_at(c.as_slice(), pc.as_slice(), i) {
            Some(k) => {
                proof {
                    lemma_find_from(c@, pc@, i as int);
                }
                let ghost pre = out@;
                let piece = slice_of(c.as_slice(), i, k);
                push_all(&mut out, piece.as_slice());
                push_str(&mut out, w);
                proof {
                    assert(out@ + replaced_from(c@, pc@, w@, k + pc@.len()) =~= pre
                        + replaced_from(c@, pc@, w@, i as int));
                }
                i = k + pc.len();
            },
            None => {
                let piece = slice_of(c.as_slice(), i, n);
                let ghost pre = out@;
                push_all(&mut out, piece.as_slice());
                assert(out@ =~= pre + replaced_from(c@, pc@, w@, i as int));
                return string_of(out.as_slice());
            },
        }
    }
}

/// `true` or `false`, as `bool::to_string` writes it.
pub open spec fn bool_text(b: bool) -> Seq<char> {
    if b {
        "true"@
    } else {
        "false"@
    }
}

/// The first-run file for the given settings, each `{name}` in the template
/// replaced in turn; the WebP quality comes already written out.
pub open spec fn template_for(
    vault: Seq<char>,
    hotkey: Seq<char>,
    sync_enabled: bool,
    max_edge: u32,
    thumb_edge: u32,
    quality: Seq<char>,
    languages: Seq<Seq<char>>,
) -> Seq<char> {
    let t1 = replaced(TEMPLATE@, "{vault}"@, vault);
    let t2 = replaced(t1, "{hotkey}"@, hotkey);
    let t3 = replaced(t2, "{sync_enabled}"@, bool_text(sync_enabled));
    let t4 = replaced(t3, "{max_edge}"@, decimal(max_edge as nat));
    let t5 = replaced(t4, "{thumb_edge}"@, decimal(thumb_edge as nat));
    let t6 = replaced(t5, "{quality}"@, quality);
    replaced(t6, "{languages}"@, toml_array(languages))
}

/// The first-run file for the given settings.
pub fn template_text(
    vault: &str,
    hotkey: &str,
    sync_enabled: bool,
    max_edge: u32,
    thumb_edge: u32,
    quality: &str,
    languages: &[String],
) -> (r: String)
    ensures
        r@ == template_for(
            vault@,
            hotkey@,
            sync_enabled,
            max_edge,
            thumb_edge,
            quality@,
            language_texts(languages@),
        ),
{
    proof {
        reveal_strlit("{vault}");
        reveal_strlit("{hotkey}");
        reveal_strlit("{sync_enabled}");
        reveal_strlit("{max_edge}");
        reveal_strlit("{thumb_edge}");
        reveal_strlit("{quality}");
        reveal_strlit("{languages}");
    }
    let t1 = replace(TEMPLATE, "{vault}", vault);
    let t2 = replace(t1.as_str(), "{hotkey}", hotkey);
    let b = if sync_enabled {
        String::from_str("true")
    } else {
        String::from_str("false")
    };
    let t3 = replace(t2.as_str(), "{sync_enabled}", b.as_str());
    let m = string_of(decimal_chars(max_edge as u64).as_slice());
    let t4 = replace(t3.as_str(), "{max_edge}", m.as_str());
    let th = string_of(decimal_chars(thumb_edge as u64).as_slice());
    let t5 = replace(t4.as_str(), "{thumb_edge}", th.as_str());
    let t6 = replace(t5.as_str(), "{quality}", quality);
    let l = toml_list(languages);
    replace(t6.as_str(), "{languages}", l.as_str())
}

/// The smallest long edge a stored image may be configured to.
pub const MIN_MAX_EDGE: u32 = 64;

/// The smallest long edge a thumbnail may be configured to.
pub const MIN_THUMB_EDGE: u32 = 32;

/// The image edges a configuration asks for, raised to the smallest that
/// still make a usable picture and thumbnail.
pub fn image_edges(max_edge: u32, thumb_edge: u32) -> (r: (u32, u32))
    ensures
        r.0 == if max_edge < MIN_MAX_EDGE {
            MIN_MAX_EDGE
        } else {
            max_edge
        },
        r.1 == if thumb_edge < MIN_THUMB_EDGE {
            MIN_THUMB_EDGE
        } else {
            thumb_edge
        },
{
    let m = if max_edge < MIN_MAX_EDGE {
        MIN_MAX_EDGE
    } else {
        max_edge
    };
    let t = if thumb_edge < MIN_THUMB_EDGE {
        MIN_THUMB_EDGE
    } else {
        thumb_edge
    };
    (m, t)
}

} // verus!
