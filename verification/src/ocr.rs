//! Reading the text inside a captured screenshot: what is asked of a
//! recogniser and what is kept of its answer.
//!
//! The text goes into the index and never into the note, so nothing here can
//! change what is on disk. Running the recogniser (Vision on macOS, the
//! `tesseract` binary elsewhere) is the caller's part.
use vstd::prelude::*;
use std::io::Cursor;
use image::ImageFormat;
use crate::query::join_with;
use crate::text::{chars_of, push_all, same_chars, string_of, words, words_of};

verus! {

/// The image crate's re-encoding of an image, in whatever format it comes,
/// as PNG.
pub uninterp spec fn png_of(bytes: Seq<u8>) -> Option<Seq<u8>>;

/// Recognisers are handed PNG, which they all read.
///
/// Calls image's `load_from_memory` and then `write_to` with
/// `ImageFormat::Png`; either gives an error for an image it cannot handle.
/// The answer is named.
#[verifier::external_body]
fn to_png(image: &[u8]) -> (r: Option<Vec<u8>>)
    ensures
        r is None <==> png_of(image@) is None,
        r matches Some(p) ==> png_of(image@) == Some(p@),
{
    let decoded = image::load_from_memory(image).ok()?;
    let mut out = Cursor::new(Vec::new());
    decoded.write_to(&mut out, ImageFormat::Png).ok()?;
    Some(out.into_inner())
}

/// What one image yielded.
#[derive(Debug, Clone, PartialEq, Eq)]
pub struct Recognized {
    pub text: String,
    /// The languages that produced this text, joined with `+`: recorded so
    /// that changing the setting later finds the rows made under the old one.
    pub languages: String,
}

/// What OCR runs with when the configuration says nothing, spelled as
/// tesseract spells it.
pub const DEFAULT_LANGUAGE: &'static str = "eng";

/// The text of each string.
pub open spec fn language_texts(v: Seq<String>) -> Seq<Seq<char>> {
    Seq::new(v.len(), |i: int| v[i]@)
}

/// The languages OCR runs with: those configured, or the default when none
/// are. An empty list must not ask the recogniser for nothing and get
/// nothing back.
pub open spec fn languages_used(configured: Seq<Seq<char>>) -> Seq<Seq<char>> {
    if configured.len() == 0 {
        seq![DEFAULT_LANGUAGE@]
    } else {
        configured
    }
}

/// The default languages.
pub fn default_languages() -> (r: Vec<String>)
    ensures
        language_texts(r@) == seq![DEFAULT_LANGUAGE@],
{
    let mut v: Vec<String> = Vec::new();
    v.push(String::from_str(DEFAULT_LANGUAGE));
    assert(language_texts(v@) =~= seq![DEFAULT_LANGUAGE@]);
    v
}

/// What a recogniser is handed for a stored image: the image as PNG and the
/// languages to read it in. `None` where the image does not decode.
pub fn recognition_input(image: &[u8], languages: &[String]) -> (r: Option<(Vec<u8>, Vec<String>)>)
    ensures
        r is None <==> png_of(image@) is None,
        r matches Some(x) ==> png_of(image@) == Some(x.0@) && language_texts(x.1@) == languages_used(
            language_texts(languages@),
        ),
{
    let langs = languages_or_default(languages);
    match to_png(image) {
        Some(png) => Some((png, langs)),
        None => None,
    }
}

/// The languages OCR runs with.
pub fn languages_or_default(languages: &[String]) -> (r: Vec<String>)
    ensures
        language_texts(r@) == languages_used(language_texts(languages@)),
{
    if languages.len() == 0 {
        return default_languages();
    }
    let mut v: Vec<String> = Vec::new();
    let mut i: usize = 0;
    while i < languages.len()
        invariant
            i <= languages@.len(),
            v@.len() == i,
            language_texts(v@) == language_texts(languages@).subrange(0, i as int),
        decreases languages.len() - i,
    {
        let l = languages[i].clone();
        let ghost pre = v@;
        v.push(l);
        assert(v@ == pre.push(l));
        assert(language_texts(v@) =~= language_texts(languages@).subrange(0, i + 1));
        i += 1;
    }
    assert(language_texts(languages@).subrange(0, languages@.len() as int) =~= language_texts(
        languages@,
    ));
    v
}

/// Languages joined with `+`, as tesseract takes them and as a recognised
/// text records them.
pub fn join_languages(languages: &[String]) -> (r: String)
    ensures
        r@ == join_with(language_texts(languages@), '+'),
{
    let mut out: Vec<char> = Vec::new();
    let mut i: usize = 0;
    while i < languages.len()
        invariant
            i <= languages@.len(),
            out@ == join_with(language_texts(languages@).subrange(0, i as int), '+'),
        decreases languages.len() - i,
    {
        let ghost pre = language_texts(languages@).subrange(0, i as int);
        assert(language_texts(languages@).subrange(0, i + 1).drop_last() =~= pre);
        if i > 0 {
            out.push('+');
        }
        let c = chars_of(languages[i].as_str());
        push_all(&mut out, c.as_slice());
        assert(out@ =~= join_with(language_texts(languages@).subrange(0, i + 1), '+'));
        i += 1;
    }
    assert(language_texts(languages@).subrange(0, languages@.len() as int) =~= language_texts(
        languages@,
    ));
    string_of(out.as_slice())
}

/// A recogniser's text with its layout collapsed: the words, one space
/// between them.
pub open spec fn collapsed(text: Seq<char>) -> Seq<char> {
    join_with(words(text), ' ')
}

/// Collapses the whitespace a recogniser leaves behind. Both recognisers
/// emit a line per block and generous blank space between them; the index
/// only tokenises this, so the layout carries nothing.
pub fn normalize(text: &str) -> (r: String)
    ensures
        r@ == collapsed(text@),
{
    let c = chars_of(text);
    let ws = words_of(c.as_slice());
    let ghost all = crate::text::views(ws@);
    assert(all =~= words(text@));
    let mut out: Vec<char> = Vec::new();
    let mut i: usize = 0;
    while i < ws.len()
        invariant
            i <= ws@.len(),
            all == crate::text::views(ws@),
            out@ == join_with(all.subrange(0, i as int), ' '),
        decreases ws.len() - i,
    {
        assert(all.subrange(0, i + 1).drop_last() =~= all.subrange(0, i as int));
        assert(all.subrange(0, i + 1).last() == ws@[i as int]@);
        if i > 0 {
            out.push(' ');
        }
        push_all(&mut out, ws[i].as_slice());
        assert(out@ =~= join_with(all.subrange(0, i + 1), ' '));
        i += 1;
    }
    assert(all.subrange(0, all.len() as int) =~= all);
    string_of(out.as_slice())
}

/// What is kept of a recogniser's answer: its text collapsed, and the
/// languages it was asked for.
pub fn recognized(text: &str, languages: &[String]) -> (r: Recognized)
    ensures
        r.text@ == collapsed(text@),
        r.languages@ == join_with(language_texts(languages@), '+'),
{
    Recognized { text: normalize(text), languages: join_languages(languages) }
}

/// Vision's name (BCP-47) for a tesseract language code.
pub open spec fn bcp47_of(code: Seq<char>) -> Seq<char> {
    if code == "eng"@ {
        "en-US"@
    } else if code == "pol"@ {
        "pl-PL"@
    } else if code == "deu"@ {
        "de-DE"@
    } else if code == "fra"@ {
        "fr-FR"@
    } else if code == "spa"@ {
        "es-ES"@
    } else if code == "ita"@ {
        "it-IT"@
    } else if code == "por"@ {
        "pt-BR"@
    } else {
        code
    }
}

/// Whether `a` is the word `w`.
fn is_code(a: &str, w: &str) -> (r: bool)
    ensures
        r == (a@ == w@),
{
    let x = chars_of(a);
    let y = chars_of(w);
    same_chars(x.as_slice(), y.as_slice())
}

/// Vision speaks BCP-47 where the configuration speaks tesseract's codes.
/// Anything unrecognised is passed through: Vision ignores a language it
/// does not support, a better failure than refusing to read the image.
pub fn bcp47(code: &str) -> (r: &str)
    ensures
        r@ == bcp47_of(code@),
{
    if is_code(code, "eng") {
        "en-US"
    } else if is_code(code, "pol") {
        "pl-PL"
    } else if is_code(code, "deu") {
        "de-DE"
    } else if is_code(code, "fra") {
        "fr-FR"
    } else if is_code(code, "spa") {
        "es-ES"
    } else if is_code(code, "ita") {
        "it-IT"
    } else if is_code(code, "por") {
        "pt-BR"
    } else {
        code
    }
}

} // verus!
