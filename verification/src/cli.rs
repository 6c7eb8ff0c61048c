//! How the program was asked to start, and the sync status line the tray
//! shows.
use vstd::prelude::*;
use crate::text::{chars_of, push_str, same_chars, string_of};

verus! {

/// How the process was started.
///
/// `photomem` opens the capture window. `photomem daemon` starts in the
/// background with the window built but hidden, so the first capture is as
/// fast as every later one. `photomem capture` hands off to a running
/// instance where there is one, and otherwise opens a window itself.
#[derive(Debug, Clone, Copy, PartialEq, Eq)]
pub enum Mode {
    Window,
    Daemon,
    /// Print usage and exit. Anything that looks like a request for help is
    /// this: `--help` opening a window instead of answering would be a rude
    /// surprise.
    Help,
    /// Print the version and exit.
    Version,
}

pub const USAGE: &'static str = "photomem — fast visual note capture

USAGE:
    photomem            open the capture window
    photomem capture    wake the running instance, or open one
    photomem daemon     start hidden and stay warm for the hotkey

OPTIONS:
    -h, --help          print this
    -V, --version       print the version

Configuration lives in ~/.config/photomem/config.toml.
The hotkey is a compositor binding on Linux; see the README.";

pub open spec fn asks_help(a: Seq<char>) -> bool {
    a == "-h"@ || a == "--help"@ || a == "help"@
}

pub open spec fn asks_version(a: Seq<char>) -> bool {
    a == "-V"@ || a == "--version"@ || a == "version"@
}

/// The mode the arguments from `i` on select, `m` being what the earlier
/// ones selected: a request for help or for the version wins as soon as it
/// is seen, `daemon` selects the daemon, and anything else is passed over.
pub open spec fn mode_after(args: Seq<Seq<char>>, i: int, m: Mode) -> Mode
    decreases args.len() - i,
{
    if i < 0 || i >= args.len() {
        m
    } else if asks_help(args[i]) {
        Mode::Help
    } else if asks_version(args[i]) {
        Mode::Version
    } else if args[i] == "daemon"@ {
        mode_after(args, i + 1, Mode::Daemon)
    } else {
        mode_after(args, i + 1, m)
    }
}

/// The text of each argument.
pub open spec fn arg_texts(args: Seq<String>) -> Seq<Seq<char>> {
    Seq::new(args.len(), |i: int| args[i]@)
}

/// Whether `a` is the word `w`.
fn is_word(a: &String, w: &str) -> (r: bool)
    ensures
        r == (a@ == w@),
{
    let x = chars_of(a.as_str());
    let y = chars_of(w);
    same_chars(x.as_slice(), y.as_slice())
}

/// The mode the command line selects; the first argument is the program's
/// own name.
pub fn mode_from(args: &[String]) -> (r: Mode)
    ensures
        r == mode_after(arg_texts(args@), 1, Mode::Window),
{
    let ghost a = arg_texts(args@);
    let mut mode = Mode::Window;
    let mut i: usize = 1;
    if args.len() == 0 {
        return mode;
    }
    while i < args.len()
        invariant
            1 <= i <= args@.len(),
            a == arg_texts(args@),
            mode_after(a, i as int, mode) == mode_after(a, 1, Mode::Window),
        decreases args.len() - i,
    {
        let arg = &args[i];
        assert(a[i as int] == arg@);
        if is_word(arg, "-h") || is_word(arg, "--help") || is_word(arg, "help") {
            return Mode::Help;
        }
        if is_word(arg, "-V") || is_word(arg, "--version") || is_word(arg, "version") {
            return Mode::Version;
        }
        if is_word(arg, "daemon") {
            mode = Mode::Daemon;
        }
        i += 1;
    }
    mode
}

/// The line the tray shows for a sync result: a warning sign on a failure,
/// and the clock time, because the useful question about sync is how long
/// ago it last did something.
pub open spec fn status_text(text: Seq<char>, is_error: bool, at: Seq<char>) -> Seq<char> {
    (if is_error {
        "⚠ "@
    } else {
        Seq::empty()
    }) + text + " · "@ + at
}

pub fn status_line(text: &str, is_error: bool, at: &str) -> (r: String)
    ensures
        r@ == status_text(text@, is_error, at@),
{
    let mut out: Vec<char> = Vec::new();
    if is_error {
        push_str(&mut out, "⚠ ");
    }
    push_str(&mut out, text);
    push_str(&mut out, " · ");
    push_str(&mut out, at);
    string_of(out.as_slice())
}

/// The last thing sync did, for the tray to show. Empty until something has
/// synced: a vault that is not a git repo never will, and a standing "not
/// synced" would warn about a choice made on purpose.
pub struct TrayStatus {
    line: Option<String>,
}

impl TrayStatus {
    /// What the tray shows, as text.
    pub closed spec fn shown(&self) -> Option<Seq<char>> {
        match self.line {
            Some(l) => Some(l@),
            None => None,
        }
    }

    pub fn new() -> (r: TrayStatus)
        ensures
            r.shown() is None,
    {
        TrayStatus { line: None }
    }

    /// The line to show, if sync has done anything yet.
    pub fn status(&self) -> (r: Option<String>)
        ensures
            r is None <==> self.shown() is None,
            r matches Some(l) ==> self.shown() == Some(l@),
    {
        match &self.line {
            Some(l) => Some(l.clone()),
            None => None,
        }
    }

    /// Records what sync just did, at the clock time `at`.
    pub fn set(&mut self, text: &str, is_error: bool, at: &str)
        ensures
            final(self).shown() == Some(status_text(text@, is_error, at@)),
    {
        self.line = Some(status_line(text, is_error, at));
    }

    /// Forgets the status.
    pub fn clear(&mut self)
        ensures
            final(self).shown() is None,
    {
        self.line = None;
    }
}

/// The tray menu's item that opens the capture window.
pub const CAPTURE: &'static str = "New note";

/// The tray menu's item that ends the daemon. Nothing is lost: a note is on
/// disk the moment it is saved, and an unsaved buffer is in the draft file.
pub const QUIT: &'static str = "Quit photomem";

/// An entry of the tray menu.
#[derive(Debug, Clone, PartialEq, Eq)]
pub enum MenuEntry {
    /// The sync status: something to read, not to press.
    Status(String),
    Capture,
    Separator,
    Quit,
}

/// The tray menu: the status line and a separator when there is a status,
/// then capture, a separator and quit. Left click captures; the menu is on
/// the other button.
pub fn tray_menu(status: Option<String>) -> (r: Vec<MenuEntry>)
    ensures
        status is None ==> r@ == seq![MenuEntry::Capture, MenuEntry::Separator, MenuEntry::Quit],
        status matches Some(l) ==> r@ == seq![
            MenuEntry::Status(l),
            MenuEntry::Separator,
            MenuEntry::Capture,
            MenuEntry::Separator,
            MenuEntry::Quit,
        ],
{
    let mut items: Vec<MenuEntry> = Vec::new();
    match status {
        Some(l) => {
            items.push(MenuEntry::Status(l));
            items.push(MenuEntry::Separator);
        },
        None => {},
    }
    items.push(MenuEntry::Capture);
    items.push(MenuEntry::Separator);
    items.push(MenuEntry::Quit);
    items
}

/// The tray's tooltip: the status where there is one, which can be read
/// without opening anything.
pub fn tooltip(status: Option<String>) -> (r: String)
    ensures
        status matches Some(l) ==> r == l,
        status is None ==> r@ == "photomem — new note"@,
{
    match status {
        Some(l) => l,
        None => String::from_str("photomem — new note"),
    }
}

/// The byte of a tray icon in ARGB order at `i`, from its pixels in RGBA
/// order: the same four bytes a pixel, alpha moved first.
pub open spec fn argb_byte(rgba: Seq<u8>, i: int) -> u8 {
    let p = i - i % 4;
    if i % 4 == 0 {
        rgba[p + 3]
    } else {
        rgba[p + i % 4 - 1]
    }
}

/// A tray icon's pixels as the status-notifier spec wants them, ARGB32 in
/// network byte order, from the RGBA a PNG decodes to. Nothing is
/// resampled, only reordered; a trailing partial pixel is dropped.
pub fn argb_of(rgba: &[u8]) -> (r: Vec<u8>)
    ensures
        r@.len() == rgba@.len() / 4 * 4,
        forall|i: int| 0 <= i < r@.len() ==> #[trigger] r@[i] == argb_byte(rgba@, i),
{
    let n = rgba.len() / 4;
    let mut out: Vec<u8> = Vec::new();
    let mut k: usize = 0;
    while k < n
        invariant
            n == rgba@.len() / 4,
            k <= n,
            out@.len() == 4 * k,
            forall|i: int| 0 <= i < out@.len() ==> #[trigger] out@[i] == argb_byte(rgba@, i),
        decreases n - k,
    {
        let len = rgba.len();
        assert(4 * k + 4 <= len) by (nonlinear_arith)
            requires
                k < n,
                n == len / 4,
        ;
        let b = 4 * k;
        out.push(rgba[b + 3]);
        out.push(rgba[b]);
        out.push(rgba[b + 1]);
        out.push(rgba[b + 2]);
        proof {
            assert forall|i: int| 0 <= i < out@.len() implies #[trigger] out@[i] == argb_byte(rgba@, i) by {
                if i >= b {
                    assert((i - b) % 4 == i % 4) by (nonlinear_arith)
                        requires
                            b == 4 * k,
                            b <= i < b + 4,
                    ;
                    assert(i - i % 4 == b) by (nonlinear_arith)
                        requires
                            b == 4 * k,
                            b <= i < b + 4,
                    ;
                }
            }
        }
        k += 1;
    }
    out
}

} // verus!
