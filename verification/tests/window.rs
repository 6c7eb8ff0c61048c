use photomem::cli::{argb_of, mode_from, status_line, tooltip, tray_menu, MenuEntry, Mode, TrayStatus, USAGE};
use photomem::index::Ref;
use photomem::note::Note;
use photomem::stamp::{now, Stamp};
use photomem::view::{
    data_url, embedded_names, note_view, other_backlinks, safe_link, urlencode,
    without_embed_lines, HitView, Pasted, RefView, TimelineItem, WallItem,
};

fn reference(name: &str) -> Ref {
    Ref {
        path: format!("/notes/{name}.md"),
        name: name.to_string(),
        title: name.to_string(),
        created: now(),
    }
}

fn mode(args: &[&str]) -> &'static str {
    let args: Vec<String> = args.iter().map(|s| s.to_string()).collect();
    match mode_from(&args) {
        Mode::Window => "window",
        Mode::Daemon => "daemon",
        Mode::Help => "help",
        Mode::Version => "version",
    }
}

#[test]
fn the_banner_note_is_not_repeated_in_the_backlinks() {
    let refs = vec![reference("second-fix"), reference("first-fix"), reference("mentions")];
    let banner = reference("second-fix");
    let shown: Vec<String> = other_backlinks(&refs, Some(&banner)).into_iter().map(|r| r.name).collect();
    assert_eq!(shown, ["first-fix", "mentions"]);
}

#[test]
fn with_no_correction_every_backlink_is_listed() {
    let refs = vec![reference("a"), reference("b")];
    assert_eq!(other_backlinks(&refs, None).len(), 2);
}

#[test]
fn link_names_are_bare_and_extensionless() {
    assert_eq!(safe_link("2026-09-04-1703-deploy"), Some("2026-09-04-1703-deploy"));
    assert_eq!(safe_link(" 2026-09-04-1703-deploy.md "), Some("2026-09-04-1703-deploy"));
    assert_eq!(safe_link("../../etc/passwd"), None);
    assert_eq!(safe_link("/etc/passwd"), None);
    assert_eq!(safe_link("sub/note"), None);
    assert_eq!(safe_link("  "), None);
}

#[test]
fn strips_standalone_embed_lines_only() {
    let body = "before\n![[a.webp]]\nsee ![[b.webp]] inline\nafter";
    assert_eq!(without_embed_lines(body), "before\nsee ![[b.webp]] inline\nafter");
}

#[test]
fn a_note_that_is_only_an_image_has_an_empty_body() {
    assert_eq!(without_embed_lines("![[a.webp]]"), "");
}

#[test]
fn reads_embeds_in_order_without_duplicates() {
    let body = "One ![[a.webp]]\ntext\n![[b.webp]] and ![[a.webp]] again\n";
    assert_eq!(embedded_names(body), vec!["a.webp", "b.webp"]);
}

#[test]
fn ignores_unterminated_or_absent_embeds() {
    assert!(embedded_names("no images here").is_empty());
    assert!(embedded_names("![[never closed").is_empty());
}

#[test]
fn two_embeds_on_one_line_are_kept_as_text() {
    assert_eq!(without_embed_lines("![[a.webp]] ![[b.webp]]"), "![[a.webp]] ![[b.webp]]");
    assert_eq!(safe_link("a.md.md"), Some("a"));
    assert_eq!(safe_link("..hidden"), None);
}

#[test]
fn escapes_everything_but_unreserved_bytes() {
    assert_eq!(urlencode("2026-09-04-ab12.webp"), "2026-09-04-ab12.webp");
    assert_eq!(urlencode("[\"a b\"]"), "%5B%22a%20b%22%5D");
    assert_eq!(urlencode("ż"), "%C5%BC");
}

#[test]
fn images_are_inlined_as_base64() {
    assert_eq!(data_url(b"abc"), "data:image/webp;base64,YWJj");
    let p = Pasted::new("x.webp".to_string(), None);
    assert_eq!(p.thumb, None);
    let p = Pasted::new("x.webp".to_string(), Some(b"abc".as_slice()));
    assert_eq!(p.thumb.as_deref(), Some("data:image/webp;base64,YWJj"));
}

#[test]
fn rows_are_labelled_in_the_zone_they_were_written_in() {
    // 2026-09-04T16:18:42+02:00, a Friday in ISO week 36.
    let when = Stamp { secs: 1788531522, nanos: 0, offset: 7200 };
    let r = Ref { path: "/v/notes/x.md".into(), name: "x".into(), title: "X".into(), created: when };
    let row = TimelineItem::from_ref(&r);
    assert_eq!(row.at, "16:18");
    assert_eq!(row.day, "Friday 4 September 2026");
    assert_eq!(row.week, "Week 36 · 2026");
    assert_eq!(row.month, "September 2026");
    let v = RefView::from_ref(&r);
    assert_eq!(v.when, "2026-09-04");
    let hit = photomem::index::Hit {
        path: "/v/notes/x.md".into(),
        title: "X".into(),
        created: when,
        snippet: "s".into(),
    };
    let h = HitView::from_hit(&hit);
    assert_eq!(h.name, "x");
    assert_eq!(h.when, "2026-09-04 16:18");
    let shot = photomem::index::Shot {
        name: "a.webp".into(),
        note: "/v/notes/x.md".into(),
        note_name: "x".into(),
        title: "X".into(),
        created: when,
    };
    let w = WallItem::from_shot(&shot, b"abc");
    assert_eq!(w.when, "2026-09-04");
    assert_eq!(w.thumb, "data:image/webp;base64,YWJj");
}

#[test]
fn a_note_view_shows_the_body_without_its_title_or_lone_embeds() {
    let n = Note::new("Title\n\nprose\n![[a.webp]]\nmore").unwrap();
    let banner = reference("fix");
    let refs = vec![reference("fix"), reference("other")];
    let v = note_view("2026-title".to_string(), &n, Vec::new(), Some(banner), &refs);
    assert_eq!(v.title, "Title");
    assert_eq!(v.body, "prose\nmore");
    assert_eq!(v.superseded_by.unwrap().name, "fix");
    assert_eq!(v.backlinks.len(), 1);
    assert_eq!(v.backlinks[0].name, "other");
}

#[test]
fn recognises_modes() {
    assert_eq!(mode(&["photomem"]), "window");
    assert_eq!(mode(&["photomem", "daemon"]), "daemon");
    assert_eq!(mode(&["photomem", "capture"]), "window");
}

#[test]
fn ignores_leading_flags() {
    assert_eq!(mode(&["photomem", "--verbose", "daemon"]), "daemon");
}

#[test]
fn help_and_version_never_open_a_window() {
    for spelling in ["-h", "--help", "help"] {
        assert_eq!(mode(&["photomem", spelling]), "help", "{spelling}");
    }
    for spelling in ["-V", "--version", "version"] {
        assert_eq!(mode(&["photomem", spelling]), "version", "{spelling}");
    }
    assert_eq!(mode(&["photomem", "daemon", "--help"]), "help");
}

#[test]
fn usage_names_every_mode() {
    for word in ["capture", "daemon", "--help", "--version"] {
        assert!(USAGE.contains(word), "usage does not mention {word}");
    }
}

#[test]
fn a_failure_is_marked_and_a_success_is_not() {
    assert_eq!(status_line("synced", false, "14:23"), "synced · 14:23");
    assert_eq!(
        status_line("sync failed: no route to host", true, "14:23"),
        "⚠ sync failed: no route to host · 14:23"
    );
}

#[test]
fn there_is_nothing_to_show_until_something_has_synced() {
    let mut cell = TrayStatus::new();
    assert_eq!(cell.status(), None);

    cell.set("synced", false, "09:15");
    assert_eq!(cell.status().as_deref(), Some("synced · 09:15"));
    cell.clear();
    assert_eq!(cell.status(), None);
}

#[test]
fn the_image_window_opens_at_a_picture() {
    let names = vec!["a.webp".to_string(), "b c.webp".to_string()];
    assert_eq!(
        photomem::view::image_page(&names, 1).unwrap(),
        "image.html?i=1&n=%5B%22a.webp%22%2C%22b%20c.webp%22%5D"
    );
    assert_eq!(photomem::view::image_page(&Vec::new(), 0).unwrap_err(), "no images to show");
}

#[test]
fn the_tray_menu_shows_the_status_only_once_there_is_one() {
    assert_eq!(tray_menu(None), [MenuEntry::Capture, MenuEntry::Separator, MenuEntry::Quit]);
    assert_eq!(
        tray_menu(Some("synced · 09:15".to_string())),
        [
            MenuEntry::Status("synced · 09:15".to_string()),
            MenuEntry::Separator,
            MenuEntry::Capture,
            MenuEntry::Separator,
            MenuEntry::Quit
        ]
    );
    assert_eq!(tooltip(None), "photomem — new note");
    assert_eq!(tooltip(Some("x".to_string())), "x");
}

#[test]
fn the_tray_icon_is_reordered_to_argb() {
    assert_eq!(argb_of(&[1, 2, 3, 4, 5, 6, 7, 8, 9]), [4, 1, 2, 3, 8, 5, 6, 7]);
    assert!(argb_of(&[]).is_empty());
}
