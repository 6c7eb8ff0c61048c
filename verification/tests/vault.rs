use photomem::config::{expand_tilde, image_edges, toml_list, OcrConfig, SyncConfig, DEFAULT_HOTKEY};
use photomem::images::{
    check_rgba, dimensions, encoded_source, fit, hash_of, hex, thumbnail_pixels, HASH_LEN, MAX_EDGE, THUMB_EDGE,
};
use photomem::index::{classify, clean_snippet, is_note_path, link_name, missing, FileChange, SyncStats};
use photomem::ocr::{bcp47, join_languages, languages_or_default, normalize, recognition_input, recognized};
use photomem::store::{
    attachment_for, attachment_name, existing_attachment, is_attachment_for, join_path, keeps_draft, safe_name, Vault,
};

fn strings(v: &[&str]) -> Vec<String> {
    v.iter().map(|s| s.to_string()).collect()
}

/// A gradient rather than a flat fill, so that neighbouring pixels differ.
fn gradient(w: u32, h: u32) -> Vec<u8> {
    let mut px = Vec::with_capacity((w * h * 4) as usize);
    for y in 0..h {
        for x in 0..w {
            px.extend_from_slice(&[(x % 256) as u8, (y % 256) as u8, ((x + y) % 256) as u8, 255]);
        }
    }
    px
}

#[test]
fn the_vault_layout_hangs_off_its_root() {
    let v = Vault::new("/home/me/photomem");
    assert_eq!(v.root(), "/home/me/photomem");
    assert_eq!(v.notes_dir(), "/home/me/photomem/notes");
    assert_eq!(v.state_dir(), "/home/me/photomem/.photomem");
    assert_eq!(v.attachments_dir(), "/home/me/photomem/attachments");
    assert_eq!(v.thumbs_dir(), "/home/me/photomem/.photomem/thumbs");
    assert_eq!(v.draft_path(), "/home/me/photomem/.photomem/draft.md");
    assert_eq!(join_path("/root/", "x"), "/root/x");
    assert_eq!(join_path("", "x"), "x");
}

#[test]
fn colliding_names_are_numbered() {
    let v = Vault::new("/v");
    assert_eq!(v.free_path("2026-09-04-1618-same-title.md", 1), "/v/notes/2026-09-04-1618-same-title.md");
    assert_eq!(v.free_path("2026-09-04-1618-same-title.md", 2), "/v/notes/2026-09-04-1618-same-title-2.md");
    assert_eq!(v.free_path("odd", 3), "/v/notes/odd-3.md");
}

#[test]
fn reads_refuse_to_escape_the_vault() {
    for bad in ["../../etc/passwd", "/etc/passwd", "sub/dir.webp", ""] {
        assert!(safe_name(bad).is_none(), "{bad:?} was allowed");
    }
}

#[test]
fn a_bare_filename_is_let_through() {
    assert!(safe_name("a\\b").is_none());
    assert!(safe_name("x..y").is_none());
    assert_eq!(safe_name("nope.webp"), Some("nope.webp"));
}

#[test]
fn drafts_that_are_only_whitespace_are_not_kept() {
    assert!(keeps_draft("half a thought"));
    assert!(!keeps_draft("  \n "));
}

#[test]
fn an_attachment_is_found_again_by_its_hash() {
    let name = attachment_name("2026-09-04", "e382057b79ca");
    assert_eq!(name, "2026-09-04-e382057b79ca.webp");
    assert!(is_attachment_for(&name, "e382057b79ca"));
    assert!(is_attachment_for("2026-11-20-e382057b79ca.webp", "e382057b79ca"));
    assert!(!is_attachment_for("2026-11-20-e382057b79cb.webp", "e382057b79ca"));
}

#[test]
fn the_same_image_always_hashes_the_same_and_differs_from_others() {
    let px = gradient(64, 64);
    let a = hash_of(64, 64, &px);
    let b = hash_of(64, 64, &gradient(64, 64));
    let c = hash_of(65, 64, &gradient(65, 64));
    assert_eq!(a, b);
    assert_ne!(a, c);
    assert_eq!(a.len(), HASH_LEN);
    assert!(a.chars().all(|c| c.is_ascii_hexdigit()));
    // Dimensions are hashed too: the same buffer under other dimensions differs.
    assert_ne!(hash_of(32, 128, &px), a);
}

#[test]
fn downscales_to_the_long_edge_keeping_aspect() {
    let (w, h) = (3840, 2160);
    let (fw, fh, px) = fit(w, h, &gradient(w, h), MAX_EDGE);
    assert_eq!(fw, MAX_EDGE);
    assert_eq!(fh, 900); // 2160 * 1600/3840
    assert_eq!(px.len(), (fw * fh * 4) as usize);
}

#[test]
fn never_upscales_a_small_image() {
    let px = gradient(64, 48);
    let (w, h, out) = fit(64, 48, &px, MAX_EDGE);
    assert_eq!((w, h), (64, 48));
    assert_eq!(out, px);
}

#[test]
fn a_tall_image_is_scaled_by_its_height() {
    let (w, h) = (500, 1000);
    let (fw, fh, px) = fit(w, h, &gradient(w, h), THUMB_EDGE);
    assert_eq!((fw, fh), (160, THUMB_EDGE));
    assert_eq!(px.len(), (fw * fh * 4) as usize);
    // A picture exactly at the edge is already small enough.
    let (ew, eh, _) = fit(THUMB_EDGE, 10, &gradient(THUMB_EDGE, 10), THUMB_EDGE);
    assert_eq!((ew, eh), (THUMB_EDGE, 10));
}

fn png_of(w: u32, h: u32, px: &[u8]) -> Vec<u8> {
    let mut png = std::io::Cursor::new(Vec::new());
    image::RgbaImage::from_raw(w, h, px.to_vec())
        .unwrap()
        .write_to(&mut png, image::ImageFormat::Png)
        .unwrap();
    png.into_inner()
}

#[test]
fn encoded_and_raw_paths_hash_alike() {
    let px = gradient(120, 90);
    let (w, h, pixels, hash) = encoded_source(&png_of(120, 90, &px)).unwrap();
    assert_eq!((w, h), (120, 90));
    assert_eq!(pixels, px);
    assert_eq!(hash, hash_of(120, 90, &px));
    assert!(encoded_source(b"not an image").is_none());
}

#[test]
fn reads_back_webp_dimensions() {
    let px = gradient(240, 120);
    let webp = webp::Encoder::from_rgba(&px, 240, 120).encode(75.0).to_vec();
    assert_eq!(dimensions(&webp), Some((240, 120)));
    assert_eq!(dimensions(b"not a webp"), None);
}

#[test]
fn a_thumbnail_is_fitted_from_the_stored_image() {
    let (w, h, px) = thumbnail_pixels(&png_of(640, 480, &gradient(640, 480)), THUMB_EDGE).unwrap();
    assert_eq!((w, h), (THUMB_EDGE, 240));
    assert_eq!(px.len(), (w * h * 4) as usize);
    assert!(thumbnail_pixels(b"junk", THUMB_EDGE).is_none());
}

#[test]
fn recognisers_are_handed_png() {
    let px = gradient(30, 20);
    let (png, langs) = recognition_input(&png_of(30, 20, &px), &[]).unwrap();
    assert_eq!(langs, ["eng"]);
    assert_eq!(&png[..8], b"\x89PNG\r\n\x1a\n");
    assert_eq!(image::load_from_memory(&png).unwrap().to_rgba8().into_raw(), px);
    assert!(recognition_input(b"junk", &strings(&["pol"])).is_none());
}

#[test]
fn hex_writes_the_first_bytes_in_lower_case() {
    assert_eq!(hex(&[0x00, 0x0f, 0xab, 0x10, 0xff, 0x7e, 0x99]), "000fab10ff7e");
}

#[test]
fn rejects_a_buffer_that_does_not_match_its_dimensions() {
    let err = check_rgba(100, 100, 16).unwrap_err();
    assert!(err.contains("expected"), "{err}");
    assert_eq!(err, "clipboard image is 16 bytes, expected 40000 for 100x100");
    assert!(check_rgba(100, 100, 40000).is_ok());
}

#[test]
fn collapses_the_layout_a_recogniser_emits() {
    assert_eq!(normalize("Kafka\n\n  rebalance   storm \n"), "Kafka rebalance storm");
    assert_eq!(normalize("   \n\n "), "");
}

#[test]
fn an_empty_language_list_falls_back_to_the_default() {
    assert_eq!(languages_or_default(&[]), ["eng"]);
    assert_eq!(languages_or_default(&strings(&["pol"])), ["pol"]);
}

#[test]
fn records_the_languages_it_was_asked_for() {
    let got = recognized("  text\n", &strings(&["eng", "pol"]));
    assert_eq!(got.languages, "eng+pol");
    assert_eq!(got.text, "text");
    assert_eq!(join_languages(&[]), "");
    assert_eq!(bcp47("pol"), "pl-PL");
    assert_eq!(bcp47("xyz"), "xyz");
}

#[test]
fn config_defaults() {
    assert!(SyncConfig::default().enabled);
    assert_eq!(OcrConfig::default().languages, ["eng"]);
    assert_eq!(DEFAULT_HOTKEY, "Ctrl+Alt+N");
    assert_eq!(toml_list(&strings(&["eng", "pol"])), "[\"eng\", \"pol\"]");
    assert_eq!(toml_list(&[]), "[]");
}

#[test]
fn expands_tilde_in_vault() {
    assert_eq!(expand_tilde("~/notes", "/home/me"), "/home/me/notes");
    assert_eq!(expand_tilde("/abs/notes", "/home/me"), "/abs/notes");
    assert_eq!(expand_tilde("~other/notes", "/home/me"), "~other/notes");
}

#[test]
fn sync_counts_additions_edits_and_deletions() {
    let mut stats = SyncStats::default();
    assert!(!stats.changed());
    assert_eq!(classify(Some((10, 20)), 10, 20), FileChange::Unchanged);
    assert_eq!(classify(Some((10, 20)), 11, 20), FileChange::Updated);
    assert_eq!(classify(None, 11, 20), FileChange::Added);
    stats.count(FileChange::Added);
    stats.count(FileChange::Updated);
    stats.count(FileChange::Unchanged);
    assert_eq!((stats.added, stats.updated, stats.removed), (1, 1, 0));
    assert!(stats.changed());
    stats.uncount_unreadable();
    stats.uncount_unreadable();
    assert_eq!(stats.added, 0);
    let gone = missing(&strings(&["a", "b", "c"]), &strings(&["c", "a"]));
    assert_eq!(gone, ["b"]);
}

#[test]
fn only_markdown_files_are_notes() {
    assert!(is_note_path("/v/notes/x.md"));
    assert!(!is_note_path("/v/notes/notes.txt"));
    assert!(!is_note_path("/v/notes/md"));
    assert_eq!(link_name("/v/notes/2026-09-04-1618-kafka.md"), "2026-09-04-1618-kafka");
    assert_eq!(clean_snippet("  a\nb \n"), "a b");
}

#[test]
fn the_hash_is_sha256_of_dimensions_and_pixels() {
    assert_eq!(hash_of(1, 1, &[1, 2, 3, 4]), "47be0ce84d23");
}

#[test]
fn a_sync_run_remembers_what_it_saw() {
    let mut run = photomem::index::SyncRun::new();
    assert_eq!(run.visit("/n/a.md".into(), None, 1, 2), FileChange::Added);
    assert_eq!(run.visit("/n/b.md".into(), Some((1, 2)), 1, 2), FileChange::Unchanged);
    assert_eq!(run.visit("/n/empty.md".into(), None, 1, 2), FileChange::Added);
    run.unreadable();
    assert_eq!(run.seen, ["/n/a.md", "/n/b.md"]);
    let (stats, gone) = run.finish(&strings(&["/n/a.md", "/n/b.md", "/n/deleted.md"]));
    assert_eq!(gone, ["/n/deleted.md"]);
    assert_eq!((stats.added, stats.updated, stats.removed), (1, 0, 1));
}

#[test]
fn the_template_fills_in_every_setting() {
    let text = photomem::config::template_text(
        "/home/me/photomem",
        "Ctrl+Alt+N",
        true,
        1600,
        320,
        "75",
        &strings(&["eng", "pol"]),
    );
    assert!(text.contains("vault = \"/home/me/photomem\""));
    assert!(text.contains("enabled = true"));
    assert!(text.contains("max_edge = 1600\nthumb_edge = 320\nquality = 75\n"));
    assert!(text.contains("languages = [\"eng\", \"pol\"]"));
    assert!(!text.contains('{'));
    let parsed: toml::Value = toml::from_str(&text).unwrap();
    assert_eq!(parsed["image"]["max_edge"].as_integer(), Some(1600));
    assert_eq!(photomem::config::replace("a-b-c", "-", "+-"), "a+-b+-c");
}

#[test]
fn a_repasted_image_reuses_its_stored_name() {
    let hash = "a1b2c3d4e5f6";
    let mut names = strings(&["2026-01-01-ffffffffffff.webp", "notes.txt"]);
    let first = attachment_for(&names, "2026-09-04", hash);
    assert_eq!(first, "2026-09-04-a1b2c3d4e5f6.webp");
    names.push(first.clone());
    assert_eq!(attachment_for(&names, "2026-11-20", hash), first);
    assert_eq!(existing_attachment(&names, hash), Some(first));
    assert_eq!(existing_attachment(&names, "000000000000"), None);
}

#[test]
fn image_edges_are_raised_to_a_usable_size() {
    assert_eq!(image_edges(1920, 320), (1920, 320));
    assert_eq!(image_edges(10, 5), (64, 32));
    assert_eq!(image_edges(64, 32), (64, 32));
}
