use photomem::note::{Note, ParseError};
use photomem::stamp::{now, parse_time, Stamp};

fn at(s: &str) -> Stamp {
    parse_time(s).unwrap()
}

#[test]
fn title_is_first_non_empty_line() {
    let n = Note::new("\n\n  Kafka rebalance  \n\nbody\n").unwrap();
    assert_eq!(n.title(), "Kafka rebalance");
}

#[test]
fn content_drops_the_title_line() {
    let n = Note::new("Kafka rebalance\n\nConsumers were evicted.\nTwice.").unwrap();
    assert_eq!(n.content(), "Consumers were evicted.\nTwice.");
}

#[test]
fn a_title_only_note_has_no_content() {
    assert_eq!(Note::new("Just a title").unwrap().content(), "");
}

#[test]
fn empty_body_is_rejected() {
    assert_eq!(Note::new("   \n\n  ").unwrap_err(), ParseError::Empty);
}

#[test]
fn filename_combines_timestamp_and_slug() {
    let mut n = Note::new("Kafka rebalance storm").unwrap();
    // 2026-09-04T16:18:42+02:00, kept in the zone it was written in.
    n.created = Stamp { secs: 1788531522, nanos: 0, offset: 7200 };
    assert_eq!(n.filename(), "2026-09-04-1618-kafka-rebalance-storm.md");
}

#[test]
fn new_note_matches_second_precision_of_the_file_format() {
    assert_eq!(Note::new("Title").unwrap().created.nanos, 0);
}

#[test]
fn round_trips_through_render() {
    let n = Note::new("Title here\n\nSome body.\n").unwrap();
    let back = Note::parse(&n.render(), now()).unwrap();
    assert_eq!(back, n);
}

#[test]
fn preserves_unmodelled_frontmatter() {
    let doc = "---\nid: \"abc\"\ncreated: \"2026-09-04T16:18:42+02:00\"\nsupersedes: \"[[old-note]]\"\n---\nTitle\n";
    let n = Note::parse(doc, now()).unwrap();
    assert!(n.render().contains("supersedes: \"[[old-note]]\""));
}

#[test]
fn bare_markdown_file_still_parses() {
    let fallback = at("2026-01-01T00:00:00+01:00");
    let n = Note::parse("Just a note I typed in vim\n", fallback).unwrap();
    assert_eq!(n.title(), "Just a note I typed in vim");
    assert_eq!(n.created, fallback);
    assert!(n.id.is_empty());
}

#[test]
fn modified_defaults_to_created() {
    let doc = "---\ncreated: \"2026-09-04T16:18:42+02:00\"\n---\nTitle\n";
    let n = Note::parse(doc, now()).unwrap();
    assert_eq!(n.modified, n.created);
}

#[test]
fn a_new_note_has_a_ulid_and_a_normalized_body() {
    let n = Note::new("  Title  \t\nline with trailing   \n\n\n").unwrap();
    assert_eq!(n.id.chars().count(), 26);
    assert!(n.id.chars().all(|c| c.is_ascii_digit() || c.is_ascii_uppercase()));
    assert_eq!(n.body, "Title\nline with trailing");
    assert_eq!(n.created, n.modified);
}

#[test]
fn parse_reads_the_timestamps_as_instants() {
    let doc = "---\nid: \"x1\"\ncreated: \"2026-09-04T16:18:42+02:00\"\nmodified: \"2026-09-05T08:00:00Z\"\n---\nTitle\nbody\n";
    let n = Note::parse(doc, now()).unwrap();
    assert_eq!(n.id, "x1");
    assert_eq!(n.created.secs, 1788531522);
    assert_eq!(n.modified.secs, 1788595200);
}

#[test]
fn an_unreadable_timestamp_falls_back() {
    let fallback = at("2026-01-01T00:00:00+01:00");
    let doc = "---\ncreated: \"last tuesday\"\n---\nTitle\n";
    let n = Note::parse(doc, fallback).unwrap();
    assert_eq!(n.created, fallback);
    assert_eq!(n.modified, fallback);
}

#[test]
fn a_document_with_only_frontmatter_is_empty() {
    let doc = "---\nid: \"x\"\n---\n   \n";
    assert_eq!(Note::parse(doc, now()).unwrap_err(), ParseError::Empty);
    assert_eq!(ParseError::Empty.message(), "note is empty");
}

#[test]
fn render_writes_the_modelled_keys_first() {
    let doc = "---\nsupersedes: \"[[old]]\"\nid: \"abc\"\ncreated: \"2026-09-04T16:18:42+02:00\"\n---\nTitle\n";
    let n = Note::parse(doc, now()).unwrap();
    let text = n.render();
    let id_at = text.find("id: \"abc\"").unwrap();
    let sup_at = text.find("supersedes: \"[[old]]\"").unwrap();
    assert!(id_at < sup_at);
    assert!(text.ends_with("---\nTitle\n"));
}

#[test]
fn normalizing_twice_changes_nothing() {
    let once = photomem::note::normalize("  a  \r\n\n\tb\t\n\n");
    assert_eq!(once, "a\n\n\tb");
    assert_eq!(photomem::note::normalize(&once), once);
}

#[test]
fn a_note_names_what_it_links_supersedes_and_embeds() {
    let doc = "---\nsupersedes: \"[[original]]\"\n---\nTitle [[a]]\nsupersedes: [[old]]\n![[x.webp]] and [[b]] ![[x.webp]]\n";
    let n = Note::parse(doc, now()).unwrap();
    assert_eq!(n.links(), ["a", "b"]);
    assert_eq!(n.supersedes(), ["old", "original"]);
    assert_eq!(n.embeds(), ["x.webp"]);
}

#[test]
fn a_note_made_at_a_reading_keeps_its_second_and_drops_the_fraction() {
    let clock = Stamp { secs: 1_790_000_000, nanos: 123_456_789, offset: 0 };
    let n = Note::new_at("Title\n\nbody", clock).unwrap();
    assert_eq!(n.created.secs, clock.secs);
    assert_eq!(n.created.nanos, 0);
    assert_eq!(n.created, n.modified);
    assert_eq!(Note::new_at(" \n ", clock).unwrap_err(), ParseError::Empty);
}
