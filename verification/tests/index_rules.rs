use photomem::index::{backlink_picks, superseding_pick, wall_picks, Ref, Shot};
use photomem::note::Note;
use photomem::stamp::now;

/// A note at a known name, as the index would have read it from
/// `<name>.md`.
fn note(name: &str, created: &str, body: &str) -> (String, Note) {
    let doc = format!("---\ncreated: \"{created}\"\n---\n{body}\n");
    (name.to_string(), Note::parse(&doc, now()).unwrap())
}

fn reference(name: &str, n: &Note) -> Ref {
    Ref { path: format!("/v/notes/{name}.md"), name: name.to_string(), title: n.title().to_string(), created: n.created }
}

/// The rows the database hands over: every embed, newest note first, then
/// in the order pasted.
fn embed_rows(notes: &[(String, Note)]) -> Vec<Shot> {
    let mut rows: Vec<(i64, usize, Shot)> = Vec::new();
    for (name, n) in notes {
        for (i, e) in n.embeds().into_iter().enumerate() {
            rows.push((
                n.created.secs,
                i,
                Shot {
                    name: e,
                    note: format!("/v/notes/{name}.md"),
                    note_name: name.clone(),
                    title: n.title().to_string(),
                    created: n.created,
                },
            ));
        }
    }
    rows.sort_by(|a, b| b.0.cmp(&a.0).then(a.1.cmp(&b.1)));
    rows.into_iter().map(|r| r.2).collect()
}

/// The rows the database hands over for `target`: one per link of each
/// kind, newest note first.
fn link_rows(notes: &[(String, Note)], target: &str, only_supersedes: bool) -> Vec<Ref> {
    let mut rows: Vec<(i64, Ref)> = Vec::new();
    for (name, n) in notes {
        if !only_supersedes && n.links().iter().any(|l| l == target) {
            rows.push((n.created.secs, reference(name, n)));
        }
        if n.supersedes().iter().any(|l| l == target) {
            rows.push((n.created.secs, reference(name, n)));
        }
    }
    rows.sort_by(|a, b| b.0.cmp(&a.0));
    rows.into_iter().map(|r| r.1).collect()
}

fn wall(notes: &[(String, Note)]) -> Vec<Shot> {
    let rows = embed_rows(notes);
    let names: Vec<String> = rows.iter().map(|s| s.name.clone()).collect();
    wall_picks(&names, 50).into_iter().map(|i| rows[i].clone()).collect()
}

fn backlinks(notes: &[(String, Note)], target: &str) -> Vec<String> {
    let rows = link_rows(notes, target, false);
    let paths: Vec<String> = rows.iter().map(|r| r.path.clone()).collect();
    let names: Vec<String> = rows.iter().map(|r| r.name.clone()).collect();
    backlink_picks(&paths, &names, target).into_iter().map(|i| rows[i].name.clone()).collect()
}

fn superseded_by(notes: &[(String, Note)], target: &str) -> Option<Ref> {
    let rows = link_rows(notes, target, true);
    let names: Vec<String> = rows.iter().map(|r| r.name.clone()).collect();
    superseding_pick(&names, target).map(|i| rows[i].clone())
}

fn shot_names(shots: Vec<Shot>) -> Vec<String> {
    shots.into_iter().map(|s| s.name).collect()
}

#[test]
fn the_wall_lists_every_picture_newest_note_first() {
    let notes = [
        note("older", "2026-01-05T10:00:00+01:00", "Older\n![[a.webp]]"),
        note("newer", "2026-03-05T10:00:00+01:00", "Newer\n![[b.webp]]\n![[c.webp]]"),
    ];
    assert_eq!(shot_names(wall(&notes)), ["b.webp", "c.webp", "a.webp"]);
}

#[test]
fn a_wall_entry_names_the_note_it_came_from() {
    let notes = [note("with-a-picture", "2026-01-05T10:00:00+01:00", "With a picture\n![[shot.webp]]")];
    let shots = wall(&notes);
    assert_eq!(shots[0].name, "shot.webp");
    assert_eq!(shots[0].note_name, "with-a-picture");
    assert_eq!(shots[0].title, "With a picture");
}

#[test]
fn a_picture_reused_in_two_notes_appears_once() {
    let notes = [
        note("first-time", "2026-01-05T10:00:00+01:00", "First time\n![[shot.webp]]"),
        note("again-later", "2026-06-05T10:00:00+01:00", "Again later\n![[shot.webp]]"),
    ];
    let shots = wall(&notes);
    assert_eq!(shot_names(shots.clone()), ["shot.webp"]);
    assert_eq!(shots[0].note_name, "again-later");
}

#[test]
fn a_note_without_pictures_puts_nothing_on_the_wall() {
    let notes = [note("prose-only", "2026-01-05T10:00:00+01:00", "Prose only\nSee [[somewhere]].")];
    assert!(wall(&notes).is_empty(), "a [[link]] is not a picture");
}

#[test]
fn the_wall_stops_at_its_limit() {
    let names: Vec<String> = ["a", "b", "a", "c"].iter().map(|s| s.to_string()).collect();
    assert_eq!(wall_picks(&names, 2), [0, 1]);
    assert_eq!(wall_picks(&names, 10), [0, 1, 3]);
}

#[test]
fn backlinks_are_the_links_table_read_backwards() {
    let notes = [
        note("kafka-rebalance", "2026-01-05T10:00:00+01:00", "Kafka rebalance\nthe original"),
        note("flink-timeouts", "2026-02-05T10:00:00+01:00", "Flink timeouts\nSame shape as [[kafka-rebalance]]."),
        note("poll-tuning", "2026-03-05T10:00:00+01:00", "Poll tuning\nFollows [[kafka-rebalance]]."),
    ];
    assert_eq!(backlinks(&notes, "kafka-rebalance"), ["poll-tuning", "flink-timeouts"]);
    assert!(backlinks(&notes, "poll-tuning").is_empty(), "links are not symmetric");
}

#[test]
fn an_embedded_image_is_not_a_backlink() {
    let notes = [note("with-a-picture", "2026-01-05T10:00:00+01:00", "With a picture\n![[2026-01-05-abc123.webp]]")];
    assert!(backlinks(&notes, "2026-01-05-abc123.webp").is_empty());
}

#[test]
fn a_note_that_links_to_itself_is_not_its_own_backlink() {
    let notes = [note("recursive", "2026-01-01T10:00:00+01:00", "Recursive\nSee [[recursive]].")];
    assert!(backlinks(&notes, "recursive").is_empty());
}

#[test]
fn a_supersession_is_found_from_the_note_it_corrects() {
    let notes = [
        note("poll-tuning", "2026-03-11T09:02:00+01:00", "Kafka poll tuning\nBumped max.poll.records."),
        note("rebalance-storm", "2026-09-04T16:52:00+02:00", "Kafka rebalance storm\nsupersedes: [[poll-tuning]]"),
    ];
    let by = superseded_by(&notes, "poll-tuning").expect("the correcting note");
    assert_eq!(by.name, "rebalance-storm");
    assert_eq!(by.title, "Kafka rebalance storm");
    assert!(superseded_by(&notes, "rebalance-storm").is_none());
}

#[test]
fn the_frontmatter_form_of_supersedes_counts_too() {
    let original = note("original", "2026-01-01T10:00:00+01:00", "Original\ntext");
    let doc = "---\ncreated: \"2026-02-01T10:00:00+01:00\"\nsupersedes: \"[[original]]\"\n---\nCorrection\n";
    let correction = ("correction".to_string(), Note::parse(doc, now()).unwrap());
    let notes = [original, correction];
    assert_eq!(superseded_by(&notes, "original").unwrap().name, "correction");
}

#[test]
fn the_newest_correction_is_the_one_the_banner_names() {
    let notes = [
        note("original", "2026-01-01T10:00:00+01:00", "Original\nwhat I believed"),
        note("first-fix", "2026-02-01T10:00:00+01:00", "First fix\nsupersedes: [[original]]"),
        note("second-fix", "2026-03-01T10:00:00+01:00", "Second fix\nsupersedes: [[original]]"),
    ];
    assert_eq!(superseded_by(&notes, "original").unwrap().name, "second-fix");
    assert!(backlinks(&notes, "original").contains(&"first-fix".to_string()));
}

#[test]
fn an_ordinary_mention_is_not_a_supersession() {
    let notes = [
        note("original", "2026-01-01T10:00:00+01:00", "Original\ntext"),
        note("mentions", "2026-02-01T10:00:00+01:00", "Mentions\nSee [[original]]."),
    ];
    assert!(superseded_by(&notes, "original").is_none());
    assert_eq!(backlinks(&notes, "original"), ["mentions"]);
}
