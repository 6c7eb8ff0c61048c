use photomem::frontmatter::Frontmatter;
use photomem::links::{links, supersedes};
use photomem::slug::{slugify, MAX_LEN};
use photomem::tags::tags;

fn pairs(v: &[(&str, &str)]) -> Vec<(String, String)> {
    v.iter().map(|(k, x)| (k.to_string(), x.to_string())).collect()
}

#[test]
fn round_trips() {
    let mut fm = Frontmatter::new();
    fm.set("id", "01JBQX");
    fm.set("created", "2026-09-04T16:18:42+02:00");
    fm.set("supersedes", "[[2026-03-11-0902-kafka]]");

    let doc = format!("{}body text\n", fm.render());
    let (parsed, body) = Frontmatter::split(&doc);

    assert_eq!(parsed, fm);
    assert_eq!(body, "body text\n");
    assert_eq!(parsed.get("supersedes"), Some("[[2026-03-11-0902-kafka]]"));
}

#[test]
fn preserves_unknown_keys_and_order() {
    let doc = "---\nid: \"x\"\nfuture_field: \"y\"\n---\nhi\n";
    let (fm, _) = Frontmatter::split(doc);
    assert_eq!(fm.iter(), pairs(&[("id", "x"), ("future_field", "y")]));
}

#[test]
fn escapes_quotes_and_backslashes() {
    let mut fm = Frontmatter::new();
    fm.set("title", r#"a "quoted" \ thing"#);
    let (parsed, _) = Frontmatter::split(&fm.render());
    assert_eq!(parsed.get("title"), Some(r#"a "quoted" \ thing"#));
}

#[test]
fn document_without_frontmatter_is_all_body() {
    let (fm, body) = Frontmatter::split("just a note\n");
    assert_eq!(fm, Frontmatter::new());
    assert_eq!(body, "just a note\n");
}

#[test]
fn unterminated_frontmatter_is_all_body() {
    let doc = "---\nid: \"x\"\nnever closed\n";
    let (fm, body) = Frontmatter::split(doc);
    assert_eq!(fm, Frontmatter::new());
    assert_eq!(body, doc);
}

#[test]
fn tolerates_unquoted_values_and_comments() {
    let (fm, _) = Frontmatter::split("---\nid: plain\nlang: eng # a comment\n---\n");
    assert_eq!(fm.get("id"), Some("plain"));
    assert_eq!(fm.get("lang"), Some("eng"));
}

#[test]
fn setting_a_present_key_keeps_its_place() {
    let mut fm = Frontmatter::new();
    fm.set("a", "1");
    fm.set("b", "2");
    fm.set("a", "3");
    assert_eq!(fm.iter(), pairs(&[("a", "3"), ("b", "2")]));
}

#[test]
fn split_reads_back_what_render_wrote() {
    let mut fm = Frontmatter::new();
    fm.set("key", "value with \"quotes\" and \\ slashes");
    fm.set("other", "");
    let doc = format!("{}rest of it\nmore\n", fm.render());
    let (parsed, body) = Frontmatter::split(&doc);
    assert_eq!(parsed, fm);
    assert_eq!(body, "rest of it\nmore\n");
}

#[test]
fn finds_links_in_order_without_duplicates() {
    let body = "Title\n\nSee [[a-note]] and [[b-note]].\nAgain [[a-note]].";
    assert_eq!(links(body), vec!["a-note", "b-note"]);
}

#[test]
fn an_embed_is_an_attachment_not_a_link() {
    assert!(links("![[2026-09-04-e382057b79ca.webp]]").is_empty());
    assert_eq!(links("![[shot.webp]] but see [[a-note]]"), vec!["a-note"]);
}

#[test]
fn supersedes_is_a_separate_kind() {
    let body = "New finding\nsupersedes: [[old-note]]\nRelated to [[other]].";
    assert_eq!(supersedes(body), vec!["old-note"]);
    assert_eq!(links(body), vec!["other"]);
}

#[test]
fn a_note_with_no_references_has_none() {
    assert!(links("Just a title\n\nsome prose").is_empty());
    assert!(supersedes("Just a title").is_empty());
}

#[test]
fn accepts_the_dot_md_form_our_own_copy_link_produces() {
    assert_eq!(links("see [[a-note.md]]"), vec!["a-note"]);
}

#[test]
fn ignores_malformed_references() {
    assert!(links("[[never closed").is_empty());
    assert!(links("[[]]").is_empty());
    assert!(links("[[ ]]").is_empty());
}

#[test]
fn links_in_the_title_line_count() {
    assert_eq!(links("Follow-up to [[a-note]]\n\nbody"), vec!["a-note"]);
}

#[test]
fn basic() {
    assert_eq!(slugify("Kafka consumer rebalance storm"), "kafka-consumer-rebalance-storm");
}

#[test]
fn collapses_and_trims_punctuation() {
    assert_eq!(slugify("  Hello --- World!! "), "hello-world");
    assert_eq!(slugify("a/b:c"), "a-b-c");
}

#[test]
fn slug_keeps_unicode_letters() {
    assert_eq!(slugify("Zażółć gęślą jaźń"), "zażółć-gęślą-jaźń");
}

#[test]
fn empty_title_is_untitled() {
    assert_eq!(slugify("   ...   "), "untitled");
    assert_eq!(slugify(""), "untitled");
}

#[test]
fn truncates_at_word_boundary() {
    let s = slugify(&"word ".repeat(40));
    assert!(s.len() <= MAX_LEN, "{s}");
    assert!(!s.ends_with('-'), "{s}");
}

#[test]
fn finds_tags_in_order_without_duplicates() {
    let body = "Kafka rebalance #kafka\n\nSee also #ops and #kafka again.";
    assert_eq!(tags(body), vec!["kafka", "ops"]);
}

#[test]
fn tags_are_case_insensitive() {
    assert_eq!(tags("#Kafka and #kafka and #KAFKA"), vec!["kafka"]);
}

#[test]
fn a_url_fragment_is_not_a_tag() {
    assert!(tags("https://example.com/page#section").is_empty());
    assert!(tags("see http://host/a#b and http://host/c#d").is_empty());
}

#[test]
fn a_markdown_heading_is_not_a_tag() {
    assert!(tags("# Heading\n\nbody").is_empty());
    assert!(tags("## Also a heading").is_empty());
}

#[test]
fn tags_a_number_is_not_a_tag() {
    assert!(tags("fixes #1234 from #2026").is_empty());
    assert_eq!(tags("#v2 release"), vec!["v2"], "but a letter first is fine");
}

#[test]
fn punctuation_after_a_tag_belongs_to_the_sentence() {
    assert_eq!(tags("about #kafka."), vec!["kafka"]);
    assert_eq!(tags("(#ops)"), vec![] as Vec<String>, "a tag must start a word");
    assert_eq!(tags("#kafka, #ops;"), vec!["kafka", "ops"]);
    assert_eq!(tags("#work- and #work_"), vec!["work"]);
}

#[test]
fn tags_can_be_nested_with_a_slash() {
    assert_eq!(tags("#work/kafka and #work/flink"), vec!["work/kafka", "work/flink"]);
}

#[test]
fn accented_tags_are_kept_whole() {
    assert_eq!(tags("#zażółć and #łódź"), vec!["zażółć", "łódź"]);
}

#[test]
fn a_bare_hash_is_nothing() {
    assert!(tags("#").is_empty());
    assert!(tags("# ").is_empty());
    assert!(tags("nothing here at all").is_empty());
}

#[test]
fn a_supersedes_line_adds_a_supersession_and_no_link() {
    let body = "Title [[a]]\nsupersedes: [[old]]\r";
    let more = format!("{body}\nsupersedes: [[newer]] and [[a]]");
    assert_eq!(links(&more), links(body));
    assert_eq!(supersedes(&more), ["old", "newer", "a"]);
    let again = format!("{body}\nsupersedes: [[old]]");
    assert_eq!(supersedes(&again), supersedes(body));
}

#[test]
fn a_slug_has_dashes_only_between_words() {
    assert_eq!(slugify("--Hello,   World!--"), "hello-world");
    assert_eq!(slugify("!!!"), "untitled");
    let long = "word ".repeat(30);
    let s = slugify(&long);
    assert!(s.chars().count() <= 60 && !s.ends_with('-') && !s.contains("--"));
}
