use photomem::query::{parse, parse_date, parse_on, tag_matches, to_fts_query};
use photomem::stamp::Day;

fn day(y: i32, m: u32, d: u32) -> Day {
    Day { year: y, month: m, day: d }
}

#[test]
fn quotes_and_prefixes_each_term() {
    assert_eq!(to_fts_query("kafka reb").unwrap(), "\"kafka\"* \"reb\"*");
}

#[test]
fn nothing_to_search_for() {
    assert_eq!(to_fts_query(""), None);
    assert_eq!(to_fts_query("   "), None);
    assert_eq!(to_fts_query("-- \"\" ()"), None);
}

#[test]
fn strips_fts_operators_rather_than_failing_on_them() {
    for input in ["\"unclosed", "a AND OR", "foo:bar", "x - y", "NEAR(a b)", "*"] {
        let q = to_fts_query(input);
        assert!(q.as_deref().is_none_or(|q| !q.contains(['(', ')', ':', '-'])), "{input:?} -> {q:?}");
    }
}

#[test]
fn query_keeps_unicode_letters() {
    assert_eq!(to_fts_query("zażółć").unwrap(), "\"zażółć\"*");
}

#[test]
fn separates_tags_from_text() {
    let q = parse("#work kafka rebalance");
    assert_eq!(q.tags, ["work"]);
    assert_eq!(q.text.unwrap(), "\"kafka\"* \"rebalance\"*");
}

#[test]
fn tags_alone_leave_nothing_to_match() {
    let q = parse("#work #debugging");
    assert_eq!(q.tags, ["work", "debugging"]);
    assert_eq!(q.text, None);
}

#[test]
fn query_a_number_is_not_a_tag() {
    let q = parse("#404");
    assert!(q.tags.is_empty());
    assert_eq!(q.text.unwrap(), "\"404\"*");
}

#[test]
fn trailing_punctuation_and_case_match_how_tags_are_stored() {
    assert_eq!(parse("#Kafka/").tags, ["kafka"]);
    assert_eq!(parse("#work #WORK").tags, ["work"]);
}

#[test]
fn absolute_dates_at_three_precisions() {
    let t = day(2026, 9, 5);
    assert_eq!(parse_on("since:2026-03-11", t).since, Some(day(2026, 3, 11)));
    assert_eq!(parse_on("since:2026-03", t).since, Some(day(2026, 3, 1)));
    assert_eq!(parse_on("before:2026", t).before, Some(day(2026, 1, 1)));
}

#[test]
fn relative_dates_are_resolved_against_today() {
    let t = day(2026, 9, 5);
    assert_eq!(parse_on("since:today", t).since, Some(t));
    assert_eq!(parse_on("since:yesterday", t).since, Some(day(2026, 9, 4)));
    assert_eq!(parse_on("since:7d", t).since, Some(day(2026, 8, 29)));
    assert_eq!(parse_on("since:2w", t).since, Some(day(2026, 8, 22)));
    assert_eq!(parse_on("since:3m", t).since, Some(day(2026, 6, 5)));
}

#[test]
fn a_bound_is_a_filter_and_not_also_search_text() {
    let q = parse_on("since:2026-01 #work kafka", day(2026, 9, 5));
    assert_eq!(q.since, Some(day(2026, 1, 1)));
    assert_eq!(q.tags, ["work"]);
    assert_eq!(q.text.unwrap(), "\"kafka\"*");
}

#[test]
fn a_bound_that_makes_no_sense_is_searched_for_rather_than_dropped() {
    let q = parse_on("since:soon", day(2026, 9, 5));
    assert_eq!(q.since, None);
    assert!(q.text.is_some());
}

#[test]
fn a_month_back_from_the_end_of_a_month_lands_on_its_last_day() {
    let t = day(2026, 3, 31);
    assert_eq!(parse_date("1m", t), Some(day(2026, 2, 28)));
    assert_eq!(parse_date("0m", t), Some(t));
    assert_eq!(parse_date("yesterday", day(2026, 1, 1)), Some(day(2025, 12, 31)));
}

#[test]
fn impossible_dates_are_no_dates() {
    let t = day(2026, 9, 5);
    assert_eq!(parse_date("2026-02-30", t), None);
    assert_eq!(parse_date("2026-13", t), None);
    assert_eq!(parse_date("2026-1-2-3", t), None);
    assert_eq!(parse_date("-5d", t), None);
    assert_eq!(parse_date("+2026-+3-+4", t), Some(day(2026, 3, 4)));
}

#[test]
fn a_later_bound_replaces_an_earlier_one() {
    let q = parse_on("before:2026 before:2025-06", day(2026, 9, 5));
    assert_eq!(q.before, Some(day(2025, 6, 1)));
    assert_eq!(q.text, None);
}

#[test]
fn text_words_are_searched_in_the_order_typed() {
    let q = parse_on("foo:bar #404 x-y", day(2026, 9, 5));
    assert_eq!(q.text.unwrap(), "\"foobar\"* \"404\"* \"xy\"*");
}

#[test]
fn a_tag_filter_matches_the_tags_beneath_it() {
    assert!(tag_matches("work", "work"));
    assert!(tag_matches("work", "work/kafka"));
    assert!(!tag_matches("work", "workshop"));
    assert!(!tag_matches("work/kafka", "work"));
}

#[test]
fn filters_narrow_by_tag_and_by_a_half_open_window() {
    let q = parse_on("since:2026-06 before:2026-07 #work kafka", day(2026, 9, 4));
    let tags = vec!["work/kafka".to_string(), "debugging".to_string()];
    assert!(q.admits(&tags, day(2026, 6, 1)));
    assert!(q.admits(&tags, day(2026, 6, 30)));
    assert!(!q.admits(&tags, day(2026, 7, 1)));
    assert!(!q.admits(&tags, day(2026, 5, 31)));
    assert!(!q.admits(&vec!["workshop".to_string()], day(2026, 6, 15)));
}
