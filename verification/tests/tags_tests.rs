use mdlib::frontmatter::extract_frontmatter;
use mdlib::rewrite::{add_tags_to_content, remove_tags_from_content, rewrite_tags};
use mdlib::tags::extract_tags_from_content;

fn strs(v: &[&str]) -> Vec<String> {
    v.iter().map(|s| s.to_string()).collect()
}

#[test]
fn frontmatter_extracted_between_markers() {
    assert_eq!(
        extract_frontmatter("---\ntags: [a]\n---\nbody"),
        Some("tags: [a]".to_string())
    );
}

#[test]
fn frontmatter_tolerates_leading_whitespace() {
    assert_eq!(
        extract_frontmatter("  \n---\nkey: v\n---\nrest"),
        Some("key: v".to_string())
    );
}

#[test]
fn frontmatter_absent_without_opening_marker() {
    assert_eq!(extract_frontmatter("hello\n---\n---"), None);
}

#[test]
fn frontmatter_absent_without_closing_marker() {
    assert_eq!(extract_frontmatter("---\ntags: [a]\n"), None);
}

#[test]
fn tags_from_bracketed_list() {
    let tags = extract_tags_from_content("---\ntags: [one, two, three]\n---\nbody");
    assert_eq!(tags, strs(&["one", "two", "three"]));
}

#[test]
fn tags_from_whitespace_list() {
    let tags = extract_tags_from_content("---\ntags: one two\n---\nbody");
    assert_eq!(tags, strs(&["one", "two"]));
}

#[test]
fn last_tags_line_wins() {
    let tags = extract_tags_from_content("---\ntags: [old]\ntags: [new]\n---\nbody");
    assert_eq!(tags, strs(&["new"]));
}

#[test]
fn empty_bracket_items_dropped() {
    let tags = extract_tags_from_content("---\ntags: [a, , b]\n---\n");
    assert_eq!(tags, strs(&["a", "b"]));
}

#[test]
fn inline_tags_follow_front_matter_tags() {
    let tags = extract_tags_from_content("---\ntags: [one]\n---\nsome #two text #three");
    assert_eq!(tags, strs(&["one", "two", "three"]));
}

#[test]
fn inline_tags_strip_trailing_punctuation() {
    let tags = extract_tags_from_content("note #urgent, and #done.");
    assert_eq!(tags, strs(&["urgent", "done"]));
}

#[test]
fn inline_tags_deduplicated_exactly() {
    let tags = extract_tags_from_content("#a #a #A");
    assert_eq!(tags, strs(&["a", "A"]));
}

#[test]
fn lone_hash_is_no_tag() {
    let tags = extract_tags_from_content("x # y #! z");
    assert_eq!(tags, Vec::<String>::new());
}

#[test]
fn no_tags_anywhere() {
    assert_eq!(
        extract_tags_from_content("plain text"),
        Vec::<String>::new()
    );
}

#[test]
fn rewrite_then_extract_round_trips() {
    let out = rewrite_tags("hello body\n", &strs(&["one", "two"]));
    assert_eq!(extract_tags_from_content(&out), strs(&["one", "two"]));
}

#[test]
fn rewrite_prepends_block_without_front_matter() {
    let out = rewrite_tags("hello", &strs(&["a", "b"]));
    assert_eq!(out, "---\ntags: [a, b]\n---\n\nhello");
}

#[test]
fn rewrite_replaces_existing_tags_line() {
    let out = rewrite_tags("---\ntitle: x\ntags: [old]\n---\nbody", &strs(&["new"]));
    assert_eq!(out, "---\ntitle: x\ntags: [new]\n---\n\nbody");
}

#[test]
fn rewrite_is_noop_on_identical_list() {
    let content = "---\ntags: [a, b]\n---\nbody";
    assert_eq!(rewrite_tags(content, &strs(&["a", "b"])), content);
}

#[test]
fn add_tags_appends_line_when_missing() {
    let out = add_tags_to_content("---\ntitle: x\n---\nbody", &strs(&["t"]));
    assert_eq!(out, "---\ntitle: x\ntags: [t]\n---\n\nbody");
}

#[test]
fn add_tags_unions_with_existing() {
    let out = add_tags_to_content("---\ntags: [one]\n---\nhello", &strs(&["one", "two"]));
    assert_eq!(extract_tags_from_content(&out), strs(&["one", "two"]));
}

#[test]
fn add_tags_is_idempotent() {
    let content = "---\ntags: [one]\n---\nhello";
    let once = add_tags_to_content(content, &strs(&["two", "three"]));
    let twice = add_tags_to_content(&once, &strs(&["two", "three"]));
    assert_eq!(once, twice);
}

#[test]
fn add_tags_without_new_tags_changes_nothing() {
    let content = "---\ntags: [one]\n---\nhello";
    assert_eq!(add_tags_to_content(content, &strs(&["one"])), content);
    assert_eq!(add_tags_to_content(content, &strs(&[])), content);
}

#[test]
fn remove_tags_drops_listed_exact_matches() {
    let content = "---\ntags: [one, two]\n---\nhello";
    let out = remove_tags_from_content(content, &strs(&["one"]));
    assert_eq!(extract_tags_from_content(&out), strs(&["two"]));
}

#[test]
fn remove_tags_is_case_sensitive() {
    let content = "---\ntags: [One]\n---\n";
    assert_eq!(remove_tags_from_content(content, &strs(&["one"])), content);
}

#[test]
fn remove_absent_tag_changes_nothing() {
    let content = "---\ntags: [a]\n---\nbody";
    assert_eq!(remove_tags_from_content(content, &strs(&["zzz"])), content);
}
