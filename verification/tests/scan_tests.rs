use mdlib::docs::{list_markdown_files, FsEntry};
use mdlib::paths::{
    create_markdown_file, extract_category_from_content, get_category_from_path,
    get_relative_path, recognize,
};
use mdlib::resolve::resolve;
use mdlib::search::search;

fn entry(rel: &str, content: &str) -> FsEntry {
    FsEntry {
        rel_path: rel.to_string(),
        size: content.len() as u64,
        modified: Some(1_700_000_000),
        content: Some(content.to_string()),
    }
}

#[test]
fn recognition_rule() {
    assert!(recognize("notes.md"));
    assert!(recognize("a.b.md"));
    assert!(recognize("README"));
    assert!(recognize("readme"));
    assert!(recognize("Readme.md"));
    assert!(!recognize("readme.txt"));
    assert!(!recognize("notes.txt"));
    assert!(!recognize("notes.MD"));
    assert!(!recognize(".md"));
    assert!(!recognize("plain"));
}

#[test]
fn scan_sorts_by_name_with_capitals_first() {
    let entries = vec![entry("b.md", ""), entry("a.md", ""), entry("Readme", "")];
    let docs = list_markdown_files(&entries);
    let names: Vec<&str> = docs.iter().map(|d| d.name.as_str()).collect();
    assert_eq!(names, ["Readme", "a.md", "b.md"]);
}

#[test]
fn scan_skips_unrecognized_files_and_derives_metadata() {
    let entries = vec![
        entry("notes/plan.md", "---\ntags: [a]\n---\nbody"),
        entry("notes/raw.txt", "ignored"),
    ];
    let docs = list_markdown_files(&entries);
    assert_eq!(docs.len(), 1);
    assert_eq!(docs[0].path, "notes/plan.md");
    assert_eq!(docs[0].name, "plan.md");
    assert_eq!(docs[0].category.as_deref(), Some("notes"));
    assert_eq!(docs[0].tags, vec!["a".to_string()]);
    assert_eq!(docs[0].size, 22);
    assert_eq!(docs[0].modified, Some(1_700_000_000));
}

#[test]
fn unreadable_file_scans_with_empty_tags() {
    let entries = vec![FsEntry {
        rel_path: "x.md".to_string(),
        size: 4,
        modified: None,
        content: None,
    }];
    let docs = list_markdown_files(&entries);
    assert_eq!(docs.len(), 1);
    assert!(docs[0].tags.is_empty());
}

#[test]
fn tier_one_wins_over_the_scan() {
    // a root-level a.md and a same-named file inside a category: the
    // direct lookup returns the root-level file
    let entries = vec![entry("cat/a.md", "nested"), entry("a.md", "root")];
    assert_eq!(resolve(&entries, "a.md").as_deref(), Some("a.md"));
}

#[test]
fn tier_two_resolves_nested_markdown_paths() {
    let entries = vec![entry("cat/a.md", "nested")];
    assert_eq!(resolve(&entries, "cat/a.md").as_deref(), Some("cat/a.md"));
}

#[test]
fn tier_one_accepts_nested_readme_without_extension() {
    let entries = vec![entry("cat/readme", "hi")];
    assert_eq!(resolve(&entries, "cat/readme").as_deref(), Some("cat/readme"));
}

#[test]
fn tier_three_matches_base_name_case_insensitively() {
    let entries = vec![entry("deep/Plan.md", "hi")];
    assert_eq!(resolve(&entries, "plan.md").as_deref(), Some("deep/Plan.md"));
    assert_eq!(resolve(&entries, "missing.md"), None);
}

#[test]
fn search_text_query_is_case_insensitive_substring() {
    let entries = vec![
        entry("a.md", "Hello World"),
        entry("b.md", "nothing here"),
    ];
    let hello = "hELLO w".to_string();
    let found = search(&entries, Some(&hello), None, None);
    assert_eq!(found.len(), 1);
    assert_eq!(found[0].name, "a.md");
}

#[test]
fn search_blank_query_imposes_no_constraint() {
    let entries = vec![entry("a.md", "x"), entry("b.md", "y")];
    let blank = "   ".to_string();
    assert_eq!(search(&entries, Some(&blank), None, None).len(), 2);
}

#[test]
fn search_with_query_excludes_unreadable_documents() {
    let entries = vec![FsEntry {
        rel_path: "a.md".to_string(),
        size: 1,
        modified: None,
        content: None,
    }];
    let q = "anything".to_string();
    assert_eq!(search(&entries, Some(&q), None, None).len(), 0);
    assert_eq!(search(&entries, None, None, None).len(), 1);
}

#[test]
fn search_tag_filter_is_case_insensitive() {
    let entries = vec![entry("a.md", "---\ntags: [Work]\n---\n"), entry("b.md", "")];
    let tag = "wORK".to_string();
    let found = search(&entries, None, Some(&tag), None);
    assert_eq!(found.len(), 1);
    assert_eq!(found[0].name, "a.md");
}

#[test]
fn category_filter_matches_case_insensitively_and_never_uncategorized() {
    let entries = vec![entry("notes/a.md", ""), entry("b.md", "")];
    let filter = "Notes".to_string();
    let found = search(&entries, None, None, Some(&filter));
    assert_eq!(found.len(), 1);
    assert_eq!(found[0].name, "a.md");
}

#[test]
fn filters_combine_with_logical_and() {
    let entries = vec![
        entry("notes/a.md", "---\ntags: [x]\n---\nalpha"),
        entry("notes/b.md", "---\ntags: [x]\n---\nbeta"),
    ];
    let q = "alpha".to_string();
    let tag = "x".to_string();
    let cat = "notes".to_string();
    let found = search(&entries, Some(&q), Some(&tag), Some(&cat));
    assert_eq!(found.len(), 1);
    assert_eq!(found[0].name, "a.md");
}

#[test]
fn relative_path_under_base() {
    assert_eq!(
        get_relative_path("/root", "/root/cat/a.md").as_deref(),
        Some("cat/a.md")
    );
    assert_eq!(get_relative_path("/root", "/root").as_deref(), Some(""));
    assert_eq!(get_relative_path("/root", "/other/a.md"), None);
}

#[test]
fn category_from_path_is_the_relative_parent() {
    assert_eq!(
        get_category_from_path("/r", "/r/notes/deep/a.md").as_deref(),
        Some("notes/deep")
    );
    assert_eq!(get_category_from_path("/r", "/r/a.md"), None);
    assert_eq!(get_category_from_path("/r", "/elsewhere/a.md"), None);
}

#[test]
fn create_markdown_file_builds_target_path() {
    assert_eq!(create_markdown_file("dir", "note"), "dir/note.md");
    assert_eq!(create_markdown_file("dir/", "note.md"), "dir/note.md");
    assert_eq!(create_markdown_file("", "note"), "note.md");
}

#[test]
fn category_read_from_front_matter() {
    assert_eq!(
        extract_category_from_content("---\ncategory: work\n---\nx").as_deref(),
        Some("work")
    );
    assert_eq!(extract_category_from_content("no front matter"), None);
    assert_eq!(
        extract_category_from_content("---\ntags: [a]\n---\n"),
        None
    );
}
