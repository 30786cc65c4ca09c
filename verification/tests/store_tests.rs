use mdlib::docs::FsEntry;
use mdlib::store::{DocError, DocumentStore};

fn entry(rel: &str, content: &str) -> FsEntry {
    FsEntry {
        rel_path: rel.to_string(),
        size: content.len() as u64,
        modified: Some(1_700_000_000),
        content: Some(content.to_string()),
    }
}

fn strs(v: &[&str]) -> Vec<String> {
    v.iter().map(|s| s.to_string()).collect()
}

#[test]
fn end_to_end_document_lifecycle() {
    let mut store = DocumentStore::empty();
    let content = "---\ntags: [one]\n---\nhello";

    let rel = store.create_document("x", content).unwrap();
    assert_eq!(rel, "x.md");

    let read = store.get_document("x.md").unwrap();
    assert_eq!(read, content);

    store.add_tags("x.md", &strs(&["two"])).unwrap();
    let after_add = store.get_document("x.md").unwrap();
    assert_eq!(
        mdlib::tags::extract_tags_from_content(&after_add),
        strs(&["one", "two"])
    );

    store.remove_tags("x.md", &strs(&["one"])).unwrap();
    let after_remove = store.get_document("x.md").unwrap();
    assert_eq!(
        mdlib::tags::extract_tags_from_content(&after_remove),
        strs(&["two"])
    );

    let two = "two".to_string();
    let found = mdlib::search::search(&store.files, None, Some(&two), None);
    assert!(found.iter().any(|d| d.name == "x.md"));

    store.delete_document("x.md").unwrap();
    assert_eq!(store.get_document("x.md"), Err(DocError::NotFound));
}

#[test]
fn bare_name_without_extension_is_not_resolved() {
    let mut store = DocumentStore::empty();
    store.create_document("x", "body").unwrap();
    // the tiers match the stored file name `x.md`, never the bare `x`
    assert_eq!(store.get_document("x"), Err(DocError::NotFound));
    assert_eq!(store.get_document("X.MD").unwrap(), "body");
}

#[test]
fn create_trims_name_and_appends_extension() {
    let mut store = DocumentStore::empty();
    assert_eq!(store.create_document("  note  ", "hi").unwrap(), "note.md");
    assert_eq!(store.create_document("plan.md", "hi").unwrap(), "plan.md");
}

#[test]
fn create_rejects_blank_name() {
    let mut store = DocumentStore::empty();
    assert_eq!(
        store.create_document("   ", "hi"),
        Err(DocError::InvalidName)
    );
}

#[test]
fn create_places_document_in_front_matter_category() {
    let mut store = DocumentStore::empty();
    let rel = store
        .create_document("x", "---\ncategory: notes\n---\nbody")
        .unwrap();
    assert_eq!(rel, "notes/x.md");
    assert_eq!(store.dirs, strs(&["notes"]));
    // creating again is idempotent for the directory
    store
        .create_document("y", "---\ncategory: notes\n---\nbody")
        .unwrap();
    assert_eq!(store.dirs, strs(&["notes"]));
}

#[test]
fn update_overwrites_document_bytes() {
    let mut store = DocumentStore::empty();
    store.create_document("a", "old").unwrap();
    let rel = store.update_document("a.md", "new text").unwrap();
    assert_eq!(rel, "a.md");
    assert_eq!(store.get_document("a.md").unwrap(), "new text");
}

#[test]
fn update_unknown_identifier_is_not_found() {
    let mut store = DocumentStore::empty();
    assert_eq!(
        store.update_document("ghost.md", "x"),
        Err(DocError::NotFound)
    );
    assert_eq!(store.delete_document("ghost.md"), Err(DocError::NotFound));
}

#[test]
fn unreadable_document_reads_as_io_error() {
    let store = DocumentStore {
        files: vec![FsEntry {
            rel_path: "broken.md".to_string(),
            size: 9,
            modified: None,
            content: None,
        }],
        dirs: Vec::new(),
    };
    assert_eq!(store.get_document("broken.md"), Err(DocError::IoError));
}

#[test]
fn categories_from_documents_and_directories_sorted() {
    let store = DocumentStore {
        files: vec![
            entry("work/b.md", "x"),
            entry("notes/a.md", "x"),
            entry("top.md", "x"),
        ],
        dirs: strs(&["zeta", "notes", ".hidden"]),
    };
    assert_eq!(
        store.list_categories(),
        strs(&["notes", "work", "zeta"])
    );
}

#[test]
fn create_category_validates_and_deduplicates() {
    let mut store = DocumentStore::empty();
    assert_eq!(store.create_category("  "), Err(DocError::InvalidName));
    assert_eq!(store.create_category(" drafts ").unwrap(), "drafts");
    assert_eq!(store.create_category("drafts").unwrap(), "drafts");
    assert_eq!(store.dirs, strs(&["drafts"]));
}

#[test]
fn delete_category_removes_directory_and_contents() {
    let mut store = DocumentStore {
        files: vec![entry("notes/a.md", "x"), entry("keep.md", "y")],
        dirs: strs(&["notes"]),
    };
    assert_eq!(store.delete_category("notes").unwrap(), "notes");
    assert!(store.dirs.is_empty());
    assert_eq!(store.files.len(), 1);
    assert_eq!(store.files[0].rel_path, "keep.md");
}

#[test]
fn add_tags_to_unreadable_document_fails() {
    let mut store = DocumentStore {
        files: vec![FsEntry {
            rel_path: "broken.md".to_string(),
            size: 0,
            modified: None,
            content: None,
        }],
        dirs: Vec::new(),
    };
    assert_eq!(
        store.add_tags("broken.md", &strs(&["t"])),
        Err(DocError::IoError)
    );
}
