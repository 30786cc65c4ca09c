//! The document store: an in-memory model of the directory tree under the
//! store's root, with the create/read/update/delete, tagging and category
//! operations. Every operation re-derives what it needs from the model;
//! the caller mirrors each returned action onto the real tree.

use vstd::prelude::*;

use crate::docs::{
    docs_view, entries_view, list_markdown_files, recognized_docs, sort_docs, FsEntry,
    FsEntryView, MarkdownFile, MarkdownFileView,
};
use crate::paths::{canonical_md_name, spec_category_from_content, spec_join, starts_with};
use crate::resolve::{entry_exists, spec_resolve};
use crate::rewrite::{spec_add_tags, spec_remove_tags};
use crate::search::entry_content;
use crate::text::{chars_to_string, str_to_chars, subvec, trim_spec, trim_vec};

verus! {

broadcast use crate::text::lemma_deep_chars, crate::text::lemma_deep_chars_len,
    crate::text::lemma_deep_strings, crate::text::lemma_deep_strings_len;

/// The failures of store operations: an identifier no tier could resolve,
/// an empty name on creation, or an unreadable file.
#[derive(Debug, Clone, Copy, PartialEq, Eq, Structural)]
pub enum DocError {
    NotFound,
    InvalidName,
    IoError,
}

/// A snapshot of the tree under the store's root: its regular files and
/// its directories (as paths relative to the root, `/`-separated, in
/// discovery order). The store holds no state of its own between calls;
/// mutations update the snapshot exactly as the mirrored file operation
/// would change the tree.
pub struct DocumentStore {
    pub files: Vec<FsEntry>,
    pub dirs: Vec<String>,
}

/// The mathematical view of a `DocumentStore`.
pub struct StoreView {
    pub files: Seq<FsEntryView>,
    pub dirs: Seq<Seq<char>>,
}

impl View for DocumentStore {
    type V = StoreView;

    open spec fn view(&self) -> StoreView {
        StoreView { files: entries_view(self.files@), dirs: self.dirs.deep_view() }
    }
}

/// The byte length of text stored as UTF-8.
pub open spec fn byte_len(s: Seq<char>) -> nat {
    vstd::utf8::encode_utf8(s).len()
}

/// The entry written for fresh content: its size is the UTF-8 byte
/// length; the modification time is unknown until the tree is scanned
/// again.
pub open spec fn written_entry(rel: Seq<char>, content: Seq<char>) -> FsEntryView {
    FsEntryView {
        rel_path: rel,
        size: (byte_len(content) as usize) as u64,
        modified: Option::None,
        content: Some(content),
    }
}

/// Every entry at `rel` replaced by the freshly written one.
pub open spec fn replace_matches(es: Seq<FsEntryView>, rel: Seq<char>, content: Seq<char>) -> Seq<
    FsEntryView,
>
    decreases es.len(),
{
    if es.len() == 0 {
        Seq::empty()
    } else {
        let first = if es[0].rel_path == rel {
            written_entry(rel, content)
        } else {
            es[0]
        };
        seq![first] + replace_matches(es.drop_first(), rel, content)
    }
}

/// Writing a file: its entry replaced when present, appended when not.
pub open spec fn upsert_entry(es: Seq<FsEntryView>, rel: Seq<char>, content: Seq<char>) -> Seq<
    FsEntryView,
> {
    if entry_exists(es, rel) {
        replace_matches(es, rel, content)
    } else {
        es.push(written_entry(rel, content))
    }
}

/// Deleting a file: every entry at `rel` removed.
pub open spec fn remove_entry(es: Seq<FsEntryView>, rel: Seq<char>) -> Seq<FsEntryView>
    decreases es.len(),
{
    if es.len() == 0 {
        Seq::empty()
    } else {
        let rest = remove_entry(es.drop_first(), rel);
        if es[0].rel_path == rel {
            rest
        } else {
            seq![es[0]] + rest
        }
    }
}

/// Deleting a category directory: every file under it removed.
pub open spec fn remove_under(es: Seq<FsEntryView>, cat: Seq<char>) -> Seq<FsEntryView>
    decreases es.len(),
{
    if es.len() == 0 {
        Seq::empty()
    } else {
        let rest = remove_under(es.drop_first(), cat);
        if starts_with(es[0].rel_path, cat + seq!['/']) {
            rest
        } else {
            seq![es[0]] + rest
        }
    }
}

/// The path a created document is written to: the trimmed name with `.md`
/// appended when missing, inside the category its front matter names, if
/// any.
pub open spec fn spec_create_path(name: Seq<char>, content: Seq<char>) -> Seq<char> {
    let file = canonical_md_name(trim_spec(name));
    match spec_category_from_content(content) {
        Some(cat) => spec_join(cat, file),
        Option::None => file,
    }
}

/// Copies one entry.
fn copy_entry(e: &FsEntry) -> (r: FsEntry)
    ensures
        r@ == e@,
{
    FsEntry {
        rel_path: e.rel_path.as_str().to_owned(),
        size: e.size,
        modified: e.modified,
        content: match &e.content {
            Some(c) => Some(c.as_str().to_owned()),
            Option::None => Option::None,
        },
    }
}

/// Builds the freshly written entry for `rel` and `content`.
fn written_entry_exec(rel: &str, content: &str) -> (r: FsEntry)
    ensures
        r@ == written_entry(rel@, content@),
{
    let size = content.len() as u64;
    FsEntry {
        rel_path: rel.to_owned(),
        size,
        modified: Option::None,
        content: Some(content.to_owned()),
    }
}

/// Writes `content` at `rel` in the snapshot, matching `upsert_entry`.
fn upsert_exec(files: &Vec<FsEntry>, rel: &str, content: &str) -> (r: Vec<FsEntry>)
    ensures
        entries_view(r@) == upsert_entry(entries_view(files@), rel@, content@),
{
    let ghost esv = entries_view(files@);
    let relv = str_to_chars(rel);
    let found = crate::resolve::entry_exists_exec(files, &relv);
    if found {
        let mut out: Vec<FsEntry> = Vec::new();
        let mut i: usize = 0;
        proof {
            assert(esv.skip(0) =~= esv);
            assert(entries_view(out@) + replace_matches(esv, rel@, content@) =~= replace_matches(
                esv,
                rel@,
                content@,
            ));
        }
        while i < files.len()
            invariant
                i <= files@.len(),
                esv == entries_view(files@),
                relv@ == rel@,
                entries_view(out@) + replace_matches(esv.skip(i as int), rel@, content@)
                    == replace_matches(esv, rel@, content@),
            decreases files@.len() - i,
        {
            let e = &files[i];
            let ghost pre = entries_view(out@);
            proof {
                assert(esv.skip(i as int)[0] == esv[i as int]);
                assert(esv.skip(i as int).drop_first() =~= esv.skip(i as int + 1));
                assert(esv[i as int] == e@);
            }
            let erel = str_to_chars(e.rel_path.as_str());
            if crate::text::chars_eq(&erel, &relv) {
                let w = written_entry_exec(rel, content);
                out.push(w);
                proof {
                    assert(entries_view(out@) =~= pre.push(written_entry(rel@, content@)));
                }
            } else {
                let c = copy_entry(e);
                out.push(c);
                proof {
                    assert(entries_view(out@) =~= pre.push(esv[i as int]));
                }
            }
            proof {
                assert(entries_view(out@) + replace_matches(
                    esv.skip(i as int + 1),
                    rel@,
                    content@,
                ) =~= replace_matches(esv, rel@, content@));
            }
            i = i + 1;
        }
        proof {
            assert(esv.skip(files@.len() as int) =~= Seq::<FsEntryView>::empty());
            assert(entries_view(out@) =~= replace_matches(esv, rel@, content@));
        }
        out
    } else {
        let mut out: Vec<FsEntry> = Vec::new();
        let mut i: usize = 0;
        while i < files.len()
            invariant
                i <= files@.len(),
                esv == entries_view(files@),
                out@.len() == i,
                forall|j: int| 0 <= j < i ==> (#[trigger] out@[j])@ == esv[j],
            decreases files@.len() - i,
        {
            let c = copy_entry(&files[i]);
            out.push(c);
            i = i + 1;
        }
        let w = written_entry_exec(rel, content);
        out.push(w);
        proof {
            assert(entries_view(out@) =~= esv.push(written_entry(rel@, content@)));
        }
        out
    }
}

/// Removes every entry at `rel`, matching `remove_entry`.
fn remove_entry_exec(files: &Vec<FsEntry>, rel: &str) -> (r: Vec<FsEntry>)
    ensures
        entries_view(r@) == remove_entry(entries_view(files@), rel@),
{
    let ghost esv = entries_view(files@);
    let relv = str_to_chars(rel);
    let mut out: Vec<FsEntry> = Vec::new();
    let mut i: usize = 0;
    proof {
        assert(esv.skip(0) =~= esv);
        assert(entries_view(out@) + remove_entry(esv, rel@) =~= remove_entry(esv, rel@));
    }
    while i < files.len()
        invariant
            i <= files@.len(),
            esv == entries_view(files@),
            relv@ == rel@,
            entries_view(out@) + remove_entry(esv.skip(i as int), rel@) == remove_entry(
                esv,
                rel@,
            ),
        decreases files@.len() - i,
    {
        let e = &files[i];
        let ghost pre = entries_view(out@);
        proof {
            assert(esv.skip(i as int)[0] == esv[i as int]);
            assert(esv.skip(i as int).drop_first() =~= esv.skip(i as int + 1));
            assert(esv[i as int] == e@);
        }
        let erel = str_to_chars(e.rel_path.as_str());
        if !crate::text::chars_eq(&erel, &relv) {
            let c = copy_entry(e);
            out.push(c);
            proof {
                assert(entries_view(out@) =~= pre.push(esv[i as int]));
            }
        }
        proof {
            assert(entries_view(out@) + remove_entry(esv.skip(i as int + 1), rel@)
                =~= remove_entry(esv, rel@));
        }
        i = i + 1;
    }
    proof {
        assert(esv.skip(files@.len() as int) =~= Seq::<FsEntryView>::empty());
        assert(entries_view(out@) =~= remove_entry(esv, rel@));
    }
    out
}

impl DocumentStore {
    /// A store over an empty tree.
    pub fn empty() -> (r: DocumentStore)
        ensures
            r@.files == Seq::<FsEntryView>::empty(),
            r@.dirs == Seq::<Seq<char>>::empty(),
    {
        let r = DocumentStore { files: Vec::new(), dirs: Vec::new() };
        proof {
            assert(r@.files =~= Seq::<FsEntryView>::empty());
            assert(r@.dirs =~~= Seq::<Seq<char>>::empty());
        }
        r
    }

    /// Lists every recognised document, sorted ascending by name.
    pub fn list_documents(&self) -> (r: Vec<MarkdownFile>)
        ensures
            docs_view(r@) == sort_docs(recognized_docs(self@.files)),
    {
        list_markdown_files(&self.files)
    }

    /// Returns the content of the document an identifier resolves to:
    /// `NotFound` when no tier resolves it, `IoError` when the file's
    /// content cannot be read.
    pub fn get_document(&self, identifier: &str) -> (r: Result<String, DocError>)
        ensures
            match spec_resolve(self@.files, identifier@) {
                Some(p) => match entry_content(self@.files, p) {
                    Some(c) => r is Ok && r->Ok_0@ == c,
                    Option::None => r == Result::<String, DocError>::Err(DocError::IoError),
                },
                Option::None => r == Result::<String, DocError>::Err(DocError::NotFound),
            },
    {
        match crate::resolve::resolve(&self.files, identifier) {
            Some(p) => {
                let pv = str_to_chars(p.as_str());
                match crate::search::entry_content_exec(&self.files, &pv) {
                    Some(c) => Ok(c),
                    Option::None => Err(DocError::IoError),
                }
            },
            Option::None => Err(DocError::NotFound),
        }
    }

    /// Creates a document: the trimmed name (`InvalidName` when empty)
    /// gets `.md` appended unless present; a `category:` field in the
    /// content's front matter places the file in that directory, created
    /// if missing. Returns the path written, relative to the root.
    pub fn create_document(&mut self, name: &str, content: &str) -> (r: Result<String, DocError>)
        ensures
            trim_spec(name@).len() == 0 ==> r == Result::<String, DocError>::Err(
                DocError::InvalidName,
            ) && final(self)@ == old(self)@,
            trim_spec(name@).len() > 0 ==> {
                let rel = spec_create_path(name@, content@);
                &&& r is Ok
                &&& r->Ok_0@ == rel
                &&& final(self)@.files == upsert_entry(old(self)@.files, rel, content@)
                &&& final(self)@.dirs == (match spec_category_from_content(content@) {
                    Some(cat) => if old(self)@.dirs.contains(cat) {
                        old(self)@.dirs
                    } else {
                        old(self)@.dirs.push(cat)
                    },
                    Option::None => old(self)@.dirs,
                })
            },
    {
        let namev = str_to_chars(name);
        let trimmed = trim_vec(&namev);
        if trimmed.len() == 0 {
            return Err(DocError::InvalidName);
        }
        let tname = chars_to_string(&trimmed);
        match crate::paths::extract_category_from_content(content) {
            Some(cat) => {
                let rel = crate::paths::create_markdown_file(cat.as_str(), tname.as_str());
                let files2 = upsert_exec(&self.files, rel.as_str(), content);
                self.files = files2;
                let catv = str_to_chars(cat.as_str());
                if !crate::tags::contains_tag_strings(&self.dirs, &catv) {
                    let ghost pre_dirs = self.dirs.deep_view();
                    self.dirs.push(cat);
                    proof {
                        assert(self.dirs.deep_view() =~~= pre_dirs.push(catv@));
                    }
                }
                Ok(rel)
            },
            Option::None => {
                let rel = crate::paths::create_markdown_file("", tname.as_str());
                proof {
                    reveal_strlit("");
                    assert(""@.len() == 0);
                }
                let files2 = upsert_exec(&self.files, rel.as_str(), content);
                self.files = files2;
                Ok(rel)
            },
        }
    }

    /// Overwrites the document an identifier resolves to with new
    /// content; `NotFound` when no tier resolves it.
    pub fn update_document(&mut self, identifier: &str, content: &str) -> (r: Result<
        String,
        DocError,
    >)
        ensures
            match spec_resolve(old(self)@.files, identifier@) {
                Some(p) => r is Ok && r->Ok_0@ == p && final(self)@.files == upsert_entry(
                    old(self)@.files,
                    p,
                    content@,
                ) && final(self)@.dirs == old(self)@.dirs,
                Option::None => r == Result::<String, DocError>::Err(DocError::NotFound)
                    && final(self)@ == old(self)@,
            },
    {
        match crate::resolve::resolve(&self.files, identifier) {
            Some(p) => {
                let files2 = upsert_exec(&self.files, p.as_str(), content);
                self.files = files2;
                Ok(p)
            },
            Option::None => Err(DocError::NotFound),
        }
    }

    /// Deletes the document an identifier resolves to; `NotFound` when no
    /// tier resolves it.
    pub fn delete_document(&mut self, identifier: &str) -> (r: Result<String, DocError>)
        ensures
            match spec_resolve(old(self)@.files, identifier@) {
                Some(p) => r is Ok && r->Ok_0@ == p && final(self)@.files == remove_entry(
                    old(self)@.files,
                    p,
                ) && final(self)@.dirs == old(self)@.dirs,
                Option::None => r == Result::<String, DocError>::Err(DocError::NotFound)
                    && final(self)@ == old(self)@,
            },
    {
        match crate::resolve::resolve(&self.files, identifier) {
            Some(p) => {
                let files2 = remove_entry_exec(&self.files, p.as_str());
                self.files = files2;
                Ok(p)
            },
            Option::None => Err(DocError::NotFound),
        }
    }
}


/// The category names contributed by scanned documents, first occurrence
/// order, duplicates skipped.
pub open spec fn cats_of_docs(acc: Seq<Seq<char>>, ds: Seq<MarkdownFileView>) -> Seq<Seq<char>>
    decreases ds.len(),
{
    if ds.len() == 0 {
        acc
    } else {
        let acc2 = match ds[0].category {
            Some(c) => if acc.contains(c) {
                acc
            } else {
                acc.push(c)
            },
            Option::None => acc,
        };
        cats_of_docs(acc2, ds.drop_first())
    }
}

/// The directory names added to the category list: those not starting
/// with `.` and not already present.
pub open spec fn add_dirs(acc: Seq<Seq<char>>, dirs: Seq<Seq<char>>) -> Seq<Seq<char>>
    decreases dirs.len(),
{
    if dirs.len() == 0 {
        acc
    } else {
        let d = dirs[0];
        let hidden = d.len() > 0 && d[0] == '.';
        let acc2 = if !hidden && !acc.contains(d) {
            acc.push(d)
        } else {
            acc
        };
        add_dirs(acc2, dirs.drop_first())
    }
}

/// Insertion of a string into a sorted list, after all equal strings.
pub open spec fn insert_str(x: Seq<char>, l: Seq<Seq<char>>) -> Seq<Seq<char>>
    decreases l.len(),
{
    if l.len() == 0 {
        seq![x]
    } else if crate::text::lex_le(l[0], x) {
        seq![l[0]] + insert_str(x, l.drop_first())
    } else {
        seq![x] + l
    }
}

/// Stable insertion sort of a string list.
pub open spec fn sort_strs(l: Seq<Seq<char>>) -> Seq<Seq<char>>
    decreases l.len(),
{
    if l.len() == 0 {
        Seq::empty()
    } else {
        insert_str(l.last(), sort_strs(l.drop_last()))
    }
}

/// The category list of a store: categories of scanned documents, then
/// directory names (hidden ones skipped), deduplicated and sorted.
pub open spec fn spec_list_categories(st: StoreView) -> Seq<Seq<char>> {
    sort_strs(
        add_dirs(cats_of_docs(Seq::empty(), sort_docs(recognized_docs(st.files))), st.dirs),
    )
}

/// Every name not listed in `ts`, in order.
pub open spec fn remove_str(l: Seq<Seq<char>>, x: Seq<char>) -> Seq<Seq<char>>
    decreases l.len(),
{
    if l.len() == 0 {
        Seq::empty()
    } else {
        let rest = remove_str(l.drop_first(), x);
        if l[0] == x {
            rest
        } else {
            seq![l[0]] + rest
        }
    }
}

/// If the first `p` strings are at most `x` and the one at `p` (when any)
/// is greater, insertion lands exactly at `p`.
pub proof fn lemma_insert_str_at(x: Seq<char>, l: Seq<Seq<char>>, p: int)
    requires
        0 <= p <= l.len(),
        forall|j: int| 0 <= j < p ==> crate::text::lex_le(#[trigger] l[j], x),
        p < l.len() ==> !crate::text::lex_le(l[p], x),
    ensures
        insert_str(x, l) == l.take(p) + seq![x] + l.skip(p),
    decreases l.len(),
{
    if l.len() == 0 {
        assert(insert_str(x, l) =~~= l.take(p) + seq![x] + l.skip(p));
    } else if p == 0 {
        assert(!crate::text::lex_le(l[0], x));
        assert(insert_str(x, l) =~~= l.take(0) + seq![x] + l.skip(0));
    } else {
        assert(crate::text::lex_le(l[0], x));
        let t = l.drop_first();
        assert(forall|j: int| 0 <= j < p - 1 ==> #[trigger] t[j] == l[j + 1]);
        if p - 1 < t.len() {
            assert(t[p - 1] == l[p]);
        }
        lemma_insert_str_at(x, t, p - 1);
        assert(insert_str(x, l) =~~= seq![l[0]] + (t.take(p - 1) + seq![x] + t.skip(p - 1)));
        assert(seq![l[0]] + (t.take(p - 1) + seq![x] + t.skip(p - 1)) =~~= l.take(p) + seq![x]
            + l.skip(p));
    }
}

/// Inserts a string into the sorted `out`, after all equal names.
fn insert_str_sorted(out: &mut Vec<String>, x: String)
    ensures
        final(out).deep_view() == insert_str(x@, old(out).deep_view()),
{
    let ghost lv = old(out).deep_view();
    let xv = str_to_chars(x.as_str());
    let mut p: usize = 0;
    loop
        invariant
            p <= out@.len(),
            lv == out.deep_view(),
            xv@ == x@,
            forall|j: int| 0 <= j < p ==> crate::text::lex_le(#[trigger] lv[j], x@),
        ensures
            p <= out@.len(),
            lv == out.deep_view(),
            forall|j: int| 0 <= j < p ==> crate::text::lex_le(#[trigger] lv[j], x@),
            p < out@.len() ==> !crate::text::lex_le(lv[p as int], x@),
        decreases out@.len() - p,
    {
        if p == out.len() {
            break;
        }
        let ov = str_to_chars(out[p].as_str());
        proof {
            assert(ov@ == lv[p as int]);
        }
        if !crate::text::lex_le_vec(&ov, &xv) {
            break;
        }
        p = p + 1;
    }
    proof {
        lemma_insert_str_at(x@, lv, p as int);
    }
    out.insert(p, x);
    proof {
        assert(out.deep_view() =~~= lv.take(p as int) + seq![x@] + lv.skip(p as int));
    }
}

impl DocumentStore {
    /// Adds the given tags to the document an identifier resolves to,
    /// skipping tags already present. Returns the resolved path and the
    /// rewritten content; `NotFound` when no tier resolves the
    /// identifier, `IoError` when its content cannot be read.
    pub fn add_tags(&mut self, identifier: &str, tags: &Vec<String>) -> (r: Result<
        (String, String),
        DocError,
    >)
        ensures
            match spec_resolve(old(self)@.files, identifier@) {
                Some(p) => match entry_content(old(self)@.files, p) {
                    Some(c) => {
                        let nc = spec_add_tags(c, tags.deep_view());
                        &&& r is Ok
                        &&& r->Ok_0.0@ == p
                        &&& r->Ok_0.1@ == nc
                        &&& final(self)@.files == upsert_entry(old(self)@.files, p, nc)
                        &&& final(self)@.dirs == old(self)@.dirs
                    },
                    Option::None => r == Result::<(String, String), DocError>::Err(
                        DocError::IoError,
                    ) && final(self)@ == old(self)@,
                },
                Option::None => r == Result::<(String, String), DocError>::Err(
                    DocError::NotFound,
                ) && final(self)@ == old(self)@,
            },
    {
        match crate::resolve::resolve(&self.files, identifier) {
            Some(p) => {
                let pv = str_to_chars(p.as_str());
                match crate::search::entry_content_exec(&self.files, &pv) {
                    Some(c) => {
                        let nc = crate::rewrite::add_tags_to_content(c.as_str(), tags);
                        let files2 = upsert_exec(&self.files, p.as_str(), nc.as_str());
                        self.files = files2;
                        Ok((p, nc))
                    },
                    Option::None => Err(DocError::IoError),
                }
            },
            Option::None => Err(DocError::NotFound),
        }
    }

    /// Removes the listed tags (exact matches) from the document an
    /// identifier resolves to. Returns the resolved path and the
    /// rewritten content; `NotFound` when no tier resolves the
    /// identifier, `IoError` when its content cannot be read.
    pub fn remove_tags(&mut self, identifier: &str, tags: &Vec<String>) -> (r: Result<
        (String, String),
        DocError,
    >)
        ensures
            match spec_resolve(old(self)@.files, identifier@) {
                Some(p) => match entry_content(old(self)@.files, p) {
                    Some(c) => {
                        let nc = spec_remove_tags(c, tags.deep_view());
                        &&& r is Ok
                        &&& r->Ok_0.0@ == p
                        &&& r->Ok_0.1@ == nc
                        &&& final(self)@.files == upsert_entry(old(self)@.files, p, nc)
                        &&& final(self)@.dirs == old(self)@.dirs
                    },
                    Option::None => r == Result::<(String, String), DocError>::Err(
                        DocError::IoError,
                    ) && final(self)@ == old(self)@,
                },
                Option::None => r == Result::<(String, String), DocError>::Err(
                    DocError::NotFound,
                ) && final(self)@ == old(self)@,
            },
    {
        match crate::resolve::resolve(&self.files, identifier) {
            Some(p) => {
                let pv = str_to_chars(p.as_str());
                match crate::search::entry_content_exec(&self.files, &pv) {
                    Some(c) => {
                        let nc = crate::rewrite::remove_tags_from_content(c.as_str(), tags);
                        let files2 = upsert_exec(&self.files, p.as_str(), nc.as_str());
                        self.files = files2;
                        Ok((p, nc))
                    },
                    Option::None => Err(DocError::IoError),
                }
            },
            Option::None => Err(DocError::NotFound),
        }
    }

    /// Creates a category directory (idempotently); the trimmed name must
    /// not be empty. Returns the trimmed name.
    pub fn create_category(&mut self, name: &str) -> (r: Result<String, DocError>)
        ensures
            trim_spec(name@).len() == 0 ==> r == Result::<String, DocError>::Err(
                DocError::InvalidName,
            ) && final(self)@ == old(self)@,
            trim_spec(name@).len() > 0 ==> {
                &&& r is Ok
                &&& r->Ok_0@ == trim_spec(name@)
                &&& final(self)@.files == old(self)@.files
                &&& final(self)@.dirs == (if old(self)@.dirs.contains(trim_spec(name@)) {
                    old(self)@.dirs
                } else {
                    old(self)@.dirs.push(trim_spec(name@))
                })
            },
    {
        let namev = str_to_chars(name);
        let trimmed = trim_vec(&namev);
        if trimmed.len() == 0 {
            return Err(DocError::InvalidName);
        }
        let tname = chars_to_string(&trimmed);
        if !crate::tags::contains_tag_strings(&self.dirs, &trimmed) {
            let ghost pre = self.dirs.deep_view();
            let copy = tname.as_str().to_owned();
            self.dirs.push(copy);
            proof {
                assert(self.dirs.deep_view() =~~= pre.push(trim_spec(name@)));
            }
        }
        Ok(tname)
    }

    /// Deletes a category directory and every document under it; the
    /// trimmed name must not be empty. Returns the trimmed name.
    pub fn delete_category(&mut self, name: &str) -> (r: Result<String, DocError>)
        ensures
            trim_spec(name@).len() == 0 ==> r == Result::<String, DocError>::Err(
                DocError::InvalidName,
            ) && final(self)@ == old(self)@,
            trim_spec(name@).len() > 0 ==> {
                &&& r is Ok
                &&& r->Ok_0@ == trim_spec(name@)
                &&& final(self)@.files == remove_under(old(self)@.files, trim_spec(name@))
                &&& final(self)@.dirs == remove_str(old(self)@.dirs, trim_spec(name@))
            },
    {
        let namev = str_to_chars(name);
        let trimmed = trim_vec(&namev);
        if trimmed.len() == 0 {
            return Err(DocError::InvalidName);
        }
        let tname = chars_to_string(&trimmed);
        let ghost dv = self.dirs.deep_view();
        let mut dirs2: Vec<String> = Vec::new();
        let mut i: usize = 0;
        proof {
            assert(dv.skip(0) =~~= dv);
            assert(dirs2.deep_view() + remove_str(dv, trimmed@) =~~= remove_str(dv, trimmed@));
        }
        while i < self.dirs.len()
            invariant
                i <= self.dirs@.len(),
                dv == self.dirs.deep_view(),
                trimmed@ == trim_spec(name@),
                dirs2.deep_view() + remove_str(dv.skip(i as int), trimmed@) == remove_str(
                    dv,
                    trimmed@,
                ),
            decreases self.dirs@.len() - i,
        {
            let ghost pre = dirs2.deep_view();
            proof {
                assert(dv[i as int] == self.dirs@[i as int]@);
                assert(dv.skip(i as int)[0] == dv[i as int]);
                assert(dv.skip(i as int).drop_first() =~~= dv.skip(i as int + 1));
            }
            let d = str_to_chars(self.dirs[i].as_str());
            if !crate::text::chars_eq(&d, &trimmed) {
                let copy = self.dirs[i].as_str().to_owned();
                dirs2.push(copy);
                proof {
                    assert(dirs2.deep_view() =~~= pre.push(dv[i as int]));
                }
            }
            proof {
                assert(dirs2.deep_view() + remove_str(dv.skip(i as int + 1), trimmed@)
                    =~~= remove_str(dv, trimmed@));
            }
            i = i + 1;
        }
        proof {
            assert(dv.skip(self.dirs@.len() as int) =~~= Seq::<Seq<char>>::empty());
            assert(dirs2.deep_view() =~~= remove_str(dv, trimmed@));
        }
        self.dirs = dirs2;
        // drop every file under the category
        let ghost esv = entries_view(self.files@);
        let mut pref = subvec(&trimmed, 0, trimmed.len());
        pref.push('/');
        proof {
            assert(pref@ =~= trim_spec(name@) + seq!['/']);
        }
        let mut files2: Vec<FsEntry> = Vec::new();
        let mut k: usize = 0;
        proof {
            assert(esv.skip(0) =~= esv);
            assert(entries_view(files2@) + remove_under(esv, trimmed@) =~= remove_under(
                esv,
                trimmed@,
            ));
        }
        while k < self.files.len()
            invariant
                k <= self.files@.len(),
                esv == entries_view(self.files@),
                trimmed@ == trim_spec(name@),
                pref@ == trim_spec(name@) + seq!['/'],
                entries_view(files2@) + remove_under(esv.skip(k as int), trimmed@)
                    == remove_under(esv, trimmed@),
            decreases self.files@.len() - k,
        {
            let e = &self.files[k];
            let ghost pre = entries_view(files2@);
            proof {
                assert(esv.skip(k as int)[0] == esv[k as int]);
                assert(esv.skip(k as int).drop_first() =~= esv.skip(k as int + 1));
                assert(esv[k as int] == e@);
            }
            let erel = str_to_chars(e.rel_path.as_str());
            let keep = if erel.len() < pref.len() {
                proof {
                    assert(!starts_with(esv[k as int].rel_path, pref@));
                }
                true
            } else {
                let m = crate::text::matches_at(&erel, &pref, 0);
                proof {
                    assert(erel@.subrange(0, pref@.len() as int) =~= erel@.take(
                        pref@.len() as int,
                    ));
                }
                !m
            };
            if keep {
                let c = copy_entry(e);
                files2.push(c);
                proof {
                    assert(entries_view(files2@) =~= pre.push(esv[k as int]));
                }
            }
            proof {
                assert(entries_view(files2@) + remove_under(esv.skip(k as int + 1), trimmed@)
                    =~= remove_under(esv, trimmed@));
            }
            k = k + 1;
        }
        proof {
            assert(esv.skip(self.files@.len() as int) =~= Seq::<FsEntryView>::empty());
            assert(entries_view(files2@) =~= remove_under(esv, trimmed@));
        }
        self.files = files2;
        Ok(tname)
    }

    /// Lists the categories of the store: those of scanned documents plus
    /// every directory not starting with `.`, deduplicated and sorted.
    pub fn list_categories(&self) -> (r: Vec<String>)
        ensures
            r.deep_view() == spec_list_categories(self@),
    {
        let docs = list_markdown_files(&self.files);
        let ghost dsv = docs_view(docs@);
        let mut acc: Vec<String> = Vec::new();
        let mut i: usize = 0;
        proof {
            assert(dsv.skip(0) =~= dsv);
            assert(acc.deep_view() =~~= Seq::<Seq<char>>::empty());
            assert(cats_of_docs(acc.deep_view(), dsv.skip(0)) == cats_of_docs(
                Seq::empty(),
                dsv,
            ));
        }
        while i < docs.len()
            invariant
                i <= docs@.len(),
                dsv == docs_view(docs@),
                cats_of_docs(acc.deep_view(), dsv.skip(i as int)) == cats_of_docs(
                    Seq::empty(),
                    dsv,
                ),
            decreases docs@.len() - i,
        {
            let ghost pre = acc.deep_view();
            proof {
                assert(dsv.skip(i as int)[0] == dsv[i as int]);
                assert(dsv.skip(i as int).drop_first() =~= dsv.skip(i as int + 1));
                assert(dsv[i as int] == docs@[i as int]@);
            }
            match &docs[i].category {
                Some(c) => {
                    let cv = str_to_chars(c.as_str());
                    proof {
                        assert(dsv[i as int].category == Some(cv@));
                    }
                    if !crate::tags::contains_tag_strings(&acc, &cv) {
                        let copy = c.as_str().to_owned();
                        acc.push(copy);
                        proof {
                            assert(acc.deep_view() =~~= pre.push(cv@));
                        }
                    }
                },
                Option::None => {
                    proof {
                        assert(dsv[i as int].category is None);
                    }
                },
            }
            proof {
                assert(cats_of_docs(acc.deep_view(), dsv.skip(i as int + 1)) == cats_of_docs(
                    Seq::empty(),
                    dsv,
                ));
            }
            i = i + 1;
        }
        proof {
            assert(dsv.skip(docs@.len() as int) =~= Seq::<MarkdownFileView>::empty());
        }
        let ghost dirv = self.dirs.deep_view();
        let mut j: usize = 0;
        proof {
            assert(dirv.skip(0) =~~= dirv);
        }
        while j < self.dirs.len()
            invariant
                j <= self.dirs@.len(),
                dirv == self.dirs.deep_view(),
                add_dirs(acc.deep_view(), dirv.skip(j as int)) == add_dirs(
                    cats_of_docs(Seq::empty(), sort_docs(recognized_docs(self@.files))),
                    dirv,
                ),
            decreases self.dirs@.len() - j,
        {
            let ghost pre = acc.deep_view();
            proof {
                assert(dirv[j as int] == self.dirs@[j as int]@);
                assert(dirv.skip(j as int)[0] == dirv[j as int]);
                assert(dirv.skip(j as int).drop_first() =~~= dirv.skip(j as int + 1));
            }
            let d = &self.dirs[j];
            let dv2 = str_to_chars(d.as_str());
            let hidden = dv2.len() > 0 && dv2[0] == '.';
            if !hidden {
                if !crate::tags::contains_tag_strings(&acc, &dv2) {
                    let copy = d.as_str().to_owned();
                    acc.push(copy);
                    proof {
                        assert(acc.deep_view() =~~= pre.push(dv2@));
                    }
                }
            }
            proof {
                assert(add_dirs(acc.deep_view(), dirv.skip(j as int + 1)) == add_dirs(
                    cats_of_docs(Seq::empty(), sort_docs(recognized_docs(self@.files))),
                    dirv,
                ));
            }
            j = j + 1;
        }
        proof {
            assert(dirv.skip(self.dirs@.len() as int) =~~= Seq::<Seq<char>>::empty());
        }
        // sort the collected names
        let ghost unsorted = acc.deep_view();
        let n_acc = acc.len();
        proof {
            assert(unsorted.len() == n_acc);
        }
        let mut out: Vec<String> = Vec::new();
        let mut k: usize = 0;
        proof {
            assert(unsorted.take(0) =~~= Seq::<Seq<char>>::empty());
            assert(out.deep_view() =~~= sort_strs(unsorted.take(0)));
        }
        while acc.len() > 0
            invariant
                unsorted.len() <= usize::MAX,
                k <= unsorted.len(),
                k + acc@.len() == unsorted.len(),
                acc.deep_view() == unsorted.skip(k as int),
                out.deep_view() == sort_strs(unsorted.take(k as int)),
            decreases acc@.len(),
        {
            let ghost preacc = acc.deep_view();
            let ghost prevec = acc@;
            let x = acc.remove(0);
            proof {
                assert(x@ == preacc[0]);
                assert(x@ == unsorted[k as int]);
                assert(acc@ =~= prevec.skip(1));
                assert forall|j2: int| 0 <= j2 < acc@.len() implies acc.deep_view()[j2]
                    == unsorted[k + 1 + j2] by {
                    assert(acc@[j2] == prevec[j2 + 1]);
                    assert(preacc[j2 + 1] == unsorted.skip(k as int)[j2 + 1]);
                }
                assert(acc.deep_view() =~~= unsorted.skip(k as int + 1));
            }
            insert_str_sorted(&mut out, x);
            proof {
                assert(unsorted.take(k as int + 1).drop_last() =~~= unsorted.take(k as int));
                assert(unsorted.take(k as int + 1).last() == unsorted[k as int]);
            }
            k = k + 1;
        }
        proof {
            assert(unsorted.take(unsorted.len() as int) =~~= unsorted);
        }
        out
    }
}

} // verus!
