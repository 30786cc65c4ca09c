//! The document record and the scan: deriving the metadata of every
//! recognised file from a snapshot of the directory tree, sorted by name.

use vstd::prelude::*;

use crate::paths::{base_name_of, base_name_vec, category_of_rel, category_of_rel_vec,
    recognize_chars, spec_recognize};
use crate::tags::{extract_tags_from_content, spec_extract_tags};
use crate::text::{chars_to_string, lex_le, lex_le_vec, str_to_chars};

verus! {

broadcast use crate::text::lemma_deep_chars, crate::text::lemma_deep_chars_len,
    crate::text::lemma_deep_strings, crate::text::lemma_deep_strings_len;

/// One regular file found under the store's root, as handed to the
/// library: its path relative to the root (`/`-separated), its metadata,
/// and its text content (`None` when the file could not be read).
pub struct FsEntry {
    pub rel_path: String,
    pub size: u64,
    pub modified: Option<u64>,
    pub content: Option<String>,
}

/// The mathematical view of an `FsEntry`.
pub struct FsEntryView {
    pub rel_path: Seq<char>,
    pub size: u64,
    pub modified: Option<u64>,
    pub content: Option<Seq<char>>,
}

impl View for FsEntry {
    type V = FsEntryView;

    open spec fn view(&self) -> FsEntryView {
        FsEntryView {
            rel_path: self.rel_path@,
            size: self.size,
            modified: self.modified,
            content: match self.content {
                Some(ref c) => Some(c@),
                Option::None => Option::None,
            },
        }
    }
}

/// A recognised document: its path (relative to the root), base name,
/// metadata, tags and category, derived fresh from a scan.
pub struct MarkdownFile {
    pub path: String,
    pub name: String,
    pub modified: Option<u64>,
    pub size: u64,
    pub tags: Vec<String>,
    pub category: Option<String>,
}

/// The mathematical view of a `MarkdownFile`.
pub struct MarkdownFileView {
    pub path: Seq<char>,
    pub name: Seq<char>,
    pub modified: Option<u64>,
    pub size: u64,
    pub tags: Seq<Seq<char>>,
    pub category: Option<Seq<char>>,
}

impl View for MarkdownFile {
    type V = MarkdownFileView;

    open spec fn view(&self) -> MarkdownFileView {
        MarkdownFileView {
            path: self.path@,
            name: self.name@,
            modified: self.modified,
            size: self.size,
            tags: self.tags.deep_view(),
            category: match self.category {
                Some(ref c) => Some(c@),
                Option::None => Option::None,
            },
        }
    }
}

/// The views of a sequence of entries.
pub open spec fn entries_view(es: Seq<FsEntry>) -> Seq<FsEntryView> {
    Seq::new(es.len(), |i: int| es[i]@)
}

/// The views of a sequence of documents.
pub open spec fn docs_view(ds: Seq<MarkdownFile>) -> Seq<MarkdownFileView> {
    Seq::new(ds.len(), |i: int| ds[i]@)
}

/// The document record derived from one file entry: the base name of its
/// path, the category encoded in the path, and the tags extracted from its
/// content (none when the content could not be read).
pub open spec fn doc_of_entry(e: FsEntryView) -> MarkdownFileView {
    MarkdownFileView {
        path: e.rel_path,
        name: base_name_of(e.rel_path),
        modified: e.modified,
        size: e.size,
        tags: match e.content {
            Some(c) => spec_extract_tags(c),
            Option::None => Seq::empty(),
        },
        category: category_of_rel(e.rel_path),
    }
}

/// The documents of the recognised entries, in entry order.
pub open spec fn recognized_docs(es: Seq<FsEntryView>) -> Seq<MarkdownFileView>
    decreases es.len(),
{
    if es.len() == 0 {
        Seq::empty()
    } else {
        let rest = recognized_docs(es.drop_first());
        if spec_recognize(base_name_of(es[0].rel_path)) {
            seq![doc_of_entry(es[0])] + rest
        } else {
            rest
        }
    }
}

/// Insertion of a document into a name-sorted list, after every document
/// whose name is less than or equal (so sorting is stable).
pub open spec fn insert_doc(d: MarkdownFileView, ds: Seq<MarkdownFileView>) -> Seq<
    MarkdownFileView,
>
    decreases ds.len(),
{
    if ds.len() == 0 {
        seq![d]
    } else if lex_le(ds[0].name, d.name) {
        seq![ds[0]] + insert_doc(d, ds.drop_first())
    } else {
        seq![d] + ds
    }
}

/// Stable insertion sort by name.
pub open spec fn sort_docs(ds: Seq<MarkdownFileView>) -> Seq<MarkdownFileView>
    decreases ds.len(),
{
    if ds.len() == 0 {
        Seq::empty()
    } else {
        insert_doc(ds.last(), sort_docs(ds.drop_last()))
    }
}

/// A document list is sorted ascending by name.
pub open spec fn docs_sorted(ds: Seq<MarkdownFileView>) -> bool {
    forall|i: int, j: int| 0 <= i < j < ds.len() ==> lex_le(ds[i].name, ds[j].name)
}

/// Inserting into a sorted list keeps it sorted.
pub proof fn lemma_insert_doc_sorted(d: MarkdownFileView, ds: Seq<MarkdownFileView>)
    requires
        docs_sorted(ds),
    ensures
        docs_sorted(insert_doc(d, ds)),
        insert_doc(d, ds).len() == ds.len() + 1,
    decreases ds.len(),
{
    if ds.len() == 0 {
    } else if lex_le(ds[0].name, d.name) {
        let t = ds.drop_first();
        assert(docs_sorted(t)) by {
            assert(forall|i: int, j: int|
                0 <= i < j < t.len() ==> t[i] == ds[i + 1] && t[j] == ds[j + 1]);
        }
        lemma_insert_doc_sorted(d, t);
        let r = insert_doc(d, ds);
        let ri = insert_doc(d, t);
        assert forall|i: int, j: int| 0 <= i < j < r.len() implies lex_le(
            r[i].name,
            r[j].name,
        ) by {
            if i == 0 {
                assert(r[0] == ds[0]);
                assert(r[j] == ri[j - 1]);
                // every member of ri is either d or a member of t
                lemma_insert_doc_members(d, t, j - 1);
                if ri[j - 1] == d {
                } else {
                    let w = choose|w: int| 0 <= w < t.len() && ri[j - 1] == t[w];
                    assert(t[w] == ds[w + 1]);
                    crate::text::lemma_lex_le_total(ds[0].name, ds[w + 1].name);
                }
            } else {
                assert(r[i] == ri[i - 1]);
                assert(r[j] == ri[j - 1]);
            }
        }
    } else {
        crate::text::lemma_lex_le_total(ds[0].name, d.name);
        let r = insert_doc(d, ds);
        assert forall|i: int, j: int| 0 <= i < j < r.len() implies lex_le(
            r[i].name,
            r[j].name,
        ) by {
            if i == 0 {
                assert(r[0] == d);
                assert(r[j] == ds[j - 1]);
                if j == 1 {
                    assert(lex_le(d.name, ds[0].name));
                } else {
                    assert(lex_le(ds[0].name, ds[j - 1].name));
                    crate::text::lemma_lex_le_trans(d.name, ds[0].name, ds[j - 1].name);
                }
            } else {
                assert(r[i] == ds[i - 1]);
                assert(r[j] == ds[j - 1]);
            }
        }
    }
}

/// Every member of an insertion result is the inserted document or a
/// member of the list inserted into.
pub proof fn lemma_insert_doc_members(d: MarkdownFileView, ds: Seq<MarkdownFileView>, k: int)
    requires
        0 <= k < insert_doc(d, ds).len(),
    ensures
        insert_doc(d, ds)[k] == d || exists|w: int| 0 <= w < ds.len() && insert_doc(d, ds)[k]
            == ds[w],
    decreases ds.len(),
{
    if ds.len() == 0 {
    } else if lex_le(ds[0].name, d.name) {
        if k == 0 {
            assert(insert_doc(d, ds)[0] == ds[0]);
        } else {
            lemma_insert_doc_members(d, ds.drop_first(), k - 1);
            let t = ds.drop_first();
            if insert_doc(d, t)[k - 1] == d {
            } else {
                let w = choose|w: int| 0 <= w < t.len() && insert_doc(d, t)[k - 1] == t[w];
                assert(t[w] == ds[w + 1]);
                assert(insert_doc(d, ds)[k] == ds[w + 1]);
            }
        }
    } else {
        if k == 0 {
        } else {
            assert(insert_doc(d, ds)[k] == ds[k - 1]);
        }
    }
}

/// The sort of any document list is sorted.
pub proof fn lemma_sort_docs_sorted(ds: Seq<MarkdownFileView>)
    ensures
        docs_sorted(sort_docs(ds)),
        sort_docs(ds).len() == ds.len(),
    decreases ds.len(),
{
    if ds.len() == 0 {
    } else {
        lemma_sort_docs_sorted(ds.drop_last());
        lemma_insert_doc_sorted(ds.last(), sort_docs(ds.drop_last()));
    }
}

/// If the first `p` names of a sorted prefix are at most `d.name` and the
/// one at `p` (when any) is greater, insertion lands exactly at `p`.
pub proof fn lemma_insert_doc_at(d: MarkdownFileView, ds: Seq<MarkdownFileView>, p: int)
    requires
        0 <= p <= ds.len(),
        forall|j: int| 0 <= j < p ==> lex_le(#[trigger] ds[j].name, d.name),
        p < ds.len() ==> !lex_le(ds[p].name, d.name),
    ensures
        insert_doc(d, ds) == ds.take(p) + seq![d] + ds.skip(p),
    decreases ds.len(),
{
    if ds.len() == 0 {
        assert(insert_doc(d, ds) =~= ds.take(p) + seq![d] + ds.skip(p));
    } else if p == 0 {
        assert(!lex_le(ds[0].name, d.name));
        assert(insert_doc(d, ds) =~= ds.take(0) + seq![d] + ds.skip(0));
    } else {
        assert(lex_le(ds[0].name, d.name));
        let t = ds.drop_first();
        assert(forall|j: int| 0 <= j < p - 1 ==> #[trigger] t[j] == ds[j + 1]);
        if p - 1 < t.len() {
            assert(t[p - 1] == ds[p]);
        }
        lemma_insert_doc_at(d, t, p - 1);
        assert(insert_doc(d, ds) =~= seq![ds[0]] + (t.take(p - 1) + seq![d] + t.skip(p - 1)));
        assert(seq![ds[0]] + (t.take(p - 1) + seq![d] + t.skip(p - 1)) =~= ds.take(p) + seq![d]
            + ds.skip(p));
    }
}

/// Inserts `d` into the name-sorted `out`, after all equal names.
fn insert_sorted(out: &mut Vec<MarkdownFile>, d: MarkdownFile)
    ensures
        docs_view(final(out)@) == insert_doc(d@, docs_view(old(out)@)),
{
    let ghost dsv = docs_view(old(out)@);
    let dn = str_to_chars(d.name.as_str());
    let mut p: usize = 0;
    loop
        invariant
            p <= out@.len(),
            dsv == docs_view(out@),
            dn@ == d@.name,
            forall|j: int| 0 <= j < p ==> lex_le(#[trigger] dsv[j].name, d@.name),
        ensures
            p <= out@.len(),
            dsv == docs_view(out@),
            forall|j: int| 0 <= j < p ==> lex_le(#[trigger] dsv[j].name, d@.name),
            p < out@.len() ==> !lex_le(dsv[p as int].name, d@.name),
        decreases out@.len() - p,
    {
        if p == out.len() {
            break;
        }
        let on = str_to_chars(out[p].name.as_str());
        proof {
            assert(on@ == dsv[p as int].name);
        }
        if !lex_le_vec(&on, &dn) {
            break;
        }
        p = p + 1;
    }
    proof {
        lemma_insert_doc_at(d@, dsv, p as int);
    }
    out.insert(p, d);
    proof {
        assert(docs_view(out@) =~= dsv.take(p as int) + seq![docs_view(out@)[p as int]]
            + dsv.skip(p as int));
    }
}

/// Scans a snapshot of the tree: keeps the recognised files, derives each
/// document's record, and returns the list sorted ascending by name
/// (stable, code-point order).
pub fn list_markdown_files(entries: &Vec<FsEntry>) -> (r: Vec<MarkdownFile>)
    ensures
        docs_view(r@) == sort_docs(recognized_docs(entries_view(entries@))),
        docs_sorted(docs_view(r@)),
{
    let ghost esv = entries_view(entries@);
    let mut found: Vec<MarkdownFile> = Vec::new();
    let mut i: usize = 0;
    proof {
        assert(esv.skip(0) =~= esv);
        assert(docs_view(found@) + recognized_docs(esv) =~= recognized_docs(esv));
    }
    while i < entries.len()
        invariant
            i <= entries@.len(),
            esv == entries_view(entries@),
            docs_view(found@) + recognized_docs(esv.skip(i as int)) == recognized_docs(esv),
        decreases entries@.len() - i,
    {
        let e = &entries[i];
        proof {
            assert(esv.skip(i as int)[0] == esv[i as int]);
            assert(esv.skip(i as int).drop_first() =~= esv.skip(i as int + 1));
            assert(esv[i as int] == e@);
        }
        let relv = str_to_chars(e.rel_path.as_str());
        let namev = base_name_vec(&relv);
        let ghost pre = docs_view(found@);
        if recognize_chars(&namev) {
            let tags = match &e.content {
                Some(c) => extract_tags_from_content(c.as_str()),
                Option::None => Vec::new(),
            };
            let category = match category_of_rel_vec(&relv) {
                Some(cv) => Some(chars_to_string(&cv)),
                Option::None => Option::None,
            };
            let path = crate::text::chars_to_string(&relv);
            let name = chars_to_string(&namev);
            let doc = MarkdownFile {
                path,
                name,
                modified: e.modified,
                size: e.size,
                tags,
                category,
            };
            proof {
                assert(doc@.tags =~~= doc_of_entry(esv[i as int]).tags);
                assert(doc@ == doc_of_entry(esv[i as int]));
            }
            found.push(doc);
            proof {
                assert(docs_view(found@) =~= pre + seq![doc_of_entry(esv[i as int])]);
            }
        }
        proof {
            assert(docs_view(found@) + recognized_docs(esv.skip(i as int + 1)) =~= recognized_docs(
                esv,
            ));
        }
        i = i + 1;
    }
    proof {
        assert(esv.skip(entries@.len() as int) =~= Seq::<FsEntryView>::empty());
        assert(docs_view(found@) =~= recognized_docs(esv));
    }
    let ghost unsorted = docs_view(found@);
    let n_found = found.len();
    proof {
        assert(unsorted.len() == n_found);
    }
    let mut out: Vec<MarkdownFile> = Vec::new();
    proof {
        assert(unsorted.take(0) =~= Seq::<MarkdownFileView>::empty());
        assert(docs_view(out@) =~= sort_docs(unsorted.take(0)));
    }
    let mut k: usize = 0;
    while found.len() > 0
        invariant
            unsorted.len() <= usize::MAX,
            k <= unsorted.len(),
            k + found@.len() == unsorted.len(),
            docs_view(found@) == unsorted.skip(k as int),
            docs_view(out@) == sort_docs(unsorted.take(k as int)),
        decreases found@.len(),
    {
        let ghost prefound = found@;
        let d = found.remove(0);
        proof {
            assert(d@ == docs_view(prefound)[0]);
            assert(docs_view(prefound)[0] == unsorted.skip(k as int)[0]);
            assert(d@ == unsorted[k as int]);
            assert(found@ =~= prefound.skip(1));
            assert forall|j: int| 0 <= j < found@.len() implies docs_view(found@)[j] == unsorted[k
                + 1 + j] by {
                assert(found@[j] == prefound[j + 1]);
                assert(docs_view(prefound)[j + 1] == unsorted.skip(k as int)[j + 1]);
            }
            assert(docs_view(found@) =~= unsorted.skip(k as int + 1));
        }
        insert_sorted(&mut out, d);
        proof {
            assert(unsorted.take(k as int + 1).drop_last() =~= unsorted.take(k as int));
            assert(unsorted.take(k as int + 1).last() == unsorted[k as int]);
        }
        k = k + 1;
    }
    proof {
        assert(unsorted.take(unsorted.len() as int) =~= unsorted);
        lemma_sort_docs_sorted(recognized_docs(esv));
    }
    out
}

} // verus!
