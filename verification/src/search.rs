//! The search pipeline: the scanned document list filtered by an optional
//! text query, tag filter and category filter, all case-insensitive; every
//! provided filter must match, and the scan's sorted order is kept.

use vstd::prelude::*;

use crate::docs::{
    docs_view, entries_view, list_markdown_files, recognized_docs, sort_docs, FsEntry,
    FsEntryView, MarkdownFile, MarkdownFileView,
};
use crate::paths::eq_ignore_case;
use crate::text::{chars_eq, contains_seq, lower, lower_vec, str_to_chars, trim_spec, trim_vec};

verus! {

broadcast use crate::text::lemma_deep_chars, crate::text::lemma_deep_chars_len,
    crate::text::lemma_deep_strings, crate::text::lemma_deep_strings_len;

/// The view of an optional string argument.
pub open spec fn opt_view(o: Option<&String>) -> Option<Seq<char>> {
    match o {
        Some(s) => Some(s@),
        Option::None => Option::None,
    }
}

/// The content stored for the first entry at this path, if any.
pub open spec fn entry_content(es: Seq<FsEntryView>, path: Seq<char>) -> Option<Seq<char>>
    decreases es.len(),
{
    if es.len() == 0 {
        Option::None
    } else if es[0].rel_path == path {
        es[0].content
    } else {
        entry_content(es.drop_first(), path)
    }
}

/// The document's content, case-folded, holds the case-folded query;
/// a document whose content cannot be read never matches.
pub open spec fn text_match(c: Option<Seq<char>>, q: Seq<char>) -> bool {
    match c {
        Some(s) => contains_seq(lower(s), lower(q)),
        Option::None => false,
    }
}

/// Some tag of the document case-insensitively equals the filter.
pub open spec fn tag_match(tags: Seq<Seq<char>>, t: Seq<char>) -> bool {
    exists|i: int| 0 <= i < tags.len() && eq_ignore_case(#[trigger] tags[i], t)
}

/// The document's category is present and case-insensitively equals the
/// filter; a document without a category never matches.
pub open spec fn cat_match(cat: Option<Seq<char>>, f: Seq<char>) -> bool {
    match cat {
        Some(c) => eq_ignore_case(c, f),
        Option::None => false,
    }
}

/// All provided filters match the document; absent filters impose no
/// constraint, and a text query blank after trimming imposes none either.
pub open spec fn doc_matches(
    es: Seq<FsEntryView>,
    d: MarkdownFileView,
    q: Option<Seq<char>>,
    tag: Option<Seq<char>>,
    cat: Option<Seq<char>>,
) -> bool {
    (match q {
        Some(qs) => trim_spec(qs).len() == 0 || text_match(entry_content(es, d.path), qs),
        Option::None => true,
    }) && (match tag {
        Some(t) => tag_match(d.tags, t),
        Option::None => true,
    }) && (match cat {
        Some(c) => cat_match(d.category, c),
        Option::None => true,
    })
}

/// The documents of `ds` that match, in order.
pub open spec fn filter_docs(
    es: Seq<FsEntryView>,
    ds: Seq<MarkdownFileView>,
    q: Option<Seq<char>>,
    tag: Option<Seq<char>>,
    cat: Option<Seq<char>>,
) -> Seq<MarkdownFileView>
    decreases ds.len(),
{
    if ds.len() == 0 {
        Seq::empty()
    } else {
        let rest = filter_docs(es, ds.drop_first(), q, tag, cat);
        if doc_matches(es, ds[0], q, tag, cat) {
            seq![ds[0]] + rest
        } else {
            rest
        }
    }
}

/// The search result: the sorted scan filtered in place.
pub open spec fn spec_search(
    es: Seq<FsEntryView>,
    q: Option<Seq<char>>,
    tag: Option<Seq<char>>,
    cat: Option<Seq<char>>,
) -> Seq<MarkdownFileView> {
    filter_docs(es, sort_docs(recognized_docs(es)), q, tag, cat)
}

/// Whether the case-folded `hay` holds the case-folded `needle`.
pub fn contains_folded(hay: &Vec<char>, needle: &Vec<char>) -> (r: bool)
    ensures
        r == contains_seq(lower(hay@), lower(needle@)),
{
    let lh = lower_vec(hay);
    let ln = lower_vec(needle);
    match crate::text::find_in(&lh, &ln) {
        Some(_) => true,
        Option::None => false,
    }
}

/// Looks up the content stored for a path, matching `entry_content`.
pub fn entry_content_exec(entries: &Vec<FsEntry>, path: &Vec<char>) -> (r: Option<String>)
    ensures
        match r {
            Some(c) => entry_content(entries_view(entries@), path@) == Some(c@),
            Option::None => entry_content(entries_view(entries@), path@) is None,
        },
{
    let ghost esv = entries_view(entries@);
    let mut i: usize = 0;
    proof {
        assert(esv.skip(0) =~= esv);
    }
    while i < entries.len()
        invariant
            i <= entries@.len(),
            esv == entries_view(entries@),
            entry_content(esv, path@) == entry_content(esv.skip(i as int), path@),
        decreases entries@.len() - i,
    {
        proof {
            assert(esv.skip(i as int)[0] == esv[i as int]);
            assert(esv.skip(i as int).drop_first() =~= esv.skip(i as int + 1));
        }
        let relv = str_to_chars(entries[i].rel_path.as_str());
        proof {
            assert(relv@ == esv[i as int].rel_path);
        }
        if chars_eq(&relv, path) {
            match &entries[i].content {
                Some(c) => {
                    let copy = c.as_str().to_owned();
                    proof {
                        assert(esv[i as int].content == Some(copy@));
                    }
                    return Some(copy);
                },
                Option::None => {
                    proof {
                        assert(esv[i as int].content is None);
                    }
                    return Option::None;
                },
            }
        }
        i = i + 1;
    }
    proof {
        assert(esv.skip(entries@.len() as int) =~= Seq::<FsEntryView>::empty());
    }
    Option::None
}

/// Searches the snapshot: scans it, then keeps exactly the documents that
/// every provided filter matches — the case-folded content holds the
/// case-folded query (when one is given and non-blank), some tag equals
/// the tag filter case-insensitively, and the category equals the
/// category filter case-insensitively. Order is the scan's sorted order.
pub fn search(
    entries: &Vec<FsEntry>,
    q: Option<&String>,
    tag: Option<&String>,
    category: Option<&String>,
) -> (r: Vec<MarkdownFile>)
    ensures
        docs_view(r@) == spec_search(
            entries_view(entries@),
            opt_view(q),
            opt_view(tag),
            opt_view(category),
        ),
{
    let ghost esv = entries_view(entries@);
    let ghost qv = opt_view(q);
    let ghost tv = opt_view(tag);
    let ghost cv = opt_view(category);
    let docs = list_markdown_files(entries);
    let ghost dsv = docs_view(docs@);
    let mut remaining = docs;
    let mut out: Vec<MarkdownFile> = Vec::new();
    proof {
        assert(docs_view(remaining@) == dsv);
        assert(dsv.skip(0) =~= dsv);
        assert(docs_view(out@) + filter_docs(esv, dsv, qv, tv, cv) =~= filter_docs(
            esv,
            dsv,
            qv,
            tv,
            cv,
        ));
    }
    let n_docs = remaining.len();
    proof {
        assert(dsv.len() == n_docs);
    }
    let mut k: usize = 0;
    while remaining.len() > 0
        invariant
            esv == entries_view(entries@),
            qv == opt_view(q),
            tv == opt_view(tag),
            cv == opt_view(category),
            k + remaining@.len() == dsv.len(),
            dsv.len() <= usize::MAX,
            docs_view(remaining@) == dsv.skip(k as int),
            docs_view(out@) + filter_docs(esv, dsv.skip(k as int), qv, tv, cv) == filter_docs(
                esv,
                dsv,
                qv,
                tv,
                cv,
            ),
        decreases remaining@.len(),
    {
        let ghost prerem = remaining@;
        let d = remaining.remove(0);
        proof {
            assert(d@ == docs_view(prerem)[0]);
            assert(docs_view(prerem)[0] == dsv.skip(k as int)[0]);
            assert(d@ == dsv[k as int]);
            assert(remaining@ =~= prerem.skip(1));
            assert forall|j: int| 0 <= j < remaining@.len() implies docs_view(remaining@)[j]
                == dsv[k + 1 + j] by {
                assert(remaining@[j] == prerem[j + 1]);
                assert(docs_view(prerem)[j + 1] == dsv.skip(k as int)[j + 1]);
            }
            assert(docs_view(remaining@) =~= dsv.skip(k as int + 1));
            assert(dsv.skip(k as int).drop_first() =~= dsv.skip(k as int + 1));
        }
        let mut keep = true;
        if let Some(qs) = q {
            let qchars = str_to_chars(qs.as_str());
            let qt = trim_vec(&qchars);
            if qt.len() > 0 {
                let pathv = str_to_chars(d.path.as_str());
                proof {
                    assert(pathv@ == d@.path);
                }
                match entry_content_exec(entries, &pathv) {
                    Some(c) => {
                        let cchars = str_to_chars(c.as_str());
                        if !contains_folded(&cchars, &qchars) {
                            keep = false;
                        }
                    },
                    Option::None => {
                        keep = false;
                    },
                }
            }
        }
        if keep {
            if let Some(t) = tag {
                let tchars = str_to_chars(t.as_str());
                let mut any = false;
                let ghost dtags = d@.tags;
                let mut j: usize = 0;
                while j < d.tags.len()
                    invariant
                        j <= d.tags@.len(),
                        dtags == d.tags.deep_view(),
                        tchars@ == t@,
                        !any ==> forall|w: int|
                            0 <= w < j ==> !eq_ignore_case(#[trigger] dtags[w], t@),
                        any ==> tag_match(dtags, t@),
                    decreases d.tags@.len() - j,
                {
                    let tagv = str_to_chars(d.tags[j].as_str());
                    proof {
                        assert(tagv@ == dtags[j as int]);
                    }
                    if crate::paths::eq_ignore_case_vec(&tagv, &tchars) {
                        proof {
                            assert(eq_ignore_case(dtags[j as int], t@));
                        }
                        any = true;
                    }
                    j = j + 1;
                }
                if !any {
                    proof {
                        if tag_match(dtags, t@) {
                            let w = choose|w: int|
                                0 <= w < dtags.len() && eq_ignore_case(#[trigger] dtags[w], t@);
                            assert(!eq_ignore_case(dtags[w], t@));
                        }
                    }
                    keep = false;
                }
            }
        }
        if keep {
            if let Some(cf) = category {
                let fchars = str_to_chars(cf.as_str());
                match &d.category {
                    Some(dc) => {
                        let dchars = str_to_chars(dc.as_str());
                        proof {
                            assert(d@.category == Some(dchars@));
                        }
                        if !crate::paths::eq_ignore_case_vec(&dchars, &fchars) {
                            keep = false;
                        }
                    },
                    Option::None => {
                        keep = false;
                    },
                }
            }
        }
        proof {
            assert(keep == doc_matches(esv, d@, qv, tv, cv));
        }
        let ghost preout = docs_view(out@);
        if keep {
            out.push(d);
            proof {
                assert(docs_view(out@) =~= preout.push(dsv[k as int]));
            }
        }
        proof {
            assert(docs_view(out@) + filter_docs(esv, dsv.skip(k as int + 1), qv, tv, cv)
                =~= filter_docs(esv, dsv, qv, tv, cv));
        }
        k = k + 1;
    }
    proof {
        assert(dsv.skip(dsv.len() as int) =~= Seq::<MarkdownFileView>::empty());
        assert(docs_view(out@) =~= filter_docs(esv, dsv, qv, tv, cv));
    }
    out
}

} // verus!
