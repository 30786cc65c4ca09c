//! The three-tier document resolver: a caller-supplied identifier is
//! mapped to the path of a concrete document, trying a direct lookup, a
//! path-shaped lookup, and finally a case-insensitive scan of the tree.

use vstd::prelude::*;

use crate::docs::{
    docs_view, entries_view, list_markdown_files, recognized_docs, sort_docs, FsEntry,
    MarkdownFileView,
};
use crate::paths::{
    base_name_of, base_name_vec, eq_ignore_case, eq_ignore_case_vec, has_md_ext, has_md_ext_vec,
    spec_recognize,
};
use crate::text::{chars_eq, chars_to_string, find_char, str_to_chars};

verus! {

broadcast use crate::text::lemma_deep_chars, crate::text::lemma_deep_chars_len,
    crate::text::lemma_deep_strings, crate::text::lemma_deep_strings_len;

/// A regular file exists at this path of the snapshot.
pub open spec fn entry_exists(es: Seq<crate::docs::FsEntryView>, path: Seq<char>) -> bool {
    exists|i: int| 0 <= i < es.len() && es[i].rel_path == path
}

/// The identifier names a nested path: it holds a forward or backward
/// slash.
pub open spec fn has_separator(id: Seq<char>) -> bool {
    find_char(id, '/') >= 0 || find_char(id, '\\') >= 0
}

/// Tier 1 accepts an identifier that names an existing file whose base
/// name is recognised (`.md` or a README).
pub open spec fn tier1_accepts(es: Seq<crate::docs::FsEntryView>, id: Seq<char>) -> bool {
    entry_exists(es, id) && spec_recognize(base_name_of(id))
}

/// Tier 2 accepts an identifier holding a path separator that names an
/// existing file with the strict `.md` extension (no README exception).
pub open spec fn tier2_accepts(es: Seq<crate::docs::FsEntryView>, id: Seq<char>) -> bool {
    has_separator(id) && entry_exists(es, id) && has_md_ext(base_name_of(id))
}

/// The first document of `ds` whose name case-insensitively equals
/// `target`, if any; tier 3 applies this to the sorted scan.
pub open spec fn first_name_match(ds: Seq<MarkdownFileView>, target: Seq<char>) -> Option<
    Seq<char>,
>
    decreases ds.len(),
{
    if ds.len() == 0 {
        Option::None
    } else if eq_ignore_case(ds[0].name, target) {
        Some(ds[0].path)
    } else {
        first_name_match(ds.drop_first(), target)
    }
}

/// The resolver: tier 1, then tier 2, then the fallback scan; the first
/// success wins and no later tier is consulted.
pub open spec fn spec_resolve(es: Seq<crate::docs::FsEntryView>, id: Seq<char>) -> Option<
    Seq<char>,
> {
    if tier1_accepts(es, id) {
        Some(id)
    } else if tier2_accepts(es, id) {
        Some(id)
    } else {
        first_name_match(sort_docs(recognized_docs(es)), base_name_of(id))
    }
}

/// Whether the snapshot holds a file at exactly this path.
pub fn entry_exists_exec(entries: &Vec<FsEntry>, path: &Vec<char>) -> (r: bool)
    ensures
        r == entry_exists(entries_view(entries@), path@),
{
    let ghost esv = entries_view(entries@);
    let mut i: usize = 0;
    while i < entries.len()
        invariant
            i <= entries@.len(),
            esv == entries_view(entries@),
            forall|j: int| 0 <= j < i ==> #[trigger] esv[j].rel_path != path@,
        decreases entries@.len() - i,
    {
        let relv = str_to_chars(entries[i].rel_path.as_str());
        proof {
            assert(relv@ == esv[i as int].rel_path);
        }
        if chars_eq(&relv, path) {
            proof {
                assert(esv[i as int].rel_path == path@);
            }
            return true;
        }
        i = i + 1;
    }
    proof {
        if entry_exists(esv, path@) {
            let j = choose|j: int| 0 <= j < esv.len() && esv[j].rel_path == path@;
            assert(esv[j].rel_path != path@);
        }
    }
    false
}

/// Resolves an identifier to the path of a document in the snapshot:
/// directly, as a nested `.md` path, or by a case-insensitive base-name
/// match over the sorted scan; `None` when every tier fails.
pub fn resolve(entries: &Vec<FsEntry>, identifier: &str) -> (r: Option<String>)
    ensures
        match r {
            Some(p) => spec_resolve(entries_view(entries@), identifier@) == Some(p@),
            Option::None => spec_resolve(entries_view(entries@), identifier@) is None,
        },
{
    let ghost esv = entries_view(entries@);
    let idv = str_to_chars(identifier);
    let base = base_name_vec(&idv);
    // tier 1: direct lookup with the scan's recognition rule
    if entry_exists_exec(entries, &idv) {
        if crate::paths::recognize_chars(&base) {
            return Some(chars_to_string(&idv));
        }
    }
    // tier 2: identifiers with a path separator, strict `.md` only
    let has_sep = match crate::text::find_char_in(&idv, '/') {
        Some(_) => true,
        Option::None => match crate::text::find_char_in(&idv, '\\') {
            Some(_) => true,
            Option::None => false,
        },
    };
    if has_sep {
        if entry_exists_exec(entries, &idv) {
            if has_md_ext_vec(&base) {
                return Some(chars_to_string(&idv));
            }
        }
    }
    proof {
        assert(!tier1_accepts(esv, identifier@));
        assert(!tier2_accepts(esv, identifier@));
    }
    // tier 3: first case-insensitive base-name match in the sorted scan
    let docs = list_markdown_files(entries);
    let ghost dsv = docs_view(docs@);
    let mut i: usize = 0;
    proof {
        assert(dsv.skip(0) =~= dsv);
    }
    while i < docs.len()
        invariant
            i <= docs@.len(),
            esv == entries_view(entries@),
            dsv == docs_view(docs@),
            dsv == sort_docs(recognized_docs(esv)),
            !tier1_accepts(esv, identifier@),
            !tier2_accepts(esv, identifier@),
            base@ == base_name_of(identifier@),
            first_name_match(dsv, base@) == first_name_match(dsv.skip(i as int), base@),
        decreases docs@.len() - i,
    {
        proof {
            assert(dsv.skip(i as int)[0] == dsv[i as int]);
            assert(dsv.skip(i as int).drop_first() =~= dsv.skip(i as int + 1));
        }
        let namev = str_to_chars(docs[i].name.as_str());
        proof {
            assert(namev@ == dsv[i as int].name);
        }
        if eq_ignore_case_vec(&namev, &base) {
            let pathv = str_to_chars(docs[i].path.as_str());
            proof {
                assert(pathv@ == dsv[i as int].path);
                assert(first_name_match(dsv.skip(i as int), base@) == Some(dsv[i as int].path));
            }
            return Some(chars_to_string(&pathv));
        }
        i = i + 1;
    }
    proof {
        assert(dsv.skip(docs@.len() as int) =~= Seq::<MarkdownFileView>::empty());
    }
    Option::None
}

} // verus!
