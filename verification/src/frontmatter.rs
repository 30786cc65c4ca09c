//! Extraction of the front-matter block: the region of a document that
//! lies between a leading `---` marker and the next `---` marker.

use vstd::prelude::*;

use crate::text::{
    find_sub, lemma_find_sub, match_at, matches_at, subvec, trim_spec, trim_start_spec, trim_vec,
    chars_to_string, str_to_chars,
};

verus! {

/// The three-dash delimiter of a front-matter block.
pub open spec fn marker() -> Seq<char> {
    seq!['-', '-', '-']
}

/// `s` holds no occurrence of the `---` delimiter.
pub open spec fn no_marker(s: Seq<char>) -> bool {
    forall|i: int| !match_at(s, marker(), i)
}

/// The front matter of `s`: the text strictly between the first `---`
/// (after leading whitespace) and the next `---`, trimmed; `None` when the
/// trimmed document does not begin with `---` or no closing `---` follows.
pub open spec fn spec_frontmatter(s: Seq<char>) -> Option<Seq<char>> {
    let t = trim_start_spec(s);
    if t.len() >= 3 && t.take(3) == marker() {
        let rest = t.skip(3);
        let i = find_sub(rest, marker());
        if i >= 0 {
            Some(trim_spec(rest.take(i)))
        } else {
            Option::None
        }
    } else {
        Option::None
    }
}

/// Drops leading whitespace, matching `trim_start_spec`.
pub fn trim_start_vec(v: &Vec<char>) -> (r: Vec<char>)
    ensures
        r@ == trim_start_spec(v@),
{
    let n = v.len();
    let mut a: usize = 0;
    while a < n && crate::text::char_is_space(v[a])
        invariant
            a <= n,
            n == v@.len(),
            forall|j: int| 0 <= j < a ==> crate::text::is_space(v@[j]),
        decreases n - a,
    {
        a = a + 1;
    }
    proof {
        crate::text::lemma_trim_start_at(v@, a as int);
    }
    let r = subvec(v, a, n);
    proof {
        assert(r@ =~= v@.skip(a as int));
    }
    r
}

/// Builds the `---` delimiter as a character vector.
pub fn marker_vec() -> (r: Vec<char>)
    ensures
        r@ == marker(),
{
    let mut r: Vec<char> = Vec::new();
    r.push('-');
    r.push('-');
    r.push('-');
    proof {
        assert(r@ =~= marker());
    }
    r
}

/// Extracts the front matter of `v`, matching `spec_frontmatter`.
pub fn frontmatter_chars(v: &Vec<char>) -> (r: Option<Vec<char>>)
    ensures
        match r {
            Some(f) => spec_frontmatter(v@) == Some(f@),
            Option::None => spec_frontmatter(v@) is None,
        },
{
    let t = trim_start_vec(v);
    let m = marker_vec();
    if t.len() < 3 {
        proof {
            assert(spec_frontmatter(v@) is None);
        }
        return Option::None;
    }
    if !matches_at(&t, &m, 0) {
        proof {
            assert(t@.subrange(0, 3) =~= t@.take(3));
            assert(spec_frontmatter(v@) is None);
        }
        return Option::None;
    }
    proof {
        assert(t@.subrange(0, 3) =~= t@.take(3));
    }
    let rest = subvec(&t, 3, t.len());
    proof {
        assert(rest@ =~= t@.skip(3));
    }
    match crate::text::find_in(&rest, &m) {
        Some(i) => {
            let piece = subvec(&rest, 0, i);
            proof {
                assert(piece@ =~= rest@.take(i as int));
            }
            let f = trim_vec(&piece);
            Some(f)
        },
        Option::None => Option::None,
    }
}

/// Extracts the front matter of a document, trimmed of surrounding
/// whitespace; `None` when the document does not begin (after leading
/// whitespace) with `---`, or no closing `---` exists.
pub fn extract_frontmatter(content: &str) -> (r: Option<String>)
    ensures
        match r {
            Some(f) => spec_frontmatter(content@) == Some(f@),
            Option::None => spec_frontmatter(content@) is None,
        },
{
    let v = str_to_chars(content);
    match frontmatter_chars(&v) {
        Some(f) => Some(chars_to_string(&f)),
        Option::None => Option::None,
    }
}

} // verus!
