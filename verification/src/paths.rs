//! Path-derived facts about documents: the recognition rule for document
//! names, base names, the `.md` extension, categories read off a path, and
//! the target path of a newly created document. Paths are plain strings
//! with `/` as separator, relative to the store's root.

use vstd::prelude::*;

use crate::frontmatter::{frontmatter_chars, spec_frontmatter};
use crate::tags::{lines_vec, spec_lines};
use crate::text::{
    chars_eq, chars_to_string, extend_vec, lower, lower_vec, matches_at, str_to_chars, subvec,
    trim_spec, trim_vec,
};

verus! {

broadcast use crate::text::lemma_deep_chars, crate::text::lemma_deep_chars_len,
    crate::text::lemma_deep_strings, crate::text::lemma_deep_strings_len;

/// Index of the last occurrence of `c` in `s`, or -1.
pub open spec fn last_index_of(s: Seq<char>, c: char) -> int
    decreases s.len(),
{
    if s.len() == 0 {
        -1
    } else if s.last() == c {
        s.len() - 1
    } else {
        last_index_of(s.drop_last(), c)
    }
}

pub proof fn lemma_last_index_of(s: Seq<char>, c: char)
    ensures
        last_index_of(s, c) < 0 ==> forall|j: int| 0 <= j < s.len() ==> s[j] != c,
        last_index_of(s, c) >= 0 ==> 0 <= last_index_of(s, c) < s.len() && s[last_index_of(
            s,
            c,
        )] == c && (forall|j: int| last_index_of(s, c) < j < s.len() ==> s[j] != c),
    decreases s.len(),
{
    if s.len() == 0 {
    } else if s.last() == c {
    } else {
        let t = s.drop_last();
        lemma_last_index_of(t, c);
        assert(forall|j: int| 0 <= j < t.len() ==> #[trigger] t[j] == s[j]);
        let r = last_index_of(t, c);
        if r < 0 {
            assert forall|j: int| 0 <= j < s.len() implies s[j] != c by {
                if j < t.len() {
                    assert(t[j] != c);
                } else {
                    assert(s[j] == s.last());
                }
            }
        } else {
            assert(s[r] == t[r]);
            assert forall|j: int| r < j < s.len() implies s[j] != c by {
                if j < t.len() {
                    assert(t[j] != c);
                } else {
                    assert(s[j] == s.last());
                }
            }
        }
    }
}

pub proof fn lemma_last_index_of_unique(s: Seq<char>, c: char, i: int)
    requires
        0 <= i < s.len(),
        s[i] == c,
        forall|j: int| i < j < s.len() ==> s[j] != c,
    ensures
        last_index_of(s, c) == i,
{
    lemma_last_index_of(s, c);
    let r = last_index_of(s, c);
    if r < 0 {
        assert(s[i] != c);
    } else if r < i {
        assert(s[i] != c);
    } else if i < r {
        assert(s[r] != c);
    }
}

/// Finds the last occurrence of `c` in `v`.
pub fn last_index_in(v: &Vec<char>, c: char) -> (r: Option<usize>)
    ensures
        match r {
            Some(i) => last_index_of(v@, c) == i as int,
            Option::None => last_index_of(v@, c) < 0,
        },
{
    let mut b = v.len();
    while b > 0
        invariant
            b <= v@.len(),
            forall|j: int| b <= j < v@.len() ==> v@[j] != c,
        decreases b,
    {
        if v[b - 1] == c {
            proof {
                lemma_last_index_of_unique(v@, c, b as int - 1);
            }
            return Some(b - 1);
        }
        b = b - 1;
    }
    proof {
        lemma_last_index_of(v@, c);
    }
    Option::None
}

/// The base name of a path: everything after the last `/`.
pub open spec fn base_name_of(p: Seq<char>) -> Seq<char> {
    let i = last_index_of(p, '/');
    if i < 0 {
        p
    } else {
        p.skip(i + 1)
    }
}

/// `s` starts with the prefix `p`.
pub open spec fn starts_with(s: Seq<char>, p: Seq<char>) -> bool {
    s.len() >= p.len() && s.take(p.len() as int) == p
}

/// `s` ends with the suffix `p`.
pub open spec fn ends_with(s: Seq<char>, p: Seq<char>) -> bool {
    s.len() >= p.len() && s.skip(s.len() - p.len()) == p
}

/// ASCII-case-insensitive equality.
pub open spec fn eq_ignore_case(a: Seq<char>, b: Seq<char>) -> bool {
    lower(a) == lower(b)
}

pub open spec fn readme_seq() -> Seq<char> {
    seq!['r', 'e', 'a', 'd', 'm', 'e']
}

pub open spec fn readme_md_seq() -> Seq<char> {
    seq!['r', 'e', 'a', 'd', 'm', 'e', '.', 'm', 'd']
}

pub open spec fn md_suffix() -> Seq<char> {
    seq!['m', 'd']
}

/// The name has an extension and that extension is exactly `md`: there is
/// a `.` past the first character, and `md` follows the last one.
pub open spec fn has_md_ext(name: Seq<char>) -> bool {
    let i = last_index_of(name, '.');
    i >= 1 && name.skip(i + 1) == md_suffix()
}

/// The name is a README: case-insensitively `readme` or `readme.md`.
pub open spec fn is_readme_name(name: Seq<char>) -> bool {
    eq_ignore_case(name, readme_seq()) || eq_ignore_case(name, readme_md_seq())
}

/// The recognition rule: a file appears in scans exactly when its name has
/// the `.md` extension or is a README.
pub open spec fn spec_recognize(name: Seq<char>) -> bool {
    is_readme_name(name) || has_md_ext(name)
}

/// Tests two character vectors for ASCII-case-insensitive equality.
pub fn eq_ignore_case_vec(a: &Vec<char>, b: &Vec<char>) -> (r: bool)
    ensures
        r == eq_ignore_case(a@, b@),
{
    let la = lower_vec(a);
    let lb = lower_vec(b);
    chars_eq(&la, &lb)
}

pub fn readme_vec() -> (r: Vec<char>)
    ensures
        r@ == readme_seq(),
{
    let mut r: Vec<char> = Vec::new();
    r.push('r');
    r.push('e');
    r.push('a');
    r.push('d');
    r.push('m');
    r.push('e');
    proof {
        assert(r@ =~= readme_seq());
    }
    r
}

pub fn readme_md_vec() -> (r: Vec<char>)
    ensures
        r@ == readme_md_seq(),
{
    let mut r = readme_vec();
    r.push('.');
    r.push('m');
    r.push('d');
    proof {
        assert(r@ =~= readme_md_seq());
    }
    r
}

/// Whether the name carries the `.md` extension, matching `has_md_ext`.
pub fn has_md_ext_vec(name: &Vec<char>) -> (r: bool)
    ensures
        r == has_md_ext(name@),
{
    match last_index_in(name, '.') {
        Some(i) => {
            if i == 0 {
                return false;
            }
            proof {
                crate::paths::lemma_last_index_of(name@, '.');
            }
            let n = name.len();
            if n - i != 3 {
                proof {
                    assert(name@.skip(i as int + 1).len() != 2);
                }
                return false;
            }
            let ok = name[i + 1] == 'm' && name[i + 2] == 'd';
            proof {
                let sfx = name@.skip(i as int + 1);
                assert(sfx.len() == 2);
                assert(sfx[0] == name@[i as int + 1]);
                assert(sfx[1] == name@[i as int + 2]);
                if ok {
                    assert(sfx =~= md_suffix());
                } else {
                    assert(sfx != md_suffix());
                }
            }
            ok
        },
        Option::None => false,
    }
}

/// Whether the name is recognised as a document, matching `spec_recognize`.
pub fn recognize_chars(name: &Vec<char>) -> (r: bool)
    ensures
        r == spec_recognize(name@),
{
    let rd = readme_vec();
    if eq_ignore_case_vec(name, &rd) {
        return true;
    }
    let rdm = readme_md_vec();
    if eq_ignore_case_vec(name, &rdm) {
        return true;
    }
    has_md_ext_vec(name)
}

/// A file appears in scans exactly when its name has the `.md` extension
/// or case-insensitively equals `readme` or `readme.md`.
pub fn recognize(name: &str) -> (r: bool)
    ensures
        r == spec_recognize(name@),
{
    let v = str_to_chars(name);
    recognize_chars(&v)
}

/// The base name of `v`, matching `base_name_of`.
pub fn base_name_vec(v: &Vec<char>) -> (r: Vec<char>)
    ensures
        r@ == base_name_of(v@),
{
    match last_index_in(v, '/') {
        Some(i) => {
            let n = v.len();
            proof {
                lemma_last_index_of(v@, '/');
            }
            let r = subvec(v, i + 1, n);
            proof {
                assert(r@ =~= v@.skip(i as int + 1));
            }
            r
        },
        Option::None => {
            let r = subvec(v, 0, v.len());
            proof {
                assert(r@ =~= v@);
            }
            r
        },
    }
}

/// The relative form of `path` under `base`: `path` itself when equal,
/// the remainder after `base/` when `path` lies under `base`, and nothing
/// otherwise.
pub open spec fn spec_relative(base: Seq<char>, path: Seq<char>) -> Option<Seq<char>> {
    if path == base {
        Some(Seq::empty())
    } else if starts_with(path, base + seq!['/']) {
        Some(path.skip(base.len() as int + 1))
    } else {
        Option::None
    }
}

/// Computes the path of `path` relative to `base`, matching
/// `spec_relative`; `None` when `path` does not lie under `base`.
pub fn get_relative_path(base: &str, path: &str) -> (r: Option<String>)
    ensures
        match r {
            Some(rel) => spec_relative(base@, path@) == Some(rel@),
            Option::None => spec_relative(base@, path@) is None,
        },
{
    let b = str_to_chars(base);
    let p = str_to_chars(path);
    if chars_eq(&b, &p) {
        let out: Vec<char> = Vec::new();
        proof {
            assert(out@ =~= Seq::<char>::empty());
        }
        return Some(chars_to_string(&out));
    }
    let mut pref = subvec(&b, 0, b.len());
    proof {
        assert(pref@ =~= b@);
    }
    pref.push('/');
    proof {
        assert(pref@ =~= base@ + seq!['/']);
    }
    if p.len() < pref.len() {
        proof {
            assert(!starts_with(path@, base@ + seq!['/']));
        }
        return Option::None;
    }
    if matches_at(&p, &pref, 0) {
        proof {
            assert(p@.subrange(0, pref@.len() as int) =~= p@.take(pref@.len() as int));
        }
        let rel = subvec(&p, pref.len(), p.len());
        proof {
            assert(rel@ =~= path@.skip(base@.len() as int + 1));
        }
        Some(chars_to_string(&rel))
    } else {
        proof {
            assert(p@.subrange(0, pref@.len() as int) =~= p@.take(pref@.len() as int));
        }
        Option::None
    }
}

/// The category encoded in a relative path: the directory part, when any.
pub open spec fn category_of_rel(rel: Seq<char>) -> Option<Seq<char>> {
    let i = last_index_of(rel, '/');
    if i < 0 {
        Option::None
    } else {
        Some(rel.take(i))
    }
}

/// The category of `path` under `base`: the parent directory of its
/// relative form, or nothing when the file sits directly under `base` (or
/// outside it).
pub open spec fn spec_category_from_path(base: Seq<char>, path: Seq<char>) -> Option<Seq<char>> {
    match spec_relative(base, path) {
        Some(rel) => category_of_rel(rel),
        Option::None => Option::None,
    }
}

/// The category directory part of a relative path, matching
/// `category_of_rel`.
pub fn category_of_rel_vec(rel: &Vec<char>) -> (r: Option<Vec<char>>)
    ensures
        match r {
            Some(c) => category_of_rel(rel@) == Some(c@),
            Option::None => category_of_rel(rel@) is None,
        },
{
    match last_index_in(rel, '/') {
        Some(i) => {
            proof {
                lemma_last_index_of(rel@, '/');
            }
            let c = subvec(rel, 0, i);
            proof {
                assert(c@ =~= rel@.take(i as int));
            }
            Some(c)
        },
        Option::None => Option::None,
    }
}

/// Derives a document's category from its path: the parent directory of
/// the path relative to `base`, or nothing for files directly under
/// `base`.
pub fn get_category_from_path(base: &str, path: &str) -> (r: Option<String>)
    ensures
        match r {
            Some(c) => spec_category_from_path(base@, path@) == Some(c@),
            Option::None => spec_category_from_path(base@, path@) is None,
        },
{
    match get_relative_path(base, path) {
        Some(rel) => {
            let relv = str_to_chars(rel.as_str());
            match category_of_rel_vec(&relv) {
                Some(c) => Some(chars_to_string(&c)),
                Option::None => Option::None,
            }
        },
        Option::None => Option::None,
    }
}

/// The canonical file name of a new document: `.md` appended unless
/// already present.
pub open spec fn canonical_md_name(name: Seq<char>) -> Seq<char> {
    if ends_with(name, seq!['.', 'm', 'd']) {
        name
    } else {
        name + seq!['.', 'm', 'd']
    }
}

/// Joining a directory and a file name with `/`; an empty directory gives
/// the bare file name.
pub open spec fn spec_join(dir: Seq<char>, file: Seq<char>) -> Seq<char> {
    if dir.len() == 0 {
        file
    } else if dir.last() == '/' {
        dir + file
    } else {
        dir + seq!['/'] + file
    }
}

/// The path where a new document named `name` is created under `dir`:
/// `dir` joined with the canonical `.md` file name.
pub fn create_markdown_file(dir: &str, name: &str) -> (r: String)
    ensures
        r@ == spec_join(dir@, canonical_md_name(name@)),
{
    let n = str_to_chars(name);
    let mut dotmd: Vec<char> = Vec::new();
    dotmd.push('.');
    dotmd.push('m');
    dotmd.push('d');
    proof {
        assert(dotmd@ =~= seq!['.', 'm', 'd']);
    }
    let mut file = subvec(&n, 0, n.len());
    proof {
        assert(file@ =~= name@);
    }
    let already = if n.len() >= 3 {
        let sfx = matches_at(&n, &dotmd, n.len() - 3);
        proof {
            assert(n@.subrange(n@.len() - 3, n@.len() as int) =~= n@.skip(n@.len() - 3));
        }
        sfx
    } else {
        proof {
            assert(!ends_with(name@, seq!['.', 'm', 'd']));
        }
        false
    };
    if !already {
        file.push('.');
        file.push('m');
        file.push('d');
        proof {
            assert(file@ =~= name@ + seq!['.', 'm', 'd']);
        }
    }
    let d = str_to_chars(dir);
    if d.len() == 0 {
        return chars_to_string(&file);
    }
    let mut out = subvec(&d, 0, d.len());
    proof {
        assert(out@ =~= dir@);
    }
    if d[d.len() - 1] != '/' {
        out.push('/');
    }
    extend_vec(&mut out, &file);
    proof {
        if dir@.last() == '/' {
            assert(out@ =~= spec_join(dir@, canonical_md_name(name@)));
        } else {
            assert(out@ =~= spec_join(dir@, canonical_md_name(name@)));
        }
    }
    chars_to_string(&out)
}

/// The key that introduces a category in the front matter.
pub open spec fn category_key() -> Seq<char> {
    seq!['c', 'a', 't', 'e', 'g', 'o', 'r', 'y', ':']
}

/// Whether the trimmed line starts with `category:`.
pub open spec fn is_category_line(line: Seq<char>) -> bool {
    let t = trim_spec(line);
    t.len() >= 9 && t.take(9) == category_key()
}

/// The trimmed value of a `category:` line.
pub open spec fn category_value(line: Seq<char>) -> Seq<char> {
    trim_spec(trim_spec(line).skip(9))
}

/// The value of the first `category:` line among `ls`, if any.
pub open spec fn first_category(ls: Seq<Seq<char>>) -> Option<Seq<char>>
    decreases ls.len(),
{
    if ls.len() == 0 {
        Option::None
    } else if is_category_line(ls[0]) {
        Some(category_value(ls[0]))
    } else {
        first_category(ls.drop_first())
    }
}

/// The category named by the document's front matter, if any.
pub open spec fn spec_category_from_content(s: Seq<char>) -> Option<Seq<char>> {
    match spec_frontmatter(s) {
        Some(fm) => first_category(spec_lines(fm)),
        Option::None => Option::None,
    }
}

fn category_key_vec() -> (r: Vec<char>)
    ensures
        r@ == category_key(),
{
    let mut r: Vec<char> = Vec::new();
    r.push('c');
    r.push('a');
    r.push('t');
    r.push('e');
    r.push('g');
    r.push('o');
    r.push('r');
    r.push('y');
    r.push(':');
    proof {
        assert(r@ =~= category_key());
    }
    r
}

/// Reads the category named by the document's front matter: the trimmed
/// value of its first `category:` line.
pub fn extract_category_from_content(content: &str) -> (r: Option<String>)
    ensures
        match r {
            Some(c) => spec_category_from_content(content@) == Some(c@),
            Option::None => spec_category_from_content(content@) is None,
        },
{
    let v = str_to_chars(content);
    match frontmatter_chars(&v) {
        Some(fm) => {
            let ls = lines_vec(&fm);
            let ghost lsv = ls.deep_view();
            let key = category_key_vec();
            let mut i: usize = 0;
            proof {
                assert(lsv.skip(0) =~~= lsv);
            }
            while i < ls.len()
                invariant
                    i <= ls@.len(),
                    lsv == ls.deep_view(),
                    key@ == category_key(),
                    first_category(lsv) == first_category(lsv.skip(i as int)),
                    spec_frontmatter(content@) == Some(fm@),
                    lsv == spec_lines(fm@),
                decreases ls@.len() - i,
            {
                let line = &ls[i];
                proof {
                    assert(lsv[i as int] == ls@[i as int]@);
                    assert(lsv.skip(i as int)[0] == lsv[i as int]);
                    assert(lsv.skip(i as int).drop_first() =~~= lsv.skip(i as int + 1));
                }
                let t = trim_vec(line);
                if t.len() >= 9 {
                    let isc = matches_at(&t, &key, 0);
                    proof {
                        assert(t@.subrange(0, 9) =~= t@.take(9));
                    }
                    if isc {
                        let rest = subvec(&t, 9, t.len());
                        proof {
                            assert(rest@ =~= trim_spec(lsv[i as int]).skip(9));
                        }
                        let val = trim_vec(&rest);
                        proof {
                            assert(is_category_line(lsv[i as int]));
                            assert(first_category(lsv.skip(i as int)) == Some(category_value(
                                lsv[i as int],
                            )));
                            assert(first_category(lsv) == Some(category_value(lsv[i as int])));
                        }
                        return Some(chars_to_string(&val));
                    }
                } else {
                    proof {
                        assert(!is_category_line(lsv[i as int]));
                    }
                }
                i = i + 1;
            }
            proof {
                assert(lsv.skip(ls@.len() as int) =~~= Seq::<Seq<char>>::empty());
            }
            Option::None
        },
        Option::None => Option::None,
    }
}

} // verus!
