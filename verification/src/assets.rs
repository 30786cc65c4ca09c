//! The static asset catalogue: the names of the files bundled with the
//! service, and the check that the essential ones are present. The caller
//! fills the catalogue from wherever its assets live.

use vstd::prelude::*;

use crate::paths::{ends_with, starts_with};
use crate::tags::contains_tag_strings;
use crate::text::{chars_to_string, extend_vec, match_at, matches_at, str_to_chars, subvec};

verus! {

broadcast use crate::text::lemma_deep_strings, crate::text::lemma_deep_strings_len;

/// The bundled static assets, by file name (relative, `/`-separated).
pub struct StaticAssets {
    pub files: Vec<String>,
}

/// The essential names absent from the catalogue, in order.
pub open spec fn missing_names(have: Seq<Seq<char>>) -> Seq<Seq<char>> {
    (if have.contains("index.html"@) {
        Seq::<Seq<char>>::empty()
    } else {
        seq!["index.html"@]
    }) + (if have.contains("js/app.js"@) {
        Seq::<Seq<char>>::empty()
    } else {
        seq!["js/app.js"@]
    }) + (if have.contains("css/styles.css"@) {
        Seq::<Seq<char>>::empty()
    } else {
        seq!["css/styles.css"@]
    })
}

/// Checks that every essential file is in the catalogue; on failure,
/// returns exactly the missing names.
pub fn verify_essential_files(assets: &StaticAssets) -> (r: Result<(), Vec<String>>)
    ensures
        match r {
            Ok(_) => missing_names(assets.files.deep_view()).len() == 0,
            Err(v) => v.deep_view() == missing_names(assets.files.deep_view()) && v@.len() > 0,
        },
{
    let ghost have = assets.files.deep_view();
    let mut missing: Vec<String> = Vec::new();
    let n1 = "index.html";
    let n2 = "js/app.js";
    let n3 = "css/styles.css";
    let v1 = str_to_chars(n1);
    let v2 = str_to_chars(n2);
    let v3 = str_to_chars(n3);
    if !contains_tag_strings(&assets.files, &v1) {
        missing.push(n1.to_owned());
    }
    if !contains_tag_strings(&assets.files, &v2) {
        missing.push(n2.to_owned());
    }
    if !contains_tag_strings(&assets.files, &v3) {
        missing.push(n3.to_owned());
    }
    proof {
        assert(missing.deep_view() =~~= missing_names(have));
    }
    if missing.len() == 0 {
        Ok(())
    } else {
        Err(missing)
    }
}

/// The names of every bundled asset, in catalogue order.
pub fn list_embedded_files(assets: &StaticAssets) -> (r: Vec<String>)
    ensures
        r.deep_view() == assets.files.deep_view(),
{
    let mut r: Vec<String> = Vec::new();
    let mut i: usize = 0;
    while i < assets.files.len()
        invariant
            i <= assets.files@.len(),
            r@.len() == i,
            forall|j: int| 0 <= j < i ==> (#[trigger] r@[j])@ == assets.files@[j]@,
        decreases assets.files@.len() - i,
    {
        let copy = assets.files[i].as_str().to_owned();
        r.push(copy);
        i = i + 1;
    }
    proof {
        assert(r.deep_view() =~~= assets.files.deep_view());
    }
    r
}


/// The catalogue name a request path asks for: the index page for an
/// empty or root path, otherwise the path without its leading slash.
pub open spec fn normalize_path(p: Seq<char>) -> Seq<char> {
    if p.len() == 0 || p == seq!['/'] {
        "index.html"@
    } else if p[0] == '/' {
        p.skip(1)
    } else {
        p
    }
}

/// The alternative location tried for a script or style sheet that was
/// not found at its own name: the `js/` or `css/` subfolder.
pub open spec fn fallback_path(p: Seq<char>) -> Option<Seq<char>> {
    if ends_with(p, ".js"@) && !starts_with(p, "js/"@) {
        Some("js/"@ + p)
    } else if ends_with(p, ".css"@) && !starts_with(p, "css/"@) {
        Some("css/"@ + p)
    } else {
        Option::None
    }
}

/// The catalogue entry served for a request path: the normalised name
/// when present, else its `js/`/`css/` fallback when that is present,
/// else nothing.
pub open spec fn spec_resolve_asset(have: Seq<Seq<char>>, p: Seq<char>) -> Option<Seq<char>> {
    let n = normalize_path(p);
    if have.contains(n) {
        Some(n)
    } else {
        match fallback_path(n) {
            Some(f) => if have.contains(f) {
                Some(f)
            } else {
                Option::None
            },
            Option::None => Option::None,
        }
    }
}

/// Whether `v` ends with the pattern `p`.
fn ends_with_vec(v: &Vec<char>, p: &Vec<char>) -> (r: bool)
    ensures
        r == ends_with(v@, p@),
{
    if v.len() < p.len() {
        return false;
    }
    let r = matches_at(v, p, v.len() - p.len());
    proof {
        assert(v@.subrange(v@.len() - p@.len(), v@.len() as int) =~= v@.skip(
            v@.len() - p@.len(),
        ));
    }
    r
}

/// Whether `v` starts with the pattern `p`.
fn starts_with_vec(v: &Vec<char>, p: &Vec<char>) -> (r: bool)
    ensures
        r == starts_with(v@, p@),
{
    if v.len() < p.len() {
        return false;
    }
    let r = matches_at(v, p, 0);
    proof {
        assert(v@.subrange(0, p@.len() as int) =~= v@.take(p@.len() as int));
    }
    r
}

/// Resolves a request path against the catalogue: the normalised name
/// (index page for the root, leading slash dropped) when bundled, else
/// the `js/`/`css/` subfolder fallback, else nothing.
pub fn resolve_asset(assets: &StaticAssets, path: &str) -> (r: Option<String>)
    ensures
        match r {
            Some(p) => spec_resolve_asset(assets.files.deep_view(), path@) == Some(p@),
            Option::None => spec_resolve_asset(assets.files.deep_view(), path@) is None,
        },
{
    let pv = str_to_chars(path);
    let n: Vec<char> = if pv.len() == 0 || (pv.len() == 1 && pv[0] == '/') {
        let idx = str_to_chars("index.html");
        proof {
            if pv@.len() == 1 {
                assert(pv@ =~= seq!['/']);
            }
            assert(normalize_path(pv@) == idx@);
        }
        idx
    } else if pv[0] == '/' {
        let rest = subvec(&pv, 1, pv.len());
        proof {
            assert(rest@ =~= pv@.skip(1));
            assert(pv@ != seq!['/']) by {
                if pv@ =~= seq!['/'] {
                    assert(pv@.len() == 1);
                }
            }
            assert(normalize_path(pv@) == rest@);
        }
        rest
    } else {
        let keep = subvec(&pv, 0, pv.len());
        proof {
            assert(keep@ =~= pv@);
            assert(pv@ != seq!['/']) by {
                if pv@ =~= seq!['/'] {
                    assert(pv@[0] == '/');
                }
            }
            assert(normalize_path(pv@) == keep@);
        }
        keep
    };
    if contains_tag_strings(&assets.files, &n) {
        return Some(chars_to_string(&n));
    }
    let js_sfx = str_to_chars(".js");
    let js_pre = str_to_chars("js/");
    let css_sfx = str_to_chars(".css");
    let css_pre = str_to_chars("css/");
    if ends_with_vec(&n, &js_sfx) && !starts_with_vec(&n, &js_pre) {
        let mut f = str_to_chars("js/");
        extend_vec(&mut f, &n);
        proof {
            assert(f@ =~= "js/"@ + n@);
        }
        if contains_tag_strings(&assets.files, &f) {
            return Some(chars_to_string(&f));
        }
        return Option::None;
    }
    if ends_with_vec(&n, &css_sfx) && !starts_with_vec(&n, &css_pre) {
        let mut f = str_to_chars("css/");
        extend_vec(&mut f, &n);
        proof {
            assert(f@ =~= "css/"@ + n@);
        }
        if contains_tag_strings(&assets.files, &f) {
            return Some(chars_to_string(&f));
        }
        return Option::None;
    }
    Option::None
}

} // verus!
