//! Front-matter rewriting: replacing or appending the `tags:` line of a
//! document with a given tag list, and the tag add/remove operations built
//! on top of it.

use vstd::prelude::*;

use crate::frontmatter::{frontmatter_chars, marker, marker_vec, spec_frontmatter};
use crate::tags::{
    dedup_append, dedup_append_vec, extract_tags_chars, is_tags_line, is_tags_line_vec,
    lines_vec, spec_extract_tags, spec_lines, tags_key, tags_key_vec,
};
use crate::text::{
    chars_eq, chars_to_string, extend_vec, find_sub, is_space, lemma_find_sub,
    lemma_find_sub_unique, match_at, str_to_chars, subvec, trim_start_spec,
};

verus! {

broadcast use crate::text::lemma_deep_chars, crate::text::lemma_deep_chars_len,
    crate::text::lemma_deep_strings, crate::text::lemma_deep_strings_len;

/// The tags joined with `", "`, as they appear inside the brackets.
pub open spec fn join_tags(l: Seq<Seq<char>>) -> Seq<char>
    decreases l.len(),
{
    if l.len() == 0 {
        Seq::empty()
    } else if l.len() == 1 {
        l[0]
    } else {
        l[0] + seq![',', ' '] + join_tags(l.drop_first())
    }
}

/// The rewritten tag line: `tags: [t1, t2, ...]`.
pub open spec fn tags_line_of(l: Seq<Seq<char>>) -> Seq<char> {
    tags_key() + seq![' ', '['] + join_tags(l) + seq![']']
}

/// Some line among `ls` is a `tags:` line.
pub open spec fn has_tags_line(ls: Seq<Seq<char>>) -> bool {
    exists|k: int| 0 <= k < ls.len() && is_tags_line(ls[k])
}

/// The front-matter lines rewritten: each `tags:` line replaced by the new
/// tag line, every line terminated by a newline.
pub open spec fn rewrite_fm_lines(ls: Seq<Seq<char>>, l: Seq<Seq<char>>) -> Seq<char>
    decreases ls.len(),
{
    if ls.len() == 0 {
        Seq::empty()
    } else {
        let first = if is_tags_line(ls[0]) {
            tags_line_of(l)
        } else {
            ls[0]
        };
        first + seq!['\n'] + rewrite_fm_lines(ls.drop_first(), l)
    }
}

/// The new front-matter body: rewritten lines, with the tag line appended
/// when none was present.
pub open spec fn new_fm(fm: Seq<char>, l: Seq<Seq<char>>) -> Seq<char> {
    let ls = spec_lines(fm);
    if has_tags_line(ls) {
        rewrite_fm_lines(ls, l)
    } else {
        rewrite_fm_lines(ls, l) + tags_line_of(l) + seq!['\n']
    }
}

/// The document with its tag list replaced by `l`: the front-matter block
/// is rebuilt around the new lines; a document without front matter has a
/// fresh block prepended.
pub open spec fn spec_rewrite_with(s: Seq<char>, l: Seq<Seq<char>>) -> Seq<char> {
    match spec_frontmatter(s) {
        Some(fm) => {
            let start = find_sub(s, marker());
            let e = find_sub(s.skip(start + 3), marker());
            let end = start + e + 6;
            marker() + seq!['\n'] + new_fm(fm, l) + marker() + seq!['\n'] + s.skip(end)
        },
        Option::None => {
            marker() + seq!['\n'] + tags_line_of(l) + seq!['\n'] + marker() + seq!['\n', '\n']
                + s
        },
    }
}

/// Replacing the tag list is a no-op when the list is already exactly the
/// document's tag list.
pub open spec fn spec_rewrite_tags(s: Seq<char>, l: Seq<Seq<char>>) -> Seq<char> {
    if spec_extract_tags(s) == l {
        s
    } else {
        spec_rewrite_with(s, l)
    }
}

/// Adding tags: the union (in order) of the existing tags and the new
/// ones; the content is unchanged when no tag list is given or every given
/// tag is already present.
pub open spec fn spec_add_tags(s: Seq<char>, ts: Seq<Seq<char>>) -> Seq<char> {
    if ts.len() == 0 {
        s
    } else {
        let ex = spec_extract_tags(s);
        let merged = dedup_append(ex, ts);
        if merged == ex {
            s
        } else {
            spec_rewrite_with(s, merged)
        }
    }
}

/// The members of `ex` not listed in `ts`, in order.
pub open spec fn remove_list(ex: Seq<Seq<char>>, ts: Seq<Seq<char>>) -> Seq<Seq<char>>
    decreases ex.len(),
{
    if ex.len() == 0 {
        Seq::empty()
    } else {
        let rest = remove_list(ex.drop_first(), ts);
        if ts.contains(ex[0]) {
            rest
        } else {
            seq![ex[0]] + rest
        }
    }
}

/// Removing tags: the extracted list with the given tags dropped, written
/// back; unchanged when nothing was dropped.
pub open spec fn spec_remove_tags(s: Seq<char>, ts: Seq<Seq<char>>) -> Seq<char> {
    let ex = spec_extract_tags(s);
    let l = remove_list(ex, ts);
    if l == ex {
        s
    } else {
        spec_rewrite_with(s, l)
    }
}

/// `trim_start_spec` drops exactly the leading run of whitespace.
pub proof fn lemma_trim_start_suffix(s: Seq<char>)
    ensures
        exists|k: int|
            0 <= k <= s.len() && trim_start_spec(s) == s.skip(k) && (forall|j: int|
                0 <= j < k ==> is_space(s[j])),
    decreases s.len(),
{
    if s.len() > 0 && is_space(s[0]) {
        lemma_trim_start_suffix(s.drop_first());
        let t = s.drop_first();
        let k0 = choose|k0: int|
            0 <= k0 <= t.len() && trim_start_spec(t) == t.skip(k0) && (forall|j: int|
                0 <= j < k0 ==> is_space(t[j]));
        assert(t.skip(k0) =~= s.skip(k0 + 1));
        assert forall|j: int| 0 <= j < k0 + 1 implies is_space(s[j]) by {
            if j >= 1 {
                assert(is_space(t[j - 1]));
            }
        }
        assert(0 <= k0 + 1 <= s.len() && trim_start_spec(s) == s.skip(k0 + 1) && (forall|j: int|
            0 <= j < k0 + 1 ==> is_space(s[j])));
    } else {
        assert(s.skip(0) =~= s);
        assert(0 <= 0 <= s.len() && trim_start_spec(s) == s.skip(0) && (forall|j: int|
            0 <= j < 0 ==> is_space(s[j])));
    }
}

/// When front matter exists, both `---` markers are located where
/// `spec_rewrite_with` expects them, and the block is what lies between.
pub proof fn lemma_fm_markers(s: Seq<char>)
    requires
        spec_frontmatter(s) is Some,
    ensures
        ({
            let start = find_sub(s, marker());
            let e = find_sub(s.skip(start + 3), marker());
            &&& 0 <= start
            &&& start + 3 <= s.len()
            &&& trim_start_spec(s) == s.skip(start)
            &&& e >= 0
            &&& start + e + 6 <= s.len()
        }),
{
    lemma_trim_start_suffix(s);
    let k = choose|k: int|
        0 <= k <= s.len() && trim_start_spec(s) == s.skip(k) && (forall|j: int|
            0 <= j < k ==> is_space(s[j]));
    let t = trim_start_spec(s);
    assert(t.len() >= 3 && t.take(3) == marker());
    assert(match_at(s, marker(), k)) by {
        assert(s.subrange(k, k + 3) =~= t.take(3));
    }
    assert forall|j: int| 0 <= j < k implies !match_at(s, marker(), j) by {
        if match_at(s, marker(), j) {
            assert(s.subrange(j, j + 3)[0] == s[j]);
            assert(s[j] == '-');
            assert(is_space(s[j]));
        }
    }
    lemma_find_sub_unique(s, marker(), k);
    let start = find_sub(s, marker());
    assert(start == k);
    let rest = t.skip(3);
    assert(rest =~= s.skip(start + 3));
    let i = find_sub(rest, marker());
    lemma_find_sub(rest, marker());
    assert(i >= 0);
    assert(match_at(rest, marker(), i));
}

/// Builds the joined tag text, matching `join_tags`.
pub fn join_tags_vec(l: &Vec<Vec<char>>) -> (r: Vec<char>)
    ensures
        r@ == join_tags(l.deep_view()),
{
    let ghost lv = l.deep_view();
    let mut out: Vec<char> = Vec::new();
    if l.len() == 0 {
        proof {
            assert(out@ =~= join_tags(lv));
        }
        return out;
    }
    let mut i: usize = 0;
    proof {
        assert(lv.skip(0) =~~= lv);
        assert(out@ + join_tags(lv) =~= join_tags(lv));
    }
    while i < l.len() - 1
        invariant
            l@.len() >= 1,
            i <= l@.len() - 1,
            lv == l.deep_view(),
            out@ + join_tags(lv.skip(i as int)) =~= join_tags(lv),
        decreases l@.len() - i,
    {
        proof {
            assert(lv.skip(i as int).len() > 1);
            assert(lv.skip(i as int)[0] == lv[i as int]);
            assert(lv[i as int] == l@[i as int]@);
            assert(lv.skip(i as int).drop_first() =~~= lv.skip(i as int + 1));
        }
        let t = subvec(&l[i], 0, l[i].len());
        proof {
            assert(t@ =~= l@[i as int]@);
        }
        extend_vec(&mut out, &t);
        out.push(',');
        out.push(' ');
        proof {
            assert(out@ + join_tags(lv.skip(i as int + 1)) =~= join_tags(lv));
        }
        i = i + 1;
    }
    proof {
        assert(lv.skip(i as int).len() == 1);
        assert(lv.skip(i as int)[0] == lv[i as int]);
        assert(lv[i as int] == l@[i as int]@);
        assert(join_tags(lv.skip(i as int)) == lv[i as int]);
    }
    let t = subvec(&l[i], 0, l[i].len());
    proof {
        assert(t@ =~= l@[i as int]@);
    }
    extend_vec(&mut out, &t);
    proof {
        assert(out@ =~= join_tags(lv));
    }
    out
}

/// Builds the new `tags:` line, matching `tags_line_of`.
pub fn tags_line_vec(l: &Vec<Vec<char>>) -> (r: Vec<char>)
    ensures
        r@ == tags_line_of(l.deep_view()),
{
    let mut out = tags_key_vec();
    out.push(' ');
    out.push('[');
    let joined = join_tags_vec(l);
    extend_vec(&mut out, &joined);
    out.push(']');
    proof {
        assert(out@ =~= tags_line_of(l.deep_view()));
    }
    out
}

/// Builds the rewritten front-matter body, matching `new_fm`.
pub fn new_fm_vec(fm: &Vec<char>, l: &Vec<Vec<char>>) -> (r: Vec<char>)
    ensures
        r@ == new_fm(fm@, l.deep_view()),
{
    let ls = lines_vec(fm);
    let ghost lsv = ls.deep_view();
    let ghost lv = l.deep_view();
    let mut out: Vec<char> = Vec::new();
    let mut has = false;
    proof {
        assert(lsv.skip(0) =~~= lsv);
        assert(out@ + rewrite_fm_lines(lsv, lv) =~= rewrite_fm_lines(lsv, lv));
        assert(!has_tags_line(lsv.take(0)));
    }
    let mut i: usize = 0;
    while i < ls.len()
        invariant
            i <= ls@.len(),
            lsv == ls.deep_view(),
            lv == l.deep_view(),
            out@ + rewrite_fm_lines(lsv.skip(i as int), lv) == rewrite_fm_lines(lsv, lv),
            has == has_tags_line(lsv.take(i as int)),
        decreases ls@.len() - i,
    {
        let line = &ls[i];
        proof {
            assert(lsv[i as int] == ls@[i as int]@);
            assert(lsv.skip(i as int)[0] == lsv[i as int]);
            assert(lsv.skip(i as int).drop_first() =~~= lsv.skip(i as int + 1));
        }
        let ghost pre = out@;
        if is_tags_line_vec(line) {
            let tl = tags_line_vec(l);
            extend_vec(&mut out, &tl);
            out.push('\n');
            has = true;
            proof {
                assert(out@ =~= pre + tags_line_of(lv) + seq!['\n']);
            }
        } else {
            let c = subvec(line, 0, line.len());
            proof {
                assert(c@ =~= lsv[i as int]);
            }
            extend_vec(&mut out, &c);
            out.push('\n');
            proof {
                assert(out@ =~= pre + lsv[i as int] + seq!['\n']);
            }
        }
        proof {
            assert(out@ + rewrite_fm_lines(lsv.skip(i as int + 1), lv) =~= rewrite_fm_lines(
                lsv,
                lv,
            ));
            assert(has_tags_line(lsv.take(i as int + 1)) == (has_tags_line(lsv.take(i as int))
                || is_tags_line(lsv[i as int]))) by {
                assert(lsv.take(i as int + 1).drop_last() =~~= lsv.take(i as int));
                assert(lsv.take(i as int + 1).last() == lsv[i as int]);
                if has_tags_line(lsv.take(i as int)) {
                    let w = choose|w: int|
                        0 <= w < lsv.take(i as int).len() && #[trigger] is_tags_line(
                            lsv.take(i as int)[w],
                        );
                    assert(is_tags_line(lsv.take(i as int + 1)[w]));
                }
                if is_tags_line(lsv[i as int]) {
                    assert(is_tags_line(lsv.take(i as int + 1)[i as int]));
                }
                if has_tags_line(lsv.take(i as int + 1)) {
                    let w = choose|w: int|
                        0 <= w < lsv.take(i as int + 1).len() && #[trigger] is_tags_line(
                            lsv.take(i as int + 1)[w],
                        );
                    if w < i {
                        assert(is_tags_line(lsv.take(i as int)[w]));
                    }
                }
            }
        }
        i = i + 1;
    }
    proof {
        assert(lsv.skip(ls@.len() as int) =~~= Seq::<Seq<char>>::empty());
        assert(out@ =~= rewrite_fm_lines(lsv, lv));
        assert(lsv.take(ls@.len() as int) =~~= lsv);
    }
    if has == false {
        let tl = tags_line_vec(l);
        extend_vec(&mut out, &tl);
        out.push('\n');
        proof {
            assert(out@ =~= rewrite_fm_lines(lsv, lv) + tags_line_of(lv) + seq!['\n']);
        }
    }
    out
}

/// Rebuilds the document around the tag list `l`, matching
/// `spec_rewrite_with`.
pub fn rewrite_with_vec(v: &Vec<char>, l: &Vec<Vec<char>>) -> (r: Vec<char>)
    ensures
        r@ == spec_rewrite_with(v@, l.deep_view()),
{
    let ghost lv = l.deep_view();
    let m = marker_vec();
    match frontmatter_chars(v) {
        Some(fm) => {
            proof {
                lemma_fm_markers(v@);
                lemma_find_sub(v@, marker());
            }
            let start = crate::text::find_in(v, &m).unwrap();
            let n = v.len();
            proof {
                assert(start as int + 3 <= v@.len());
            }
            let after = subvec(v, start + 3, n);
            proof {
                assert(after@ =~= v@.skip(start as int + 3));
                lemma_find_sub(after@, marker());
            }
            let e = crate::text::find_in(&after, &m).unwrap();
            let end = start + e + 6;
            let mut out = marker_vec();
            out.push('\n');
            let body = new_fm_vec(&fm, l);
            extend_vec(&mut out, &body);
            let m2 = marker_vec();
            extend_vec(&mut out, &m2);
            out.push('\n');
            let tail = subvec(v, end, v.len());
            proof {
                assert(tail@ =~= v@.skip(end as int));
            }
            extend_vec(&mut out, &tail);
            proof {
                assert(out@ =~= spec_rewrite_with(v@, lv));
            }
            out
        },
        Option::None => {
            let mut out = marker_vec();
            out.push('\n');
            let tl = tags_line_vec(l);
            extend_vec(&mut out, &tl);
            out.push('\n');
            let m2 = marker_vec();
            extend_vec(&mut out, &m2);
            out.push('\n');
            out.push('\n');
            let body = subvec(v, 0, v.len());
            proof {
                assert(body@ =~= v@);
            }
            extend_vec(&mut out, &body);
            proof {
                assert(out@ =~= spec_rewrite_with(v@, lv));
            }
            out
        },
    }
}

/// Whether two tag lists hold the same tags in the same order.
pub fn eq_tag_lists(a: &Vec<Vec<char>>, b: &Vec<Vec<char>>) -> (r: bool)
    ensures
        r == (a.deep_view() == b.deep_view()),
{
    if a.len() != b.len() {
        proof {
            assert(a.deep_view().len() != b.deep_view().len());
        }
        return false;
    }
    let mut i: usize = 0;
    while i < a.len()
        invariant
            i <= a@.len(),
            a@.len() == b@.len(),
            forall|j: int| 0 <= j < i ==> a.deep_view()[j] == b.deep_view()[j],
        decreases a@.len() - i,
    {
        if !chars_eq(&a[i], &b[i]) {
            proof {
                assert(a.deep_view()[i as int] != b.deep_view()[i as int]);
            }
            return false;
        }
        proof {
            assert(a.deep_view()[i as int] == b.deep_view()[i as int]);
        }
        i = i + 1;
    }
    proof {
        assert(a.deep_view() =~~= b.deep_view());
    }
    true
}

/// Converts a list of strings to a list of character vectors with the same
/// deep view.
pub fn strings_to_char_lists(ts: &Vec<String>) -> (r: Vec<Vec<char>>)
    ensures
        r.deep_view() == ts.deep_view(),
{
    let mut r: Vec<Vec<char>> = Vec::new();
    let mut i: usize = 0;
    while i < ts.len()
        invariant
            i <= ts@.len(),
            r@.len() == i,
            forall|j: int| 0 <= j < i ==> (#[trigger] r@[j])@ == ts@[j]@,
        decreases ts@.len() - i,
    {
        let v = str_to_chars(ts[i].as_str());
        r.push(v);
        i = i + 1;
    }
    proof {
        assert(r.deep_view() =~~= ts.deep_view());
    }
    r
}

/// Rewrites the document's tag list to exactly `tags`: the front-matter
/// `tags:` line is replaced (or appended, or a front-matter block created);
/// the content is returned unchanged when its tag list already equals
/// `tags`.
pub fn rewrite_tags(content: &str, tags: &Vec<String>) -> (r: String)
    ensures
        r@ == spec_rewrite_tags(content@, tags.deep_view()),
{
    let v = str_to_chars(content);
    let l = strings_to_char_lists(tags);
    let ex = extract_tags_chars(&v);
    if eq_tag_lists(&ex, &l) {
        let out = subvec(&v, 0, v.len());
        proof {
            assert(out@ =~= v@);
        }
        chars_to_string(&out)
    } else {
        let out = rewrite_with_vec(&v, &l);
        chars_to_string(&out)
    }
}

/// Adds the given tags to the document's tag list, skipping tags already
/// present; the content is returned unchanged when there is nothing to
/// add.
pub fn add_tags_to_content(content: &str, tags: &Vec<String>) -> (r: String)
    ensures
        r@ == spec_add_tags(content@, tags.deep_view()),
{
    let v = str_to_chars(content);
    if tags.len() == 0 {
        proof {
            assert(tags.deep_view().len() == 0);
        }
        let out = subvec(&v, 0, v.len());
        proof {
            assert(out@ =~= v@);
        }
        return chars_to_string(&out);
    }
    let ts = strings_to_char_lists(tags);
    let ex = extract_tags_chars(&v);
    let mut merged: Vec<Vec<char>> = Vec::new();
    let mut i: usize = 0;
    while i < ex.len()
        invariant
            i <= ex@.len(),
            merged@.len() == i,
            forall|j: int| 0 <= j < i ==> (#[trigger] merged@[j])@ == ex@[j]@,
        decreases ex@.len() - i,
    {
        let t = subvec(&ex[i], 0, ex[i].len());
        proof {
            assert(t@ =~= ex@[i as int]@);
        }
        merged.push(t);
        i = i + 1;
    }
    proof {
        assert(merged.deep_view() =~~= ex.deep_view());
    }
    dedup_append_vec(&mut merged, &ts);
    if eq_tag_lists(&merged, &ex) {
        let out = subvec(&v, 0, v.len());
        proof {
            assert(out@ =~= v@);
        }
        chars_to_string(&out)
    } else {
        let out = rewrite_with_vec(&v, &merged);
        chars_to_string(&out)
    }
}

/// Removes the listed tags (exact, case-sensitive matches) from the
/// document's tag list; the content is returned unchanged when none of
/// them was present.
pub fn remove_tags_from_content(content: &str, tags: &Vec<String>) -> (r: String)
    ensures
        r@ == spec_remove_tags(content@, tags.deep_view()),
{
    let v = str_to_chars(content);
    let ts = strings_to_char_lists(tags);
    let ex = extract_tags_chars(&v);
    let ghost exv = ex.deep_view();
    let ghost tsv = ts.deep_view();
    let mut kept: Vec<Vec<char>> = Vec::new();
    proof {
        assert(exv.skip(0) =~~= exv);
        assert(kept.deep_view() + remove_list(exv, tsv) =~~= remove_list(exv, tsv));
    }
    let mut i: usize = 0;
    while i < ex.len()
        invariant
            i <= ex@.len(),
            exv == ex.deep_view(),
            tsv == ts.deep_view(),
            kept.deep_view() + remove_list(exv.skip(i as int), tsv) == remove_list(exv, tsv),
        decreases ex@.len() - i,
    {
        let ghost pre = kept.deep_view();
        proof {
            assert(exv[i as int] == ex@[i as int]@);
            assert(exv.skip(i as int)[0] == exv[i as int]);
            assert(exv.skip(i as int).drop_first() =~~= exv.skip(i as int + 1));
        }
        let t = subvec(&ex[i], 0, ex[i].len());
        proof {
            assert(t@ =~= ex@[i as int]@);
        }
        if !crate::tags::contains_tag(&ts, &t) {
            kept.push(t);
            proof {
                assert(kept.deep_view() =~~= pre.push(t@));
            }
        }
        proof {
            assert(kept.deep_view() + remove_list(exv.skip(i as int + 1), tsv) =~~= remove_list(
                exv,
                tsv,
            ));
        }
        i = i + 1;
    }
    proof {
        assert(exv.skip(ex@.len() as int) =~~= Seq::<Seq<char>>::empty());
        assert(kept.deep_view() =~~= remove_list(exv, tsv));
    }
    if eq_tag_lists(&kept, &ex) {
        let out = subvec(&v, 0, v.len());
        proof {
            assert(out@ =~= v@);
        }
        chars_to_string(&out)
    } else {
        let out = rewrite_with_vec(&v, &kept);
        chars_to_string(&out)
    }
}

} // verus!
