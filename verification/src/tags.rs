//! Tag extraction: a document's tags come from the last `tags:` line of its
//! front matter, followed by inline `#word` markers found anywhere in the
//! content, deduplicated in first-occurrence order.

use vstd::prelude::*;

use crate::frontmatter::{frontmatter_chars, spec_frontmatter};
use crate::text::{
    chars_eq, chars_to_string, char_is_word, is_word_char, matches_at, split_on, split_on_vec,
    str_to_chars, subvec, tokens, tokens_vec, trim_spec, trim_vec,
};

verus! {

broadcast use crate::text::lemma_deep_chars, crate::text::lemma_deep_chars_len,
    crate::text::lemma_deep_strings, crate::text::lemma_deep_strings_len;

/// The key that introduces a tag list in the front matter.
pub open spec fn tags_key() -> Seq<char> {
    seq!['t', 'a', 'g', 's', ':']
}

/// A line of `\n`-split text without a trailing carriage return.
pub open spec fn strip_cr(p: Seq<char>) -> Seq<char> {
    if p.len() > 0 && p.last() == '\r' {
        p.drop_last()
    } else {
        p
    }
}

/// The lines of `s`: split on `\n`, trailing `\r` removed from each line,
/// and no final empty line when `s` ends with a newline (or is empty).
pub open spec fn spec_lines(s: Seq<char>) -> Seq<Seq<char>> {
    let ps = split_on(s, '\n');
    let qs = if ps.len() > 0 && ps.last().len() == 0 {
        ps.drop_last()
    } else {
        ps
    };
    qs.map_values(|p: Seq<char>| strip_cr(p))
}

/// Whether the trimmed line starts with `tags:`.
pub open spec fn is_tags_line(line: Seq<char>) -> bool {
    let t = trim_spec(line);
    t.len() >= 5 && t.take(5) == tags_key()
}

/// The trimmed remainder of a `tags:` line after the key.
pub open spec fn tags_rest(line: Seq<char>) -> Seq<char> {
    trim_spec(trim_spec(line).skip(5))
}

/// The remainder of the last `tags:` line among `ls`, if any.
pub open spec fn last_tags_rest(ls: Seq<Seq<char>>) -> Option<Seq<char>>
    decreases ls.len(),
{
    if ls.len() == 0 {
        Option::None
    } else if is_tags_line(ls.last()) {
        Some(tags_rest(ls.last()))
    } else {
        last_tags_rest(ls.drop_last())
    }
}

/// The items of a bracketed tag list: comma-separated pieces, trimmed,
/// empty pieces dropped.
pub open spec fn comma_items(ps: Seq<Seq<char>>) -> Seq<Seq<char>>
    decreases ps.len(),
{
    if ps.len() == 0 {
        Seq::empty()
    } else {
        let t = trim_spec(ps[0]);
        let rest = comma_items(ps.drop_first());
        if t.len() > 0 {
            seq![t] + rest
        } else {
            rest
        }
    }
}

/// Parses the remainder of a `tags:` line: either a bracketed
/// comma-separated list or a whitespace-separated list.
pub open spec fn parse_rest(rest: Seq<char>) -> Seq<Seq<char>> {
    if rest.len() >= 2 && rest[0] == '[' && rest.last() == ']' {
        comma_items(split_on(rest.subrange(1, rest.len() - 1), ','))
    } else {
        tokens(rest)
    }
}

/// The tag list contributed by the front matter of `s`.
pub open spec fn fm_tag_list(s: Seq<char>) -> Seq<Seq<char>> {
    match spec_frontmatter(s) {
        Some(fm) => match last_tags_rest(spec_lines(fm)) {
            Some(rest) => parse_rest(rest),
            Option::None => Seq::empty(),
        },
        Option::None => Seq::empty(),
    }
}

/// Appends the members of `l` to `acc`, skipping those already present.
pub open spec fn dedup_append(acc: Seq<Seq<char>>, l: Seq<Seq<char>>) -> Seq<Seq<char>>
    decreases l.len(),
{
    if l.len() == 0 {
        acc
    } else {
        let acc2 = if acc.contains(l[0]) {
            acc
        } else {
            acc.push(l[0])
        };
        dedup_append(acc2, l.drop_first())
    }
}

/// Drops trailing non-alphanumeric characters.
pub open spec fn strip_nonword_end(t: Seq<char>) -> Seq<char>
    decreases t.len(),
{
    if t.len() > 0 && !is_word_char(t.last()) {
        strip_nonword_end(t.drop_last())
    } else {
        t
    }
}

/// The tag contributed by one whitespace-separated word, if any: words of
/// two or more characters starting with `#`, with the leading `#` and any
/// trailing non-alphanumeric characters removed.
pub open spec fn inline_candidate(tok: Seq<char>) -> Option<Seq<char>> {
    if tok.len() > 1 && tok[0] == '#' {
        let tag = strip_nonword_end(tok.drop_first());
        if tag.len() > 0 {
            Some(tag)
        } else {
            Option::None
        }
    } else {
        Option::None
    }
}

/// Folds the inline candidates of `toks` into `acc`, skipping duplicates.
pub open spec fn add_inline(acc: Seq<Seq<char>>, toks: Seq<Seq<char>>) -> Seq<Seq<char>>
    decreases toks.len(),
{
    if toks.len() == 0 {
        acc
    } else {
        let acc2 = match inline_candidate(toks[0]) {
            Some(t) => if acc.contains(t) {
                acc
            } else {
                acc.push(t)
            },
            Option::None => acc,
        };
        add_inline(acc2, toks.drop_first())
    }
}

/// The full tag list of a document: front-matter tags first, then inline
/// tags in content order, deduplicated on exact match.
pub open spec fn spec_extract_tags(s: Seq<char>) -> Seq<Seq<char>> {
    add_inline(dedup_append(Seq::empty(), fm_tag_list(s)), tokens(s))
}

/// Builds the `tags:` key as a character vector.
pub fn tags_key_vec() -> (r: Vec<char>)
    ensures
        r@ == tags_key(),
{
    let mut r: Vec<char> = Vec::new();
    r.push('t');
    r.push('a');
    r.push('g');
    r.push('s');
    r.push(':');
    proof {
        assert(r@ =~= tags_key());
    }
    r
}

/// The lines of `v`, matching `spec_lines`.
pub fn lines_vec(v: &Vec<char>) -> (r: Vec<Vec<char>>)
    ensures
        r.deep_view() == spec_lines(v@),
{
    let ps = split_on_vec(v, '\n');
    let mut qs = ps;
    if qs.len() > 0 && qs[qs.len() - 1].len() == 0 {
        proof {
            assert(qs.deep_view().last().len() == 0);
        }
        qs.pop();
    }
    let ghost mid = qs.deep_view();
    proof {
        let ps0 = split_on(v@, '\n');
        if ps0.len() > 0 && ps0.last().len() == 0 {
            assert(mid =~~= ps0.drop_last());
        }
    }
    let mut r: Vec<Vec<char>> = Vec::new();
    let mut i: usize = 0;
    while i < qs.len()
        invariant
            i <= qs@.len(),
            mid == qs.deep_view(),
            r@.len() == i,
            forall|j: int| 0 <= j < i ==> (#[trigger] r@[j])@ == strip_cr(mid[j]),
        decreases qs@.len() - i,
    {
        let line = &qs[i];
        proof {
            assert(mid[i as int] == qs@[i as int]@);
        }
        let n = line.len();
        if n > 0 && line[n - 1] == '\r' {
            let c = subvec(line, 0, n - 1);
            proof {
                assert(c@ =~= line@.drop_last());
                assert(c@ == strip_cr(mid[i as int]));
            }
            r.push(c);
        } else {
            let c = subvec(line, 0, n);
            proof {
                assert(c@ =~= line@);
                assert(c@ == strip_cr(mid[i as int]));
            }
            r.push(c);
        }
        i = i + 1;
    }
    proof {
        assert(r.deep_view() =~~= spec_lines(v@));
    }
    r
}

/// Whether the trimmed line starts with `tags:`, matching `is_tags_line`.
pub fn is_tags_line_vec(line: &Vec<char>) -> (r: bool)
    ensures
        r == is_tags_line(line@),
{
    let t = trim_vec(line);
    let key = tags_key_vec();
    if t.len() < 5 {
        return false;
    }
    let m = matches_at(&t, &key, 0);
    proof {
        assert(t@.subrange(0, 5) =~= t@.take(5));
    }
    m
}

/// The trimmed remainder of a `tags:` line, matching `tags_rest`.
pub fn tags_rest_vec(line: &Vec<char>) -> (r: Vec<char>)
    requires
        is_tags_line(line@),
    ensures
        r@ == tags_rest(line@),
{
    let t = trim_vec(line);
    let rest = subvec(&t, 5, t.len());
    proof {
        assert(rest@ =~= trim_spec(line@).skip(5));
    }
    trim_vec(&rest)
}

/// Whether `acc` already holds the tag `t`.
pub fn contains_tag(acc: &Vec<Vec<char>>, t: &Vec<char>) -> (r: bool)
    ensures
        r == acc.deep_view().contains(t@),
{
    let mut i: usize = 0;
    while i < acc.len()
        invariant
            i <= acc@.len(),
            forall|j: int| 0 <= j < i ==> #[trigger] acc.deep_view()[j] != t@,
        decreases acc@.len() - i,
    {
        if chars_eq(&acc[i], t) {
            proof {
                assert(acc.deep_view()[i as int] == t@);
            }
            return true;
        }
        i = i + 1;
    }
    proof {
        if acc.deep_view().contains(t@) {
            let j = choose|j: int| 0 <= j < acc.deep_view().len() && acc.deep_view()[j] == t@;
            assert(acc.deep_view()[j] != t@);
        }
    }
    false
}

/// Whether the string list `acc` already holds the text `t`.
pub fn contains_tag_strings(acc: &Vec<String>, t: &Vec<char>) -> (r: bool)
    ensures
        r == acc.deep_view().contains(t@),
{
    let mut i: usize = 0;
    while i < acc.len()
        invariant
            i <= acc@.len(),
            forall|j: int| 0 <= j < i ==> #[trigger] acc.deep_view()[j] != t@,
        decreases acc@.len() - i,
    {
        let av = str_to_chars(acc[i].as_str());
        proof {
            assert(av@ == acc.deep_view()[i as int]);
        }
        if chars_eq(&av, t) {
            proof {
                assert(acc.deep_view()[i as int] == t@);
            }
            return true;
        }
        i = i + 1;
    }
    proof {
        if acc.deep_view().contains(t@) {
            let j = choose|j: int| 0 <= j < acc.deep_view().len() && acc.deep_view()[j] == t@;
            assert(acc.deep_view()[j] != t@);
        }
    }
    false
}

/// Parses the remainder of a `tags:` line, matching `parse_rest`.
pub fn parse_rest_vec(rest: &Vec<char>) -> (r: Vec<Vec<char>>)
    ensures
        r.deep_view() == parse_rest(rest@),
{
    let n = rest.len();
    if n >= 2 && rest[0] == '[' && rest[n - 1] == ']' {
        let inner = subvec(rest, 1, n - 1);
        proof {
            assert(inner@ =~= rest@.subrange(1, rest@.len() - 1));
        }
        let ps = split_on_vec(&inner, ',');
        let ghost pview = ps.deep_view();
        let mut r: Vec<Vec<char>> = Vec::new();
        proof {
            assert(pview.skip(0) =~~= pview);
            assert(r.deep_view() + comma_items(pview) =~~= comma_items(pview));
        }
        let mut i: usize = 0;
        while i < ps.len()
            invariant
                i <= ps@.len(),
                pview == ps.deep_view(),
                r.deep_view() + comma_items(pview.skip(i as int)) =~~= comma_items(pview),
            decreases ps@.len() - i,
        {
            let ghost pre = r.deep_view();
            let t = trim_vec(&ps[i]);
            proof {
                assert(pview[i as int] == ps@[i as int]@);
                assert(pview.skip(i as int)[0] == pview[i as int]);
                assert(pview.skip(i as int).drop_first() =~~= pview.skip(i as int + 1));
            }
            if t.len() > 0 {
                r.push(t);
                proof {
                    assert(r.deep_view() =~~= pre.push(t@));
                }
            }
            i = i + 1;
            proof {
                assert(r.deep_view() + comma_items(pview.skip(i as int)) =~~= comma_items(
                    pview,
                ));
            }
        }
        proof {
            assert(pview.skip(ps@.len() as int) =~~= Seq::<Seq<char>>::empty());
            assert(r.deep_view() =~~= comma_items(pview));
        }
        r
    } else {
        let r = tokens_vec(rest);
        r
    }
}

/// Strips trailing non-alphanumeric characters, matching `strip_nonword_end`.
pub fn strip_nonword_end_vec(t: &Vec<char>) -> (r: Vec<char>)
    ensures
        r@ == strip_nonword_end(t@),
{
    let mut b = t.len();
    proof {
        assert(t@.take(t@.len() as int) =~= t@);
    }
    while b > 0 && !char_is_word(t[b - 1])
        invariant
            b <= t@.len(),
            strip_nonword_end(t@) == strip_nonword_end(t@.take(b as int)),
        decreases b,
    {
        proof {
            assert(t@.take(b as int).last() == t@[b - 1]);
            assert(t@.take(b as int).drop_last() =~= t@.take(b as int - 1));
        }
        b = b - 1;
    }
    let r = subvec(t, 0, b);
    proof {
        if b > 0 {
            assert(t@.take(b as int).last() == t@[b - 1]);
        }
        assert(strip_nonword_end(t@.take(b as int)) == t@.take(b as int));
        assert(r@ =~= t@.take(b as int));
    }
    r
}

/// Pushes the inline candidates of the words `toks` onto `acc`, skipping
/// duplicates, matching `add_inline`.
pub fn add_inline_vec(acc: &mut Vec<Vec<char>>, toks: &Vec<Vec<char>>)
    ensures
        final(acc).deep_view() == add_inline(old(acc).deep_view(), toks.deep_view()),
{
    let ghost toksv = toks.deep_view();
    let ghost orig = old(acc).deep_view();
    proof {
        assert(toksv.skip(0) =~~= toksv);
    }
    let mut i: usize = 0;
    while i < toks.len()
        invariant
            i <= toks@.len(),
            toksv == toks.deep_view(),
            add_inline(acc.deep_view(), toksv.skip(i as int)) =~~= add_inline(
                orig,
                toksv,
            ),
        decreases toks@.len() - i,
    {
        let tok = &toks[i];
        let ghost pre = acc.deep_view();
        proof {
            assert(toksv[i as int] == toks@[i as int]@);
            assert(toksv.skip(i as int)[0] == toksv[i as int]);
            assert(toksv.skip(i as int).drop_first() =~~= toksv.skip(i as int + 1));
        }
        if tok.len() > 1 && tok[0] == '#' {
            let bare = subvec(tok, 1, tok.len());
            proof {
                assert(bare@ =~= tok@.drop_first());
            }
            let tag = strip_nonword_end_vec(&bare);
            if tag.len() > 0 {
                if !contains_tag(acc, &tag) {
                    acc.push(tag);
                    proof {
                        assert(acc.deep_view() =~~= pre.push(tag@));
                    }
                }
            } else {
                proof {
                    assert(inline_candidate(toksv[i as int]) is None);
                }
            }
        }
        proof {
            assert(add_inline(pre, toksv.skip(i as int)) == add_inline(
                acc.deep_view(),
                toksv.skip(i as int + 1),
            ));
        }
        i = i + 1;
    }
    proof {
        assert(toksv.skip(toks@.len() as int) =~~= Seq::<Seq<char>>::empty());
    }
}

/// The tag list of the front matter of `v`, matching `fm_tag_list`.
pub fn fm_tag_list_vec(v: &Vec<char>) -> (r: Vec<Vec<char>>)
    ensures
        r.deep_view() == fm_tag_list(v@),
{
    match frontmatter_chars(v) {
        Some(fm) => {
            let ls = lines_vec(&fm);
            let ghost lview = ls.deep_view();
            let mut k = ls.len();
            proof {
                assert(lview.take(ls@.len() as int) =~~= lview);
            }
            loop
                invariant
                    k <= ls@.len(),
                    lview == ls.deep_view(),
                    last_tags_rest(lview) == last_tags_rest(lview.take(k as int)),
                ensures
                    (k == 0 && last_tags_rest(lview) is None) || (k > 0 && is_tags_line(
                        lview[k as int - 1],
                    ) && last_tags_rest(lview) == Some(tags_rest(lview[k as int - 1]))),
                decreases k,
            {
                if k == 0 {
                    proof {
                        assert(lview.take(0) =~~= Seq::<Seq<char>>::empty());
                    }
                    break;
                }
                let line = &ls[k - 1];
                proof {
                    assert(lview.take(k as int).last() == lview[k as int - 1]);
                    assert(lview.take(k as int).drop_last() =~~= lview.take(k as int - 1));
                }
                if is_tags_line_vec(line) {
                    break;
                }
                k = k - 1;
            }
            if k == 0 {
                let r: Vec<Vec<char>> = Vec::new();
                proof {
                    assert(r.deep_view() =~~= fm_tag_list(v@));
                }
                r
            } else {
                let rest = tags_rest_vec(&ls[k - 1]);
                let r = parse_rest_vec(&rest);
                r
            }
        },
        Option::None => {
            let r: Vec<Vec<char>> = Vec::new();
            proof {
                assert(r.deep_view() =~~= fm_tag_list(v@));
            }
            r
        },
    }
}

/// Appends the members of `l` not already present, matching `dedup_append`.
pub fn dedup_append_vec(acc: &mut Vec<Vec<char>>, l: &Vec<Vec<char>>)
    ensures
        final(acc).deep_view() == dedup_append(old(acc).deep_view(), l.deep_view()),
{
    let ghost lv = l.deep_view();
    let ghost orig = old(acc).deep_view();
    proof {
        assert(lv.skip(0) =~~= lv);
    }
    let mut i: usize = 0;
    while i < l.len()
        invariant
            i <= l@.len(),
            lv == l.deep_view(),
            dedup_append(acc.deep_view(), lv.skip(i as int)) =~~= dedup_append(orig, lv),
        decreases l@.len() - i,
    {
        let ghost pre = acc.deep_view();
        proof {
            assert(lv[i as int] == l@[i as int]@);
            assert(lv.skip(i as int)[0] == lv[i as int]);
            assert(lv.skip(i as int).drop_first() =~~= lv.skip(i as int + 1));
        }
        let t = subvec(&l[i], 0, l[i].len());
        proof {
            assert(t@ =~= l@[i as int]@);
        }
        if !contains_tag(acc, &t) {
            acc.push(t);
            proof {
                assert(acc.deep_view() =~~= pre.push(t@));
            }
        }
        proof {
            assert(dedup_append(pre, lv.skip(i as int)) == dedup_append(
                acc.deep_view(),
                lv.skip(i as int + 1),
            ));
        }
        i = i + 1;
    }
    proof {
        assert(lv.skip(l@.len() as int) =~~= Seq::<Seq<char>>::empty());
    }
}

/// The full tag list of `v`, matching `spec_extract_tags`.
pub fn extract_tags_chars(v: &Vec<char>) -> (r: Vec<Vec<char>>)
    ensures
        r.deep_view() == spec_extract_tags(v@),
{
    let fm_list = fm_tag_list_vec(v);
    let mut acc: Vec<Vec<char>> = Vec::new();
    proof {
        assert(acc.deep_view() =~~= Seq::<Seq<char>>::empty());
    }
    dedup_append_vec(&mut acc, &fm_list);
    let toks = tokens_vec(v);
    add_inline_vec(&mut acc, &toks);
    acc
}

/// Extracts the tags of a document: front-matter tags from the last
/// `tags:` line (bracketed or whitespace-separated), then inline `#word`
/// markers in content order, deduplicated on exact match.
pub fn extract_tags_from_content(content: &str) -> (r: Vec<String>)
    ensures
        r.deep_view() == spec_extract_tags(content@),
{
    let v = str_to_chars(content);
    let list = extract_tags_chars(&v);
    let mut r: Vec<String> = Vec::new();
    let mut i: usize = 0;
    while i < list.len()
        invariant
            i <= list@.len(),
            r@.len() == i,
            forall|j: int| 0 <= j < i ==> (#[trigger] r@[j])@ == list@[j]@,
        decreases list@.len() - i,
    {
        let s = chars_to_string(&list[i]);
        r.push(s);
        i = i + 1;
    }
    proof {
        assert(r.deep_view() =~~= list.deep_view());
    }
    r
}

} // verus!
