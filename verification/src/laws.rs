//! The laws of the tag pipeline: rewriting a document's tag list and
//! extracting it again returns that list, and adding tags twice changes
//! nothing after the first application. The supporting lemmas relate
//! trimming, line splitting and list parsing to the rewritten block.

use vstd::prelude::*;

use crate::frontmatter::{marker, no_marker, spec_frontmatter};
use crate::text::{
    find_char, find_sub, is_space, lemma_find_char, lemma_find_char_unique, lemma_find_sub,
    lemma_find_sub_unique, match_at, no_char, split_on, tokens, trim_end_spec, trim_spec,
    trim_start_spec,
};

verus! {

/// A character absent from `s` is absent from any suffix.
proof fn lemma_no_char_skip(s: Seq<char>, c: char, k: int)
    requires
        no_char(s, c),
        0 <= k <= s.len(),
    ensures
        no_char(s.skip(k), c),
{
    assert forall|j: int| 0 <= j < s.skip(k).len() implies s.skip(k)[j] != c by {
        assert(s.skip(k)[j] == s[k + j]);
    }
}

/// A character absent from `s` is absent from any prefix.
proof fn lemma_no_char_take(s: Seq<char>, c: char, k: int)
    requires
        no_char(s, c),
        0 <= k <= s.len(),
    ensures
        no_char(s.take(k), c),
{
    assert forall|j: int| 0 <= j < s.take(k).len() implies s.take(k)[j] != c by {
        assert(s.take(k)[j] == s[j]);
    }
}

/// A character absent from both halves is absent from the whole.
proof fn lemma_no_char_concat(a: Seq<char>, b: Seq<char>, c: char)
    requires
        no_char(a, c),
        no_char(b, c),
    ensures
        no_char(a + b, c),
{
    assert forall|j: int| 0 <= j < (a + b).len() implies (a + b)[j] != c by {
        if j < a.len() {
            assert((a + b)[j] == a[j]);
        } else {
            assert((a + b)[j] == b[j - a.len()]);
        }
    }
}

/// The `---` marker is absent from any suffix of a marker-free text.
proof fn lemma_no_marker_skip(s: Seq<char>, k: int)
    requires
        no_marker(s),
        0 <= k <= s.len(),
    ensures
        no_marker(s.skip(k)),
{
    assert forall|i: int| !match_at(s.skip(k), marker(), i) by {
        if match_at(s.skip(k), marker(), i) {
            assert(s.subrange(k + i, k + i + 3) =~= s.skip(k).subrange(i, i + 3));
            assert(match_at(s, marker(), k + i));
        }
    }
}

/// The `---` marker is absent from any prefix of a marker-free text.
proof fn lemma_no_marker_take(s: Seq<char>, k: int)
    requires
        no_marker(s),
        0 <= k <= s.len(),
    ensures
        no_marker(s.take(k)),
{
    assert forall|i: int| !match_at(s.take(k), marker(), i) by {
        if match_at(s.take(k), marker(), i) {
            assert(s.subrange(i, i + 3) =~= s.take(k).subrange(i, i + 3));
            assert(match_at(s, marker(), i));
        }
    }
}

/// Concatenation brings in no marker unless a dash run crosses the seam.
proof fn lemma_no_marker_concat(a: Seq<char>, b: Seq<char>)
    requires
        no_marker(a),
        no_marker(b),
        a.len() > 0 && b.len() > 0 ==> !(a.last() == '-' && b[0] == '-'),
    ensures
        no_marker(a + b),
{
    let s = a + b;
    assert forall|i: int| !match_at(s, marker(), i) by {
        if match_at(s, marker(), i) {
            assert(forall|m: int|
                0 <= m < 3 ==> #[trigger] s.subrange(i, i + 3)[m] == marker()[m]);
            assert(s[i] == '-' && s[i + 1] == '-' && s[i + 2] == '-');
            if i + 3 <= a.len() {
                assert(a.subrange(i, i + 3) =~= s.subrange(i, i + 3));
                assert(match_at(a, marker(), i));
            } else if i >= a.len() {
                assert(b.subrange(i - a.len(), i - a.len() + 3) =~= s.subrange(i, i + 3));
                assert(match_at(b, marker(), i - a.len()));
            } else {
                // the match straddles the seam: both sides end and begin
                // with a dash
                assert(a.len() > 0 && b.len() > 0);
                assert(i <= a.len() - 1 < i + 3);
                assert(i <= a.len() < i + 3);
                assert(s[a.len() - 1] == a.last());
                assert(s[a.len() as int] == b[0]);
                assert(a.last() == '-' && b[0] == '-');
            }
        }
    }
}

/// `trim_end_spec` keeps a prefix of the text.
proof fn lemma_trim_end_is_prefix(s: Seq<char>)
    ensures
        trim_end_spec(s).len() <= s.len(),
        trim_end_spec(s) == s.take(trim_end_spec(s).len() as int),
    decreases s.len(),
{
    if s.len() > 0 && is_space(s.last()) {
        let t = s.drop_last();
        lemma_trim_end_is_prefix(t);
        assert(t.take(trim_end_spec(t).len() as int) =~= s.take(trim_end_spec(t).len() as int));
    } else {
        assert(s.take(s.len() as int) =~= s);
    }
}

/// A character absent from the text is absent from its trimmed form.
proof fn lemma_no_char_trim(s: Seq<char>, c: char)
    requires
        no_char(s, c),
    ensures
        no_char(trim_spec(s), c),
{
    crate::rewrite::lemma_trim_start_suffix(s);
    let k = choose|k: int|
        0 <= k <= s.len() && trim_start_spec(s) == s.skip(k) && (forall|j: int|
            0 <= j < k ==> is_space(s[j]));
    lemma_no_char_skip(s, c, k);
    let t = trim_start_spec(s);
    lemma_trim_end_is_prefix(t);
    lemma_no_char_take(t, c, trim_end_spec(t).len() as int);
}

/// A marker absent from the text is absent from its trimmed form.
proof fn lemma_no_marker_trim(s: Seq<char>)
    requires
        no_marker(s),
    ensures
        no_marker(trim_spec(s)),
{
    crate::rewrite::lemma_trim_start_suffix(s);
    let k = choose|k: int|
        0 <= k <= s.len() && trim_start_spec(s) == s.skip(k) && (forall|j: int|
            0 <= j < k ==> is_space(s[j]));
    lemma_no_marker_skip(s, k);
    let t = trim_start_spec(s);
    lemma_trim_end_is_prefix(t);
    lemma_no_marker_take(t, trim_end_spec(t).len() as int);
}

/// Trimming fixes a text whose ends are not whitespace.
proof fn lemma_trim_stable(t: Seq<char>)
    requires
        t.len() > 0 ==> !is_space(t[0]) && !is_space(t.last()),
    ensures
        trim_spec(t) == t,
{
}

/// Trimming sees through a leading whitespace character.
proof fn lemma_trim_cons_space(c: char, x: Seq<char>)
    requires
        is_space(c),
    ensures
        trim_spec(seq![c] + x) == trim_spec(x),
{
    assert((seq![c] + x).drop_first() =~= x);
}

/// Trimming sees through a trailing whitespace character.
proof fn lemma_trim_snoc_space(x: Seq<char>, c: char)
    requires
        is_space(c),
    ensures
        trim_spec(x.push(c)) == trim_spec(x),
    decreases x.len(),
{
    let s = x.push(c);
    if x.len() == 0 {
        assert(s.drop_first() =~= Seq::<char>::empty());
        assert(trim_start_spec(Seq::<char>::empty()) == Seq::<char>::empty());
        assert(trim_start_spec(s) == Seq::<char>::empty());
    } else if is_space(x[0]) {
        assert(s.drop_first() =~= x.drop_first().push(c));
        lemma_trim_snoc_space(x.drop_first(), c);
    } else {
        assert(trim_start_spec(s) == s);
        assert(trim_start_spec(x) == x);
        assert(s.drop_last() =~= x);
        assert(trim_end_spec(s) == trim_end_spec(x));
    }
}


/// The items of an empty piece list.
proof fn lemma_ci_empty()
    ensures
        crate::tags::comma_items(Seq::<Seq<char>>::empty()) == Seq::<Seq<char>>::empty(),
{
}

/// The items of a single piece.
proof fn lemma_ci_single(x: Seq<char>)
    ensures
        crate::tags::comma_items(seq![x]) == (if trim_spec(x).len() > 0 {
            seq![trim_spec(x)]
        } else {
            Seq::<Seq<char>>::empty()
        }),
{
    lemma_ci_empty();
    assert(seq![x].drop_first() =~~= Seq::<Seq<char>>::empty());
    if trim_spec(x).len() > 0 {
        assert(crate::tags::comma_items(seq![x]) =~~= seq![trim_spec(x)]);
    } else {
        assert(crate::tags::comma_items(seq![x]) =~~= Seq::<Seq<char>>::empty());
    }
}

/// Splitting after a prepended non-separator extends the first piece.
proof fn lemma_split_cons(c: char, x: Seq<char>, sep: char)
    requires
        c != sep,
    ensures
        split_on(seq![c] + x, sep) == seq![seq![c] + split_on(x, sep)[0]] + split_on(
            x,
            sep,
        ).drop_first(),
{
    let s = seq![c] + x;
    lemma_find_char(x, sep);
    let i = find_char(x, sep);
    if i >= 0 {
        assert(s[i + 1] == x[i]);
        assert forall|j: int| 0 <= j < i + 1 implies s[j] != sep by {
            if j >= 1 {
                assert(s[j] == x[j - 1]);
            }
        }
        lemma_find_char_unique(s, sep, i + 1);
        assert(s.take(i + 1) =~= seq![c] + x.take(i));
        assert(s.skip(i + 2) =~= x.skip(i + 1));
        assert(split_on(s, sep) =~~= seq![seq![c] + x.take(i)] + split_on(x.skip(i + 1), sep));
        assert(split_on(x, sep) =~~= seq![x.take(i)] + split_on(x.skip(i + 1), sep));
        assert(seq![x.take(i)].drop_first() =~~= Seq::<Seq<char>>::empty());
        assert(split_on(x, sep).drop_first() =~~= split_on(x.skip(i + 1), sep));
        assert(seq![seq![c] + x.take(i)] + split_on(x.skip(i + 1), sep) =~~= seq![seq![c]
            + split_on(x, sep)[0]] + split_on(x, sep).drop_first());
    } else {
        assert forall|j: int| 0 <= j < s.len() implies s[j] != sep by {
            if j >= 1 {
                assert(s[j] == x[j - 1]);
            }
        }
        lemma_find_char(s, sep);
        if find_char(s, sep) >= 0 {
            assert(s[find_char(s, sep)] == sep);
        }
        assert(split_on(s, sep) =~~= seq![s]);
        assert(split_on(x, sep) =~~= seq![x]);
        assert(seq![s] =~~= seq![seq![c] + split_on(x, sep)[0]] + split_on(x, sep).drop_first());
    }
}

/// Splitting after an appended non-separator extends the last piece.
proof fn lemma_split_snoc(x: Seq<char>, c: char, sep: char)
    requires
        c != sep,
    ensures
        split_on(x.push(c), sep) == split_on(x, sep).drop_last().push(
            split_on(x, sep).last().push(c),
        ),
    decreases x.len(),
{
    let s = x.push(c);
    lemma_find_char(x, sep);
    let i = find_char(x, sep);
    if i >= 0 {
        assert(s[i] == x[i]);
        assert forall|j: int| 0 <= j < i implies s[j] != sep by {
            assert(s[j] == x[j]);
        }
        lemma_find_char_unique(s, sep, i);
        assert(s.take(i) =~= x.take(i));
        assert(s.skip(i + 1) =~= x.skip(i + 1).push(c));
        lemma_split_snoc(x.skip(i + 1), c, sep);
        let inner = split_on(x.skip(i + 1), sep);
        assert(inner.len() >= 1) by {
            lemma_find_char(x.skip(i + 1), sep);
        }
        assert(split_on(s, sep) =~~= seq![x.take(i)] + (inner.drop_last().push(
            inner.last().push(c),
        )));
        assert(split_on(x, sep) =~~= seq![x.take(i)] + inner);
        assert(seq![x.take(i)] + (inner.drop_last().push(inner.last().push(c))) =~~= split_on(
            x,
            sep,
        ).drop_last().push(split_on(x, sep).last().push(c)));
    } else {
        assert forall|j: int| 0 <= j < s.len() implies s[j] != sep by {
            if j < x.len() {
                assert(s[j] == x[j]);
            } else {
                assert(s[j] == c);
            }
        }
        lemma_find_char(s, sep);
        if find_char(s, sep) >= 0 {
            assert(s[find_char(s, sep)] == sep);
        }
        assert(split_on(s, sep) =~~= seq![s]);
        assert(split_on(x, sep) =~~= seq![x]);
        assert(seq![s] =~~= split_on(x, sep).drop_last().push(split_on(x, sep).last().push(c)));
    }
}

/// Bracketed-list items distribute over concatenation of piece lists.
proof fn lemma_ci_concat(a: Seq<Seq<char>>, b: Seq<Seq<char>>)
    ensures
        crate::tags::comma_items(a + b) == crate::tags::comma_items(a)
            + crate::tags::comma_items(b),
    decreases a.len(),
{
    if a.len() == 0 {
        assert(a + b =~~= b);
        assert(crate::tags::comma_items(a) + crate::tags::comma_items(b)
            =~~= crate::tags::comma_items(b));
    } else {
        assert((a + b)[0] == a[0]);
        assert((a + b).drop_first() =~~= a.drop_first() + b);
        lemma_ci_concat(a.drop_first(), b);
        assert(crate::tags::comma_items(a + b) =~~= crate::tags::comma_items(a)
            + crate::tags::comma_items(b));
    }
}

/// Items only depend on each piece through its trimmed form.
proof fn lemma_ci_head_trim(a: Seq<char>, b: Seq<char>, rest: Seq<Seq<char>>)
    requires
        trim_spec(a) == trim_spec(b),
    ensures
        crate::tags::comma_items(seq![a] + rest) == crate::tags::comma_items(seq![b] + rest),
{
    assert((seq![a] + rest).drop_first() =~~= rest);
    assert((seq![b] + rest).drop_first() =~~= rest);
    assert(crate::tags::comma_items(seq![a] + rest) =~~= crate::tags::comma_items(
        seq![b] + rest,
    ));
}

/// A leading space changes no item of a comma-separated list.
proof fn lemma_ci_pad(x: Seq<char>)
    ensures
        crate::tags::comma_items(split_on(seq![' '] + x, ',')) == crate::tags::comma_items(
            split_on(x, ','),
        ),
{
    lemma_split_cons(' ', x, ',');
    let ps = split_on(x, ',');
    assert(ps.len() >= 1) by {
        lemma_find_char(x, ',');
    }
    lemma_trim_cons_space(' ', ps[0]);
    lemma_ci_head_trim(seq![' '] + ps[0], ps[0], ps.drop_first());
    assert(seq![ps[0]] + ps.drop_first() =~~= ps);
}

/// A tag safe for the written list: non-empty, trimmed at both ends, and
/// free of commas, newlines, `#`, and the `---` delimiter.
pub open spec fn tag_wf(t: Seq<char>) -> bool {
    &&& t.len() > 0
    &&& !is_space(t[0])
    &&& !is_space(t.last())
    &&& no_char(t, ',')
    &&& no_char(t, '#')
    &&& no_char(t, '\n')
    &&& no_marker(t)
}

/// A tag that keeps the rewritten block well-formed: free of newlines and
/// of the `---` delimiter.
pub open spec fn tag_structural(t: Seq<char>) -> bool {
    no_char(t, '\n') && no_marker(t)
}

/// A tag that parses back out of a written list: non-empty, trimmed, and
/// free of commas.
pub open spec fn tag_parses(t: Seq<char>) -> bool {
    t.len() > 0 && !is_space(t[0]) && !is_space(t.last()) && no_char(t, ',')
}

/// Parsing the joined list returns exactly the list, when every member
/// parses.
proof fn lemma_join_parse(l: Seq<Seq<char>>)
    requires
        forall|i: int| 0 <= i < l.len() ==> tag_parses(#[trigger] l[i]),
    ensures
        crate::tags::comma_items(split_on(crate::rewrite::join_tags(l), ',')) == l,
    decreases l.len(),
{
    let j = crate::rewrite::join_tags(l);
    if l.len() == 0 {
        lemma_find_char(j, ',');
        assert(split_on(j, ',') =~~= seq![j]);
        assert(trim_spec(j).len() == 0);
        lemma_ci_single(j);
        assert(crate::tags::comma_items(split_on(j, ',')) =~~= l);
    } else if l.len() == 1 {
        assert(j == l[0]);
        crate::text::lemma_find_char(j, ',');
        if find_char(j, ',') >= 0 {
            assert(j[find_char(j, ',')] == ',');
        }
        assert(split_on(j, ',') =~~= seq![j]);
        lemma_trim_stable(l[0]);
        lemma_ci_single(j);
        assert(crate::tags::comma_items(split_on(j, ',')) =~~= seq![trim_spec(l[0])]);
        assert(seq![trim_spec(l[0])] =~~= l);
    } else {
        let rest = l.drop_first();
        let jr = crate::rewrite::join_tags(rest);
        assert(j =~= l[0] + seq![','] + (seq![' '] + jr));
        crate::text::lemma_split_on_concat(l[0], seq![' '] + jr, ',');
        assert(forall|i: int| 0 <= i < rest.len() ==> #[trigger] rest[i] == l[i + 1]);
        lemma_join_parse(rest);
        lemma_ci_pad(jr);
        lemma_find_char(l[0], ',');
        if find_char(l[0], ',') >= 0 {
            assert(l[0][find_char(l[0], ',')] == ',');
        }
        assert(split_on(l[0], ',') =~~= seq![l[0]]);
        lemma_ci_concat(seq![l[0]], split_on(seq![' '] + jr, ','));
        lemma_trim_stable(l[0]);
        lemma_ci_single(l[0]);
        assert(crate::tags::comma_items(seq![l[0]]) =~~= seq![l[0]]);
        assert(crate::tags::comma_items(split_on(j, ',')) =~~= seq![l[0]] + l.drop_first());
        assert(seq![l[0]] + l.drop_first() =~~= l);
    }
}

/// A member that parses is found among the parsed items of the joined
/// list, whatever the other members hold.
proof fn lemma_join_parse_member(l: Seq<Seq<char>>, t: Seq<char>)
    requires
        tag_parses(t),
        l.contains(t),
    ensures
        crate::tags::comma_items(split_on(crate::rewrite::join_tags(l), ',')).contains(t),
    decreases l.len(),
{
    let j = crate::rewrite::join_tags(l);
    if l.len() == 1 {
        assert(l[0] == t);
        lemma_find_char(j, ',');
        if find_char(j, ',') >= 0 {
            assert(j[find_char(j, ',')] == ',');
        }
        assert(split_on(j, ',') =~~= seq![t]);
        lemma_trim_stable(t);
        lemma_ci_single(t);
        let items = crate::tags::comma_items(split_on(j, ','));
        assert(items =~~= seq![t]);
        assert(items[0] == t);
    } else {
        let rest = l.drop_first();
        let jr = crate::rewrite::join_tags(rest);
        assert(j =~= l[0] + seq![','] + (seq![' '] + jr));
        crate::text::lemma_split_on_concat(l[0], seq![' '] + jr, ',');
        lemma_ci_concat(split_on(l[0], ','), split_on(seq![' '] + jr, ','));
        lemma_ci_pad(jr);
        let left = crate::tags::comma_items(split_on(l[0], ','));
        let right = crate::tags::comma_items(split_on(jr, ','));
        let items = crate::tags::comma_items(split_on(j, ','));
        assert(items =~~= left + right);
        if l[0] == t {
            lemma_find_char(t, ',');
            if find_char(t, ',') >= 0 {
                assert(t[find_char(t, ',')] == ',');
            }
            assert(split_on(l[0], ',') =~~= seq![t]);
            lemma_trim_stable(t);
            lemma_ci_single(t);
            assert(left =~~= seq![t]);
            assert(items[0] == t);
        } else {
            let w = choose|w: int| 0 <= w < l.len() && l[w] == t;
            assert(rest[w - 1] == t);
            lemma_join_parse_member(rest, t);
            let w2 = choose|w2: int| 0 <= w2 < right.len() && right[w2] == t;
            assert(items[left.len() + w2] == t);
        }
    }
}


/// The remainder of the last `tags:` line of a text's lines.
pub open spec fn last_tags_of(x: Seq<char>) -> Option<Seq<char>> {
    crate::tags::last_tags_rest(crate::tags::spec_lines(x))
}

proof fn lemma_ltr_empty()
    ensures
        crate::tags::last_tags_rest(Seq::<Seq<char>>::empty()) is None,
{
}

/// A leading line that is no `tags:` line never decides the result.
proof fn lemma_ltr_cons_nontags(e: Seq<char>, ls: Seq<Seq<char>>)
    requires
        !crate::tags::is_tags_line(e),
    ensures
        crate::tags::last_tags_rest(seq![e] + ls) == crate::tags::last_tags_rest(ls),
    decreases ls.len(),
{
    let s = seq![e] + ls;
    if ls.len() == 0 {
        assert(s.last() == e);
        assert(s.drop_last() =~~= Seq::<Seq<char>>::empty());
        lemma_ltr_empty();
    } else {
        assert(s.last() == ls.last());
        if crate::tags::is_tags_line(ls.last()) {
        } else {
            assert(s.drop_last() =~~= seq![e] + ls.drop_last());
            lemma_ltr_cons_nontags(e, ls.drop_last());
        }
    }
}

/// The result only depends on the first line through its trimmed form.
proof fn lemma_ltr_head_trim(a: Seq<char>, b: Seq<char>, rest: Seq<Seq<char>>)
    requires
        trim_spec(a) == trim_spec(b),
    ensures
        crate::tags::last_tags_rest(seq![a] + rest) == crate::tags::last_tags_rest(
            seq![b] + rest,
        ),
    decreases rest.len(),
{
    let sa = seq![a] + rest;
    let sb = seq![b] + rest;
    if rest.len() == 0 {
        assert(sa.last() == a && sb.last() == b);
        assert(crate::tags::is_tags_line(a) == crate::tags::is_tags_line(b));
        if crate::tags::is_tags_line(a) {
            assert(crate::tags::tags_rest(a) == crate::tags::tags_rest(b));
        } else {
            assert(sa.drop_last() =~~= Seq::<Seq<char>>::empty());
            assert(sb.drop_last() =~~= Seq::<Seq<char>>::empty());
        }
    } else {
        assert(sa.last() == rest.last() && sb.last() == rest.last());
        if crate::tags::is_tags_line(rest.last()) {
        } else {
            assert(sa.drop_last() =~~= seq![a] + rest.drop_last());
            assert(sb.drop_last() =~~= seq![b] + rest.drop_last());
            lemma_ltr_head_trim(a, b, rest.drop_last());
        }
    }
}

/// The result only depends on the last line through its trimmed form.
proof fn lemma_ltr_snoc_trim(ls: Seq<Seq<char>>, a: Seq<char>, b: Seq<char>)
    requires
        trim_spec(a) == trim_spec(b),
    ensures
        crate::tags::last_tags_rest(ls.push(a)) == crate::tags::last_tags_rest(ls.push(b)),
{
    assert(ls.push(a).last() == a && ls.push(b).last() == b);
    assert(crate::tags::is_tags_line(a) == crate::tags::is_tags_line(b));
    if crate::tags::is_tags_line(a) {
        assert(crate::tags::tags_rest(a) == crate::tags::tags_rest(b));
    } else {
        assert(ls.push(a).drop_last() =~~= ls);
        assert(ls.push(b).drop_last() =~~= ls);
    }
}

/// A trailing line that is no `tags:` line never decides the result.
proof fn lemma_ltr_snoc_nontags(ls: Seq<Seq<char>>, e: Seq<char>)
    requires
        !crate::tags::is_tags_line(e),
    ensures
        crate::tags::last_tags_rest(ls.push(e)) == crate::tags::last_tags_rest(ls),
{
    assert(ls.push(e).last() == e);
    assert(ls.push(e).drop_last() =~~= ls);
}

/// A lone whitespace character makes no `tags:` line.
proof fn lemma_space_char_line_not_tags(c: char)
    requires
        is_space(c),
    ensures
        !crate::tags::is_tags_line(crate::tags::strip_cr(seq![c])),
        !crate::tags::is_tags_line(Seq::<char>::empty()),
{
    assert(trim_spec(Seq::<char>::empty()).len() == 0);
    let l = crate::tags::strip_cr(seq![c]);
    if c == '\r' {
        assert(seq![c].last() == c);
        assert(l =~= Seq::<char>::empty());
    } else {
        assert(l == seq![c]);
        assert(seq![c] =~= seq![c] + Seq::<char>::empty());
        lemma_trim_cons_space(c, Seq::<char>::empty());
        assert(trim_spec(l).len() == 0);
    }
}

/// The lines of a text with a leading newline: an empty line, then the
/// lines of the rest.
proof fn lemma_lines_cons_newline(y: Seq<char>)
    ensures
        crate::tags::spec_lines(seq!['\n'] + y) == seq![Seq::<char>::empty()]
            + crate::tags::spec_lines(y),
{
    let x = seq!['\n'] + y;
    assert(x =~= Seq::<char>::empty() + seq!['\n'] + y);
    crate::text::lemma_split_on_concat(Seq::<char>::empty(), y, '\n');
    lemma_find_char(Seq::<char>::empty(), '\n');
    assert(split_on(Seq::<char>::empty(), '\n') =~~= seq![Seq::<char>::empty()]);
    let py = split_on(y, '\n');
    assert(split_on(x, '\n') =~~= seq![Seq::<char>::empty()] + py);
    let px = split_on(x, '\n');
    assert(py.len() >= 1) by {
        lemma_find_char(y, '\n');
    }
    assert(px.last() == py.last());
    if py.last().len() == 0 {
        assert(px.drop_last() =~~= seq![Seq::<char>::empty()] + py.drop_last());
        assert(crate::tags::spec_lines(x) =~~= seq![Seq::<char>::empty()]
            + crate::tags::spec_lines(y));
    } else {
        assert(crate::tags::spec_lines(x) =~~= seq![Seq::<char>::empty()]
            + crate::tags::spec_lines(y));
    }
}

/// A leading whitespace character does not change the last `tags:` line.
proof fn lemma_ltr2_cons_space(c: char, y: Seq<char>)
    requires
        is_space(c),
    ensures
        last_tags_of(seq![c] + y) == last_tags_of(y),
{
    let x = seq![c] + y;
    if c == '\n' {
        lemma_lines_cons_newline(y);
        lemma_space_char_line_not_tags(c);
        lemma_ltr_cons_nontags(Seq::<char>::empty(), crate::tags::spec_lines(y));
    } else {
        lemma_split_cons(c, y, '\n');
        let py = split_on(y, '\n');
        assert(py.len() >= 1) by {
            lemma_find_char(y, '\n');
        }
        let p0 = py[0];
        let px = split_on(x, '\n');
        assert(px =~~= seq![seq![c] + p0] + py.drop_first());
        let hx = crate::tags::strip_cr(seq![c] + p0);
        let hy = crate::tags::strip_cr(p0);
        assert(trim_spec(hx) == trim_spec(hy)) by {
            if p0.len() == 0 {
                lemma_space_char_line_not_tags(c);
                assert(seq![c] + p0 =~= seq![c]);
                assert(hy =~= Seq::<char>::empty());
                if c == '\r' {
                    assert(seq![c].last() == c);
                    assert(hx =~= Seq::<char>::empty());
                } else {
                    assert(hx == seq![c]);
                    assert(seq![c] =~= seq![c] + Seq::<char>::empty());
                    lemma_trim_cons_space(c, Seq::<char>::empty());
                }
            } else {
                assert((seq![c] + p0).last() == p0.last());
                if p0.last() == '\r' {
                    assert(hx =~= seq![c] + hy);
                } else {
                    assert(hx =~= seq![c] + hy);
                }
                lemma_trim_cons_space(c, hy);
            }
        }
        if py.len() == 1 {
            assert(px =~~= seq![seq![c] + p0]);
            assert(px.last() == seq![c] + p0);
            assert(px.last().len() > 0);
            assert(crate::tags::spec_lines(x) =~~= seq![hx]);
            if p0.len() == 0 {
                assert(py.last().len() == 0);
                assert(py.drop_last() =~~= Seq::<Seq<char>>::empty());
                assert(crate::tags::spec_lines(y) =~~= Seq::<Seq<char>>::empty());
                lemma_ltr_empty();
                assert(seq![hx] =~~= seq![hx] + Seq::<Seq<char>>::empty());
                lemma_ltr_cons_nontags(hx, Seq::<Seq<char>>::empty());
                assert(!crate::tags::is_tags_line(hx)) by {
                    lemma_space_char_line_not_tags(c);
                    assert(seq![c] + p0 =~= seq![c]);
                }
            } else {
                assert(crate::tags::spec_lines(y) =~~= seq![hy]);
                assert(seq![hx] =~~= seq![hx] + Seq::<Seq<char>>::empty());
                assert(seq![hy] =~~= seq![hy] + Seq::<Seq<char>>::empty());
                lemma_ltr_head_trim(hx, hy, Seq::<Seq<char>>::empty());
            }
        } else {
            assert(px.last() == py.last());
            let tail_pieces = if py.last().len() == 0 {
                py.drop_last().drop_first()
            } else {
                py.drop_first()
            };
            let rest_lines = tail_pieces.map_values(|p: Seq<char>| crate::tags::strip_cr(p));
            if py.last().len() == 0 {
                assert(px.drop_last() =~~= seq![seq![c] + p0] + py.drop_last().drop_first());
                assert(py.drop_last()[0] == p0);
                assert(crate::tags::spec_lines(x) =~~= seq![hx] + rest_lines);
                assert(crate::tags::spec_lines(y) =~~= seq![hy] + rest_lines);
            } else {
                assert(crate::tags::spec_lines(x) =~~= seq![hx] + rest_lines);
                assert(crate::tags::spec_lines(y) =~~= seq![hy] + rest_lines);
            }
            lemma_ltr_head_trim(hx, hy, rest_lines);
        }
    }
}

/// A trailing whitespace character does not change the last `tags:` line.
proof fn lemma_ltr2_snoc_space(y: Seq<char>, c: char)
    requires
        is_space(c),
    ensures
        last_tags_of(y.push(c)) == last_tags_of(y),
{
    let x = y.push(c);
    let py = split_on(y, '\n');
    assert(py.len() >= 1) by {
        lemma_find_char(y, '\n');
    }
    if c == '\n' {
        assert(x =~= y + seq!['\n'] + Seq::<char>::empty());
        crate::text::lemma_split_on_concat(y, Seq::<char>::empty(), '\n');
        lemma_find_char(Seq::<char>::empty(), '\n');
        assert(split_on(Seq::<char>::empty(), '\n') =~~= seq![Seq::<char>::empty()]);
        let px = split_on(x, '\n');
        assert(px =~~= py + seq![Seq::<char>::empty()]);
        assert(px.last().len() == 0);
        assert(px.drop_last() =~~= py);
        if py.last().len() == 0 {
            // the old trailing empty line reappears in the new line list
            assert(crate::tags::spec_lines(x) =~~= crate::tags::spec_lines(y).push(
                Seq::<char>::empty(),
            ));
            assert(trim_spec(Seq::<char>::empty()).len() == 0);
            lemma_ltr_snoc_nontags(crate::tags::spec_lines(y), Seq::<char>::empty());
        } else {
            assert(crate::tags::spec_lines(x) =~~= crate::tags::spec_lines(y));
        }
    } else {
        lemma_split_snoc(y, c, '\n');
        let px = split_on(x, '\n');
        let pl = py.last();
        assert(px =~~= py.drop_last().push(pl.push(c)));
        assert(px.last() == pl.push(c));
        assert(px.last().len() > 0);
        let a = crate::tags::strip_cr(pl.push(c));
        let b = crate::tags::strip_cr(pl);
        assert(trim_spec(a) == trim_spec(b)) by {
            if c == '\r' {
                assert(pl.push(c).last() == c);
                assert(a =~= pl);
                if pl.len() > 0 && pl.last() == '\r' {
                    assert(b =~= pl.drop_last());
                    assert(pl =~= b.push('\r'));
                    lemma_trim_snoc_space(b, '\r');
                } else {
                    assert(b == pl);
                }
            } else {
                assert(pl.push(c).last() == c);
                assert(a == pl.push(c));
                if pl.len() > 0 && pl.last() == '\r' {
                    assert(b =~= pl.drop_last());
                    lemma_trim_snoc_space(pl, c);
                    lemma_trim_snoc_space(b, '\r');
                    assert(pl =~= b.push('\r'));
                } else {
                    assert(b == pl);
                    lemma_trim_snoc_space(pl, c);
                }
            }
        }
        if pl.len() == 0 {
            // the old trailing empty piece was dropped; the new last line
            // trims to nothing
            assert(px.drop_last() =~~= py.drop_last());
            assert(crate::tags::spec_lines(x) =~~= crate::tags::spec_lines(y).push(a));
            assert(!crate::tags::is_tags_line(a)) by {
                assert(pl.push(c) =~= seq![c]);
                lemma_space_char_line_not_tags(c);
            }
            lemma_ltr_snoc_nontags(crate::tags::spec_lines(y), a);
        } else {
            let front = py.drop_last().map_values(|p: Seq<char>| crate::tags::strip_cr(p));
            assert(crate::tags::spec_lines(x) =~~= front.push(a));
            assert(crate::tags::spec_lines(y) =~~= front.push(b));
            lemma_ltr_snoc_trim(front, a, b);
        }
    }
}

/// Trimming the text does not change the last `tags:` line.
proof fn lemma_ltr2_trim_start(x: Seq<char>)
    ensures
        last_tags_of(trim_start_spec(x)) == last_tags_of(x),
    decreases x.len(),
{
    if x.len() > 0 && is_space(x[0]) {
        assert(x =~= seq![x[0]] + x.drop_first());
        lemma_ltr2_cons_space(x[0], x.drop_first());
        lemma_ltr2_trim_start(x.drop_first());
    }
}

proof fn lemma_ltr2_trim_end(x: Seq<char>)
    ensures
        last_tags_of(trim_end_spec(x)) == last_tags_of(x),
    decreases x.len(),
{
    if x.len() > 0 && is_space(x.last()) {
        assert(x =~= x.drop_last().push(x.last()));
        lemma_ltr2_snoc_space(x.drop_last(), x.last());
        lemma_ltr2_trim_end(x.drop_last());
    }
}

proof fn lemma_ltr2_trim(x: Seq<char>)
    ensures
        last_tags_of(trim_spec(x)) == last_tags_of(x),
{
    lemma_ltr2_trim_end(trim_start_spec(x));
    lemma_ltr2_trim_start(x);
}


/// The lines of `ls` with every `tags:` line replaced by the new tag line.
pub open spec fn replaced_lines(ls: Seq<Seq<char>>, l: Seq<Seq<char>>) -> Seq<Seq<char>> {
    ls.map_values(
        |x: Seq<char>|
            if crate::tags::is_tags_line(x) {
                crate::rewrite::tags_line_of(l)
            } else {
                x
            },
    )
}

/// A text without dashes holds no `---` marker.
proof fn lemma_no_dash_no_marker(s: Seq<char>)
    requires
        no_char(s, '-'),
    ensures
        no_marker(s),
{
    assert forall|i: int| !match_at(s, marker(), i) by {
        if match_at(s, marker(), i) {
            assert(s.subrange(i, i + 3)[0] == s[i]);
            assert(s[i] == '-');
        }
    }
}

/// A character absent from every tag and different from the joining
/// punctuation is absent from the joined text.
proof fn lemma_join_no_char(l: Seq<Seq<char>>, c: char)
    requires
        forall|i: int| 0 <= i < l.len() ==> no_char(#[trigger] l[i], c),
        c != ',',
        c != ' ',
    ensures
        no_char(crate::rewrite::join_tags(l), c),
    decreases l.len(),
{
    if l.len() == 0 {
    } else if l.len() == 1 {
        assert(no_char(l[0], c));
    } else {
        lemma_join_no_char(l.drop_first(), c);
        assert(no_char(seq![',', ' '], c)) by {
            assert(seq![',', ' '][0] == ',' && seq![',', ' '][1] == ' ');
        }
        lemma_no_char_concat(l[0], seq![',', ' '], c);
        lemma_no_char_concat(l[0] + seq![',', ' '], crate::rewrite::join_tags(l.drop_first()), c);
    }
}

/// The joined text holds no marker when no tag does.
proof fn lemma_join_no_marker(l: Seq<Seq<char>>)
    requires
        forall|i: int| 0 <= i < l.len() ==> no_marker(#[trigger] l[i]),
    ensures
        no_marker(crate::rewrite::join_tags(l)),
    decreases l.len(),
{
    if l.len() == 0 {
        assert forall|i: int| !match_at(crate::rewrite::join_tags(l), marker(), i) by {}
    } else if l.len() == 1 {
        assert(no_marker(l[0]));
    } else {
        lemma_join_no_marker(l.drop_first());
        assert(no_marker(seq![',', ' '])) by {
            assert forall|i: int| !match_at(seq![',', ' '], marker(), i) by {}
        }
        lemma_no_marker_concat(l[0], seq![',', ' ']);
        assert((l[0] + seq![',', ' ']).last() == ' ');
        lemma_no_marker_concat(l[0] + seq![',', ' '], crate::rewrite::join_tags(l.drop_first()));
    }
}

/// The fixed text of the written tag line.
proof fn lemma_tl_prefix_facts()
    ensures
        no_char(crate::tags::tags_key() + seq![' ', '['], '-'),
        no_char(crate::tags::tags_key() + seq![' ', '['], '#'),
        no_char(crate::tags::tags_key() + seq![' ', '['], '\n'),
        (crate::tags::tags_key() + seq![' ', '[']).len() == 7,
{
    let p = crate::tags::tags_key() + seq![' ', '['];
    assert(p[0] == 't' && p[1] == 'a' && p[2] == 'g' && p[3] == 's' && p[4] == ':' && p[5] == ' '
        && p[6] == '[');
    assert forall|j: int| 0 <= j < p.len() implies p[j] != '-' by {}
    assert forall|j: int| 0 <= j < p.len() implies p[j] != '#' by {}
    assert forall|j: int| 0 <= j < p.len() implies p[j] != '\n' by {}
}

/// The written tag line: starts with the key, ends with the bracket,
/// holds no newline and no marker, and parses back to the items of its
/// joined list.
proof fn lemma_tl_facts(l: Seq<Seq<char>>)
    requires
        forall|i: int| 0 <= i < l.len() ==> tag_structural(#[trigger] l[i]),
    ensures
        ({
            let tl = crate::rewrite::tags_line_of(l);
            &&& tl.len() > 7
            &&& tl[0] == 't'
            &&& tl.last() == ']'
            &&& !is_space(tl[0])
            &&& !is_space(tl.last())
            &&& no_char(tl, '\n')
            &&& no_marker(tl)
            &&& crate::tags::strip_cr(tl) == tl
            &&& crate::tags::is_tags_line(tl)
            &&& crate::tags::tags_rest(tl) == seq!['['] + crate::rewrite::join_tags(l)
                + seq![']']
            &&& crate::tags::parse_rest(crate::tags::tags_rest(tl)) == crate::tags::comma_items(
                split_on(crate::rewrite::join_tags(l), ','),
            )
        }),
{
    let tl = crate::rewrite::tags_line_of(l);
    let p = crate::tags::tags_key() + seq![' ', '['];
    let j = crate::rewrite::join_tags(l);
    lemma_tl_prefix_facts();
    assert(tl =~= p + (j + seq![']']));
    assert(tl[0] == p[0]);
    assert(tl.last() == ']');
    // no newline
    assert(forall|i: int| 0 <= i < l.len() ==> no_char(#[trigger] l[i], '\n'));
    lemma_join_no_char(l, '\n');
    assert(no_char(seq![']'], '\n')) by {
        assert(seq![']'][0] == ']');
    }
    lemma_no_char_concat(j, seq![']'], '\n');
    lemma_no_char_concat(p, j + seq![']'], '\n');
    // no marker
    lemma_no_dash_no_marker(p);
    lemma_join_no_marker(l);
    assert(no_marker(seq![']'])) by {
        assert forall|i: int| !match_at(seq![']'], marker(), i) by {}
    }
    lemma_no_marker_concat(j, seq![']']);
    assert(p.last() == '[');
    lemma_no_marker_concat(p, j + seq![']']);
    // trims to itself, and is a tags line
    lemma_trim_stable(tl);
    assert(tl.take(5) =~= crate::tags::tags_key());
    // the rest after the key
    let after = tl.skip(5);
    assert(after =~= seq![' '] + (seq!['['] + j + seq![']']));
    lemma_trim_cons_space(' ', seq!['['] + j + seq![']']);
    let rest = seq!['['] + j + seq![']'];
    assert(rest[0] == '[' && rest.last() == ']');
    lemma_trim_stable(rest);
    assert(crate::tags::tags_rest(tl) == rest);
    // the rest parses as a bracketed list of the joined text
    assert(rest.subrange(1, rest.len() - 1) =~= j);
}

/// Splitting the rewritten front-matter lines followed by anything: the
/// replaced lines, then the split of the remainder.
proof fn lemma_split_rewrite_plus(ls: Seq<Seq<char>>, l: Seq<Seq<char>>, z: Seq<char>)
    requires
        forall|i: int| 0 <= i < ls.len() ==> no_char(#[trigger] ls[i], '\n'),
        forall|i: int| 0 <= i < l.len() ==> tag_structural(#[trigger] l[i]),
    ensures
        split_on(crate::rewrite::rewrite_fm_lines(ls, l) + z, '\n') == replaced_lines(ls, l)
            + split_on(z, '\n'),
    decreases ls.len(),
{
    if ls.len() == 0 {
        assert(crate::rewrite::rewrite_fm_lines(ls, l) + z =~= z);
        assert(replaced_lines(ls, l) + split_on(z, '\n') =~~= split_on(z, '\n'));
    } else {
        let first = if crate::tags::is_tags_line(ls[0]) {
            crate::rewrite::tags_line_of(l)
        } else {
            ls[0]
        };
        assert(no_char(first, '\n')) by {
            if crate::tags::is_tags_line(ls[0]) {
                lemma_tl_facts(l);
            }
        }
        let rest = crate::rewrite::rewrite_fm_lines(ls.drop_first(), l);
        assert(crate::rewrite::rewrite_fm_lines(ls, l) + z =~= first + seq!['\n'] + (rest + z));
        crate::text::lemma_split_on_concat(first, rest + z, '\n');
        lemma_find_char(first, '\n');
        if find_char(first, '\n') >= 0 {
            assert(first[find_char(first, '\n')] == '\n');
        }
        assert(split_on(first, '\n') =~~= seq![first]);
        assert(forall|i: int|
            0 <= i < ls.drop_first().len() ==> #[trigger] ls.drop_first()[i] == ls[i + 1]);
        lemma_split_rewrite_plus(ls.drop_first(), l, z);
        assert(split_on(crate::rewrite::rewrite_fm_lines(ls, l) + z, '\n') =~~= replaced_lines(
            ls,
            l,
        ) + split_on(z, '\n'));
    }
}

/// The rewritten front-matter body holds no marker (given safe lines and
/// tags), is empty exactly for an empty line list, and ends in a newline.
proof fn lemma_rewrite_body_props(ls: Seq<Seq<char>>, l: Seq<Seq<char>>)
    requires
        forall|i: int| 0 <= i < ls.len() ==> no_marker(#[trigger] ls[i]),
        forall|i: int| 0 <= i < l.len() ==> tag_structural(#[trigger] l[i]),
    ensures
        no_marker(crate::rewrite::rewrite_fm_lines(ls, l)),
        ls.len() > 0 ==> crate::rewrite::rewrite_fm_lines(ls, l).len() > 0
            && crate::rewrite::rewrite_fm_lines(ls, l).last() == '\n',
    decreases ls.len(),
{
    if ls.len() == 0 {
        assert forall|i: int|
            !match_at(crate::rewrite::rewrite_fm_lines(ls, l), marker(), i) by {}
    } else {
        let first = if crate::tags::is_tags_line(ls[0]) {
            crate::rewrite::tags_line_of(l)
        } else {
            ls[0]
        };
        assert(no_marker(first)) by {
            if crate::tags::is_tags_line(ls[0]) {
                lemma_tl_facts(l);
            }
        }
        assert(forall|i: int|
            0 <= i < ls.drop_first().len() ==> #[trigger] ls.drop_first()[i] == ls[i + 1]);
        lemma_rewrite_body_props(ls.drop_first(), l);
        let rest = crate::rewrite::rewrite_fm_lines(ls.drop_first(), l);
        assert(no_marker(seq!['\n'])) by {
            assert forall|i: int| !match_at(seq!['\n'], marker(), i) by {}
        }
        lemma_no_marker_concat(first, seq!['\n']);
        assert((first + seq!['\n']).last() == '\n');
        lemma_no_marker_concat(first + seq!['\n'], rest);
        let whole = crate::rewrite::rewrite_fm_lines(ls, l);
        assert(whole == first + seq!['\n'] + rest);
        if ls.len() == 1 {
            assert(rest.len() == 0);
            assert(whole.last() == (first + seq!['\n']).last());
        } else {
            assert(whole.last() == rest.last());
        }
    }
}

/// The front matter itself never holds a marker.
proof fn lemma_fm_no_marker(s: Seq<char>)
    requires
        spec_frontmatter(s) is Some,
    ensures
        no_marker(spec_frontmatter(s)->Some_0),
{
    let t = trim_start_spec(s);
    let rest = t.skip(3);
    let i = find_sub(rest, marker());
    lemma_find_sub(rest, marker());
    assert(no_marker(rest.take(i))) by {
        assert forall|j: int| !match_at(rest.take(i), marker(), j) by {
            if match_at(rest.take(i), marker(), j) {
                assert(rest.subrange(j, j + 3) =~= rest.take(i).subrange(j, j + 3));
                assert(match_at(rest, marker(), j));
                assert(j + 3 <= i);
            }
        }
    }
    lemma_no_marker_trim(rest.take(i));
}

/// A character absent from the document is absent from its front matter.
proof fn lemma_fm_no_char(s: Seq<char>, c: char)
    requires
        spec_frontmatter(s) is Some,
        no_char(s, c),
    ensures
        no_char(spec_frontmatter(s)->Some_0, c),
{
    crate::rewrite::lemma_trim_start_suffix(s);
    let k = choose|k: int|
        0 <= k <= s.len() && trim_start_spec(s) == s.skip(k) && (forall|j: int|
            0 <= j < k ==> is_space(s[j]));
    lemma_no_char_skip(s, c, k);
    let t = trim_start_spec(s);
    lemma_no_char_skip(t, c, 3);
    let rest = t.skip(3);
    let i = find_sub(rest, marker());
    lemma_find_sub(rest, marker());
    lemma_no_char_take(rest, c, i);
    lemma_no_char_trim(rest.take(i), c);
}

/// The lines of a marker-free text are newline-free and marker-free.
proof fn lemma_lines_props(fm: Seq<char>, c: char)
    requires
        no_marker(fm),
        no_char(fm, c),
        c != '\n',
    ensures
        forall|k: int|
            0 <= k < crate::tags::spec_lines(fm).len() ==> no_char(
                #[trigger] crate::tags::spec_lines(fm)[k],
                '\n',
            ) && no_char(crate::tags::spec_lines(fm)[k], c) && no_marker(
                crate::tags::spec_lines(fm)[k],
            ),
{
    let ps = split_on(fm, '\n');
    crate::text::lemma_split_on_pieces(fm, '\n');
    crate::text::lemma_split_on_no_char(fm, '\n', c);
    assert forall|k: int| 0 <= k < ps.len() implies no_marker(#[trigger] ps[k]) by {
        lemma_split_no_marker(fm, '\n', k);
    }
    let ls = crate::tags::spec_lines(fm);
    let qs = if ps.len() > 0 && ps.last().len() == 0 {
        ps.drop_last()
    } else {
        ps
    };
    assert forall|k: int|
        0 <= k < ls.len() implies no_char(#[trigger] ls[k], '\n') && no_char(ls[k], c)
        && no_marker(ls[k]) by {
        assert(ls[k] == crate::tags::strip_cr(qs[k]));
        assert(qs[k] == ps[k]);
        let q = ps[k];
        let sc = crate::tags::strip_cr(q);
        if q.len() > 0 && q.last() == '\r' {
            assert(sc =~= q.take(q.len() - 1));
            lemma_no_char_take(q, '\n', q.len() - 1);
            lemma_no_char_take(q, c, q.len() - 1);
            lemma_no_marker_take(q, q.len() - 1);
        }
    }
}

/// A marker absent from a text is absent from every piece of its split.
proof fn lemma_split_no_marker(s: Seq<char>, sep: char, k: int)
    requires
        no_marker(s),
        0 <= k < split_on(s, sep).len(),
    ensures
        no_marker(split_on(s, sep)[k]),
    decreases s.len(),
{
    lemma_find_char(s, sep);
    let i = find_char(s, sep);
    if !(0 <= i < s.len()) {
    } else {
        if k == 0 {
            lemma_no_marker_take(s, i);
        } else {
            lemma_no_marker_skip(s, i + 1);
            lemma_split_no_marker(s.skip(i + 1), sep, k - 1);
        }
    }
}

/// The front matter of the rebuilt block is the trimmed body.
#[verifier::rlimit(60)]
proof fn lemma_fm_of_block(m: Seq<char>, t: Seq<char>)
    requires
        m.len() > 0,
        m.last() == '\n',
        no_marker(m),
    ensures
        spec_frontmatter(marker() + seq!['\n'] + m + marker() + seq!['\n'] + t) == Some(
            trim_spec(seq!['\n'] + m),
        ),
{
    let s = marker() + seq!['\n'] + m + marker() + seq!['\n'] + t;
    assert(s[0] == '-');
    assert(!is_space(s[0]));
    assert(trim_start_spec(s) == s);
    assert(s.take(3) =~= marker());
    let rest = s.skip(3);
    assert(rest =~= seq!['\n'] + m + marker() + seq!['\n'] + t);
    let i0 = 1 + m.len() as int;
    assert(match_at(rest, marker(), i0)) by {
        assert(rest.subrange(i0, i0 + 3) =~= marker());
    }
    assert(no_marker(seq!['\n'] + m)) by {
        assert(no_marker(seq!['\n'])) by {
            assert forall|i: int| !match_at(seq!['\n'], marker(), i) by {}
        }
        lemma_no_marker_concat(seq!['\n'], m);
    }
    assert forall|j: int| 0 <= j < i0 implies !match_at(rest, marker(), j) by {
        if match_at(rest, marker(), j) {
            if j + 3 <= i0 {
                assert((seq!['\n'] + m).subrange(j, j + 3) =~= rest.subrange(j, j + 3));
                assert(match_at(seq!['\n'] + m, marker(), j));
            } else {
                assert(j <= i0 - 1 < j + 3);
                assert(rest.subrange(j, j + 3)[i0 - 1 - j] == rest[i0 - 1]);
                assert(rest[i0 - 1] == m.last());
                assert(rest[i0 - 1] == '-');
            }
        }
    }
    lemma_find_sub_unique(rest, marker(), i0);
    assert(rest.take(i0) =~= seq!['\n'] + m);
}

/// Inline scanning adds nothing when no word starts with `#`.
proof fn lemma_add_inline_noop(acc: Seq<Seq<char>>, toks: Seq<Seq<char>>)
    requires
        forall|k: int| 0 <= k < toks.len() ==> no_char(#[trigger] toks[k], '#'),
    ensures
        crate::tags::add_inline(acc, toks) == acc,
    decreases toks.len(),
{
    if toks.len() == 0 {
    } else {
        assert(crate::tags::inline_candidate(toks[0]) is None) by {
            if toks[0].len() > 1 {
                assert(toks[0][0] != '#');
            }
        }
        assert(forall|k: int|
            0 <= k < toks.drop_first().len() ==> #[trigger] toks.drop_first()[k] == toks[k + 1]);
        lemma_add_inline_noop(acc, toks.drop_first());
    }
}

/// Deduplicating a fresh distinct list appends it whole.
proof fn lemma_dedup_id(acc: Seq<Seq<char>>, l: Seq<Seq<char>>)
    requires
        forall|i: int, j: int| 0 <= i < j < l.len() ==> l[i] != l[j],
        forall|i: int| 0 <= i < l.len() ==> !acc.contains(#[trigger] l[i]),
    ensures
        crate::tags::dedup_append(acc, l) == acc + l,
    decreases l.len(),
{
    if l.len() == 0 {
        assert(acc + l =~~= acc);
    } else {
        let acc2 = acc.push(l[0]);
        assert(!acc.contains(l[0]));
        let lt = l.drop_first();
        assert(forall|i: int| 0 <= i < lt.len() ==> #[trigger] lt[i] == l[i + 1]);
        assert forall|i: int| 0 <= i < lt.len() implies !acc2.contains(#[trigger] lt[i]) by {
            if acc2.contains(lt[i]) {
                let w = choose|w: int| 0 <= w < acc2.len() && acc2[w] == lt[i];
                if w < acc.len() {
                    assert(acc.contains(lt[i]));
                } else {
                    assert(acc2[w] == l[0]);
                    assert(l[0] == l[i + 1]);
                }
            }
        }
        lemma_dedup_id(acc2, lt);
        assert(acc2 + lt =~~= acc + l);
    }
}

/// Deduplication reaches everything already present or listed.
proof fn lemma_dedup_contains(acc: Seq<Seq<char>>, l: Seq<Seq<char>>, t: Seq<char>)
    requires
        acc.contains(t) || l.contains(t),
    ensures
        crate::tags::dedup_append(acc, l).contains(t),
    decreases l.len(),
{
    if l.len() == 0 {
    } else {
        let acc2 = if acc.contains(l[0]) {
            acc
        } else {
            acc.push(l[0])
        };
        let lt = l.drop_first();
        if acc.contains(t) {
            assert(acc2.contains(t)) by {
                let w = choose|w: int| 0 <= w < acc.len() && acc[w] == t;
                assert(acc2[w] == t);
            }
            lemma_dedup_contains(acc2, lt, t);
        } else {
            let w = choose|w: int| 0 <= w < l.len() && l[w] == t;
            if w == 0 {
                assert(acc2.contains(t)) by {
                    if acc.contains(l[0]) {
                    } else {
                        assert(acc2[acc.len() as int] == l[0]);
                    }
                }
                lemma_dedup_contains(acc2, lt, t);
            } else {
                assert(lt[w - 1] == t);
                lemma_dedup_contains(acc2, lt, t);
            }
        }
    }
}

/// Deduplication is the identity when everything listed is present.
proof fn lemma_dedup_noop(acc: Seq<Seq<char>>, l: Seq<Seq<char>>)
    requires
        forall|i: int| 0 <= i < l.len() ==> acc.contains(#[trigger] l[i]),
    ensures
        crate::tags::dedup_append(acc, l) == acc,
    decreases l.len(),
{
    if l.len() == 0 {
    } else {
        let lt = l.drop_first();
        assert(forall|i: int| 0 <= i < lt.len() ==> #[trigger] lt[i] == l[i + 1]);
        lemma_dedup_noop(acc, lt);
    }
}

/// Every deduplicated member was present or listed.
proof fn lemma_dedup_members(acc: Seq<Seq<char>>, l: Seq<Seq<char>>, k: int)
    requires
        0 <= k < crate::tags::dedup_append(acc, l).len(),
    ensures
        acc.contains(crate::tags::dedup_append(acc, l)[k]) || l.contains(
            crate::tags::dedup_append(acc, l)[k],
        ),
    decreases l.len(),
{
    if l.len() == 0 {
    } else {
        let acc2 = if acc.contains(l[0]) {
            acc
        } else {
            acc.push(l[0])
        };
        let lt = l.drop_first();
        lemma_dedup_members(acc2, lt, k);
        let x = crate::tags::dedup_append(acc, l)[k];
        if acc2.contains(x) {
            let w = choose|w: int| 0 <= w < acc2.len() && acc2[w] == x;
            if w < acc.len() {
                assert(acc[w] == x);
            } else {
                assert(x == l[0]);
            }
        } else {
            assert(lt.contains(x));
            let w = choose|w: int| 0 <= w < lt.len() && lt[w] == x;
            assert(l[w + 1] == x);
        }
    }
}

/// Inline scanning keeps every tag already collected.
proof fn lemma_add_inline_contains(acc: Seq<Seq<char>>, toks: Seq<Seq<char>>, t: Seq<char>)
    requires
        acc.contains(t),
    ensures
        crate::tags::add_inline(acc, toks).contains(t),
    decreases toks.len(),
{
    if toks.len() == 0 {
    } else {
        let acc2 = match crate::tags::inline_candidate(toks[0]) {
            Some(x) => if acc.contains(x) {
                acc
            } else {
                acc.push(x)
            },
            Option::None => acc,
        };
        assert(acc2.contains(t)) by {
            let w = choose|w: int| 0 <= w < acc.len() && acc[w] == t;
            assert(acc2[w] == t);
        }
        lemma_add_inline_contains(acc2, toks.drop_first(), t);
    }
}


/// The lines of a marker-free text hold no newline and no marker.
proof fn lemma_lines_nm(fm: Seq<char>)
    requires
        no_marker(fm),
    ensures
        forall|k: int|
            0 <= k < crate::tags::spec_lines(fm).len() ==> no_char(
                #[trigger] crate::tags::spec_lines(fm)[k],
                '\n',
            ) && no_marker(crate::tags::spec_lines(fm)[k]),
{
    let ps = split_on(fm, '\n');
    crate::text::lemma_split_on_pieces(fm, '\n');
    assert forall|k: int| 0 <= k < ps.len() implies no_marker(#[trigger] ps[k]) by {
        lemma_split_no_marker(fm, '\n', k);
    }
    let ls = crate::tags::spec_lines(fm);
    assert forall|k: int|
        0 <= k < ls.len() implies no_char(#[trigger] ls[k], '\n') && no_marker(ls[k]) by {
        assert(ls[k] == crate::tags::strip_cr(ps[k]));
        let q = ps[k];
        if q.len() > 0 && q.last() == '\r' {
            assert(crate::tags::strip_cr(q) =~= q.take(q.len() - 1));
            lemma_no_char_take(q, '\n', q.len() - 1);
            lemma_no_marker_take(q, q.len() - 1);
        }
    }
}

/// The last `tags:` line of the replaced line list carries the new list.
proof fn lemma_ltr_replaced_map(ls: Seq<Seq<char>>, l: Seq<Seq<char>>)
    requires
        crate::rewrite::has_tags_line(ls),
        forall|i: int| 0 <= i < l.len() ==> tag_structural(#[trigger] l[i]),
    ensures
        crate::tags::last_tags_rest(
            replaced_lines(ls, l).map_values(|p: Seq<char>| crate::tags::strip_cr(p)),
        ) == Some(crate::tags::tags_rest(crate::rewrite::tags_line_of(l))),
    decreases ls.len(),
{
    lemma_tl_facts(l);
    let tl = crate::rewrite::tags_line_of(l);
    let mapped = replaced_lines(ls, l).map_values(|p: Seq<char>| crate::tags::strip_cr(p));
    let w = choose|w: int| 0 <= w < ls.len() && crate::tags::is_tags_line(ls[w]);
    if crate::tags::is_tags_line(ls.last()) {
        assert(mapped.last() == crate::tags::strip_cr(tl));
        assert(mapped.last() == tl);
    } else {
        assert(mapped.last() == crate::tags::strip_cr(ls.last()));
        let b = crate::tags::strip_cr(ls.last());
        assert(!crate::tags::is_tags_line(b)) by {
            if ls.last().len() > 0 && ls.last().last() == '\r' {
                assert(b =~= ls.last().drop_last());
                assert(ls.last() =~= b.push('\r'));
                lemma_trim_snoc_space(b, '\r');
            }
        }
        assert(w < ls.len() - 1);
        let lsd = ls.drop_last();
        assert(crate::rewrite::has_tags_line(lsd)) by {
            assert(lsd[w] == ls[w]);
        }
        lemma_ltr_replaced_map(lsd, l);
        assert(mapped.drop_last() =~~= replaced_lines(lsd, l).map_values(
            |p: Seq<char>| crate::tags::strip_cr(p),
        ));
    }
}

/// The new front-matter body: its lines end with the new tag line as the
/// last `tags:` line, it is non-empty, ends in a newline, and holds no
/// marker.
proof fn lemma_nf_props(fm: Seq<char>, l: Seq<Seq<char>>)
    requires
        no_marker(fm),
        forall|i: int| 0 <= i < l.len() ==> tag_structural(#[trigger] l[i]),
    ensures
        ({
            let nf = crate::rewrite::new_fm(fm, l);
            &&& no_marker(nf)
            &&& nf.len() > 0
            &&& nf.last() == '\n'
            &&& last_tags_of(nf) == Some(crate::tags::tags_rest(crate::rewrite::tags_line_of(l)))
        }),
{
    lemma_tl_facts(l);
    let tl = crate::rewrite::tags_line_of(l);
    let ls = crate::tags::spec_lines(fm);
    lemma_lines_nm(fm);
    let rw = crate::rewrite::rewrite_fm_lines(ls, l);
    lemma_rewrite_body_props(ls, l);
    let nf = crate::rewrite::new_fm(fm, l);
    if crate::rewrite::has_tags_line(ls) {
        assert(nf == rw);
        assert(ls.len() > 0) by {
            let w = choose|w: int| 0 <= w < ls.len() && crate::tags::is_tags_line(ls[w]);
        }
        // the split of the body is the replaced lines plus a final empty
        // piece
        assert(rw =~= rw + Seq::<char>::empty());
        lemma_split_rewrite_plus(ls, l, Seq::<char>::empty());
        lemma_find_char(Seq::<char>::empty(), '\n');
        assert(split_on(Seq::<char>::empty(), '\n') =~~= seq![Seq::<char>::empty()]);
        let ps = split_on(nf, '\n');
        assert(ps =~~= replaced_lines(ls, l) + seq![Seq::<char>::empty()]);
        assert(ps.last().len() == 0);
        assert(ps.drop_last() =~~= replaced_lines(ls, l));
        assert(crate::tags::spec_lines(nf) =~~= replaced_lines(ls, l).map_values(
            |p: Seq<char>| crate::tags::strip_cr(p),
        ));
        lemma_ltr_replaced_map(ls, l);
    } else {
        assert(nf == rw + tl + seq!['\n']);
        assert(nf =~= rw + (tl + seq!['\n']));
        lemma_split_rewrite_plus(ls, l, tl + seq!['\n']);
        assert(tl + seq!['\n'] =~= tl + seq!['\n'] + Seq::<char>::empty());
        crate::text::lemma_split_on_concat(tl, Seq::<char>::empty(), '\n');
        lemma_find_char(Seq::<char>::empty(), '\n');
        assert(split_on(Seq::<char>::empty(), '\n') =~~= seq![Seq::<char>::empty()]);
        lemma_find_char(tl, '\n');
        if find_char(tl, '\n') >= 0 {
            assert(tl[find_char(tl, '\n')] == '\n');
        }
        assert(split_on(tl, '\n') =~~= seq![tl]);
        assert(split_on(tl + seq!['\n'], '\n') =~~= seq![tl, Seq::<char>::empty()]);
        let ps = split_on(nf, '\n');
        assert(ps =~~= replaced_lines(ls, l) + seq![tl, Seq::<char>::empty()]);
        assert(ps.last().len() == 0);
        assert(ps.drop_last() =~~= replaced_lines(ls, l) + seq![tl]);
        let mapped = (replaced_lines(ls, l) + seq![tl]).map_values(
            |p: Seq<char>| crate::tags::strip_cr(p),
        );
        assert(crate::tags::spec_lines(nf) =~~= mapped);
        assert(mapped.last() == crate::tags::strip_cr(tl));
        assert(mapped.last() == tl);
        // no marker, non-empty, trailing newline
        assert(no_marker(tl + seq!['\n'])) by {
            assert(no_marker(seq!['\n'])) by {
                assert forall|i: int| !match_at(seq!['\n'], marker(), i) by {}
            }
            lemma_no_marker_concat(tl, seq!['\n']);
        }
        if ls.len() > 0 {
            lemma_no_marker_concat(rw, tl + seq!['\n']);
        } else {
            assert(rw.len() == 0);
            assert(nf =~= tl + seq!['\n']);
        }
        assert(nf.last() == '\n');
    }
}

/// The front-matter tag list of a rewritten document is the parse of its
/// written list.
proof fn lemma_fm_list_of_rewrite(s: Seq<char>, l: Seq<Seq<char>>)
    requires
        forall|i: int| 0 <= i < l.len() ==> tag_structural(#[trigger] l[i]),
    ensures
        crate::tags::fm_tag_list(crate::rewrite::spec_rewrite_with(s, l))
            == crate::tags::comma_items(split_on(crate::rewrite::join_tags(l), ',')),
{
    lemma_tl_facts(l);
    let tl = crate::rewrite::tags_line_of(l);
    let sp = crate::rewrite::spec_rewrite_with(s, l);
    match spec_frontmatter(s) {
        Some(fm) => {
            crate::rewrite::lemma_fm_markers(s);
            lemma_fm_no_marker(s);
            lemma_nf_props(fm, l);
            let nf = crate::rewrite::new_fm(fm, l);
            let start = find_sub(s, marker());
            let e = find_sub(s.skip(start + 3), marker());
            let end = start + e + 6;
            assert(sp =~= marker() + seq!['\n'] + nf + marker() + seq!['\n'] + s.skip(end));
            lemma_fm_of_block(nf, s.skip(end));
            assert(spec_frontmatter(sp) == Some(trim_spec(seq!['\n'] + nf)));
            lemma_ltr2_trim(seq!['\n'] + nf);
            lemma_ltr2_cons_space('\n', nf);
            assert(last_tags_of(trim_spec(seq!['\n'] + nf)) == Some(crate::tags::tags_rest(tl)));
        },
        Option::None => {
            let m = tl + seq!['\n'];
            assert(sp =~= marker() + seq!['\n'] + m + marker() + seq!['\n'] + (seq!['\n']
                + s));
            assert(no_marker(m)) by {
                assert(no_marker(seq!['\n'])) by {
                    assert forall|i: int| !match_at(seq!['\n'], marker(), i) by {}
                }
                lemma_no_marker_concat(tl, seq!['\n']);
            }
            assert(m.last() == '\n');
            lemma_fm_of_block(m, seq!['\n'] + s);
            assert(spec_frontmatter(sp) == Some(trim_spec(seq!['\n'] + m)));
            lemma_ltr2_trim(seq!['\n'] + m);
            lemma_ltr2_cons_space('\n', m);
            assert(m =~= tl.push('\n'));
            lemma_ltr2_snoc_space(tl, '\n');
            // the lines of the bare tag line
            lemma_find_char(tl, '\n');
            if find_char(tl, '\n') >= 0 {
                assert(tl[find_char(tl, '\n')] == '\n');
            }
            assert(split_on(tl, '\n') =~~= seq![tl]);
            assert(crate::tags::spec_lines(tl) =~~= seq![tl]) by {
                assert(seq![tl].last().len() > 0);
            }
            assert(last_tags_of(tl) == Some(crate::tags::tags_rest(tl)));
        },
    }
}

/// A newline-free, hash-free rewrite body for the inline scan: the whole
/// rewritten document holds no `#` when neither the document nor any tag
/// does.
proof fn lemma_rewrite_no_hash(s: Seq<char>, l: Seq<Seq<char>>)
    requires
        no_char(s, '#'),
        forall|i: int| 0 <= i < l.len() ==> tag_structural(#[trigger] l[i]) && no_char(
            #[trigger] l[i],
            '#',
        ),
    ensures
        no_char(crate::rewrite::spec_rewrite_with(s, l), '#'),
{
    lemma_tl_prefix_facts();
    let tl = crate::rewrite::tags_line_of(l);
    assert(no_char(tl, '#')) by {
        lemma_join_no_char(l, '#');
        assert(no_char(seq![']'], '#')) by {
            assert(seq![']'][0] == ']');
        }
        lemma_no_char_concat(crate::rewrite::join_tags(l), seq![']'], '#');
        lemma_no_char_concat(
            crate::tags::tags_key() + seq![' ', '['],
            crate::rewrite::join_tags(l) + seq![']'],
            '#',
        );
        assert(tl =~= (crate::tags::tags_key() + seq![' ', '[']) + (crate::rewrite::join_tags(l)
            + seq![']']));
    }
    let nl = seq!['\n'];
    assert(no_char(nl, '#')) by {
        assert(nl[0] == '\n');
    }
    assert(no_char(marker(), '#')) by {
        assert(marker()[0] == '-' && marker()[1] == '-' && marker()[2] == '-');
    }
    let sp = crate::rewrite::spec_rewrite_with(s, l);
    match spec_frontmatter(s) {
        Some(fm) => {
            crate::rewrite::lemma_fm_markers(s);
            lemma_fm_no_char(s, '#');
            lemma_fm_no_marker(s);
            let ls = crate::tags::spec_lines(fm);
            lemma_lines_props(fm, '#');
            let rw = crate::rewrite::rewrite_fm_lines(ls, l);
            assert(no_char(rw, '#')) by {
                lemma_rewrite_no_hash_body(ls, l);
            }
            let nf = crate::rewrite::new_fm(fm, l);
            assert(no_char(nf, '#')) by {
                if crate::rewrite::has_tags_line(ls) {
                } else {
                    lemma_no_char_concat(rw, tl, '#');
                    lemma_no_char_concat(rw + tl, nl, '#');
                    assert(nf =~= rw + tl + nl);
                }
            }
            let start = find_sub(s, marker());
            let e = find_sub(s.skip(start + 3), marker());
            let end = start + e + 6;
            lemma_no_char_skip(s, '#', end);
            lemma_no_char_concat(marker(), nl, '#');
            lemma_no_char_concat(marker() + nl, nf, '#');
            lemma_no_char_concat(marker() + nl + nf, marker(), '#');
            lemma_no_char_concat(marker() + nl + nf + marker(), nl, '#');
            lemma_no_char_concat(marker() + nl + nf + marker() + nl, s.skip(end), '#');
        },
        Option::None => {
            lemma_no_char_concat(marker(), nl, '#');
            lemma_no_char_concat(marker() + nl, tl, '#');
            lemma_no_char_concat(marker() + nl + tl, nl, '#');
            assert(no_char(seq!['\n', '\n'], '#')) by {
                assert(seq!['\n', '\n'][0] == '\n' && seq!['\n', '\n'][1] == '\n');
            }
            lemma_no_char_concat(marker() + nl + tl + nl, marker(), '#');
            lemma_no_char_concat(marker() + nl + tl + nl + marker(), seq!['\n', '\n'], '#');
            lemma_no_char_concat(
                marker() + nl + tl + nl + marker() + seq!['\n', '\n'],
                s,
                '#',
            );
        },
    }
}

/// The rewritten line body holds no `#` when neither lines nor tags do.
proof fn lemma_rewrite_no_hash_body(ls: Seq<Seq<char>>, l: Seq<Seq<char>>)
    requires
        forall|i: int| 0 <= i < ls.len() ==> no_char(#[trigger] ls[i], '#'),
        forall|i: int| 0 <= i < l.len() ==> tag_structural(#[trigger] l[i]) && no_char(
            #[trigger] l[i],
            '#',
        ),
    ensures
        no_char(crate::rewrite::rewrite_fm_lines(ls, l), '#'),
    decreases ls.len(),
{
    if ls.len() == 0 {
    } else {
        let first = if crate::tags::is_tags_line(ls[0]) {
            crate::rewrite::tags_line_of(l)
        } else {
            ls[0]
        };
        assert(no_char(first, '#')) by {
            if crate::tags::is_tags_line(ls[0]) {
                lemma_tl_prefix_facts();
                lemma_join_no_char(l, '#');
                assert(no_char(seq![']'], '#')) by {
                    assert(seq![']'][0] == ']');
                }
                lemma_no_char_concat(crate::rewrite::join_tags(l), seq![']'], '#');
                lemma_no_char_concat(
                    crate::tags::tags_key() + seq![' ', '['],
                    crate::rewrite::join_tags(l) + seq![']'],
                    '#',
                );
                assert(first =~= (crate::tags::tags_key() + seq![' ', '[']) + (
                crate::rewrite::join_tags(l) + seq![']']));
            }
        }
        assert(forall|i: int|
            0 <= i < ls.drop_first().len() ==> #[trigger] ls.drop_first()[i] == ls[i + 1]);
        lemma_rewrite_no_hash_body(ls.drop_first(), l);
        assert(no_char(seq!['\n'], '#')) by {
            assert(seq!['\n'][0] == '\n');
        }
        lemma_no_char_concat(first, seq!['\n'], '#');
        lemma_no_char_concat(
            first + seq!['\n'],
            crate::rewrite::rewrite_fm_lines(ls.drop_first(), l),
            '#',
        );
    }
}

/// Law — round trip: rewriting a document's tag list to a
/// duplicate-free list of well-formed tags and extracting again returns
/// exactly that list, for documents free of inline `#` markers.
pub proof fn lemma_rewrite_round_trip(content: Seq<char>, tags: Seq<Seq<char>>)
    requires
        no_char(content, '#'),
        forall|i: int| 0 <= i < tags.len() ==> tag_wf(#[trigger] tags[i]),
        forall|i: int, j: int| 0 <= i < j < tags.len() ==> tags[i] != tags[j],
    ensures
        crate::tags::spec_extract_tags(crate::rewrite::spec_rewrite_tags(content, tags)) == tags,
{
    if crate::tags::spec_extract_tags(content) == tags {
    } else {
        lemma_extract_of_rewrite(content, tags);
    }
}

/// Extracting from a freshly rewritten document returns the written list.
proof fn lemma_extract_of_rewrite(s: Seq<char>, l: Seq<Seq<char>>)
    requires
        no_char(s, '#'),
        forall|i: int| 0 <= i < l.len() ==> tag_wf(#[trigger] l[i]),
        forall|i: int, j: int| 0 <= i < j < l.len() ==> l[i] != l[j],
    ensures
        crate::tags::spec_extract_tags(crate::rewrite::spec_rewrite_with(s, l)) == l,
{
    assert(forall|i: int| 0 <= i < l.len() ==> tag_structural(#[trigger] l[i]));
    lemma_fm_list_of_rewrite(s, l);
    assert(forall|i: int| 0 <= i < l.len() ==> tag_parses(#[trigger] l[i]));
    lemma_join_parse(l);
    let sp = crate::rewrite::spec_rewrite_with(s, l);
    assert(crate::tags::fm_tag_list(sp) == l);
    assert(forall|i: int|
        0 <= i < l.len() ==> !Seq::<Seq<char>>::empty().contains(#[trigger] l[i]));
    lemma_dedup_id(Seq::<Seq<char>>::empty(), l);
    assert(Seq::<Seq<char>>::empty() + l =~~= l);
    lemma_rewrite_no_hash(s, l);
    crate::text::lemma_tokens_no_char(sp, '#');
    lemma_add_inline_noop(l, tokens(sp));
}

/// Law — idempotence: adding a set of well-formed tags a
/// second time returns the content of the first application unchanged,
/// provided the document's own tags keep the written block well-formed.
pub proof fn lemma_add_tags_idempotent(content: Seq<char>, ts: Seq<Seq<char>>)
    requires
        forall|i: int| 0 <= i < ts.len() ==> tag_wf(#[trigger] ts[i]),
        forall|k: int|
            0 <= k < crate::tags::spec_extract_tags(content).len() ==> tag_structural(
                #[trigger] crate::tags::spec_extract_tags(content)[k],
            ),
    ensures
        crate::rewrite::spec_add_tags(crate::rewrite::spec_add_tags(content, ts), ts)
            == crate::rewrite::spec_add_tags(content, ts),
{
    if ts.len() == 0 {
    } else {
        let ex = crate::tags::spec_extract_tags(content);
        let merged = crate::tags::dedup_append(ex, ts);
        if merged == ex {
        } else {
            let c1 = crate::rewrite::spec_rewrite_with(content, merged);
            assert(crate::rewrite::spec_add_tags(content, ts) == c1);
            assert forall|k: int| 0 <= k < merged.len() implies tag_structural(
                #[trigger] merged[k],
            ) by {
                lemma_dedup_members(ex, ts, k);
                if ex.contains(merged[k]) {
                } else {
                    let w = choose|w: int| 0 <= w < ts.len() && ts[w] == merged[k];
                }
            }
            lemma_fm_list_of_rewrite(content, merged);
            let ex1 = crate::tags::spec_extract_tags(c1);
            assert forall|i: int| 0 <= i < ts.len() implies ex1.contains(#[trigger] ts[i]) by {
                lemma_dedup_contains(ex, ts, ts[i]);
                lemma_join_parse_member(merged, ts[i]);
                lemma_dedup_contains(
                    Seq::<Seq<char>>::empty(),
                    crate::tags::fm_tag_list(c1),
                    ts[i],
                );
                lemma_add_inline_contains(
                    crate::tags::dedup_append(
                        Seq::<Seq<char>>::empty(),
                        crate::tags::fm_tag_list(c1),
                    ),
                    tokens(c1),
                    ts[i],
                );
            }
            lemma_dedup_noop(ex1, ts);
        }
    }
}

/// Law — recognition rule: a name is recognised exactly
/// when it carries the `.md` extension or starts, case-insensitively,
/// with `readme`; stated for names where such a prefix is one of the two
/// README forms (a name such as `readme.txt` starts with the prefix but
/// is not recognised).
pub proof fn lemma_recognize_rule(name: Seq<char>)
    requires
        crate::paths::starts_with(crate::text::lower(name), crate::paths::readme_seq())
            ==> crate::paths::is_readme_name(name),
    ensures
        crate::paths::spec_recognize(name) <==> (crate::paths::has_md_ext(name)
            || crate::paths::starts_with(crate::text::lower(name), crate::paths::readme_seq())),
{
    let rd = crate::paths::readme_seq();
    let rdm = crate::paths::readme_md_seq();
    assert(crate::text::lower(rd) =~= rd) by {
        assert forall|i: int| 0 <= i < rd.len() implies crate::text::lower(rd)[i] == rd[i] by {
            assert(crate::text::lower(rd)[i] == crate::text::lower_char(rd[i]));
        }
    }
    assert(crate::text::lower(rdm) =~= rdm) by {
        assert forall|i: int| 0 <= i < rdm.len() implies crate::text::lower(rdm)[i] == rdm[i] by {
            assert(crate::text::lower(rdm)[i] == crate::text::lower_char(rdm[i]));
        }
    }
    if crate::paths::is_readme_name(name) {
        if crate::paths::eq_ignore_case(name, rd) {
            assert(crate::text::lower(name).take(rd.len() as int) =~= rd);
        } else {
            assert(crate::text::lower(name) == rdm);
            assert(crate::text::lower(name).take(rd.len() as int) =~= rd);
        }
    }
}

/// Law — tier priority: an identifier that tier 1 accepts
/// resolves there; the later tiers are never consulted.
pub proof fn lemma_tier_priority(es: Seq<crate::docs::FsEntryView>, id: Seq<char>)
    requires
        crate::resolve::tier1_accepts(es, id),
    ensures
        crate::resolve::spec_resolve(es, id) == Some(id),
{
}

/// Law — category filter: with only a category filter, a
/// document matches exactly when it has a category that equals the filter
/// case-insensitively; a document without a category never matches.
pub proof fn lemma_category_filter(
    es: Seq<crate::docs::FsEntryView>,
    d: crate::docs::MarkdownFileView,
    f: Seq<char>,
)
    ensures
        crate::search::doc_matches(es, d, Option::None, Option::None, Some(f)) <==> (match d
            .category {
            Some(c) => crate::paths::eq_ignore_case(c, f),
            Option::None => false,
        }),
        d.category is None ==> !crate::search::doc_matches(
            es,
            d,
            Option::None,
            Option::None,
            Some(f),
        ),
{
}

} // verus!
