//! Character classes and low-level text utilities shared by the parsing
//! and rewriting code. Text is handled as `Vec<char>` internally; the
//! public API converts from and to `String` at the boundary.

use vstd::prelude::*;

verus! {

/// The whitespace characters this library recognises (ASCII whitespace).
pub open spec fn is_space(c: char) -> bool {
    c == ' ' || c == '\t' || c == '\n' || c == '\r'
}

/// ASCII alphanumeric: the characters kept at the tail of an inline tag.
pub open spec fn is_word_char(c: char) -> bool {
    ('a' <= c && c <= 'z') || ('A' <= c && c <= 'Z') || ('0' <= c && c <= '9')
}

/// ASCII lower-casing of a single character.
pub open spec fn lower_char(c: char) -> char {
    if 'A' <= c && c <= 'Z' {
        (c as u8 + 32) as char
    } else {
        c
    }
}

/// ASCII lower-casing of a sequence of characters.
pub open spec fn lower(s: Seq<char>) -> Seq<char> {
    s.map_values(|c: char| lower_char(c))
}

pub fn char_is_space(c: char) -> (r: bool)
    ensures
        r == is_space(c),
{
    c == ' ' || c == '\t' || c == '\n' || c == '\r'
}

pub fn char_is_word(c: char) -> (r: bool)
    ensures
        r == is_word_char(c),
{
    ('a' <= c && c <= 'z') || ('A' <= c && c <= 'Z') || ('0' <= c && c <= '9')
}

pub fn char_lower(c: char) -> (r: char)
    ensures
        r == lower_char(c),
{
    if 'A' <= c && c <= 'Z' {
        (c as u8 + 32) as char
    } else {
        c
    }
}

/// Converts a string slice to the vector of its characters.
pub fn str_to_chars(s: &str) -> (v: Vec<char>)
    ensures
        v@ == s@,
{
    let n = s.unicode_len();
    let mut v: Vec<char> = Vec::new();
    let mut i: usize = 0;
    while i < n
        invariant
            i <= n,
            n == s@.len(),
            v@ == s@.take(i as int),
        decreases n - i,
    {
        let c = s.get_char(i);
        v.push(c);
        i = i + 1;
        proof {
            assert(v@ =~= s@.take(i as int));
        }
    }
    proof {
        assert(v@ =~= s@);
    }
    v
}

/// Builds an owned string from a vector of characters.
///
/// Relies on `String`'s `FromIterator<char>` impl: collecting characters
/// yields the string of exactly those characters in order.
#[verifier::external_body]
pub(crate) fn chars_to_string(v: &Vec<char>) -> (s: String)
    ensures
        s@ == v@,
{
    v.iter().collect()
}

/// The deep view of a vector of character vectors indexes to the views of
/// its members.
pub broadcast proof fn lemma_deep_chars(v: Vec<Vec<char>>, i: int)
    requires
        0 <= i < v@.len(),
    ensures
        #[trigger] v.deep_view()[i] == v@[i]@,
{
    assert(v@[i].deep_view() =~= v@[i]@);
}

pub broadcast proof fn lemma_deep_chars_len(v: Vec<Vec<char>>)
    ensures
        (#[trigger] v.deep_view()).len() == v@.len(),
{
}

/// The deep view of a vector of strings indexes to the views of its members.
pub broadcast proof fn lemma_deep_strings(v: Vec<String>, i: int)
    requires
        0 <= i < v@.len(),
    ensures
        #[trigger] v.deep_view()[i] == v@[i]@,
{
}

pub broadcast proof fn lemma_deep_strings_len(v: Vec<String>)
    ensures
        (#[trigger] v.deep_view()).len() == v@.len(),
{
}

/// The pattern `p` occurs in `s` starting at position `i`.
pub open spec fn match_at(s: Seq<char>, p: Seq<char>, i: int) -> bool {
    0 <= i && i + p.len() <= s.len() && s.subrange(i, i + p.len()) =~= p
}

/// `p` occurs somewhere in `s`.
pub open spec fn contains_seq(s: Seq<char>, p: Seq<char>) -> bool {
    exists|i: int| match_at(s, p, i)
}

/// Index of the first occurrence of `p` in `s`, or -1 when there is none.
pub open spec fn find_sub(s: Seq<char>, p: Seq<char>) -> int
    decreases s.len(),
{
    if s.len() < p.len() {
        -1
    } else if s.take(p.len() as int) =~= p {
        0
    } else if s.len() == 0 {
        -1
    } else {
        let r = find_sub(s.drop_first(), p);
        if r < 0 {
            -1
        } else {
            r + 1
        }
    }
}

/// `find_sub` returns exactly the first match position.
pub proof fn lemma_find_sub(s: Seq<char>, p: Seq<char>)
    ensures
        find_sub(s, p) >= 0 ==> match_at(s, p, find_sub(s, p)) && (forall|j: int|
            0 <= j < find_sub(s, p) ==> !match_at(s, p, j)),
        find_sub(s, p) < 0 ==> forall|j: int| !match_at(s, p, j),
    decreases s.len(),
{
    if s.len() < p.len() {
        assert forall|j: int| !match_at(s, p, j) by {}
    } else if s.take(p.len() as int) =~= p {
        assert(match_at(s, p, 0)) by {
            assert(s.subrange(0, p.len() as int) =~= s.take(p.len() as int));
        }
    } else if s.len() == 0 {
        assert forall|j: int| !match_at(s, p, j) by {}
    } else {
        lemma_find_sub(s.drop_first(), p);
        let t = s.drop_first();
        assert forall|j: int| 1 <= j && j + p.len() <= s.len() implies (match_at(s, p, j)
            <==> match_at(t, p, j - 1)) by {
            assert(s.subrange(j, j + p.len()) =~= t.subrange(j - 1, j - 1 + p.len()));
        }
        assert(!match_at(s, p, 0)) by {
            assert(s.subrange(0, p.len() as int) =~= s.take(p.len() as int));
        }
        let r = find_sub(t, p);
        if r >= 0 {
            assert(match_at(s, p, r + 1));
        }
    }
}

/// If the first match of `p` in `s` is at `i`, then `find_sub` returns `i`.
pub proof fn lemma_find_sub_unique(s: Seq<char>, p: Seq<char>, i: int)
    requires
        match_at(s, p, i),
        forall|j: int| 0 <= j < i ==> !match_at(s, p, j),
    ensures
        find_sub(s, p) == i,
{
    lemma_find_sub(s, p);
    let r = find_sub(s, p);
    if r < 0 {
        assert(!match_at(s, p, i));
    } else {
        if r < i {
            assert(!match_at(s, p, r));
        }
        if i < r {
            assert(!match_at(s, p, i));
        }
    }
}

/// Copies the subrange `[from, to)` of `v` into a new vector.
pub fn subvec(v: &Vec<char>, from: usize, to: usize) -> (r: Vec<char>)
    requires
        from <= to <= v@.len(),
    ensures
        r@ == v@.subrange(from as int, to as int),
{
    let mut r: Vec<char> = Vec::new();
    let mut i: usize = from;
    while i < to
        invariant
            from <= i <= to <= v@.len(),
            r@ == v@.subrange(from as int, i as int),
        decreases to - i,
    {
        r.push(v[i]);
        i = i + 1;
        proof {
            assert(r@ =~= v@.subrange(from as int, i as int));
        }
    }
    r
}

/// Appends all of `w` to `v`.
pub fn extend_vec(v: &mut Vec<char>, w: &Vec<char>)
    ensures
        final(v)@ == old(v)@ + w@,
{
    let ghost orig = v@;
    let mut i: usize = 0;
    while i < w.len()
        invariant
            i <= w@.len(),
            v@ == orig + w@.take(i as int),
        decreases w@.len() - i,
    {
        v.push(w[i]);
        i = i + 1;
        proof {
            assert(v@ =~= orig + w@.take(i as int));
        }
    }
    proof {
        assert(v@ =~= orig + w@);
    }
}

/// Tests whether the two character vectors hold the same characters.
pub fn chars_eq(a: &Vec<char>, b: &Vec<char>) -> (r: bool)
    ensures
        r == (a@ == b@),
{
    if a.len() != b.len() {
        proof {
            assert(a@ != b@);
        }
        return false;
    }
    let mut i: usize = 0;
    while i < a.len()
        invariant
            i <= a@.len(),
            a@.len() == b@.len(),
            forall|j: int| 0 <= j < i ==> a@[j] == b@[j],
        decreases a@.len() - i,
    {
        if a[i] != b[i] {
            proof {
                assert(a@ != b@);
            }
            return false;
        }
        i = i + 1;
    }
    proof {
        assert(a@ =~= b@);
    }
    true
}

/// Tests whether `p` occurs in `v` at position `i`.
pub fn matches_at(v: &Vec<char>, p: &Vec<char>, i: usize) -> (r: bool)
    requires
        i + p@.len() <= v@.len(),
    ensures
        r == match_at(v@, p@, i as int),
{
    let n = v.len();
    let m = p.len();
    let mut j: usize = 0;
    while j < m
        invariant
            j <= m,
            m == p@.len(),
            n == v@.len(),
            i + m <= n,
            forall|k: int| 0 <= k < j ==> v@[i + k] == p@[k],
        decreases m - j,
    {
        if v[i + j] != p[j] {
            proof {
                assert(v@.subrange(i as int, i + p@.len())[j as int] == v@[i + j]);
                assert(!match_at(v@, p@, i as int));
            }
            return false;
        }
        j = j + 1;
    }
    proof {
        assert(v@.subrange(i as int, i + p@.len()) =~= p@);
    }
    true
}

/// Finds the first occurrence of `p` in `v`, matching `find_sub`.
pub fn find_in(v: &Vec<char>, p: &Vec<char>) -> (r: Option<usize>)
    ensures
        match r {
            Some(i) => find_sub(v@, p@) == i as int && match_at(v@, p@, i as int),
            None => find_sub(v@, p@) < 0 && !contains_seq(v@, p@),
        },
{
    if p.len() > v.len() {
        proof {
            lemma_find_sub(v@, p@);
            if find_sub(v@, p@) >= 0 {
                assert(match_at(v@, p@, find_sub(v@, p@)));
            }
        }
        return None;
    }
    if p.len() == 0 {
        proof {
            assert(match_at(v@, p@, 0)) by {
                assert(v@.subrange(0, 0) =~= p@);
            }
            lemma_find_sub_unique(v@, p@, 0);
        }
        return Some(0);
    }
    let n = v.len();
    let last = n - p.len();
    let mut i: usize = 0;
    while i <= last
        invariant
            i <= last + 1,
            n == v@.len(),
            last + p@.len() == n,
            p@.len() >= 1,
            forall|j: int| 0 <= j < i ==> !match_at(v@, p@, j),
        decreases last - i + 1,
    {
        if matches_at(v, p, i) {
            proof {
                lemma_find_sub_unique(v@, p@, i as int);
            }
            return Some(i);
        }
        i = i + 1;
    }
    proof {
        assert forall|j: int| !match_at(v@, p@, j) by {
            if j > last {
            }
        }
        lemma_find_sub(v@, p@);
        if find_sub(v@, p@) >= 0 {
            assert(match_at(v@, p@, find_sub(v@, p@)));
        }
    }
    None
}

/// No character of `s` equals `c`.
pub open spec fn no_char(s: Seq<char>, c: char) -> bool {
    forall|j: int| 0 <= j < s.len() ==> s[j] != c
}

/// Index of the first occurrence of the character `c` in `s`, or -1.
pub open spec fn find_char(s: Seq<char>, c: char) -> int
    decreases s.len(),
{
    if s.len() == 0 {
        -1
    } else if s[0] == c {
        0
    } else {
        let r = find_char(s.drop_first(), c);
        if r < 0 {
            -1
        } else {
            r + 1
        }
    }
}

/// `find_char` returns exactly the first occurrence.
pub proof fn lemma_find_char(s: Seq<char>, c: char)
    ensures
        find_char(s, c) < 0 ==> no_char(s, c),
        find_char(s, c) >= 0 ==> 0 <= find_char(s, c) < s.len() && s[find_char(s, c)] == c
            && (forall|j: int| 0 <= j < find_char(s, c) ==> s[j] != c),
    decreases s.len(),
{
    if s.len() == 0 {
    } else if s[0] == c {
    } else {
        let t = s.drop_first();
        lemma_find_char(t, c);
        assert(forall|j: int| 0 <= j < t.len() ==> #[trigger] t[j] == s[j + 1]);
        let r = find_char(t, c);
        if r < 0 {
            assert forall|j: int| 0 <= j < s.len() implies s[j] != c by {
                if j >= 1 {
                    assert(t[j - 1] != c);
                }
            }
        } else {
            assert(s[r + 1] == t[r]);
            assert forall|j: int| 0 <= j < r + 1 implies s[j] != c by {
                if j >= 1 {
                    assert(t[j - 1] != c);
                }
            }
        }
    }
}

/// If the first occurrence of `c` in `s` is at `i`, `find_char` returns `i`.
pub proof fn lemma_find_char_unique(s: Seq<char>, c: char, i: int)
    requires
        0 <= i < s.len(),
        s[i] == c,
        forall|j: int| 0 <= j < i ==> s[j] != c,
    ensures
        find_char(s, c) == i,
{
    lemma_find_char(s, c);
    let r = find_char(s, c);
    if r < 0 {
        assert(s[i] != c);
    } else if r < i {
        assert(s[r] != c);
    } else if i < r {
        assert(s[i] != c);
    }
}

/// Finds the first occurrence of the character `c` in `v`.
pub fn find_char_in(v: &Vec<char>, c: char) -> (r: Option<usize>)
    ensures
        match r {
            Some(i) => find_char(v@, c) == i as int,
            None => find_char(v@, c) < 0,
        },
{
    let mut i: usize = 0;
    while i < v.len()
        invariant
            i <= v@.len(),
            forall|j: int| 0 <= j < i ==> v@[j] != c,
        decreases v@.len() - i,
    {
        if v[i] == c {
            proof {
                lemma_find_char_unique(v@, c, i as int);
            }
            return Some(i);
        }
        i = i + 1;
    }
    proof {
        lemma_find_char(v@, c);
    }
    None
}

/// Drops leading whitespace.
pub open spec fn trim_start_spec(s: Seq<char>) -> Seq<char>
    decreases s.len(),
{
    if s.len() > 0 && is_space(s[0]) {
        trim_start_spec(s.drop_first())
    } else {
        s
    }
}

/// Drops trailing whitespace.
pub open spec fn trim_end_spec(s: Seq<char>) -> Seq<char>
    decreases s.len(),
{
    if s.len() > 0 && is_space(s.last()) {
        trim_end_spec(s.drop_last())
    } else {
        s
    }
}

/// Drops surrounding whitespace.
pub open spec fn trim_spec(s: Seq<char>) -> Seq<char> {
    trim_end_spec(trim_start_spec(s))
}

pub proof fn lemma_trim_start_at(s: Seq<char>, k: int)
    requires
        0 <= k <= s.len(),
        forall|j: int| 0 <= j < k ==> is_space(s[j]),
        k == s.len() || !is_space(s[k]),
    ensures
        trim_start_spec(s) == s.skip(k),
    decreases k,
{
    if k == 0 {
        assert(s.skip(0) =~= s);
        if s.len() > 0 && is_space(s[0]) {
            assert(!is_space(s[0]));
        }
    } else {
        assert(is_space(s[0]));
        let t = s.drop_first();
        assert(t =~= s.skip(1));
        lemma_trim_start_at(t, k - 1);
        assert(t.skip(k - 1) =~= s.skip(k));
    }
}

pub proof fn lemma_trim_end_at(s: Seq<char>, b: int)
    requires
        0 <= b <= s.len(),
        forall|j: int| b <= j < s.len() ==> is_space(s[j]),
        b == 0 || !is_space(s[b - 1]),
    ensures
        trim_end_spec(s) == s.take(b),
    decreases s.len(),
{
    if s.len() == b {
        assert(s.take(b) =~= s);
        if s.len() > 0 && is_space(s.last()) {
            assert(!is_space(s[b - 1]));
        }
    } else {
        assert(is_space(s.last()));
        let t = s.drop_last();
        assert(t =~= s.take(s.len() - 1));
        lemma_trim_end_at(t, b);
        assert(t.take(b) =~= s.take(b));
    }
}

/// Removes leading and trailing whitespace, matching `trim_spec`.
pub fn trim_vec(v: &Vec<char>) -> (r: Vec<char>)
    ensures
        r@ == trim_spec(v@),
{
    let n = v.len();
    let mut a: usize = 0;
    while a < n && char_is_space(v[a])
        invariant
            a <= n,
            n == v@.len(),
            forall|j: int| 0 <= j < a ==> is_space(v@[j]),
        decreases n - a,
    {
        a = a + 1;
    }
    proof {
        lemma_trim_start_at(v@, a as int);
    }
    let mut b: usize = n;
    while b > a && char_is_space(v[b - 1])
        invariant
            a <= b <= n,
            n == v@.len(),
            forall|j: int| b <= j < n ==> is_space(v@[j]),
        decreases b,
    {
        b = b - 1;
    }
    proof {
        let t = v@.skip(a as int);
        lemma_trim_end_at(t, b - a);
        assert(t.take(b - a) =~= v@.subrange(a as int, b as int));
    }
    subvec(v, a, b)
}

/// The pieces of `s` split on the separator `c`. Always at least one piece;
/// the separators themselves are dropped.
pub open spec fn split_on(s: Seq<char>, c: char) -> Seq<Seq<char>>
    decreases s.len(),
{
    let i = find_char(s, c);
    if !(0 <= i < s.len()) {
        seq![s]
    } else {
        seq![s.take(i)] + split_on(s.skip(i + 1), c)
    }
}

/// Splitting around one separator concatenates the splits of the halves.
pub proof fn lemma_split_on_concat(a: Seq<char>, b: Seq<char>, c: char)
    ensures
        split_on(a + seq![c] + b, c) == split_on(a, c) + split_on(b, c),
    decreases a.len(),
{
    let s = a + seq![c] + b;
    lemma_find_char(a, c);
    let i = find_char(a, c);
    if i < 0 {
        lemma_find_char_unique(s, c, a.len() as int);
        assert(s.take(a.len() as int) =~= a);
        assert(s.skip(a.len() as int + 1) =~= b);
        assert(split_on(s, c) =~= seq![a] + split_on(b, c));
        assert(split_on(a, c) =~= seq![a]);
        assert(seq![a] + split_on(b, c) =~= split_on(a, c) + split_on(b, c));
    } else {
        lemma_find_char_unique(s, c, i);
        assert(s.take(i) =~= a.take(i));
        assert(s.skip(i + 1) =~= a.skip(i + 1) + seq![c] + b);
        lemma_split_on_concat(a.skip(i + 1), b, c);
        assert(split_on(s, c) =~= seq![a.take(i)] + (split_on(a.skip(i + 1), c) + split_on(
            b,
            c,
        )));
        assert(split_on(a, c) =~= seq![a.take(i)] + split_on(a.skip(i + 1), c));
        assert(seq![a.take(i)] + (split_on(a.skip(i + 1), c) + split_on(b, c)) =~= split_on(a, c)
            + split_on(b, c));
    }
}

/// Every piece of a split is free of the separator.
pub proof fn lemma_split_on_pieces(s: Seq<char>, c: char)
    ensures
        forall|k: int|
            0 <= k < split_on(s, c).len() ==> no_char(#[trigger] split_on(s, c)[k], c),
    decreases s.len(),
{
    lemma_find_char(s, c);
    let i = find_char(s, c);
    if !(0 <= i < s.len()) {
    } else {
        lemma_split_on_pieces(s.skip(i + 1), c);
        let ps = split_on(s, c);
        assert forall|k: int| 0 <= k < ps.len() implies no_char(ps[k], c) by {
            if k == 0 {
                assert(ps[0] == s.take(i));
                assert forall|j: int| 0 <= j < s.take(i).len() implies #[trigger] s.take(i)[j] != c by {
                    assert(s.take(i)[j] == s[j]);
                }
            } else {
                assert(ps[k] == split_on(s.skip(i + 1), c)[k - 1]);
            }
        }
    }
}

/// A character absent from `s` is absent from every piece of its split.
pub proof fn lemma_split_on_no_char(s: Seq<char>, c: char, d: char)
    requires
        no_char(s, d),
    ensures
        forall|k: int|
            0 <= k < split_on(s, c).len() ==> no_char(#[trigger] split_on(s, c)[k], d),
    decreases s.len(),
{
    lemma_find_char(s, c);
    let i = find_char(s, c);
    if !(0 <= i < s.len()) {
    } else {
        assert forall|j: int| 0 <= j < s.skip(i + 1).len() implies #[trigger] s.skip(i + 1)[j] != d by {
            assert(s.skip(i + 1)[j] == s[i + 1 + j]);
        }
        lemma_split_on_no_char(s.skip(i + 1), c, d);
        let ps = split_on(s, c);
        assert forall|k: int| 0 <= k < ps.len() implies no_char(ps[k], d) by {
            if k == 0 {
                assert forall|j: int| 0 <= j < s.take(i).len() implies #[trigger] s.take(i)[j] != d by {
                    assert(s.take(i)[j] == s[j]);
                }
            } else {
                assert(ps[k] == split_on(s.skip(i + 1), c)[k - 1]);
            }
        }
    }
}

/// Splits `v` on the separator `c`, matching `split_on`.
pub fn split_on_vec(v: &Vec<char>, c: char) -> (r: Vec<Vec<char>>)
    ensures
        r.deep_view() == split_on(v@, c),
    decreases v@.len(),
{
    proof {
        lemma_find_char(v@, c);
    }
    match find_char_in(v, c) {
        None => {
            let mut r: Vec<Vec<char>> = Vec::new();
            r.push(subvec(v, 0, v.len()));
            proof {
                assert(v@.subrange(0, v@.len() as int) =~= v@);
                assert(r.deep_view() =~~= split_on(v@, c));
            }
            r
        },
        Some(i) => {
            proof {
                lemma_find_char(v@, c);
                assert((i as int) < v@.len());
            }
            let n = v.len();
            let head = subvec(v, 0, i);
            let tail = subvec(v, i + 1, n);
            proof {
                assert(tail@ =~= v@.skip(i + 1));
                assert(head@ =~= v@.take(i as int));
            }
            let mut r = split_on_vec(&tail, c);
            r.insert(0, head);
            proof {
                assert(r.deep_view() =~~= split_on(v@, c));
            }
            r
        },
    }
}

/// Index of the first whitespace character in `s`, or -1.
pub open spec fn find_space(s: Seq<char>) -> int
    decreases s.len(),
{
    if s.len() == 0 {
        -1
    } else if is_space(s[0]) {
        0
    } else {
        let r = find_space(s.drop_first());
        if r < 0 {
            -1
        } else {
            r + 1
        }
    }
}

pub proof fn lemma_find_space(s: Seq<char>)
    ensures
        find_space(s) < 0 ==> forall|j: int| 0 <= j < s.len() ==> !is_space(s[j]),
        find_space(s) >= 0 ==> 0 <= find_space(s) < s.len() && is_space(s[find_space(s)]) && (
        forall|j: int| 0 <= j < find_space(s) ==> !is_space(s[j])),
    decreases s.len(),
{
    if s.len() == 0 {
    } else if is_space(s[0]) {
    } else {
        let t = s.drop_first();
        lemma_find_space(t);
        assert(forall|j: int| 0 <= j < t.len() ==> #[trigger] t[j] == s[j + 1]);
        let r = find_space(t);
        if r < 0 {
            assert forall|j: int| 0 <= j < s.len() implies !is_space(s[j]) by {
                if j >= 1 {
                    assert(!is_space(t[j - 1]));
                }
            }
        } else {
            assert(s[r + 1] == t[r]);
            assert forall|j: int| 0 <= j < r + 1 implies !is_space(s[j]) by {
                if j >= 1 {
                    assert(!is_space(t[j - 1]));
                }
            }
        }
    }
}

pub proof fn lemma_find_space_unique(s: Seq<char>, i: int)
    requires
        0 <= i < s.len(),
        is_space(s[i]),
        forall|j: int| 0 <= j < i ==> !is_space(s[j]),
    ensures
        find_space(s) == i,
{
    lemma_find_space(s);
    let r = find_space(s);
    if r < 0 {
        assert(!is_space(s[i]));
    } else if r < i {
        assert(!is_space(s[r]));
    } else if i < r {
        assert(!is_space(s[i]));
    }
}

/// The whitespace-separated words of `s`, in order. Words are maximal runs
/// of non-whitespace characters; empty words never occur.
pub open spec fn tokens(s: Seq<char>) -> Seq<Seq<char>>
    decreases s.len(),
{
    if s.len() == 0 {
        Seq::empty()
    } else if is_space(s[0]) {
        tokens(s.drop_first())
    } else {
        let j = find_space(s);
        if !(1 <= j <= s.len()) {
            seq![s]
        } else {
            seq![s.take(j)] + tokens(s.skip(j))
        }
    }
}

/// A character absent from `s` is absent from every token of `s`.
pub proof fn lemma_tokens_no_char(s: Seq<char>, d: char)
    requires
        no_char(s, d),
    ensures
        forall|k: int| 0 <= k < tokens(s).len() ==> no_char(#[trigger] tokens(s)[k], d),
    decreases s.len(),
{
    if s.len() == 0 {
    } else if is_space(s[0]) {
        assert forall|j: int| 0 <= j < s.drop_first().len() implies #[trigger] s.drop_first()[j] != d by {
            assert(s.drop_first()[j] == s[j + 1]);
        }
        lemma_tokens_no_char(s.drop_first(), d);
        assert(tokens(s) == tokens(s.drop_first()));
    } else {
        lemma_find_space(s);
        let j = find_space(s);
        if !(1 <= j <= s.len()) {
        } else {
            assert forall|m: int| 0 <= m < s.skip(j).len() implies #[trigger] s.skip(j)[m] != d by {
                assert(s.skip(j)[m] == s[j + m]);
            }
            lemma_tokens_no_char(s.skip(j), d);
            let ts = tokens(s);
            assert forall|k: int| 0 <= k < ts.len() implies no_char(ts[k], d) by {
                if k == 0 {
                    assert forall|m: int| 0 <= m < s.take(j).len() implies #[trigger] s.take(j)[m] != d by {
                        assert(s.take(j)[m] == s[m]);
                    }
                } else {
                    assert(ts[k] == tokens(s.skip(j))[k - 1]);
                }
            }
        }
    }
}

/// Splits `v` into whitespace-separated words, matching `tokens`.
pub fn tokens_vec(v: &Vec<char>) -> (r: Vec<Vec<char>>)
    ensures
        r.deep_view() == tokens(v@),
    decreases v@.len(),
{
    if v.len() == 0 {
        let r: Vec<Vec<char>> = Vec::new();
        proof {
            assert(r.deep_view() =~~= tokens(v@));
        }
        return r;
    }
    if char_is_space(v[0]) {
        let tail = subvec(v, 1, v.len());
        proof {
            assert(tail@ =~= v@.drop_first());
        }
        let r = tokens_vec(&tail);
        return r;
    }
    // find first whitespace
    let n = v.len();
    let mut j: usize = 0;
    while j < n && !char_is_space(v[j])
        invariant
            j <= n,
            n == v@.len(),
            forall|k: int| 0 <= k < j ==> !is_space(v@[k]),
        decreases n - j,
    {
        j = j + 1;
    }
    proof {
        if j < n {
            lemma_find_space_unique(v@, j as int);
        } else {
            lemma_find_space(v@);
            if find_space(v@) >= 0 {
                assert(!is_space(v@[find_space(v@)]));
            }
        }
    }
    if j == n {
        let mut r: Vec<Vec<char>> = Vec::new();
        r.push(subvec(v, 0, v.len()));
        proof {
            assert(v@.subrange(0, v@.len() as int) =~= v@);
            assert(r.deep_view() =~~= tokens(v@));
        }
        r
    } else {
        let head = subvec(v, 0, j);
        let tail = subvec(v, j, v.len());
        proof {
            assert(head@ =~= v@.take(j as int));
            assert(tail@ =~= v@.skip(j as int));
        }
        let mut r = tokens_vec(&tail);
        r.insert(0, head);
        proof {
            assert(r.deep_view() =~~= tokens(v@));
        }
        r
    }
}

/// Lower-cases `v`, matching `lower`.
pub fn lower_vec(v: &Vec<char>) -> (r: Vec<char>)
    ensures
        r@ == lower(v@),
{
    let mut r: Vec<char> = Vec::new();
    let mut i: usize = 0;
    while i < v.len()
        invariant
            i <= v@.len(),
            r@.len() == i,
            forall|j: int| 0 <= j < i ==> r@[j] == lower_char(v@[j]),
        decreases v@.len() - i,
    {
        r.push(char_lower(v[i]));
        i = i + 1;
    }
    proof {
        assert(r@ =~= lower(v@));
    }
    r
}

/// Lexicographic (code-point) order on character sequences.
pub open spec fn lex_le(a: Seq<char>, b: Seq<char>) -> bool
    decreases a.len(),
{
    if a.len() == 0 {
        true
    } else if b.len() == 0 {
        false
    } else if (a[0] as u32) < (b[0] as u32) {
        true
    } else if (a[0] as u32) > (b[0] as u32) {
        false
    } else {
        lex_le(a.drop_first(), b.drop_first())
    }
}

/// `lex_le` is total: any two sequences compare one way or the other.
pub proof fn lemma_lex_le_total(a: Seq<char>, b: Seq<char>)
    ensures
        lex_le(a, b) || lex_le(b, a),
    decreases a.len(),
{
    if a.len() == 0 || b.len() == 0 {
    } else if a[0] as u32 == b[0] as u32 {
        lemma_lex_le_total(a.drop_first(), b.drop_first());
    }
}

/// `lex_le` is transitive.
pub proof fn lemma_lex_le_trans(a: Seq<char>, b: Seq<char>, c: Seq<char>)
    requires
        lex_le(a, b),
        lex_le(b, c),
    ensures
        lex_le(a, c),
    decreases a.len(),
{
    if a.len() == 0 {
    } else if b.len() == 0 {
    } else if c.len() == 0 {
    } else {
        if a[0] as u32 == b[0] as u32 && b[0] as u32 == c[0] as u32 {
            lemma_lex_le_trans(a.drop_first(), b.drop_first(), c.drop_first());
        }
    }
}

/// Compares two character vectors in lexicographic order.
pub fn lex_le_vec(a: &Vec<char>, b: &Vec<char>) -> (r: bool)
    ensures
        r == lex_le(a@, b@),
    decreases a@.len(),
{
    if a.len() == 0 {
        true
    } else if b.len() == 0 {
        false
    } else if (a[0] as u32) < (b[0] as u32) {
        true
    } else if (a[0] as u32) > (b[0] as u32) {
        false
    } else {
        let ta = subvec(a, 1, a.len());
        let tb = subvec(b, 1, b.len());
        proof {
            assert(ta@ =~= a@.drop_first());
            assert(tb@ =~= b@.drop_first());
        }
        lex_le_vec(&ta, &tb)
    }
}

} // verus!
