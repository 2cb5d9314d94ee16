//! Verified string utilities the catalog logic is built on: substring search,
//! lexicographic comparison, splitting on whitespace or on a separator,
//! literal (non-overlapping, left-to-right) replacement, and decimal parsing.

use vstd::prelude::*;

use crate::text::is_space;
use crate::text::is_space_char;

verus! {

/// Characters with the same code point are the same character.
pub proof fn lemma_char_eq(c1: char, c2: char)
    requires
        c1 as u32 == c2 as u32,
    ensures
        c1 == c2,
{
    vstd::utf8::char_u32_cast(c1, c1 as u32);
    vstd::utf8::char_u32_cast(c2, c2 as u32);
}

/// The deep view of a vector of character vectors, element by element.
pub proof fn lemma_deep_view_vecs(v: Vec<Vec<char>>)
    ensures
        v.deep_view().len() == v@.len(),
        forall|k: int| 0 <= k < v@.len() ==> v.deep_view()[k] == v@[k]@,
{
    assert forall|k: int| 0 <= k < v@.len() implies v.deep_view()[k] == v@[k]@ by {
        assert(v.deep_view()[k] == v@[k].deep_view());
        assert(v@[k].deep_view() =~= v@[k]@);
    }
}

/// The needle occurs in the haystack starting at position `i`.
pub open spec fn matches_at(hay: Seq<char>, needle: Seq<char>, i: int) -> bool {
    0 <= i && i + needle.len() <= hay.len() && hay.subrange(i, i + needle.len()) == needle
}

/// The needle occurs somewhere in the haystack.
pub open spec fn contains_seq(hay: Seq<char>, needle: Seq<char>) -> bool {
    exists|i: int| matches_at(hay, needle, i)
}

/// Whether the needle occurs at position `i`.
fn matches_at_exec(hay: &Vec<char>, needle: &Vec<char>, i: usize) -> (r: bool)
    requires
        i + needle@.len() <= hay@.len(),
    ensures
        r == matches_at(hay@, needle@, i as int),
{
    let hl = hay.len();
    let n = needle.len();
    for j in 0..n
        invariant
            hl == hay@.len(),
            n == needle@.len(),
            i + n <= hl,
            forall|k: int| 0 <= k < j ==> hay@[i + k] == needle@[k],
    {
        if hay[i + j] != needle[j] {
            assert(hay@.subrange(i as int, i + needle@.len())[j as int] != needle@[j as int]);
            return false;
        }
    }
    assert(hay@.subrange(i as int, i + needle@.len()) =~= needle@);
    true
}

/// Whether the needle occurs anywhere in the haystack.
pub fn contains_chars(hay: &Vec<char>, needle: &Vec<char>) -> (r: bool)
    ensures
        r == contains_seq(hay@, needle@),
{
    let h = hay.len();
    let n = needle.len();
    if n == 0 {
        proof {
            assert(hay@.subrange(0, 0) =~= needle@);
            assert(matches_at(hay@, needle@, 0));
        }
        return true;
    }
    if n > h {
        proof {
            assert forall|k: int| !matches_at(hay@, needle@, k) by {}
        }
        return false;
    }
    let last = h - n;
    let mut i: usize = 0;
    while i <= last
        invariant
            1 <= n <= h,
            h == hay@.len(),
            n == needle@.len(),
            last == h - n,
            0 <= i <= last + 1,
            forall|k: int| 0 <= k < i ==> !matches_at(hay@, needle@, k),
        decreases last + 1 - i,
    {
        if matches_at_exec(hay, needle, i) {
            return true;
        }
        i += 1;
    }
    proof {
        assert forall|k: int| !matches_at(hay@, needle@, k) by {
            if 0 <= k <= last {
                assert(!matches_at(hay@, needle@, k));
            }
        }
    }
    false
}

/// Three-way lexicographic comparison by code point: negative, zero or
/// positive as `a` is below, equal to or above `b`. A proper prefix is below.
pub open spec fn lex_cmp_spec(a: Seq<char>, b: Seq<char>) -> int
    decreases a.len(),
{
    if a.len() == 0 && b.len() == 0 {
        0
    } else if a.len() == 0 {
        -1
    } else if b.len() == 0 {
        1
    } else if (a[0] as u32) < (b[0] as u32) {
        -1
    } else if (a[0] as u32) > (b[0] as u32) {
        1
    } else {
        lex_cmp_spec(a.drop_first(), b.drop_first())
    }
}

/// Comparing in the other order flips the sign.
pub proof fn lemma_lex_antisym(a: Seq<char>, b: Seq<char>)
    ensures
        lex_cmp_spec(a, b) == -lex_cmp_spec(b, a),
    decreases a.len(),
{
    if a.len() > 0 && b.len() > 0 && (a[0] as u32) == (b[0] as u32) {
        lemma_lex_antisym(a.drop_first(), b.drop_first());
    }
}

/// The comparison is zero exactly on equal strings.
pub proof fn lemma_lex_zero(a: Seq<char>, b: Seq<char>)
    ensures
        lex_cmp_spec(a, b) == 0 <==> a == b,
    decreases a.len(),
{
    if a.len() > 0 && b.len() > 0 && (a[0] as u32) == (b[0] as u32) {
        lemma_char_eq(a[0], b[0]);
        lemma_lex_zero(a.drop_first(), b.drop_first());
        if lex_cmp_spec(a, b) == 0 {
            assert forall|k: int| 0 <= k < a.len() implies a[k] == b[k] by {
                if k > 0 {
                    assert(a[k] == a.drop_first()[k - 1]);
                    assert(b[k] == b.drop_first()[k - 1]);
                }
            }
            assert(a =~= b);
        }
        if a == b {
            assert(a.drop_first() =~= b.drop_first());
        }
    } else if a.len() == 0 && b.len() == 0 {
        assert(a =~= b);
    } else {
        assert(a != b);
    }
}

/// The order is transitive.
pub proof fn lemma_lex_trans(a: Seq<char>, b: Seq<char>, c: Seq<char>)
    requires
        lex_cmp_spec(a, b) <= 0,
        lex_cmp_spec(b, c) <= 0,
    ensures
        lex_cmp_spec(a, c) <= 0,
    decreases a.len(),
{
    if a.len() > 0 && b.len() > 0 && c.len() > 0 && (a[0] as u32) == (b[0] as u32) && (b[0] as u32)
        == (c[0] as u32) {
        lemma_char_eq(a[0], b[0]);
        lemma_char_eq(b[0], c[0]);
        lemma_lex_trans(a.drop_first(), b.drop_first(), c.drop_first());
    }
}

/// The comparison only takes the values -1, 0 and 1.
pub proof fn lemma_lex_bounded(a: Seq<char>, b: Seq<char>)
    ensures
        -1 <= lex_cmp_spec(a, b) <= 1,
    decreases a.len(),
{
    if a.len() > 0 && b.len() > 0 && (a[0] as u32) == (b[0] as u32) {
        lemma_lex_bounded(a.drop_first(), b.drop_first());
    }
}

/// Skipping a common prefix does not change the comparison.
proof fn lemma_lex_skip(a: Seq<char>, b: Seq<char>, i: int)
    requires
        0 <= i <= a.len(),
        i <= b.len(),
        forall|k: int| 0 <= k < i ==> a[k] == b[k],
    ensures
        lex_cmp_spec(a, b) == lex_cmp_spec(a.skip(i), b.skip(i)),
    decreases i,
{
    if i > 0 {
        lemma_lex_skip(a.drop_first(), b.drop_first(), i - 1);
        assert(a.drop_first().skip(i - 1) =~= a.skip(i));
        assert(b.drop_first().skip(i - 1) =~= b.skip(i));
    } else {
        assert(a.skip(0) =~= a);
        assert(b.skip(0) =~= b);
    }
}

/// Three-way lexicographic comparison of character vectors.
pub fn lex_cmp(a: &Vec<char>, b: &Vec<char>) -> (r: i32)
    ensures
        r as int == lex_cmp_spec(a@, b@),
{
    let an = a.len();
    let bn = b.len();
    let mut i: usize = 0;
    while i < an && i < bn
        invariant
            an == a@.len(),
            bn == b@.len(),
            0 <= i <= an,
            i <= bn,
            forall|k: int| 0 <= k < i ==> a@[k] == b@[k],
        decreases an - i,
    {
        let ca = a[i] as u32;
        let cb = b[i] as u32;
        if ca < cb {
            proof {
                lemma_lex_skip(a@, b@, i as int);
            }
            return -1;
        }
        if ca > cb {
            proof {
                lemma_lex_skip(a@, b@, i as int);
            }
            return 1;
        }
        proof {
            lemma_char_eq(a@[i as int], b@[i as int]);
        }
        i += 1;
    }
    proof {
        lemma_lex_skip(a@, b@, i as int);
    }
    if an == bn {
        0
    } else if an < bn {
        -1
    } else {
        1
    }
}

/// Length of the leading run of non-whitespace characters.
pub open spec fn word_len(s: Seq<char>) -> nat
    decreases s.len(),
{
    if s.len() == 0 || is_space_char(s[0]) {
        0
    } else {
        (1 + word_len(s.drop_first())) as nat
    }
}

/// The leading word never runs past the end of the string.
pub proof fn lemma_word_len_le(s: Seq<char>)
    ensures
        word_len(s) <= s.len(),
    decreases s.len(),
{
    if s.len() > 0 && !is_space_char(s[0]) {
        lemma_word_len_le(s.drop_first());
    }
}

/// The leading word ends at the first whitespace character.
proof fn lemma_word_len_of(s: Seq<char>, j: int)
    requires
        0 <= j <= s.len(),
        forall|k: int| 0 <= k < j ==> !is_space_char(s[k]),
        j == s.len() || is_space_char(s[j]),
    ensures
        word_len(s) == j,
    decreases j,
{
    if j > 0 {
        lemma_word_len_of(s.drop_first(), j - 1);
    }
}

/// The whitespace-separated words of a string, in order, without empty words.
pub open spec fn split_ws(s: Seq<char>) -> Seq<Seq<char>>
    decreases s.len(),
    via split_ws_decreases
{
    if s.len() == 0 {
        seq![]
    } else if is_space_char(s[0]) {
        split_ws(s.drop_first())
    } else {
        seq![s.take(word_len(s) as int)] + split_ws(s.skip(word_len(s) as int))
    }
}

#[via_fn]
proof fn split_ws_decreases(s: Seq<char>) {
    lemma_word_len_le(s);
}

/// The whitespace-separated words of a character vector.
pub fn split_spaces(cs: &Vec<char>) -> (r: Vec<Vec<char>>)
    ensures
        r.deep_view() == split_ws(cs@),
{
    let n = cs.len();
    let mut r: Vec<Vec<char>> = Vec::new();
    let mut i: usize = 0;
    proof {
        assert(cs@.skip(0) =~= cs@);
        lemma_deep_view_vecs(r);
        assert(r.deep_view() + split_ws(cs@) =~= split_ws(cs@));
    }
    while i < n
        invariant
            n == cs@.len(),
            0 <= i <= n,
            split_ws(cs@) == r.deep_view() + split_ws(cs@.skip(i as int)),
        decreases n - i,
    {
        if is_space(cs[i]) {
            proof {
                assert(cs@.skip(i as int).drop_first() =~= cs@.skip(i + 1));
            }
            i += 1;
        } else {
            let start = i;
            let mut j = i + 1;
            while j < n && !is_space(cs[j])
                invariant
                    n == cs@.len(),
                    start < j <= n,
                    forall|k: int| start <= k < j ==> !is_space_char(cs@[k]),
                decreases n - j,
            {
                j += 1;
            }
            let mut w: Vec<char> = Vec::new();
            let mut k = start;
            while k < j
                invariant
                    n == cs@.len(),
                    start <= k <= j <= n,
                    w@ =~= cs@.subrange(start as int, k as int),
                decreases j - k,
            {
                w.push(cs[k]);
                k += 1;
            }
            proof {
                let rest = cs@.skip(start as int);
                lemma_word_len_of(rest, j - start);
                assert(rest.take(j - start) =~= cs@.subrange(start as int, j as int));
                assert(rest.skip(j - start) =~= cs@.skip(j as int));
                assert(split_ws(rest) == seq![w@] + split_ws(cs@.skip(j as int)));
                lemma_deep_view_vecs(r);
            }
            let ghost rv = r@;
            let ghost rd = r.deep_view();
            r.push(w);
            proof {
                lemma_deep_view_vecs(r);
                assert(r.deep_view() =~= rd + seq![w@]);
                assert((rd + seq![w@]) + split_ws(cs@.skip(j as int)) =~= rd + split_ws(
                    cs@.skip(start as int),
                ));
            }
            i = j;
        }
    }
    proof {
        assert(cs@.skip(n as int) =~= Seq::<char>::empty());
        assert(r.deep_view() + split_ws(cs@.skip(n as int)) =~= r.deep_view());
    }
    r
}

/// Index of the first occurrence of the separator, or the length if absent.
pub open spec fn first_idx(s: Seq<char>, sep: char) -> nat
    decreases s.len(),
{
    if s.len() == 0 || s[0] == sep {
        0
    } else {
        (1 + first_idx(s.drop_first(), sep)) as nat
    }
}

/// The first occurrence never lies past the end of the string.
pub proof fn lemma_first_idx_le(s: Seq<char>, sep: char)
    ensures
        first_idx(s, sep) <= s.len(),
    decreases s.len(),
{
    if s.len() > 0 && s[0] != sep {
        lemma_first_idx_le(s.drop_first(), sep);
    }
}

/// The first occurrence is where scanning finds the separator.
proof fn lemma_first_idx_of(s: Seq<char>, sep: char, j: int)
    requires
        0 <= j <= s.len(),
        forall|k: int| 0 <= k < j ==> s[k] != sep,
        j == s.len() || s[j] == sep,
    ensures
        first_idx(s, sep) == j,
    decreases j,
{
    if j > 0 {
        lemma_first_idx_of(s.drop_first(), sep, j - 1);
    }
}

/// The fields of a string split on a separator, keeping empty fields; a
/// string without the separator yields a single field.
pub open spec fn split_char(s: Seq<char>, sep: char) -> Seq<Seq<char>>
    decreases s.len(),
    via split_char_decreases
{
    let j = first_idx(s, sep) as int;
    if j == s.len() {
        seq![s]
    } else {
        seq![s.take(j)] + split_char(s.skip(j + 1), sep)
    }
}

#[via_fn]
proof fn split_char_decreases(s: Seq<char>, sep: char) {
    lemma_first_idx_le(s, sep);
}

/// The fields of a character vector split on a separator.
pub fn split_on(cs: &Vec<char>, sep: char) -> (r: Vec<Vec<char>>)
    ensures
        r.deep_view() == split_char(cs@, sep),
{
    let n = cs.len();
    let mut r: Vec<Vec<char>> = Vec::new();
    let mut cur: Vec<char> = Vec::new();
    let mut start: usize = 0;
    let mut i: usize = 0;
    proof {
        assert(cs@.skip(0) =~= cs@);
        lemma_deep_view_vecs(r);
        assert(cur@ =~= cs@.subrange(0, 0));
        assert(r.deep_view() + split_char(cs@, sep) =~= split_char(cs@, sep));
    }
    while i < n
        invariant
            n == cs@.len(),
            0 <= start <= i <= n,
            cur@ == cs@.subrange(start as int, i as int),
            forall|k: int| start <= k < i ==> cs@[k] != sep,
            split_char(cs@, sep) == r.deep_view() + split_char(cs@.skip(start as int), sep),
        decreases n - i,
    {
        let c = cs[i];
        if c == sep {
            proof {
                let rest = cs@.skip(start as int);
                lemma_first_idx_of(rest, sep, i - start);
                assert(rest.take(i - start) =~= cur@);
                assert(rest.skip(i - start + 1) =~= cs@.skip(i + 1));
                lemma_deep_view_vecs(r);
            }
            let ghost rd = r.deep_view();
            let ghost cv = cur@;
            r.push(cur);
            proof {
                lemma_deep_view_vecs(r);
                assert(r.deep_view() =~= rd + seq![cv]);
                assert((rd + seq![cv]) + split_char(cs@.skip(i + 1), sep) =~= rd + split_char(
                    cs@.skip(start as int),
                    sep,
                ));
            }
            cur = Vec::new();
            i += 1;
            start = i;
            proof {
                assert(cur@ =~= cs@.subrange(start as int, i as int));
            }
        } else {
            cur.push(c);
            i += 1;
            proof {
                assert(cur@ =~= cs@.subrange(start as int, i as int));
            }
        }
    }
    proof {
        let rest = cs@.skip(start as int);
        lemma_first_idx_of(rest, sep, n - start);
        assert(rest =~= cur@);
        assert(split_char(rest, sep) == seq![cur@]);
        lemma_deep_view_vecs(r);
    }
    let ghost rd = r.deep_view();
    let ghost cv = cur@;
    r.push(cur);
    proof {
        lemma_deep_view_vecs(r);
        assert(r.deep_view() =~= rd + seq![cv]);
        assert(rd + seq![cv] =~= split_char(cs@, sep));
    }
    r
}

/// Left-to-right, non-overlapping replacement of a literal pattern. An empty
/// pattern replaces nothing.
pub open spec fn replace_spec(s: Seq<char>, pat: Seq<char>, to: Seq<char>) -> Seq<char>
    decreases s.len(),
{
    if pat.len() == 0 {
        s
    } else if s.len() < pat.len() {
        s
    } else if s.take(pat.len() as int) == pat {
        to + replace_spec(s.skip(pat.len() as int), pat, to)
    } else {
        seq![s[0]] + replace_spec(s.drop_first(), pat, to)
    }
}

/// Replace every (left-to-right, non-overlapping) occurrence of a literal
/// pattern.
pub fn replace_chars(s: &Vec<char>, pat: &Vec<char>, to: &Vec<char>) -> (r: Vec<char>)
    ensures
        r@ == replace_spec(s@, pat@, to@),
{
    let n = s.len();
    let m = pat.len();
    if m == 0 {
        let mut r: Vec<char> = Vec::new();
        let mut i: usize = 0;
        while i < n
            invariant
                n == s@.len(),
                0 <= i <= n,
                r@ =~= s@.subrange(0, i as int),
            decreases n - i,
        {
            r.push(s[i]);
            i += 1;
        }
        assert(r@ =~= s@);
        return r;
    }
    let mut r: Vec<char> = Vec::new();
    let mut i: usize = 0;
    proof {
        assert(s@.skip(0) =~= s@);
    }
    while i < n
        invariant
            n == s@.len(),
            m == pat@.len(),
            m >= 1,
            0 <= i <= n,
            replace_spec(s@, pat@, to@) == r@ + replace_spec(s@.skip(i as int), pat@, to@),
        decreases n - i,
    {
        let rest_len = n - i;
        if rest_len >= m && matches_at_exec(s, pat, i) {
            proof {
                let rest = s@.skip(i as int);
                assert(rest.take(m as int) =~= s@.subrange(i as int, i + m));
                assert(rest.skip(m as int) =~= s@.skip(i + m));
            }
            let ghost r0 = r@;
            let tn = to.len();
            let mut k: usize = 0;
            while k < tn
                invariant
                    tn == to@.len(),
                    0 <= k <= tn,
                    r@ =~= r0 + to@.take(k as int),
                decreases tn - k,
            {
                r.push(to[k]);
                k += 1;
            }
            proof {
                assert(to@.take(tn as int) =~= to@);
                assert(r@ =~= r0 + to@);
                assert((r0 + to@) + replace_spec(s@.skip(i + m), pat@, to@) =~= r0 + replace_spec(
                    s@.skip(i as int),
                    pat@,
                    to@,
                ));
            }
            i += m;
        } else {
            let ghost r0 = r@;
            proof {
                let rest = s@.skip(i as int);
                if rest.len() >= m {
                    assert(rest.take(m as int) =~= s@.subrange(i as int, i + m));
                }
                assert(rest.drop_first() =~= s@.skip(i + 1));
            }
            r.push(s[i]);
            proof {
                assert(r@ =~= r0 + seq![s@[i as int]]);
                assert((r0 + seq![s@[i as int]]) + replace_spec(s@.skip(i + 1), pat@, to@)
                    =~= r0 + replace_spec(s@.skip(i as int), pat@, to@));
            }
            i += 1;
        }
    }
    proof {
        assert(s@.skip(n as int) =~= Seq::<char>::empty());
    }
    r
}

} // verus!
