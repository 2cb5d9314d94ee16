//! Text normalisation for search keys: trim, lower-case every character by
//! its full (context-free) Unicode lowercase mapping, then fold each
//! character by a fixed code-point offset (full-width ASCII to half-width,
//! ideographic space to space, katakana to hiragana, and any capital the
//! lowercase step left in the folded ranges down to lower case).

use vstd::prelude::*;

verus! {

/// Relies on core::char::from_u32: `Some` exactly for Unicode scalar values
/// (code points outside the surrogate range), and the returned character has
/// the given code point.
pub assume_specification[ char::from_u32 ](u: u32) -> (r: Option<char>)
    ensures
        r is Some <==> (u < 0xD800 || (0xE000 <= u && u <= 0x10FFFF)),
        r matches Some(c) ==> c as u32 == u,
;

/// Relies on alloc::string::String::push: appends one character at the end.
pub assume_specification[ String::push ](s: &mut String, c: char)
    ensures
        final(s)@ == old(s)@.push(c),
;

/// The characters the normaliser trims: the Unicode White_Space code points.
pub open spec fn is_space_char(c: char) -> bool {
    let u = c as u32;
    (0x09 <= u && u <= 0x0D) || u == 0x20 || u == 0x85 || u == 0xA0 || u == 0x1680 || (0x2000
        <= u && u <= 0x200A) || u == 0x2028 || u == 0x2029 || u == 0x202F || u == 0x205F || u
        == 0x3000
}

/// Whether a character counts as whitespace for trimming and term splitting.
pub fn is_space(c: char) -> (r: bool)
    ensures
        r == is_space_char(c),
{
    let u = c as u32;
    (0x09 <= u && u <= 0x0D) || u == 0x20 || u == 0x85 || u == 0xA0 || u == 0x1680 || (0x2000
        <= u && u <= 0x200A) || u == 0x2028 || u == 0x2029 || u == 0x202F || u == 0x205F || u
        == 0x3000
}

/// What char::to_lowercase yields for a character outside the ranges
/// `lower_chars_of` fixes itself; a function of the character alone.
pub uninterp spec fn lower_raw(c: char) -> Seq<char>;

/// The full lowercase mapping of one character: one to three characters.
/// Printable ASCII other than the capital letters, and hiragana, have no
/// lowercase conversion and stay unchanged; every other character maps to
/// what char::to_lowercase yields for it (never empty).
pub open spec fn lower_chars_of(c: char) -> Seq<char> {
    let u = c as u32;
    if (0x20 <= u && u <= 0x7E && !(0x41 <= u && u <= 0x5A)) || (0x3041 <= u && u <= 0x3096) {
        seq![c]
    } else {
        let m = lower_raw(c);
        if m.len() == 0 {
            seq![c]
        } else {
            m
        }
    }
}

/// The lowercase mapping never vanishes.
pub proof fn lemma_lower_len(c: char)
    ensures
        lower_chars_of(c).len() >= 1,
{
}

/// The string with every character replaced by its lowercase mapping.
pub open spec fn lower_seq(s: Seq<char>) -> Seq<char>
    decreases s.len(),
{
    if s.len() == 0 {
        seq![]
    } else {
        lower_seq(s.drop_last()) + lower_chars_of(s.last())
    }
}

/// A string of lowercase-stable characters is its own lowercase form.
pub proof fn lemma_lower_seq_stable(s: Seq<char>)
    requires
        forall|k: int| 0 <= k < s.len() ==> lower_chars_of(#[trigger] s[k]) == seq![s[k]],
    ensures
        lower_seq(s) == s,
    decreases s.len(),
{
    if s.len() > 0 {
        lemma_lower_seq_stable(s.drop_last());
        assert(s.drop_last() + seq![s.last()] =~= s);
    } else {
        assert(lower_seq(s) =~= s);
    }
}

/// Relies on char::to_lowercase: the full, context-free Unicode lowercase
/// mapping of one character, a function of the character alone. The
/// characters of a mapping are themselves lowercase-stable (lower-case or
/// caseless), and no mapping turns a non-whitespace character into
/// whitespace.
#[verifier::external_body]
fn lower_char(c: char) -> (r: Vec<char>)
    ensures
        r@ == lower_chars_of(c),
        ({
            let u = c as u32;
            !((0x20 <= u && u <= 0x7E && !(0x41 <= u && u <= 0x5A)) || (0x3041 <= u && u
                <= 0x3096))
        }) ==> r@ == lower_raw(c),
        forall|k: int| 0 <= k < r@.len() ==> lower_chars_of(#[trigger] r@[k]) == seq![r@[k]],
        !is_space_char(c) ==> (forall|k: int|
            0 <= k < r@.len() ==> !is_space_char(#[trigger] r@[k])),
{
    c.to_lowercase().collect()
}

/// One character of the search-key folding. Full-width ASCII (U+FF01..U+FF5E)
/// moves to half-width by a fixed offset, with full-width capitals landing on
/// lower-case letters; the ideographic space becomes an ordinary space;
/// katakana (U+30A1..U+30F6) moves to hiragana by a fixed offset; ASCII
/// capitals move to lower case; everything else is unchanged.
pub open spec fn norm_char(c: char) -> char {
    let u = c as u32;
    if 0xFF01 <= u && u <= 0xFF5E {
        if 0xFF21 <= u && u <= 0xFF3A {
            ((u - 0xFEE0 + 0x20) as char)
        } else {
            ((u - 0xFEE0) as char)
        }
    } else if u == 0x3000 {
        ' '
    } else if 0x30A1 <= u && u <= 0x30F6 {
        ((u - 0x60) as char)
    } else if 0x41 <= u && u <= 0x5A {
        ((u + 0x20) as char)
    } else {
        c
    }
}

/// Executable form of the per-character folding.
pub fn fold_char(c: char) -> (r: char)
    ensures
        r == norm_char(c),
{
    let u = c as u32;
    if 0xFF01 <= u && u <= 0xFF5E {
        let h: u32 = if 0xFF21 <= u && u <= 0xFF3A {
            u - 0xFEE0 + 0x20
        } else {
            u - 0xFEE0
        };
        let r = char::from_u32(h).unwrap();
        proof {
            vstd::utf8::char_u32_cast(r, h);
        }
        r
    } else if u == 0x3000 {
        ' '
    } else if 0x30A1 <= u && u <= 0x30F6 {
        let r = char::from_u32(u - 0x60).unwrap();
        proof {
            vstd::utf8::char_u32_cast(r, (u - 0x60) as u32);
        }
        r
    } else if 0x41 <= u && u <= 0x5A {
        let r = char::from_u32(u + 0x20).unwrap();
        proof {
            vstd::utf8::char_u32_cast(r, (u + 0x20) as u32);
        }
        r
    } else {
        c
    }
}

/// Folding a character never yields whitespace unless the character itself
/// was whitespace: only the ideographic space maps to a space, and it is
/// whitespace already.
pub proof fn lemma_fold_keeps_nonspace(c: char)
    requires
        !is_space_char(c),
    ensures
        !is_space_char(norm_char(c)),
{
}

/// Folding is idempotent: every character the folding can produce is a fixed
/// point of the folding.
pub proof fn lemma_fold_idempotent(c: char)
    ensures
        norm_char(norm_char(c)) == norm_char(c),
{
}

/// Folding a lowercase-stable character yields a lowercase-stable character:
/// the folded ranges land on half-width non-capitals, the space, and
/// hiragana, none of which has a lowercase conversion.
pub proof fn lemma_fold_keeps_lower_stable(c: char)
    requires
        lower_chars_of(c) == seq![c],
    ensures
        lower_chars_of(norm_char(c)) == seq![norm_char(c)],
{
}

/// A full-width ASCII character folds to the very character its half-width
/// counterpart folds to: the folding cannot tell the two spellings apart.
pub proof fn lemma_full_width_round_trip(u: u32)
    requires
        0x21 <= u <= 0x7E,
    ensures
        norm_char(((u + 0xFEE0) as u32) as char) == norm_char(u as char),
{
}

/// The string with leading and trailing whitespace removed.
pub open spec fn trim_spec(s: Seq<char>) -> Seq<char>
    decreases s.len(),
{
    if s.len() == 0 {
        s
    } else if is_space_char(s[0]) {
        trim_spec(s.drop_first())
    } else if is_space_char(s[s.len() - 1]) {
        trim_spec(s.drop_last())
    } else {
        s
    }
}

/// A string whose first and last characters are not whitespace trims to
/// itself.
pub proof fn lemma_trim_fixed(s: Seq<char>)
    requires
        s.len() == 0 || (!is_space_char(s[0]) && !is_space_char(s[s.len() - 1])),
    ensures
        trim_spec(s) == s,
{
}

/// A string of whitespace only trims to the empty string.
proof fn lemma_trim_all_space(s: Seq<char>)
    requires
        forall|k: int| 0 <= k < s.len() ==> is_space_char(s[k]),
    ensures
        trim_spec(s) == Seq::<char>::empty(),
    decreases s.len(),
{
    if s.len() > 0 {
        lemma_trim_all_space(s.drop_first());
    } else {
        assert(trim_spec(s) =~= Seq::<char>::empty());
    }
}

/// Trimming keeps exactly the characters between the first and the last
/// non-whitespace character.
proof fn lemma_trim_subrange(s: Seq<char>, a: int, b: int)
    requires
        0 <= a < b <= s.len(),
        forall|k: int| 0 <= k < a ==> is_space_char(s[k]),
        forall|k: int| b <= k < s.len() ==> is_space_char(s[k]),
        !is_space_char(s[a]),
        !is_space_char(s[b - 1]),
    ensures
        trim_spec(s) == s.subrange(a, b),
    decreases s.len(),
{
    if a > 0 {
        lemma_trim_subrange(s.drop_first(), a - 1, b - 1);
        assert(s.drop_first().subrange(a - 1, b - 1) =~= s.subrange(a, b));
    } else if b < s.len() {
        lemma_trim_subrange(s.drop_last(), a, b);
        assert(s.drop_last().subrange(a, b) =~= s.subrange(a, b));
    } else {
        assert(trim_spec(s) == s);
        assert(s.subrange(0, s.len() as int) =~= s);
    }
}

/// The trimmed string starts and ends with non-whitespace characters.
pub proof fn lemma_trim_edges(s: Seq<char>)
    ensures
        trim_spec(s).len() > 0 ==> !is_space_char(trim_spec(s)[0]),
        trim_spec(s).len() > 0 ==> !is_space_char(trim_spec(s)[trim_spec(s).len() - 1]),
    decreases s.len(),
{
    if s.len() > 0 {
        if is_space_char(s[0]) {
            lemma_trim_edges(s.drop_first());
        } else if is_space_char(s[s.len() - 1]) {
            lemma_trim_edges(s.drop_last());
        }
    }
}

/// The normalised search key of a string: trim, lower-case every character,
/// then fold every character.
pub open spec fn normalize_spec(s: Seq<char>) -> Seq<char> {
    lower_seq(trim_spec(s)).map_values(|c: char| norm_char(c))
}

/// The characters of a string, as a vector.
pub fn chars_of(s: &str) -> (v: Vec<char>)
    ensures
        v@ == s@,
{
    let n = s.unicode_len();
    let mut v: Vec<char> = Vec::new();
    for i in 0..n
        invariant
            n == s@.len(),
            v@.len() == i,
            forall|k: int| 0 <= k < i ==> v@[k] == s@[k],
    {
        v.push(s.get_char(i));
    }
    assert(v@ =~= s@);
    v
}

/// A string holding exactly the given characters.
pub fn string_of(v: &Vec<char>) -> (r: String)
    ensures
        r@ == v@,
{
    let mut r = String::new();
    let n = v.len();
    for i in 0..n
        invariant
            n == v@.len(),
            r@.len() == i,
            forall|k: int| 0 <= k < i ==> r@[k] == v@[k],
    {
        r.push(v[i]);
    }
    assert(r@ =~= v@);
    r
}

/// The characters of a string with leading and trailing whitespace removed.
pub fn trim_chars(cs: &Vec<char>) -> (r: Vec<char>)
    ensures
        r@ == trim_spec(cs@),
{
    let n = cs.len();
    // first index holding a non-whitespace character
    let mut a: usize = 0;
    while a < n && is_space(cs[a])
        invariant
            n == cs@.len(),
            0 <= a <= n,
            forall|k: int| 0 <= k < a ==> is_space_char(cs@[k]),
        decreases n - a,
    {
        a += 1;
    }
    if a == n {
        proof {
            lemma_trim_all_space(cs@);
        }
        return Vec::new();
    }
    // one past the last index holding a non-whitespace character
    let mut b: usize = n;
    while b > a && is_space(cs[b - 1])
        invariant
            n == cs@.len(),
            a <= b <= n,
            !is_space_char(cs@[a as int]),
            forall|k: int| b <= k < n ==> is_space_char(cs@[k]),
        decreases b,
    {
        b -= 1;
    }
    proof {
        lemma_trim_subrange(cs@, a as int, b as int);
    }
    let mut out: Vec<char> = Vec::new();
    let mut i: usize = a;
    while i < b
        invariant
            n == cs@.len(),
            0 <= a <= i <= b <= n,
            out@ =~= cs@.subrange(a as int, i as int),
        decreases b - i,
    {
        out.push(cs[i]);
        i += 1;
        proof {
            assert(out@ =~= cs@.subrange(a as int, i as int));
        }
    }
    out
}

/// Append all characters of one vector to another.
fn append_chars(dst: &mut Vec<char>, src: &Vec<char>)
    ensures
        final(dst)@ == old(dst)@ + src@,
{
    let ghost d0 = dst@;
    let m = src.len();
    for j in 0..m
        invariant
            m == src@.len(),
            dst@ =~= d0 + src@.take(j as int),
    {
        dst.push(src[j]);
    }
    proof {
        assert(d0 + src@.take(m as int) =~= d0 + src@);
    }
}

/// The locale-folded search key of a string: leading and trailing whitespace
/// removed, every character replaced by its full lowercase mapping, then
/// every character folded by `norm_char`. Pure and total; and idempotent —
/// the search key of a search key is itself.
pub fn normalize(s: &str) -> (r: String)
    ensures
        r@ == normalize_spec(s@),
        normalize_spec(r@) == r@,
{
    let cs = chars_of(s);
    let t = trim_chars(&cs);
    proof {
        lemma_trim_edges(s@);
    }
    let n = t.len();
    // lower-case every character
    let mut l: Vec<char> = Vec::new();
    for i in 0..n
        invariant
            n == t@.len(),
            t@ == trim_spec(s@),
            l@ == lower_seq(t@.take(i as int)),
            forall|k: int| 0 <= k < l@.len() ==> lower_chars_of(#[trigger] l@[k]) == seq![l@[k]],
            (i > 0 && !is_space_char(t@[0])) ==> (l@.len() > 0 && !is_space_char(l@[0])),
            (i > 0 && !is_space_char(t@[i - 1])) ==> (l@.len() > 0 && !is_space_char(
                l@[l@.len() - 1],
            )),
            i > 0 ==> l@.len() > 0,
    {
        let ghost l0 = l@;
        let block = lower_char(t[i]);
        proof {
            lemma_lower_len(t@[i as int]);
        }
        append_chars(&mut l, &block);
        proof {
            assert(t@.take(i + 1).drop_last() =~= t@.take(i as int));
            assert(t@.take(i + 1).last() == t@[i as int]);
            assert(l@ =~= lower_seq(t@.take(i + 1)));
            assert forall|k: int| 0 <= k < l@.len() implies lower_chars_of(#[trigger] l@[k])
                == seq![l@[k]] by {
                if k >= l0.len() {
                    assert(l@[k] == block@[k - l0.len()]);
                }
            }
            if i == 0 && !is_space_char(t@[0]) {
                assert(l@[0] == block@[0]);
            }
            if !is_space_char(t@[i as int]) {
                assert(l@[l@.len() - 1] == block@[block@.len() - 1]);
            }
        }
    }
    proof {
        assert(t@.take(n as int) =~= t@);
    }
    // fold every character
    let m = l.len();
    let mut out: Vec<char> = Vec::new();
    for i in 0..m
        invariant
            m == l@.len(),
            out@.len() == i,
            forall|k: int| 0 <= k < i ==> out@[k] == norm_char(l@[k]),
    {
        out.push(fold_char(l[i]));
    }
    proof {
        let v = out@;
        assert(v =~= normalize_spec(s@));
        // the key is a fixed point: its edges are not whitespace, its
        // characters are lowercase-stable, and folding fixes them
        if v.len() > 0 {
            lemma_fold_keeps_nonspace(l@[0]);
            lemma_fold_keeps_nonspace(l@[l@.len() - 1]);
        }
        lemma_trim_fixed(v);
        assert forall|k: int| 0 <= k < v.len() implies lower_chars_of(#[trigger] v[k])
            == seq![v[k]] by {
            lemma_fold_keeps_lower_stable(l@[k]);
        }
        lemma_lower_seq_stable(v);
        assert(v.map_values(|c: char| norm_char(c)) =~= v) by {
            assert forall|k: int| 0 <= k < v.len() implies v.map_values(|c: char| norm_char(c))[k]
                == v[k] by {
                lemma_fold_idempotent(l@[k]);
            }
        }
        assert(normalize_spec(v) == v);
    }
    string_of(&out)
}

/// The folded key never holds a katakana character: the whole katakana block
/// is moved to hiragana.
pub proof fn lemma_no_katakana(s: Seq<char>, k: int)
    requires
        0 <= k < normalize_spec(s).len(),
    ensures
        !(0x30A1 <= normalize_spec(s)[k] as u32 <= 0x30F6),
{
}

} // verus!
