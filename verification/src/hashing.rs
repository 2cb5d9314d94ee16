//! Content hashing: the 128-bit XXH3 hash of a byte string, rendered as 32
//! lower-case hex digits for stable string comparison.

use vstd::prelude::*;

use crate::text::string_of;

verus! {

/// The 128-bit XXH3 hash of a byte string; a function of the bytes alone.
pub uninterp spec fn xxh3_of(bytes: Seq<u8>) -> u128;

/// Relies on xxhash_rust::xxh3::xxh3_128: the 128-bit XXH3 hash of the
/// bytes, a function of the bytes alone.
#[verifier::external_body]
fn xxh3_128_raw(buf: &[u8]) -> (h: u128)
    ensures
        h == xxh3_of(buf@),
{
    xxhash_rust::xxh3::xxh3_128(buf)
}

/// The hex digit for a value below 16, in lower case.
pub open spec fn hex_digit(v: int) -> char {
    if v < 10 {
        ((0x30 + v) as char)
    } else {
        ((0x57 + v) as char)
    }
}

/// The low `n` hex digits of `h`, most significant first.
pub open spec fn hex_seq(h: int, n: nat) -> Seq<char>
    decreases n,
{
    if n == 0 {
        seq![]
    } else {
        hex_seq(h / 16, (n - 1) as nat).push(hex_digit(h % 16))
    }
}

/// The 32-digit hex form of a 128-bit value.
pub open spec fn hex32(h: u128) -> Seq<char> {
    hex_seq(h as int, 32)
}

/// A hex rendering has exactly the asked-for number of digits.
pub proof fn lemma_hex_len(h: int, n: nat)
    ensures
        hex_seq(h, n).len() == n,
    decreases n,
{
    if n > 0 {
        lemma_hex_len(h / 16, (n - 1) as nat);
    }
}

/// The 32 hex digits of a 128-bit value, most significant first.
fn hex_digits32(h: u128) -> (v: Vec<char>)
    ensures
        v@ == hex32(h),
{
    let mut v: Vec<char> = Vec::new();
    let mut x = h;
    proof {
        assert(hex_seq(h as int, 32) + Seq::<char>::empty() =~= hex_seq(h as int, 32));
    }
    for i in 0..32usize
        invariant
            hex32(h) == hex_seq(x as int, (32 - i) as nat) + v@,
            v@.len() == i,
    {
        let dd = (x % 16) as u8;
        let c: char = if dd < 10 {
            (0x30 + dd) as char
        } else {
            (0x57 + dd) as char
        };
        assert(c == hex_digit(x as int % 16));
        let ghost old_v = v@;
        v.insert(0, c);
        proof {
            assert(v@ =~= seq![c] + old_v);
            assert(hex_seq(x as int, (32 - i) as nat) == hex_seq(x as int / 16, (31 - i) as nat)
                + seq![c]);
            assert(hex_seq(x as int / 16, (31 - i) as nat) + (seq![c] + old_v) =~= hex_seq(
                x as int,
                (32 - i) as nat,
            ) + old_v);
        }
        x = x / 16;
    }
    proof {
        assert(hex_seq(x as int, 0) + v@ =~= v@);
    }
    v
}

/// The content hash of a byte string: its 128-bit XXH3 value as 32 lower-case
/// hex digits.
pub fn xxh3_128_hex(buf: &[u8]) -> (r: String)
    ensures
        r@ == hex32(xxh3_of(buf@)),
        r@.len() == 32,
{
    let h = xxh3_128_raw(buf);
    let v = hex_digits32(h);
    proof {
        lemma_hex_len(h as int, 32);
    }
    string_of(&v)
}

} // verus!
