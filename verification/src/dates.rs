//! Release-date handling: lenient `YYYY-MM-DD` (with `/` accepted for `-`)
//! parsing, and conversion of a calendar date to a Unix-epoch timestamp in
//! milliseconds through the `time` crate.

use vstd::prelude::*;

use crate::strutil::lemma_deep_view_vecs;
use crate::strutil::split_char;
use crate::strutil::split_on;
use crate::text::chars_of;

verus! {

/// A decimal digit.
pub open spec fn is_digit_char(c: char) -> bool {
    0x30 <= c as u32 <= 0x39
}

/// Numeric value of a decimal digit.
pub open spec fn digit_val(c: char) -> int {
    c as u32 - 0x30
}

/// Every character is a decimal digit.
pub open spec fn all_digits(s: Seq<char>) -> bool {
    forall|k: int| 0 <= k < s.len() ==> is_digit_char(s[k])
}

/// Value of a string of decimal digits, most significant first.
pub open spec fn digits_val(s: Seq<char>) -> int
    decreases s.len(),
{
    if s.len() == 0 {
        0
    } else {
        digits_val(s.drop_last()) * 10 + digit_val(s.last())
    }
}

/// A digit string has a non-negative value.
proof fn lemma_digits_nonneg(s: Seq<char>)
    requires
        all_digits(s),
    ensures
        digits_val(s) >= 0,
    decreases s.len(),
{
    if s.len() > 0 {
        assert(all_digits(s.drop_last()));
        lemma_digits_nonneg(s.drop_last());
    }
}

/// Extending a digit string never shrinks its value.
proof fn lemma_digits_prefix(s: Seq<char>, i: int)
    requires
        all_digits(s),
        0 <= i <= s.len(),
    ensures
        digits_val(s) >= digits_val(s.take(i)),
    decreases s.len(),
{
    if i == s.len() {
        assert(s.take(i) =~= s);
    } else {
        assert(all_digits(s.drop_last()));
        assert(s.take(i) =~= s.drop_last().take(i));
        lemma_digits_prefix(s.drop_last(), i);
        lemma_digits_nonneg(s.drop_last());
    }
}

/// The signed integer a string denotes: an optional sign, then at least one
/// decimal digit; anything else denotes nothing.
pub open spec fn parse_int_spec(s: Seq<char>) -> Option<int> {
    let body = if s.len() > 0 && (s[0] == '+' || s[0] == '-') {
        s.drop_first()
    } else {
        s
    };
    if body.len() == 0 || !all_digits(body) {
        None
    } else if s.len() > 0 && s[0] == '-' {
        Some(-digits_val(body))
    } else {
        Some(digits_val(body))
    }
}

/// The string's value as an `i32`, if it has one and it fits.
pub open spec fn parse_i32_spec(s: Seq<char>) -> Option<i32> {
    match parse_int_spec(s) {
        Option::None => None,
        Option::Some(v) => if i32::MIN <= v <= i32::MAX {
            Some(v as i32)
        } else {
            None
        },
    }
}

/// The string's value as a `u8`: no minus sign, and the value must fit.
pub open spec fn parse_u8_spec(s: Seq<char>) -> Option<u8> {
    if s.len() > 0 && s[0] == '-' {
        None
    } else {
        match parse_int_spec(s) {
            Option::None => None,
            Option::Some(v) => if v <= u8::MAX {
                Some(v as u8)
            } else {
                None
            },
        }
    }
}

/// Value of the digit run from `start` on, or `None` on an empty or non-digit
/// run or one whose value passes 3_000_000_000.
fn parse_digits_from(cs: &Vec<char>, start: usize) -> (r: Option<i64>)
    requires
        start <= cs@.len(),
    ensures
        ({
            let body = cs@.skip(start as int);
            match r {
                Option::None => body.len() == 0 || !all_digits(body) || digits_val(body)
                    > 3_000_000_000,
                Option::Some(v) => all_digits(body) && body.len() > 0 && v == digits_val(body)
                    && 0 <= v <= 3_000_000_000,
            }
        }),
{
    let ghost body = cs@.skip(start as int);
    let n = cs.len();
    if start == n {
        return None;
    }
    let mut acc: i64 = 0;
    let mut i = start;
    while i < n
        invariant
            n == cs@.len(),
            body == cs@.skip(start as int),
            start <= i <= n,
            start < n,
            forall|k: int| start <= k < i ==> is_digit_char(cs@[k]),
            acc == digits_val(body.take(i - start)),
            0 <= acc <= 3_000_000_000,
        decreases n - i,
    {
        let c = cs[i];
        let u = c as u32;
        if !(0x30 <= u && u <= 0x39) {
            assert(!is_digit_char(body[i - start]));
            return None;
        }
        let d = (u - 0x30) as i64;
        proof {
            assert(body.take(i + 1 - start).drop_last() =~= body.take(i - start));
            assert(body.take(i + 1 - start).last() == cs@[i as int]);
        }
        acc = acc * 10 + d;
        i += 1;
        if acc > 3_000_000_000 {
            proof {
                if all_digits(body) {
                    lemma_digits_prefix(body, i - start);
                }
            }
            return None;
        }
    }
    proof {
        assert(body.take(n - start) =~= body);
    }
    Some(acc)
}

/// Parse a signed decimal `i32` as the standard library's parser would: an
/// optional sign and then decimal digits, rejecting anything else or a value
/// out of range.
pub fn parse_i32_chars(cs: &Vec<char>) -> (r: Option<i32>)
    ensures
        r == parse_i32_spec(cs@),
{
    let n = cs.len();
    let signed = n > 0 && (cs[0] == '+' || cs[0] == '-');
    let neg = n > 0 && cs[0] == '-';
    let start: usize = if signed {
        1
    } else {
        0
    };
    proof {
        if signed {
            assert(cs@.skip(1) =~= cs@.drop_first());
        } else {
            assert(cs@.skip(0) =~= cs@);
        }
    }
    match parse_digits_from(cs, start) {
        Option::None => {
            proof {
                let body = if signed {
                    cs@.drop_first()
                } else {
                    cs@
                };
                if body.len() > 0 && all_digits(body) {
                    // the digit run overflowed: the value is out of `i32` range
                    assert(digits_val(body) > 3_000_000_000);
                }
            }
            None
        },
        Option::Some(v) => {
            if neg {
                if v <= 2_147_483_648 {
                    Some((-v) as i32)
                } else {
                    None
                }
            } else {
                if v <= 2_147_483_647 {
                    Some(v as i32)
                } else {
                    None
                }
            }
        },
    }
}

/// Parse an unsigned decimal `u8` as the standard library's parser would: an
/// optional `+`, then decimal digits, rejecting anything else or a value out
/// of range.
pub fn parse_u8_chars(cs: &Vec<char>) -> (r: Option<u8>)
    ensures
        r == parse_u8_spec(cs@),
{
    let n = cs.len();
    if n > 0 && cs[0] == '-' {
        return None;
    }
    let signed = n > 0 && cs[0] == '+';
    let start: usize = if signed {
        1
    } else {
        0
    };
    proof {
        if signed {
            assert(cs@.skip(1) =~= cs@.drop_first());
        } else {
            assert(cs@.skip(0) =~= cs@);
        }
    }
    match parse_digits_from(cs, start) {
        Option::None => {
            proof {
                let body = if signed {
                    cs@.drop_first()
                } else {
                    cs@
                };
                if body.len() > 0 && all_digits(body) {
                    assert(digits_val(body) > 3_000_000_000);
                }
            }
            None
        },
        Option::Some(v) => {
            if v <= 255 {
                Some(v as u8)
            } else {
                None
            }
        },
    }
}

/// A Gregorian leap year.
pub open spec fn leap_year(y: int) -> bool {
    (y % 4 == 0 && y % 100 != 0) || y % 400 == 0
}

/// Days in a month of the proleptic Gregorian calendar.
pub open spec fn days_in_month(y: int, m: int) -> int {
    if m == 2 {
        if leap_year(y) {
            29
        } else {
            28
        }
    } else if m == 4 || m == 6 || m == 9 || m == 11 {
        30
    } else {
        31
    }
}

/// A calendar date the `time` crate accepts: a valid day of a valid month in
/// the proleptic Gregorian calendar, with the year within +/-9999.
pub open spec fn valid_civil_date(y: int, m: int, d: int) -> bool {
    -9999 <= y <= 9999 && 1 <= m <= 12 && 1 <= d <= days_in_month(y, m)
}

/// Seconds from the Unix epoch to midnight UTC of the given calendar date; a
/// function of the date alone.
pub uninterp spec fn unix_sec_of_date(y: int, m: int, d: int) -> int;

/// Relies on time::Month::try_from and time::Date::from_calendar_date (which
/// accept exactly the months 1..=12 and the valid proleptic-Gregorian dates
/// with |year| <= 9999) and on time::OffsetDateTime::unix_timestamp of that
/// date's midnight taken as UTC, which depends on the date alone and is a
/// whole number of days from the epoch, hence a multiple of 86400 seconds.
#[verifier::external_body]
fn civil_to_unix_seconds(y: i32, m: u8, d: u8) -> (r: Option<i64>)
    ensures
        r is Some <==> valid_civil_date(y as int, m as int, d as int),
        r matches Some(s) ==> s == unix_sec_of_date(y as int, m as int, d as int),
        r matches Some(s) ==> s % 86400 == 0,
{
    let month = match time::Month::try_from(m) {
        Ok(mo) => mo,
        Err(_) => return None,
    };
    match time::Date::from_calendar_date(y, month, d) {
        Ok(date) => Some(date.midnight().assume_utc().unix_timestamp()),
        Err(_) => None,
    }
}

/// Milliseconds from the Unix epoch to midnight UTC of the given date, when
/// the date is valid and the value fits in an `i64`.
pub open spec fn date_ms_opt(y: int, m: int, d: int) -> Option<i64> {
    if valid_civil_date(y, m, d) && i64::MIN <= 1000 * unix_sec_of_date(y, m, d) <= i64::MAX {
        Some((1000 * unix_sec_of_date(y, m, d)) as i64)
    } else {
        None
    }
}

/// The timestamp a release-date string denotes: `/` is read as `-`, the first
/// three `-`-separated fields are year, month and day, and the result is the
/// date's midnight UTC in milliseconds from the Unix epoch.
pub open spec fn parse_date_ms_spec(s: Seq<char>) -> Option<i64> {
    let t = s.map_values(|c: char| if c == '/' {
        '-'
    } else {
        c
    });
    let parts = split_char(t, '-');
    if parts.len() < 3 {
        None
    } else {
        let py = parse_i32_spec(parts[0]);
        let pm = parse_u8_spec(parts[1]);
        let pd = parse_u8_spec(parts[2]);
        if py is Some && pm is Some && pd is Some {
            date_ms_opt(py.unwrap() as int, pm.unwrap() as int, pd.unwrap() as int)
        } else {
            None
        }
    }
}

/// Parse a lenient `YYYY-MM-DD` (or `YYYY/MM/DD`) release date to midnight
/// UTC in milliseconds from the Unix epoch. Every timestamp returned is a
/// UTC midnight: a multiple of 86400000 milliseconds.
pub fn parse_release_date_ms(s: &str) -> (r: Option<i64>)
    ensures
        r == parse_date_ms_spec(s@),
        r matches Some(v) ==> v % 86400000 == 0,
{
    let cs = chars_of(s);
    let n = cs.len();
    let mut t: Vec<char> = Vec::new();
    for i in 0..n
        invariant
            n == cs@.len(),
            cs@ == s@,
            t@.len() == i,
            forall|k: int|
                0 <= k < i ==> t@[k] == (if s@[k] == '/' {
                    '-'
                } else {
                    s@[k]
                }),
    {
        let c = cs[i];
        if c == '/' {
            t.push('-');
        } else {
            t.push(c);
        }
    }
    proof {
        assert(t@ =~= s@.map_values(|c: char| if c == '/' {
            '-'
        } else {
            c
        }));
    }
    let parts = split_on(&t, '-');
    proof {
        lemma_deep_view_vecs(parts);
    }
    if parts.len() < 3 {
        return None;
    }
    let py = parse_i32_chars(&parts[0]);
    let pm = parse_u8_chars(&parts[1]);
    let pd = parse_u8_chars(&parts[2]);
    match (py, pm, pd) {
        (Option::Some(y), Option::Some(m), Option::Some(d)) => {
            match civil_to_unix_seconds(y, m, d) {
                Option::Some(sec) => {
                    if -9_223_372_036_854_775 <= sec && sec <= 9_223_372_036_854_775 {
                        let v = sec * 1000;
                        proof {
                            let q = sec as int / 86400;
                            vstd::arithmetic::div_mod::lemma_fundamental_div_mod(
                                sec as int,
                                86400,
                            );
                            assert(v as int == q * 86400000);
                            vstd::arithmetic::div_mod::lemma_mod_multiples_basic(q, 86400000);
                        }
                        Some(v)
                    } else {
                        None
                    }
                },
                Option::None => None,
            }
        },
        _ => None,
    }
}

} // verus!
