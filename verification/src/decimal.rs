//! Unsigned decimal strings: strict parsing and canonical formatting.
use crate::envelope::{invalid, AnalysisError};
use vstd::prelude::*;
use vstd::string::StringSliceAdditionalSpecFns;

verus! {

/// Whether a byte is an ASCII digit.
pub open spec fn is_digit(b: u8) -> bool {
    48 <= b <= 57
}

/// Nonempty and made of ASCII digits only.
pub open spec fn all_digits(s: Seq<u8>) -> bool {
    s.len() > 0 && forall|i: int| 0 <= i < s.len() ==> is_digit(#[trigger] s[i])
}

/// The number that a digit string denotes (leading zeros allowed).
pub open spec fn digits_value(s: Seq<u8>) -> nat
    decreases s.len(),
{
    if s.len() == 0 {
        0
    } else {
        digits_value(s.drop_last()) * 10 + (s.last() - 48) as nat
    }
}

/// The digits that `std` prints for `n`.
pub open spec fn decimal_chars(n: nat) -> Seq<char>
    decreases n,
{
    if n < 10 {
        seq![digit_char(n)]
    } else {
        decimal_chars(n / 10).push(digit_char(n % 10))
    }
}

pub open spec fn digit_char(d: nat) -> char {
    if d == 0 {
        '0'
    } else if d == 1 {
        '1'
    } else if d == 2 {
        '2'
    } else if d == 3 {
        '3'
    } else if d == 4 {
        '4'
    } else if d == 5 {
        '5'
    } else if d == 6 {
        '6'
    } else if d == 7 {
        '7'
    } else if d == 8 {
        '8'
    } else {
        '9'
    }
}

/// What `u128::from_str` accepts: an optional `+`, then digits denoting at most `u128::MAX`.
pub open spec fn unsigned_digits(s: Seq<u8>) -> Seq<u8> {
    if s.len() > 0 && s[0] == 43 {
        s.drop_first()
    } else {
        s
    }
}

pub open spec fn parses_u128(s: Seq<u8>) -> bool {
    all_digits(unsigned_digits(s)) && digits_value(unsigned_digits(s)) <= u128::MAX
}

proof fn lemma_prefix_value_grows(s: Seq<u8>, i: int)
    requires
        0 <= i <= s.len(),
    ensures
        digits_value(s.take(i)) <= digits_value(s),
    decreases s.len() - i,
{
    if i < s.len() {
        lemma_prefix_value_grows(s, i + 1);
        assert(s.take(i + 1).drop_last() =~= s.take(i));
    } else {
        assert(s.take(i) =~= s);
    }
}

/// Scans `s`: `Some(v)` with `v` the value of the digits when they denote at most
/// `limit`, `None` when they denote more. Requires digits only.
fn digits_up_to(s: &[u8], start: usize, limit: u128) -> (r: Option<u128>)
    requires
        start <= s@.len(),
        all_digits(s@.skip(start as int)),
    ensures
        match r {
            Some(v) => v as nat == digits_value(s@.skip(start as int)) && v <= limit,
            None => digits_value(s@.skip(start as int)) > limit,
        },
{
    let ghost d = s@.skip(start as int);
    let mut acc: u128 = 0;
    let mut i: usize = start;
    while i < s.len()
        invariant
            start <= i <= s@.len(),
            d == s@.skip(start as int),
            all_digits(d),
            acc as nat == digits_value(d.take(i - start)),
            acc <= limit,
        decreases s.len() - i,
    {
        let b = s[i];
        proof {
            assert(d[i - start] == b);
            assert(d.take(i - start + 1).drop_last() =~= d.take(i - start));
            assert(d.take(i - start + 1).last() == b);
        }
        let digit = (b - 48) as u128;
        match acc.checked_mul(10) {
            Some(m) => match m.checked_add(digit) {
                Some(next) => {
                    if next > limit {
                        proof {
                            lemma_prefix_value_grows(d, i - start + 1);
                        }
                        return None;
                    }
                    acc = next;
                },
                None => {
                    proof {
                        lemma_prefix_value_grows(d, i - start + 1);
                    }
                    return None;
                },
            },
            None => {
                proof {
                    lemma_prefix_value_grows(d, i - start + 1);
                }
                return None;
            },
        }
        i += 1;
    }
    proof {
        assert(d.take(i - start) =~= d);
    }
    Some(acc)
}

/// Whether every byte of `s` from `start` on is a digit, and there is at least one.
fn digits_only(s: &[u8], start: usize) -> (r: bool)
    requires
        start <= s@.len(),
    ensures
        r == all_digits(s@.skip(start as int)),
{
    if start == s.len() {
        return false;
    }
    let mut i: usize = start;
    while i < s.len()
        invariant
            start <= i <= s@.len(),
            start < s@.len(),
            forall|j: int| start <= j < i ==> is_digit(#[trigger] s@[j]),
        decreases s.len() - i,
    {
        if !(48 <= s[i] && s[i] <= 57) {
            proof {
                assert(s@.skip(start as int)[i - start] == s@[i as int]);
            }
            return false;
        }
        i += 1;
    }
    proof {
        assert forall|j: int| 0 <= j < s@.skip(start as int).len() implies is_digit(
            #[trigger] s@.skip(start as int)[j],
        ) by {
            assert(s@.skip(start as int)[j] == s@[start + j]);
        }
    }
    true
}

/// Parses an unsigned decimal `u64` string: digits only, at least one, at most `u64::MAX`.
/// Non-digit or empty input and overflow are distinct invalid-input errors.
pub fn decimal(value: &str) -> (r: Result<u64, AnalysisError>)
    ensures
        match r {
            Ok(v) => all_digits(value.spec_bytes()) && v as nat == digits_value(
                value.spec_bytes(),
            ),
            Err(e) => e matches AnalysisError::InvalidInput(m) && (if !all_digits(
                value.spec_bytes(),
            ) {
                m@ == "trace integers must be decimal u64 strings"@
            } else {
                digits_value(value.spec_bytes()) > u64::MAX && m@
                    == "trace integer exceeds u64"@
            }),
        },
{
    let bytes = value.as_bytes();
    proof {
        assert(bytes@.skip(0) =~= bytes@);
    }
    if !digits_only(bytes, 0) {
        return Err(invalid("trace integers must be decimal u64 strings"));
    }
    match digits_up_to(bytes, 0, u64::MAX as u128) {
        Some(v) => Ok(v as u64),
        None => Err(invalid("trace integer exceeds u64")),
    }
}

/// Reads an unsigned decimal `u64` string: `Ok` with its value, `Err(true)` when it is empty
/// or holds a non-digit, `Err(false)` when its digits denote more than `u64::MAX`.
pub fn read_u64(value: &str) -> (r: Result<u64, bool>)
    ensures
        match r {
            Ok(v) => all_digits(value.spec_bytes()) && v as nat == digits_value(value.spec_bytes()),
            Err(malformed) => malformed == !all_digits(value.spec_bytes()) && (!malformed
                ==> digits_value(value.spec_bytes()) > u64::MAX),
        },
{
    let bytes = value.as_bytes();
    proof {
        assert(bytes@.skip(0) =~= bytes@);
    }
    if !digits_only(bytes, 0) {
        return Err(true);
    }
    match digits_up_to(bytes, 0, u64::MAX as u128) {
        Some(v) => Ok(v as u64),
        None => Err(false),
    }
}

/// What `str::parse::<u128>` returns: the value for an optional `+` followed by digits
/// denoting at most `u128::MAX`, nothing otherwise.
pub fn parse_u128(value: &str) -> (r: Option<u128>)
    ensures
        match r {
            Some(v) => parses_u128(value.spec_bytes()) && v as nat == digits_value(
                unsigned_digits(value.spec_bytes()),
            ),
            None => !parses_u128(value.spec_bytes()),
        },
{
    let bytes = value.as_bytes();
    let start: usize = if bytes.len() > 0 && bytes[0] == 43 {
        1
    } else {
        0
    };
    proof {
        if start == 1 {
            assert(bytes@.skip(1) =~= bytes@.drop_first());
        } else {
            assert(bytes@.skip(0) =~= bytes@);
        }
    }
    if !digits_only(bytes, start) {
        return None;
    }
    digits_up_to(bytes, start, u128::MAX)
}

/// One digit as a one-character string.
fn digit_text(d: u128) -> (r: &'static str)
    requires
        d < 10,
    ensures
        r@ == seq![digit_char(d as nat)],
{
    if d == 0 {
        proof {
            reveal_strlit("0");
        }
        "0"
    } else if d == 1 {
        proof {
            reveal_strlit("1");
        }
        "1"
    } else if d == 2 {
        proof {
            reveal_strlit("2");
        }
        "2"
    } else if d == 3 {
        proof {
            reveal_strlit("3");
        }
        "3"
    } else if d == 4 {
        proof {
            reveal_strlit("4");
        }
        "4"
    } else if d == 5 {
        proof {
            reveal_strlit("5");
        }
        "5"
    } else if d == 6 {
        proof {
            reveal_strlit("6");
        }
        "6"
    } else if d == 7 {
        proof {
            reveal_strlit("7");
        }
        "7"
    } else if d == 8 {
        proof {
            reveal_strlit("8");
        }
        "8"
    } else {
        proof {
            reveal_strlit("9");
        }
        "9"
    }
}

/// The canonical decimal text of `n`, as `to_string` prints it.
pub fn decimal_string(n: u128) -> (r: String)
    ensures
        r@ == decimal_chars(n as nat),
    decreases n,
{
    if n < 10 {
        digit_text(n).to_string()
    } else {
        let mut text = decimal_string(n / 10);
        text.append(digit_text(n % 10));
        text
    }
}

} // verus!
