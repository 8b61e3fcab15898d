//! Decimal integer literals, as `u64::from_str` and `i128::from_str` read them.

use vstd::prelude::*;
use crate::text::chars_of;

verus! {

pub open spec fn is_digit(c: char) -> bool {
    '0' <= c && c <= '9'
}

/// The value of a run of decimal digits.
pub open spec fn digits_value(d: Seq<char>) -> nat
    decreases d.len(),
{
    if d.len() == 0 {
        0
    } else {
        digits_value(d.drop_last()) * 10 + ((d[d.len() - 1] as nat) - ('0' as nat)) as nat
    }
}

pub open spec fn all_digits(d: Seq<char>) -> bool {
    forall|i: int| 0 <= i < d.len() ==> is_digit(#[trigger] d[i])
}

/// The digits of `s` after an optional sign character `sign`.
pub open spec fn unsigned_part(s: Seq<char>, sign: char) -> Seq<char> {
    if s.len() > 0 && s[0] == sign { s.drop_first() } else { s }
}

/// `u64::from_str`: an optional `+`, then at least one digit, in range.
pub open spec fn spec_parse_u64(s: Seq<char>) -> Option<u64> {
    let d = unsigned_part(s, '+');
    if d.len() == 0 || !all_digits(d) || digits_value(d) > u64::MAX {
        None
    } else {
        Some(digits_value(d) as u64)
    }
}

/// `i128::from_str`: an optional `+` or `-`, then at least one digit, in range.
pub open spec fn spec_parse_i128(s: Seq<char>) -> Option<i128> {
    if s.len() > 0 && s[0] == '-' {
        let d = s.drop_first();
        if d.len() == 0 || !all_digits(d) || digits_value(d) > 0x8000_0000_0000_0000_0000_0000_0000_0000 {
            None
        } else {
            Some((0 - digits_value(d)) as i128)
        }
    } else {
        let d = unsigned_part(s, '+');
        if d.len() == 0 || !all_digits(d) || digits_value(d) > i128::MAX {
            None
        } else {
            Some(digits_value(d) as i128)
        }
    }
}

proof fn lemma_digits_mono(d: Seq<char>, k: int)
    requires
        0 <= k <= d.len(),
        all_digits(d),
    ensures
        digits_value(d.take(k)) <= digits_value(d),
    decreases d.len() - k,
{
    if k < d.len() {
        lemma_digits_mono(d, k + 1);
        let t = d.take(k + 1);
        assert(t.drop_last() =~= d.take(k));
        assert(t[t.len() - 1] == d[k]);
        assert(is_digit(d[k]));
        let x = digits_value(d.take(k));
        let y = ((d[k] as nat) - ('0' as nat)) as nat;
        assert(digits_value(t) == x * 10 + y);
        assert(x <= x * 10 + y) by (nonlinear_arith);
    } else {
        assert(d.take(k) =~= d);
    }
}

/// Reads the digits `d[0..]` into a value not above `limit`, or `None`
/// if a character is not a digit or the value exceeds `limit`.
fn read_digits(d: &[char], limit: u128) -> (r: Option<u128>)
    requires
        limit <= 0x8000_0000_0000_0000_0000_0000_0000_0000,
    ensures
        (d@.len() > 0 && all_digits(d@) && digits_value(d@) <= limit) ==> r == Some(digits_value(d@) as u128),
        !(d@.len() > 0 && all_digits(d@) && digits_value(d@) <= limit) ==> r is None,
{
    if d.len() == 0 {
        return None;
    }
    let mut acc: u128 = 0;
    let mut i: usize = 0;
    while i < d.len()
        invariant
            i <= d@.len(),
            all_digits(d@.take(i as int)),
            acc == digits_value(d@.take(i as int)),
            acc <= limit,
            limit <= 0x8000_0000_0000_0000_0000_0000_0000_0000,
        decreases d@.len() - i,
    {
        let c = d[i];
        proof {
            assert(d@.take(i + 1).drop_last() =~= d@.take(i as int));
            assert(d@.take(i + 1)[i as int] == c);
        }
        if !('0' <= c && c <= '9') {
            proof {
                assert(!is_digit(d@[i as int]));
            }
            return None;
        }
        let digit = (c as u32 - '0' as u32) as u128;
        proof {
            assert(digits_value(d@.take(i + 1)) == acc * 10 + digit);
        }
        if acc > limit / 10 {
            proof {
                assert(acc * 10 > limit) by (nonlinear_arith)
                    requires acc > limit / 10;
                assert(all_digits(d@.take(i + 1)));
                if all_digits(d@) {
                    lemma_digits_mono(d@, i + 1);
                }
            }
            return None;
        }
        assert(acc * 10 <= limit) by (nonlinear_arith)
            requires acc <= limit / 10;
        let next = acc * 10 + digit;
        if next > limit {
            proof {
                if all_digits(d@) {
                    lemma_digits_mono(d@, i + 1);
                }
            }
            return None;
        }
        acc = next;
        i = i + 1;
    }
    proof {
        assert(d@.take(d@.len() as int) =~= d@);
    }
    Some(acc)
}

/// `u64::from_str`.
pub fn parse_u64(s: &str) -> (r: Option<u64>)
    ensures
        r == spec_parse_u64(s@),
{
    let v = chars_of(s);
    let start: usize = if v.len() > 0 && v[0] == '+' { 1 } else { 0 };
    let d = v.as_slice().split_at(start).1;
    proof {
        assert(d@ =~= unsigned_part(s@, '+'));
    }
    match read_digits(d, 0xffff_ffff_ffff_ffff) {
        Some(x) => Some(x as u64),
        None => None,
    }
}

/// `i128::from_str`.
pub fn parse_i128(s: &str) -> (r: Option<i128>)
    ensures
        r == spec_parse_i128(s@),
{
    let v = chars_of(s);
    if v.len() > 0 && v[0] == '-' {
        let d = v.as_slice().split_at(1).1;
        proof {
            assert(d@ =~= s@.drop_first());
        }
        match read_digits(d, 0x8000_0000_0000_0000_0000_0000_0000_0000) {
            Some(x) => {
                if x == 0x8000_0000_0000_0000_0000_0000_0000_0000 {
                    Some(i128::MIN)
                } else {
                    Some(0 - (x as i128))
                }
            },
            None => None,
        }
    } else {
        let start: usize = if v.len() > 0 && v[0] == '+' { 1 } else { 0 };
        let d = v.as_slice().split_at(start).1;
        proof {
            assert(d@ =~= unsigned_part(s@, '+'));
        }
        match read_digits(d, 0x7fff_ffff_ffff_ffff_ffff_ffff_ffff_ffff) {
            Some(x) => Some(x as i128),
            None => None,
        }
    }
}


/// The decimal digits of `n`, most significant first, without leading zeros.
pub open spec fn decimal_of(n: nat) -> Seq<char>
    decreases n,
{
    if n < 10 {
        seq![digit_char(n)]
    } else {
        decimal_of(n / 10).push(digit_char(n % 10))
    }
}

pub open spec fn digit_char(d: nat) -> char {
    if d == 0 { '0' } else if d == 1 { '1' } else if d == 2 { '2' } else if d == 3 { '3' }
    else if d == 4 { '4' } else if d == 5 { '5' } else if d == 6 { '6' } else if d == 7 { '7' }
    else if d == 8 { '8' } else { '9' }
}

fn digit_str(d: usize) -> (r: &'static str)
    requires
        d < 10,
    ensures
        r@ == seq![digit_char(d as nat)],
{
    proof {
        reveal_strlit("0");
        reveal_strlit("1");
        reveal_strlit("2");
        reveal_strlit("3");
        reveal_strlit("4");
        reveal_strlit("5");
        reveal_strlit("6");
        reveal_strlit("7");
        reveal_strlit("8");
        reveal_strlit("9");
    }
    if d == 0 { "0" } else if d == 1 { "1" } else if d == 2 { "2" } else if d == 3 { "3" }
    else if d == 4 { "4" } else if d == 5 { "5" } else if d == 6 { "6" } else if d == 7 { "7" }
    else if d == 8 { "8" } else { "9" }
}

/// `n` written in decimal.
pub fn decimal_u128(n: u128) -> (r: String)
    ensures
        r@ == decimal_of(n as nat),
    decreases n,
{
    if n < 10 {
        let mut s = String::new();
        crate::text::push_str(&mut s, digit_str(n as usize));
        s
    } else {
        let mut s = decimal_u128(n / 10);
        crate::text::push_str(&mut s, digit_str((n % 10) as usize));
        s
    }
}

/// `n` written in decimal.
pub fn decimal(n: usize) -> (r: String)
    ensures
        r@ == decimal_of(n as nat),
{
    decimal_u128(n as u128)
}

/// `n` written in decimal, with a `-` in front when it is negative.
pub open spec fn signed_decimal_of(n: int) -> Seq<char> {
    if n < 0 { "-"@ + decimal_of((-n) as nat) } else { decimal_of(n as nat) }
}

/// `n` written in decimal, as `i128::to_string` writes it.
pub fn decimal_i128(n: i128) -> (r: String)
    ensures
        r@ == signed_decimal_of(n as int),
{
    if n < 0 {
        let magnitude: u128 = if n == i128::MIN {
            0x8000_0000_0000_0000_0000_0000_0000_0000u128
        } else {
            (-n) as u128
        };
        let mut s = crate::text::owned("-");
        let d = decimal_u128(magnitude);
        crate::text::push_str(&mut s, d.as_str());
        s
    } else {
        decimal_u128(n as u128)
    }
}


proof fn lemma_decimal_digits(n: nat)
    ensures
        decimal_of(n).len() > 0,
        all_digits(decimal_of(n)),
        digits_value(decimal_of(n)) == n,
        decimal_of(n)[0] != '+' && decimal_of(n)[0] != '-',
    decreases n,
{
    assert(digits_value(Seq::<char>::empty()) == 0);
    let c = digit_char(n % 10);
    assert(is_digit(c) && (c as nat) - ('0' as nat) == n % 10);
    if n < 10 {
        assert(seq![c].drop_last() =~= Seq::<char>::empty());
        assert(digits_value(seq![c]) == n);
    } else {
        lemma_decimal_digits(n / 10);
        assert(n == (n / 10) * 10 + n % 10);
        let s = decimal_of(n / 10);
        let t = s.push(digit_char(n % 10));
        assert(t.drop_last() =~= s);
        assert(t[0] == s[0]);
        assert forall|i: int| 0 <= i < t.len() implies is_digit(#[trigger] t[i]) by {
            if i < s.len() {
                assert(t[i] == s[i]);
            }
        }
    }
}

/// Reading a number written in decimal gives the number back, as a `u64`
/// and as an `i128`, and its negation reads back as the negative number.
pub proof fn law_decimal_round_trip(n: nat)
    ensures
        n <= u64::MAX ==> spec_parse_u64(decimal_of(n)) == Some(n as u64),
        n <= i128::MAX ==> spec_parse_i128(decimal_of(n)) == Some(n as i128),
        n <= i128::MAX ==> spec_parse_i128(seq!['-'] + decimal_of(n)) == Some((-n) as i128),
{
    lemma_decimal_digits(n);
    let d = decimal_of(n);
    assert((seq!['-'] + d).drop_first() =~= d);
}

} // verus!
