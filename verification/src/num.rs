//! Decimal integer literals: emitting them (for the writers) and giving
//! digit strings their numeric value (for the readers).

use vstd::prelude::*;

verus! {

/// ASCII decimal digit.
pub open spec fn is_digit(b: u8) -> bool {
    48 <= b <= 57
}

/// The decimal digits of `n`, most significant first, no sign, no leading
/// zero (except for `n == 0` itself).
pub open spec fn dec_digits(n: nat) -> Seq<u8>
    decreases n,
{
    if n < 10 {
        seq![(48 + n) as u8]
    } else {
        dec_digits(n / 10).push((48 + n % 10) as u8)
    }
}

/// The decimal literal of `i`: `-` followed by the digits of its magnitude
/// when negative, the digits alone otherwise.
pub open spec fn int_literal(i: int) -> Seq<u8> {
    if i >= 0 {
        dec_digits(i as nat)
    } else {
        seq![45u8] + dec_digits((-i) as nat)
    }
}

/// The numeric value of a digit string, most significant first.
pub open spec fn digits_val(s: Seq<u8>) -> int
    decreases s.len(),
{
    if s.len() == 0 {
        0
    } else {
        digits_val(s.drop_last()) * 10 + (s.last() - 48)
    }
}

/// Every byte of `s` is a decimal digit.
pub open spec fn all_digits(s: Seq<u8>) -> bool {
    forall|i: int| 0 <= i < s.len() ==> is_digit(#[trigger] s[i])
}

/// A digit string's value is nonnegative.
pub proof fn lemma_digits_val_nonneg(s: Seq<u8>)
    requires
        all_digits(s),
    ensures
        digits_val(s) >= 0,
    decreases s.len(),
{
    if s.len() > 0 {
        lemma_digits_val_nonneg(s.drop_last());
    }
}

/// The digits of `n`, emitted as bytes.
pub fn u64_dec(n: u64) -> (r: Vec<u8>)
    ensures
        r@ == dec_digits(n as nat),
    decreases n,
{
    if n < 10 {
        let mut v: Vec<u8> = Vec::new();
        v.push(48 + n as u8);
        v
    } else {
        let mut v = u64_dec(n / 10);
        v.push(48 + (n % 10) as u8);
        v
    }
}

/// The decimal literal of `i`, emitted as bytes.
pub fn i64_literal(i: i64) -> (r: Vec<u8>)
    ensures
        r@ == int_literal(i as int),
{
    if i >= 0 {
        u64_dec(i as u64)
    } else {
        let m: u64 = (-(i as i128)) as u64;
        assert(m as nat == (-(i as int)) as nat);
        let mut v: Vec<u8> = Vec::new();
        v.push(45);
        let mut d = u64_dec(m);
        v.append(&mut d);
        assert(v@ =~= int_literal(i as int));
        v
    }
}

} // verus!
