//! Byte constants of the line format and the meaning of decimal digit
//! strings, shared by the parser and the renderer.

use vstd::prelude::*;

verus! {

/// Horizontal tab: the output field separator, and one of the two input
/// separators.
pub const TAB: u8 = 9;

/// Space: the other input field separator.
pub const SPACE: u8 = 32;

/// The byte `+`, an optional sign in front of a number.
pub const PLUS: u8 = 43;

/// The byte `-`, the negative sign in front of a number.
pub const MINUS: u8 = 45;

/// The byte `.`, the decimal point of a methylation level.
pub const DOT: u8 = 46;

/// The byte `0`.
pub const DIGIT0: u8 = 48;

/// The byte `5`, the threshold digit when rounding to six decimal places.
pub const DIGIT5: u8 = 53;

/// The byte `9`.
pub const DIGIT9: u8 = 57;

pub open spec fn is_digit(b: u8) -> bool {
    DIGIT0 <= b <= DIGIT9
}

pub open spec fn all_digits(s: Seq<u8>) -> bool {
    forall|i: int| 0 <= i < s.len() ==> is_digit(#[trigger] s[i])
}

/// All bytes are the digit `0`; the digit string denotes zero.
pub open spec fn all_zero(s: Seq<u8>) -> bool {
    forall|i: int| 0 <= i < s.len() ==> #[trigger] s[i] == DIGIT0
}

/// The number a string of decimal digit bytes denotes, most significant
/// digit first. The empty string denotes zero.
pub open spec fn dec_val(s: Seq<u8>) -> int
    recommends
        all_digits(s),
    decreases s.len(),
{
    if s.len() == 0 {
        0
    } else {
        dec_val(s.drop_last()) * 10 + s.last() - DIGIT0
    }
}

pub open spec fn pow10(n: nat) -> int
    decreases n,
{
    if n == 0 {
        1
    } else {
        10 * pow10((n - 1) as nat)
    }
}

pub proof fn lemma_dec_val_nonneg(s: Seq<u8>)
    requires
        all_digits(s),
    ensures
        dec_val(s) >= 0,
    decreases s.len(),
{
    if s.len() > 0 {
        assert(all_digits(s.drop_last())) by {
            assert(forall|i: int|
                0 <= i < s.drop_last().len() ==> #[trigger] s.drop_last()[i] == s[i]);
        }
        lemma_dec_val_nonneg(s.drop_last());
    }
}

/// Appending a digit multiplies the value by ten and adds the digit.
pub proof fn lemma_dec_val_push(s: Seq<u8>, b: u8)
    ensures
        dec_val(s.push(b)) == dec_val(s) * 10 + b - DIGIT0,
{
    assert(s.push(b).drop_last() =~= s);
    assert(s.push(b).last() == b);
}

/// A longer prefix of a digit string never denotes a smaller number.
pub proof fn lemma_dec_val_take_le(s: Seq<u8>, i: int)
    requires
        all_digits(s),
        0 <= i <= s.len(),
    ensures
        dec_val(s.take(i)) <= dec_val(s),
    decreases s.len() - i,
{
    if i < s.len() {
        lemma_dec_val_take_le(s, i + 1);
        lemma_dec_val_push(s.take(i), s[i]);
        assert(s.take(i + 1) =~= s.take(i).push(s[i]));
        assert(all_digits(s.take(i))) by {
            assert(forall|j: int| 0 <= j < i ==> #[trigger] s.take(i)[j] == s[j]);
        }
        lemma_dec_val_nonneg(s.take(i));
        assert(dec_val(s.take(i + 1)) == dec_val(s.take(i)) * 10 + s[i] - DIGIT0);
        assert(dec_val(s.take(i)) * 10 >= dec_val(s.take(i))) by (nonlinear_arith)
            requires
                dec_val(s.take(i)) >= 0,
        ;
    } else {
        assert(s.take(i) =~= s);
    }
}

pub proof fn lemma_pow10_pos(n: nat)
    ensures
        pow10(n) >= 1,
    decreases n,
{
    if n > 0 {
        lemma_pow10_pos((n - 1) as nat);
    }
}

pub proof fn lemma_pow10_le(a: nat, b: nat)
    requires
        a <= b,
    ensures
        pow10(a) <= pow10(b),
    decreases b,
{
    if a < b {
        lemma_pow10_le(a, (b - 1) as nat);
        lemma_pow10_pos((b - 1) as nat);
    }
}

/// A string of `n` digits denotes a number below the `n`-th power of ten.
pub proof fn lemma_dec_val_bound(s: Seq<u8>)
    requires
        all_digits(s),
    ensures
        0 <= dec_val(s) < pow10(s.len()),
    decreases s.len(),
{
    if s.len() == 0 {
    } else {
        let p = s.drop_last();
        assert(all_digits(p)) by {
            assert(forall|i: int| 0 <= i < p.len() ==> #[trigger] p[i] == s[i]);
        }
        lemma_dec_val_bound(p);
        assert(dec_val(p) * 10 <= (pow10(p.len()) - 1) * 10) by (nonlinear_arith)
            requires
                dec_val(p) <= pow10(p.len()) - 1,
        ;
        assert(dec_val(p) * 10 >= 0) by (nonlinear_arith)
            requires
                dec_val(p) >= 0,
        ;
        assert(pow10(s.len()) == 10 * pow10(p.len()));
    }
}

/// A digit string denotes zero exactly when every digit is `0`.
pub proof fn lemma_dec_val_zero(s: Seq<u8>)
    requires
        all_digits(s),
    ensures
        dec_val(s) == 0 <==> all_zero(s),
    decreases s.len(),
{
    if s.len() > 0 {
        let p = s.drop_last();
        assert(all_digits(p)) by {
            assert(forall|i: int| 0 <= i < p.len() ==> #[trigger] p[i] == s[i]);
        }
        lemma_dec_val_zero(p);
        lemma_dec_val_nonneg(p);
        assert(dec_val(p) * 10 >= dec_val(p)) by (nonlinear_arith)
            requires
                dec_val(p) >= 0,
        ;
        if dec_val(s) == 0 {
            assert(dec_val(p) * 10 == 0 ==> dec_val(p) == 0) by (nonlinear_arith);
            assert(all_zero(p));
            assert(s.last() == DIGIT0);
            assert(forall|i: int| 0 <= i < s.len() ==> #[trigger] s[i] == DIGIT0) by {
                assert(forall|i: int| 0 <= i < p.len() ==> #[trigger] s[i] == p[i]);
            }
        } else {
            if all_zero(s) {
                assert(forall|i: int| 0 <= i < p.len() ==> #[trigger] p[i] == s[i]);
                assert(all_zero(p));
                assert(dec_val(p) == 0);
                assert(s.last() == DIGIT0);
                assert(false);
            }
        }
    }
}

} // verus!
