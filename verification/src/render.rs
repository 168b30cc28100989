//! Rendering a site back to its tab-delimited line.

use crate::digits::{
    all_digits, dec_val, is_digit, lemma_dec_val_push, pow10, DIGIT0, DOT, TAB,
};
use crate::site::{MSite, METH_ONE};
use vstd::prelude::*;

verus! {

/// Shortest decimal form of a nonnegative number: no leading zeros,
/// a single `0` for zero.
pub open spec fn dec_repr(n: int) -> Seq<u8>
    recommends
        n >= 0,
    decreases n,
{
    if n <= 9 {
        seq![(DIGIT0 + n) as u8]
    } else {
        dec_repr(n / 10).push((DIGIT0 + n % 10) as u8)
    }
}

/// Decimal form of `n` written in exactly `w` places, leading zeros
/// kept.
pub open spec fn fixed_repr(n: int, w: nat) -> Seq<u8>
    recommends
        0 <= n < pow10(w),
    decreases w,
{
    if w == 0 {
        Seq::empty()
    } else {
        fixed_repr(n / 10, (w - 1) as nat).push((DIGIT0 + n % 10) as u8)
    }
}

/// The digit string with its trailing zeros dropped.
pub open spec fn strip_zeros(s: Seq<u8>) -> Seq<u8>
    decreases s.len(),
{
    if s.len() == 0 || s.last() != DIGIT0 {
        s
    } else {
        strip_zeros(s.drop_last())
    }
}

/// A level of `m` millionths in its shortest decimal form: the whole
/// part, then, unless the fraction is zero, a point and the six
/// fractional places with trailing zeros dropped.
pub open spec fn meth_repr(m: int) -> Seq<u8> {
    let ip = m / (METH_ONE as int);
    let fr = m % (METH_ONE as int);
    if fr == 0 {
        dec_repr(ip)
    } else {
        dec_repr(ip) + seq![DOT] + strip_zeros(fixed_repr(fr, 6))
    }
}

/// The whole line a site renders to: six fields joined by single tabs,
/// no trailing separator.
pub open spec fn line_of(s: MSite) -> Seq<u8> {
    s.chrom@ + seq![TAB] + dec_repr(s.pos as int) + seq![TAB] + seq![s.strand as u8] + seq![TAB]
        + s.context@ + seq![TAB] + meth_repr(s.meth as int) + seq![TAB] + dec_repr(
        s.n_reads as int,
    )
}

/// The shortest decimal form is never empty, is all digits, and denotes
/// the number it was made from.
pub proof fn lemma_dec_repr(n: int)
    requires
        n >= 0,
    ensures
        dec_repr(n).len() > 0,
        all_digits(dec_repr(n)),
        dec_val(dec_repr(n)) == n,
    decreases n,
{
    if n <= 9 {
        let s = seq![(DIGIT0 + n) as u8];
        assert(s.drop_last() =~= Seq::<u8>::empty());
        assert(s.last() == DIGIT0 + n);
        assert(is_digit(s[0]));
        assert(dec_val(Seq::<u8>::empty()) == 0);
    } else {
        lemma_dec_repr(n / 10);
        let p = dec_repr(n / 10);
        let b = (DIGIT0 + n % 10) as u8;
        lemma_dec_val_push(p, b);
        assert(all_digits(p.push(b))) by {
            assert(forall|i: int| 0 <= i < p.len() ==> #[trigger] p.push(b)[i] == p[i]);
            assert(p.push(b)[p.len() as int] == b);
        }
    }
}

/// The fixed-width decimal form has exactly its width of digits and
/// denotes the number it was made from.
pub proof fn lemma_fixed_repr(n: int, w: nat)
    requires
        0 <= n < pow10(w),
    ensures
        fixed_repr(n, w).len() == w,
        all_digits(fixed_repr(n, w)),
        dec_val(fixed_repr(n, w)) == n,
    decreases w,
{
    if w > 0 {
        assert(pow10(w) == 10 * pow10((w - 1) as nat));
        lemma_fixed_repr(n / 10, (w - 1) as nat);
        let p = fixed_repr(n / 10, (w - 1) as nat);
        let b = (DIGIT0 + n % 10) as u8;
        lemma_dec_val_push(p, b);
        assert(all_digits(p.push(b))) by {
            assert(forall|i: int| 0 <= i < p.len() ==> #[trigger] p.push(b)[i] == p[i]);
            assert(p.push(b)[p.len() as int] == b);
        }
    }
}

/// Dropping trailing zeros keeps the digits digits and divides the
/// denoted number by the corresponding power of ten.
pub proof fn lemma_strip_zeros(s: Seq<u8>)
    requires
        all_digits(s),
    ensures
        strip_zeros(s).len() <= s.len(),
        all_digits(strip_zeros(s)),
        dec_val(s) == dec_val(strip_zeros(s)) * pow10((s.len() - strip_zeros(s).len()) as nat),
    decreases s.len(),
{
    if s.len() == 0 || s.last() != DIGIT0 {
        assert(dec_val(strip_zeros(s)) * pow10(0) == dec_val(s));
    } else {
        let p = s.drop_last();
        assert(all_digits(p)) by {
            assert(forall|i: int| 0 <= i < p.len() ==> #[trigger] p[i] == s[i]);
        }
        lemma_strip_zeros(p);
        let z = strip_zeros(s);
        let k = (p.len() - z.len()) as nat;
        assert(dec_val(s) == dec_val(p) * 10);
        assert(dec_val(z) * pow10(k) * 10 == dec_val(z) * (10 * pow10(k))) by (nonlinear_arith);
        assert(pow10((k + 1) as nat) == 10 * pow10(k));
    }
}

/// Append the bytes of `src`.
fn push_bytes(out: &mut Vec<u8>, src: &Vec<u8>)
    ensures
        final(out)@ == old(out)@ + src@,
{
    let mut i: usize = 0;
    proof {
        assert(old(out)@ + src@.take(0) =~= old(out)@);
    }
    while i < src.len()
        invariant
            i <= src@.len(),
            out@ == old(out)@ + src@.take(i as int),
        decreases src@.len() - i,
    {
        out.push(src[i]);
        i = i + 1;
        proof {
            assert(old(out)@ + src@.take(i as int) =~= (old(out)@ + src@.take(i - 1)).push(
                src@[i - 1],
            ));
        }
    }
    proof {
        assert(src@.take(i as int) =~= src@);
    }
}

/// Append the shortest decimal form of `n`.
fn push_dec(out: &mut Vec<u8>, n: u64)
    ensures
        final(out)@ == old(out)@ + dec_repr(n as int),
    decreases n,
{
    if n <= 9 {
        out.push(DIGIT0 + (n as u8));
        proof {
            assert(old(out)@ + dec_repr(n as int) =~= old(out)@.push((DIGIT0 + n) as u8));
        }
    } else {
        push_dec(out, n / 10);
        out.push(DIGIT0 + ((n % 10) as u8));
        proof {
            assert(old(out)@ + dec_repr(n as int) =~= (old(out)@ + dec_repr(n as int / 10)).push(
                (DIGIT0 + n as int % 10) as u8,
            ));
        }
    }
}

/// Append exactly `w` decimal places of `n`, leading zeros kept.
fn push_fixed(out: &mut Vec<u8>, n: u64, w: u64)
    ensures
        final(out)@ == old(out)@ + fixed_repr(n as int, w as nat),
    decreases w,
{
    if w > 0 {
        push_fixed(out, n / 10, w - 1);
        out.push(DIGIT0 + ((n % 10) as u8));
        proof {
            assert(old(out)@ + fixed_repr(n as int, w as nat) =~= (old(out)@ + fixed_repr(
                n as int / 10,
                (w - 1) as nat,
            )).push((DIGIT0 + n as int % 10) as u8));
        }
    } else {
        proof {
            assert(old(out)@ + fixed_repr(n as int, 0) =~= old(out)@);
        }
    }
}

/// Append the shortest decimal form of a level of `m` millionths.
#[verifier::rlimit(60)]
fn push_meth(out: &mut Vec<u8>, m: u64)
    requires
        m <= METH_ONE,
    ensures
        final(out)@ == old(out)@ + meth_repr(m as int),
{
    let ip = m / METH_ONE;
    let fr = m % METH_ONE;
    push_dec(out, ip);
    if fr != 0 {
        out.push(DOT);
        proof {
            assert(out@ =~= old(out)@ + dec_repr(ip as int) + seq![DOT]);
        }
        let ghost mid = out@;
        let mut tmp: Vec<u8> = Vec::new();
        push_fixed(&mut tmp, fr, 6);
        proof {
            assert(tmp@ =~= fixed_repr(fr as int, 6));
        }
        let mut end: usize = tmp.len();
        proof {
            assert(tmp@.take(end as int) =~= tmp@);
        }
        while end > 0 && tmp[end - 1] == DIGIT0
            invariant
                end <= tmp@.len(),
                strip_zeros(tmp@) == strip_zeros(tmp@.take(end as int)),
            decreases end,
        {
            proof {
                assert(tmp@.take(end as int).last() == tmp@[end - 1]);
                assert(tmp@.take(end as int).drop_last() =~= tmp@.take(end - 1));
            }
            end = end - 1;
        }
        proof {
            assert(tmp@.take(tmp@.len() as int) =~= tmp@);
            assert(strip_zeros(tmp@.take(end as int)) == tmp@.take(end as int));
        }
        let mut k: usize = 0;
        proof {
            assert(mid + tmp@.subrange(0, 0) =~= mid);
        }
        while k < end
            invariant
                k <= end <= tmp@.len(),
                out@ == mid + tmp@.subrange(0, k as int),
            decreases end - k,
        {
            out.push(tmp[k]);
            k = k + 1;
            proof {
                assert(mid + tmp@.subrange(0, k as int) =~= (mid + tmp@.subrange(0, k - 1)).push(
                    tmp@[k - 1],
                ));
            }
        }
        proof {
            assert(tmp@.subrange(0, end as int) =~= tmp@.take(end as int));
            assert(out@ =~= old(out)@ + meth_repr(m as int));
        }
    }
}

impl MSite {
    /// Render the site as one line: the six fields joined by single
    /// tabs, the methylation level rounded to six decimal places and
    /// written in its shortest decimal form.
    pub fn to_line(&self) -> (out: Vec<u8>)
        requires
            self.wf(),
        ensures
            out@ == line_of(*self),
    {
        let mut out: Vec<u8> = Vec::new();
        proof {
            assert(Seq::<u8>::empty() + self.chrom@ =~= self.chrom@);
        }
        push_bytes(&mut out, &self.chrom);
        out.push(TAB);
        proof {
            assert(out@ =~= self.chrom@ + seq![TAB]);
        }
        push_dec(&mut out, self.pos);
        out.push(TAB);
        proof {
            assert(out@ =~= self.chrom@ + seq![TAB] + dec_repr(self.pos as int) + seq![TAB]);
        }
        out.push(self.strand as u8);
        out.push(TAB);
        proof {
            assert(out@ =~= self.chrom@ + seq![TAB] + dec_repr(self.pos as int) + seq![TAB]
                + seq![self.strand as u8] + seq![TAB]);
        }
        push_bytes(&mut out, &self.context);
        out.push(TAB);
        proof {
            assert(out@ =~= self.chrom@ + seq![TAB] + dec_repr(self.pos as int) + seq![TAB]
                + seq![self.strand as u8] + seq![TAB] + self.context@ + seq![TAB]);
        }
        push_meth(&mut out, self.meth);
        out.push(TAB);
        proof {
            assert(out@ =~= self.chrom@ + seq![TAB] + dec_repr(self.pos as int) + seq![TAB]
                + seq![self.strand as u8] + seq![TAB] + self.context@ + seq![TAB] + meth_repr(
                self.meth as int,
            ) + seq![TAB]);
        }
        push_dec(&mut out, self.n_reads);
        proof {
            assert(out@ =~= line_of(*self));
        }
        out
    }
}

} // verus!
