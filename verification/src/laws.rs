//! Laws that tie parsing and rendering together: the rendered line of a
//! site parses back to the very same fields.

use crate::digits::{dec_val, is_digit, pow10, DIGIT0, DOT, TAB};
use crate::parse::{
    build_err, frac6_val, frac_digits, frac_rounds_up, int_digits, is_sep, lemma_dot_at,
    lemma_no_dot, lemma_tokens_go_field, lemma_tokens_go_last, meth_body, meth_in_range,
    meth_micros, meth_negative, sep_free, tokens_of, u64_token_val, unsigned_digits,
    valid_meth_token, valid_strand_token, valid_u64_token,
};
use crate::render::{
    dec_repr, fixed_repr, lemma_dec_repr, lemma_fixed_repr, lemma_strip_zeros, line_of, meth_repr,
    strip_zeros,
};
use crate::site::{MSite, METH_ONE};
use vstd::prelude::*;

verus! {

/// The rendered level is a valid token in the unit interval that reads
/// back to the very count of millionths it was made from.
pub proof fn lemma_meth_repr(m: u64)
    requires
        m <= METH_ONE,
    ensures
        valid_meth_token(meth_repr(m as int)),
        meth_in_range(meth_repr(m as int)),
        meth_micros(meth_repr(m as int)) == m,
        meth_repr(m as int).len() > 0,
        sep_free(meth_repr(m as int)),
{
    let t = meth_repr(m as int);
    let one = METH_ONE as int;
    let ip = m as int / one;
    let fr = m as int % one;
    lemma_dec_repr(ip);
    let d0 = dec_repr(ip);
    reveal_with_fuel(pow10, 8);
    if fr == 0 {
        assert(t == d0);
        assert(is_digit(t[0]));
        assert(meth_body(t) == t);
        assert(!meth_negative(t));
        lemma_no_dot(t);
        assert(int_digits(t) =~= t);
        assert(frac_digits(t) =~= Seq::<u8>::empty());
        assert(dec_val(Seq::<u8>::empty()) == 0);
        assert(frac6_val(Seq::<u8>::empty()) == 0 * pow10(6));
        assert(!frac_rounds_up(Seq::<u8>::empty()));
        assert(m == one * ip + fr);
        assert(dec_val(int_digits(t)) == ip);
        assert(ip <= 1);
        assert(sep_free(t)) by {
            assert(forall|i: int| 0 <= i < t.len() ==> is_digit(#[trigger] t[i]));
        }
    } else {
        assert(m < METH_ONE);
        assert(ip == 0);
        assert(fr == m);
        lemma_fixed_repr(fr, 6);
        lemma_strip_zeros(fixed_repr(fr, 6));
        let sz = strip_zeros(fixed_repr(fr, 6));
        assert(t == d0 + seq![DOT] + sz);
        assert(d0 =~= seq![(DIGIT0 + 0) as u8]);
        assert(t.len() == 2 + sz.len());
        assert(t[0] == DIGIT0);
        assert(t[1] == DOT);
        assert(forall|j: int| 2 <= j < t.len() ==> #[trigger] t[j] == sz[j - 2]);
        assert(meth_body(t) == t);
        assert(!meth_negative(t));
        lemma_dot_at(t, 1);
        assert(int_digits(t) =~= d0);
        assert(frac_digits(t) =~= sz);
        assert(dec_val(int_digits(t)) == 0);
        // the stripped fraction still denotes the millionths
        if sz.len() == 0 {
            assert(dec_val(sz) == 0);
            assert(fr == 0);
        }
        assert(sz.len() >= 1);
        assert(sz.len() <= 6);
        assert(!frac_rounds_up(sz));
        if sz.len() >= 6 {
            assert(sz.len() == 6);
            assert(sz.take(6) =~= sz);
            assert(pow10(0) == 1);
            assert(dec_val(sz) * 1 == dec_val(sz));
            assert(frac6_val(sz) == fr);
        } else {
            assert(frac6_val(sz) == dec_val(sz) * pow10((6 - sz.len()) as nat));
            assert(frac6_val(sz) == fr);
        }
        assert(meth_micros(t) == m);
        assert(valid_meth_token(t));
        assert(meth_in_range(t));
        assert(sep_free(t)) by {
            assert forall|i: int| 0 <= i < t.len() implies !is_sep(t[i]) by {
                if i >= 2 {
                    assert(t[i] == sz[i - 2]);
                    assert(is_digit(sz[i - 2]));
                }
            }
        }
    }
}

/// Parsing the rendered line of a well-formed site finds exactly its six
/// fields again, each reading back to the field it was rendered from. So
/// a line that is itself the rendering of a site — single tabs, shortest
/// number forms, the level carrying at most six decimal places — comes
/// through a parse-then-render round trip unchanged. The chromosome and
/// the context must be non-empty and free of separator bytes, and the
/// strand must not be a separator, or the line would not carry its six
/// fields back.
pub proof fn lemma_line_round_trip(s: MSite)
    requires
        s.wf(),
        s.chrom@.len() > 0,
        sep_free(s.chrom@),
        s.context@.len() > 0,
        sep_free(s.context@),
        !is_sep(s.strand as u8),
    ensures
        build_err(line_of(s)) is None,
        tokens_of(line_of(s)) == seq![
            s.chrom@,
            dec_repr(s.pos as int),
            seq![s.strand as u8],
            s.context@,
            meth_repr(s.meth as int),
            dec_repr(s.n_reads as int),
        ],
        u64_token_val(dec_repr(s.pos as int)) == s.pos,
        (s.strand as u8) as int == s.strand as int,
        meth_micros(meth_repr(s.meth as int)) == s.meth,
        u64_token_val(dec_repr(s.n_reads as int)) == s.n_reads,
{
    let c = s.chrom@;
    let p = dec_repr(s.pos as int);
    let stq = seq![s.strand as u8];
    let x = s.context@;
    let mm = meth_repr(s.meth as int);
    let rr = dec_repr(s.n_reads as int);
    lemma_dec_repr(s.pos as int);
    lemma_dec_repr(s.n_reads as int);
    lemma_meth_repr(s.meth);
    assert(sep_free(p)) by {
        assert(forall|i: int| 0 <= i < p.len() ==> is_digit(#[trigger] p[i]));
    }
    assert(sep_free(rr)) by {
        assert(forall|i: int| 0 <= i < rr.len() ==> is_digit(#[trigger] rr[i]));
    }
    assert(sep_free(stq));
    let rest4 = mm + seq![TAB] + rr;
    let rest3 = x + seq![TAB] + rest4;
    let rest2 = stq + seq![TAB] + rest3;
    let rest1 = p + seq![TAB] + rest2;
    assert(line_of(s) =~= c + seq![TAB] + rest1);
    let e: Seq<Seq<u8>> = Seq::empty();
    lemma_tokens_go_field(c, rest1, e);
    lemma_tokens_go_field(p, rest2, e.push(c));
    lemma_tokens_go_field(stq, rest3, e.push(c).push(p));
    lemma_tokens_go_field(x, rest4, e.push(c).push(p).push(stq));
    lemma_tokens_go_field(mm, rr, e.push(c).push(p).push(stq).push(x));
    lemma_tokens_go_last(rr, e.push(c).push(p).push(stq).push(x).push(mm));
    let toks = tokens_of(line_of(s));
    assert(toks =~= seq![c, p, stq, x, mm, rr]);
    // the position and read-count fields are valid unsigned tokens
    assert(is_digit(p[0]));
    assert(unsigned_digits(p) == p);
    assert(valid_u64_token(p));
    assert(is_digit(rr[0]));
    assert(unsigned_digits(rr) == rr);
    assert(valid_u64_token(rr));
    // the strand field is one plain character
    assert((s.strand as u8) as int == s.strand as int);
    assert(stq[0] < 128);
    assert(valid_strand_token(stq));
    assert(build_err(line_of(s)) is None);
}

} // verus!
