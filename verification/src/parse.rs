//! Building a site from one whitespace-delimited text line.

use crate::digits::{
    all_digits, all_zero, dec_val, is_digit, lemma_dec_val_bound, lemma_dec_val_nonneg,
    lemma_dec_val_push, lemma_dec_val_take_le, lemma_dec_val_zero, lemma_pow10_le, pow10, DIGIT0,
    DIGIT5, DIGIT9, DOT, MINUS, PLUS, SPACE, TAB,
};
use crate::site::{MSite, METH_ONE};
use vstd::prelude::*;

verus! {

/// Why a line was rejected.
#[derive(Clone, Copy, Debug, PartialEq, Eq, Structural)]
pub enum ParseError {
    /// Fewer than six whitespace-separated fields are present.
    MissingField,
    /// A numeric field is not a number of its type.
    InvalidNumber,
    /// The strand field is not a single character.
    InvalidStrand,
    /// The methylation level is a number outside the unit interval.
    OutOfRange,
}

/// A byte that separates fields of an input line.
pub open spec fn is_sep(b: u8) -> bool {
    b == SPACE || b == TAB
}

/// One step of splitting a line into fields: `cur` is the token read so
/// far, `acc` the finished tokens.
pub open spec fn tokens_go(s: Seq<u8>, cur: Seq<u8>, acc: Seq<Seq<u8>>) -> Seq<Seq<u8>>
    decreases s.len(),
{
    if s.len() == 0 {
        if cur.len() == 0 {
            acc
        } else {
            acc.push(cur)
        }
    } else if is_sep(s[0]) {
        if cur.len() == 0 {
            tokens_go(s.drop_first(), cur, acc)
        } else {
            tokens_go(s.drop_first(), Seq::empty(), acc.push(cur))
        }
    } else {
        tokens_go(s.drop_first(), cur.push(s[0]), acc)
    }
}

/// The fields of a line: the maximal runs of bytes between runs of
/// separators, in order.
pub open spec fn tokens_of(s: Seq<u8>) -> Seq<Seq<u8>> {
    tokens_go(s, Seq::empty(), Seq::empty())
}

/// No byte of the sequence separates fields.
pub open spec fn sep_free(w: Seq<u8>) -> bool {
    forall|i: int| 0 <= i < w.len() ==> !is_sep(#[trigger] w[i])
}

/// Reading a separator-free stretch only lengthens the token being
/// collected.
pub proof fn lemma_tokens_go_word(w: Seq<u8>, rest: Seq<u8>, cur: Seq<u8>, acc: Seq<Seq<u8>>)
    requires
        sep_free(w),
    ensures
        tokens_go(w + rest, cur, acc) == tokens_go(rest, cur + w, acc),
    decreases w.len(),
{
    if w.len() == 0 {
        assert(w + rest =~= rest);
        assert(cur + w =~= cur);
    } else {
        assert((w + rest)[0] == w[0]);
        assert((w + rest).drop_first() =~= w.drop_first() + rest);
        assert(sep_free(w.drop_first())) by {
            assert(forall|i: int|
                0 <= i < w.drop_first().len() ==> #[trigger] w.drop_first()[i] == w[i + 1]);
        }
        lemma_tokens_go_word(w.drop_first(), rest, cur.push(w[0]), acc);
        assert(cur.push(w[0]) + w.drop_first() =~= cur + w);
    }
}

/// Reading one whole field and the tab after it finishes exactly that
/// token.
pub proof fn lemma_tokens_go_field(w: Seq<u8>, rest: Seq<u8>, acc: Seq<Seq<u8>>)
    requires
        sep_free(w),
        w.len() > 0,
    ensures
        tokens_go(w + seq![TAB] + rest, Seq::empty(), acc) == tokens_go(rest, Seq::empty(), acc.push(w)),
{
    assert(w + seq![TAB] + rest =~= w + (seq![TAB] + rest));
    lemma_tokens_go_word(w, seq![TAB] + rest, Seq::empty(), acc);
    assert(Seq::empty() + w =~= w);
    assert((seq![TAB] + rest)[0] == TAB);
    assert((seq![TAB] + rest).drop_first() =~= rest);
}

/// Reading one final field finishes the line with that token.
pub proof fn lemma_tokens_go_last(w: Seq<u8>, acc: Seq<Seq<u8>>)
    requires
        sep_free(w),
        w.len() > 0,
    ensures
        tokens_go(w, Seq::empty(), acc) == acc.push(w),
{
    assert(w =~= w + Seq::<u8>::empty());
    lemma_tokens_go_word(w, Seq::empty(), Seq::empty(), acc);
    assert(Seq::empty() + w =~= w);
}

/// The byte sequences a vector of byte vectors holds.
pub open spec fn views_of(ts: Seq<Vec<u8>>) -> Seq<Seq<u8>> {
    ts.map_values(|t: Vec<u8>| t@)
}

/// Split a line at runs of spaces and tabs.
fn split_tokens(line: &[u8]) -> (toks: Vec<Vec<u8>>)
    ensures
        views_of(toks@) == tokens_of(line@),
{
    let ghost l = line@;
    let mut toks: Vec<Vec<u8>> = Vec::new();
    let mut cur: Vec<u8> = Vec::new();
    let mut i: usize = 0;
    proof {
        assert(l.skip(0) =~= l);
        assert(cur@ =~= Seq::<u8>::empty());
        assert(views_of(toks@) =~= Seq::<Seq<u8>>::empty());
    }
    while i < line.len()
        invariant
            i <= l.len(),
            l == line@,
            tokens_go(l.skip(i as int), cur@, views_of(toks@)) == tokens_of(l),
        decreases l.len() - i,
    {
        proof {
            assert(l.skip(i as int).drop_first() =~= l.skip(i as int + 1));
            assert(l.skip(i as int)[0] == l[i as int]);
        }
        let b = line[i];
        if b == SPACE || b == TAB {
            if cur.len() > 0 {
                proof {
                    assert(views_of(toks@.push(cur)) =~= views_of(toks@).push(cur@));
                }
                toks.push(cur);
                cur = Vec::new();
            }
        } else {
            cur.push(b);
        }
        i = i + 1;
    }
    proof {
        assert(l.skip(l.len() as int) =~= Seq::<u8>::empty());
    }
    if cur.len() > 0 {
        proof {
            assert(views_of(toks@.push(cur)) =~= views_of(toks@).push(cur@));
        }
        toks.push(cur);
    }
    toks
}

/// The digits of an unsigned number token: one leading `+` is allowed
/// and ignored.
pub open spec fn unsigned_digits(t: Seq<u8>) -> Seq<u8> {
    if t.len() > 0 && t[0] == PLUS {
        t.drop_first()
    } else {
        t
    }
}

/// The token is a decimal unsigned 64-bit number: at least one digit,
/// nothing but digits after the optional sign, and a value that fits.
pub open spec fn valid_u64_token(t: Seq<u8>) -> bool {
    let d = unsigned_digits(t);
    d.len() > 0 && all_digits(d) && dec_val(d) <= u64::MAX
}

/// The number a valid unsigned token denotes.
pub open spec fn u64_token_val(t: Seq<u8>) -> int {
    dec_val(unsigned_digits(t))
}

/// Read an unsigned 64-bit decimal from a whole token.
fn parse_u64_token(t: &Vec<u8>) -> (r: Option<u64>)
    ensures
        match r {
            Some(v) => valid_u64_token(t@) && v == u64_token_val(t@),
            None => !valid_u64_token(t@),
        },
{
    let ghost d = unsigned_digits(t@);
    let start: usize = if t.len() > 0 && t[0] == PLUS {
        1
    } else {
        0
    };
    proof {
        assert(d =~= t@.skip(start as int));
    }
    if t.len() == start {
        return None;
    }
    let mut acc: u64 = 0;
    let mut i: usize = start;
    while i < t.len()
        invariant
            start <= i <= t@.len(),
            d == unsigned_digits(t@),
            d =~= t@.skip(start as int),
            all_digits(d.take(i - start)),
            acc == dec_val(d.take(i - start)),
        decreases t@.len() - i,
    {
        let b = t[i];
        proof {
            assert(d[i - start] == t@[i as int]);
        }
        if b < DIGIT0 || b > DIGIT9 {
            proof {
                assert(!is_digit(d[i - start]));
            }
            return None;
        }
        let wide: u128 = (acc as u128) * 10 + ((b - DIGIT0) as u128);
        proof {
            assert(d.take(i - start + 1) =~= d.take(i - start).push(d[i - start]));
            lemma_dec_val_push(d.take(i - start), d[i - start]);
        }
        if wide > 0xffff_ffff_ffff_ffff {
            proof {
                if valid_u64_token(t@) {
                    lemma_dec_val_take_le(d, i - start + 1);
                }
            }
            return None;
        }
        acc = wide as u64;
        i = i + 1;
    }
    proof {
        assert(d.take(i - start) =~= d);
    }
    Some(acc)
}

/// The methylation token denotes a negative number.
pub open spec fn meth_negative(t: Seq<u8>) -> bool {
    t.len() > 0 && t[0] == MINUS
}

/// The methylation token without its optional single leading sign.
pub open spec fn meth_body(t: Seq<u8>) -> Seq<u8> {
    if t.len() > 0 && (t[0] == MINUS || t[0] == PLUS) {
        t.drop_first()
    } else {
        t
    }
}

/// Position of the first decimal point, or the length when there is
/// none.
pub open spec fn dot_index(s: Seq<u8>) -> int
    decreases s.len(),
{
    if s.len() == 0 {
        0
    } else if s[0] == DOT {
        0
    } else {
        1 + dot_index(s.drop_first())
    }
}

pub proof fn lemma_dot_index(s: Seq<u8>)
    ensures
        0 <= dot_index(s) <= s.len(),
        dot_index(s) < s.len() ==> s[dot_index(s)] == DOT,
        forall|k: int| 0 <= k < dot_index(s) ==> s[k] != DOT,
    decreases s.len(),
{
    if s.len() > 0 && s[0] != DOT {
        lemma_dot_index(s.drop_first());
        assert forall|k: int| 0 <= k < dot_index(s) implies s[k] != DOT by {
            if k >= 1 {
                assert(s[k] == s.drop_first()[k - 1]);
            }
        }
    }
}

/// A string of digits holds no decimal point.
pub proof fn lemma_no_dot(s: Seq<u8>)
    requires
        all_digits(s),
    ensures
        dot_index(s) == s.len(),
{
    lemma_dot_index(s);
    if dot_index(s) < s.len() {
        assert(is_digit(s[dot_index(s)]));
    }
}

/// The first decimal point stands at `k` when the byte there is a point
/// and no byte before it is one.
pub proof fn lemma_dot_at(s: Seq<u8>, k: int)
    requires
        0 <= k < s.len(),
        s[k] == DOT,
        forall|j: int| 0 <= j < k ==> s[j] != DOT,
    ensures
        dot_index(s) == k,
{
    lemma_dot_index(s);
    if dot_index(s) < k {
        assert(s[dot_index(s)] != DOT);
    }
}

/// The digits before the first decimal point.
pub open spec fn int_digits(body: Seq<u8>) -> Seq<u8> {
    body.take(dot_index(body))
}

/// The digits after the first decimal point; empty when there is none.
pub open spec fn frac_digits(body: Seq<u8>) -> Seq<u8> {
    if dot_index(body) >= body.len() {
        Seq::empty()
    } else {
        body.skip(dot_index(body) + 1)
    }
}

/// The token is a plain decimal number: an optional sign, then digits
/// with at most one decimal point among them, and at least one digit.
pub open spec fn valid_meth_token(t: Seq<u8>) -> bool {
    let body = meth_body(t);
    &&& all_digits(int_digits(body))
    &&& all_digits(frac_digits(body))
    &&& int_digits(body).len() + frac_digits(body).len() > 0
}

/// The number the token denotes lies in the closed unit interval.
pub open spec fn meth_in_range(t: Seq<u8>) -> bool {
    let body = meth_body(t);
    if meth_negative(t) {
        all_zero(int_digits(body)) && all_zero(frac_digits(body))
    } else {
        dec_val(int_digits(body)) == 0 || (dec_val(int_digits(body)) == 1 && all_zero(
            frac_digits(body),
        ))
    }
}

/// The first six fractional digits, as a count of millionths.
pub open spec fn frac6_val(fp: Seq<u8>) -> int {
    if fp.len() >= 6 {
        dec_val(fp.take(6))
    } else {
        dec_val(fp) * pow10((6 - fp.len()) as nat)
    }
}

/// The digits beyond the sixth round the sixth place up: they do exactly
/// when the seventh digit is five or more, ties away from zero.
pub open spec fn frac_rounds_up(fp: Seq<u8>) -> bool {
    fp.len() > 6 && fp[6] >= DIGIT5
}

/// The level the token denotes, in millionths, rounded to six decimal
/// places; meaningful for tokens that are valid and in range.
pub open spec fn meth_micros(t: Seq<u8>) -> int {
    let body = meth_body(t);
    if meth_negative(t) {
        0
    } else {
        dec_val(int_digits(body)) * (METH_ONE as int) + frac6_val(frac_digits(body)) + if
            frac_rounds_up(frac_digits(body)) {
            1int
        } else {
            0int
        }
    }
}

/// The integer part of a level, capped at two: enough to tell the values
/// zero and one from everything above one.
pub open spec fn sat2(v: int) -> int {
    if v >= 2 {
        2
    } else {
        v
    }
}

/// Read a methylation level from a whole token, rounded to millionths.
#[verifier::rlimit(100)]
fn parse_meth_token(t: &Vec<u8>) -> (r: Result<u64, ParseError>)
    ensures
        match r {
            Ok(m) => valid_meth_token(t@) && meth_in_range(t@) && m == meth_micros(t@) && m
                <= METH_ONE,
            Err(e) => (e == ParseError::InvalidNumber && !valid_meth_token(t@)) || (e
                == ParseError::OutOfRange && valid_meth_token(t@) && !meth_in_range(t@)),
        },
{
    let n = t.len();
    let neg = n > 0 && t[0] == MINUS;
    let start: usize = if n > 0 && (t[0] == MINUS || t[0] == PLUS) {
        1
    } else {
        0
    };
    let ghost body = meth_body(t@);
    proof {
        assert(body =~= t@.skip(start as int));
    }
    let mut i: usize = start;
    let mut int_sat: u64 = 0;
    let mut int_zero: bool = true;
    proof {
        assert(body.take(0) =~= Seq::<u8>::empty());
    }
    while i < n && t[i] >= DIGIT0 && t[i] <= DIGIT9
        invariant
            start <= i <= n,
            n == t@.len(),
            start <= 1,
            body == meth_body(t@),
            body =~= t@.skip(start as int),
            neg == meth_negative(t@),
            all_digits(body.take(i - start)),
            int_sat == sat2(dec_val(body.take(i - start))),
            int_zero == all_zero(body.take(i - start)),
        decreases n - i,
    {
        let b = t[i];
        proof {
            assert(body[i - start] == t@[i as int]);
            assert(body.take(i - start + 1) =~= body.take(i - start).push(body[i - start]));
            lemma_dec_val_push(body.take(i - start), body[i - start]);
            lemma_dec_val_nonneg(body.take(i - start));
        }
        int_sat = if int_sat >= 1 {
            2
        } else if b >= DIGIT0 + 2 {
            2
        } else {
            (b - DIGIT0) as u64
        };
        int_zero = int_zero && b == DIGIT0;
        i = i + 1;
    }
    let intlen: usize = i - start;
    let ghost ip = int_digits(body);
    let ghost fp = frac_digits(body);
    if i == n {
        // no decimal point anywhere
        proof {
            lemma_dot_index(body);
            assert(body.take(i - start) =~= body);
            assert(all_digits(body));
            if dot_index(body) < body.len() {
                assert(is_digit(body[dot_index(body)]));
            }
            assert(ip =~= body);
            assert(fp =~= Seq::<u8>::empty());
        }
        if intlen == 0 {
            return Err(ParseError::InvalidNumber);
        }
        proof {
            lemma_dec_val_zero(ip);
        }
        if neg {
            if !int_zero {
                return Err(ParseError::OutOfRange);
            }
            return Ok(0);
        }
        if int_sat >= 2 {
            return Err(ParseError::OutOfRange);
        }
        return Ok(int_sat * METH_ONE);
    }
    if t[i] != DOT {
        // a byte that is neither a digit nor the decimal point
        proof {
            lemma_dot_index(body);
            assert(body[i - start] == t@[i as int]);
            if dot_index(body) < i - start {
                assert(body.take(i - start)[dot_index(body)] == body[dot_index(body)]);
                assert(is_digit(body[dot_index(body)]));
            }
            assert(dot_index(body) > i - start);
            assert(int_digits(body)[i - start] == body[i - start]);
            assert(!is_digit(int_digits(body)[i - start]));
        }
        return Err(ParseError::InvalidNumber);
    }
    // the decimal point stands at i
    proof {
        lemma_dot_index(body);
        assert(body[i - start] == t@[i as int]);
        if dot_index(body) < i - start {
            assert(body.take(i - start)[dot_index(body)] == body[dot_index(body)]);
            assert(is_digit(body[dot_index(body)]));
        }
        assert(dot_index(body) == i - start);
        assert(ip =~= body.take(i - start));
    }
    i = i + 1;
    let ghost fpstart = i as int;
    proof {
        assert(fp =~= t@.skip(fpstart));
        assert(fp.take(0) =~= Seq::<u8>::empty());
    }
    let mut fr: u64 = 0;
    let mut fd: usize = 0;
    let mut frac_zero: bool = true;
    let mut roundup: bool = false;
    while i < n && t[i] >= DIGIT0 && t[i] <= DIGIT9
        invariant
            fpstart <= i <= n,
            0 <= fpstart,
            n == t@.len(),
            fd == i - fpstart,
            fp == t@.skip(fpstart),
            fp.len() == n - fpstart,
            all_digits(fp.take(fd as int)),
            frac_zero == all_zero(fp.take(fd as int)),
            fd <= 6 ==> fr == dec_val(fp.take(fd as int)),
            fd > 6 ==> fr == dec_val(fp.take(6)),
            fr <= 999999,
            roundup == (fd > 6 && fp[6] >= DIGIT5),
        decreases n - i,
    {
        let b = t[i];
        proof {
            assert(t@.skip(fpstart)[i - fpstart] == t@[i as int]);
            assert(fp[i - fpstart] == t@[i as int]);
            assert(fp.take(fd + 1) =~= fp.take(fd as int).push(fp[fd as int]));
            lemma_dec_val_push(fp.take(fd as int), fp[fd as int]);
            if fd < 6 {
                assert(all_digits(fp.take(fd + 1))) by {
                    assert(forall|j: int|
                        0 <= j < fd ==> #[trigger] fp.take(fd + 1)[j] == fp.take(fd as int)[j]);
                }
                lemma_dec_val_bound(fp.take(fd + 1));
                lemma_pow10_le((fd + 1) as nat, 6);
            }
        }
        if fd < 6 {
            proof {
                reveal_with_fuel(pow10, 8);
            }
            fr = fr * 10 + ((b - DIGIT0) as u64);
        } else if fd == 6 {
            roundup = b >= DIGIT5;
        }
        frac_zero = frac_zero && b == DIGIT0;
        fd = fd + 1;
        i = i + 1;
    }
    if i < n {
        // a byte after the point that is no digit
        proof {
            assert(t@.skip(fpstart)[i - fpstart] == t@[i as int]);
            assert(fp[i - fpstart] == t@[i as int]);
            assert(!is_digit(fp[i - fpstart]));
        }
        return Err(ParseError::InvalidNumber);
    }
    proof {
        assert(fp.take(fd as int) =~= fp);
    }
    if intlen == 0 && fd == 0 {
        // a lone decimal point carries no digit at all
        return Err(ParseError::InvalidNumber);
    }
    // scale a short fraction up to six places
    let mut k: usize = if fd < 6 {
        fd
    } else {
        6
    };
    let ghost base = if fd < 6 {
        dec_val(fp)
    } else {
        dec_val(fp.take(6))
    };
    proof {
        if fd >= 6 {
            assert(all_digits(fp.take(6))) by {
                assert(forall|j: int| 0 <= j < 6 ==> #[trigger] fp.take(6)[j] == fp[j]);
            }
            lemma_dec_val_bound(fp.take(6));
        } else {
            lemma_dec_val_bound(fp);
        }
        lemma_dec_val_nonneg(fp);
        reveal_with_fuel(pow10, 8);
    }
    while k < 6
        invariant
            fd <= k <= 6 || (fd >= 6 && k == 6),
            k >= if fd < 6 {
                fd as int
            } else {
                6
            },
            base >= 0,
            fr == base * pow10((k - if fd < 6 {
                fd as int
            } else {
                6
            }) as nat),
            fr < pow10(k as nat),
            pow10(6) == 1000000,
        decreases 6 - k,
    {
        proof {
            let ghost sh = (k - if fd < 6 {
                fd as int
            } else {
                6
            }) as nat;
            assert(base * pow10(sh) * 10 == base * (10 * pow10(sh))) by (nonlinear_arith);
            assert(pow10((sh + 1) as nat) == 10 * pow10(sh));
            assert(fr * 10 < pow10(k as nat) * 10) by (nonlinear_arith)
                requires
                    fr < pow10(k as nat),
            ;
            assert(pow10((k + 1) as nat) == 10 * pow10(k as nat));
            lemma_pow10_le(k as nat, 6);
        }
        fr = fr * 10;
        k = k + 1;
    }
    proof {
        assert(fr == frac6_val(fp)) by {
            if fd < 6 {
                assert(fp.len() == fd);
                assert(pow10(0) == 1);
            } else {
                assert(fp.len() >= 6);
                assert(base * pow10(0) == base) by (nonlinear_arith);
            }
        }
        lemma_dec_val_zero(ip);
        lemma_dec_val_zero(fp);
    }
    if neg {
        if !(int_zero && frac_zero) {
            return Err(ParseError::OutOfRange);
        }
        return Ok(0);
    }
    if int_sat >= 2 {
        return Err(ParseError::OutOfRange);
    }
    if int_sat == 1 && !frac_zero {
        return Err(ParseError::OutOfRange);
    }
    proof {
        if int_sat == 1 {
            // the fraction is all zeros, so it contributes nothing
            assert(all_zero(fp));
            if fp.len() >= 6 {
                assert(all_zero(fp.take(6))) by {
                    assert(forall|j: int| 0 <= j < 6 ==> #[trigger] fp.take(6)[j] == fp[j]);
                }
                lemma_dec_val_zero(fp.take(6));
                assert(all_digits(fp.take(6))) by {
                    assert(forall|j: int| 0 <= j < 6 ==> #[trigger] fp.take(6)[j] == fp[j]);
                }
            }
            if frac_rounds_up(fp) {
                assert(fp[6] == DIGIT0);
            }
        }
    }
    let bump: u64 = if roundup {
        1
    } else {
        0
    };
    proof {
        assert(int_sat == dec_val(ip));
        assert(fr == frac6_val(fp));
        assert(roundup == frac_rounds_up(fp));
        assert(meth_micros(t@) == dec_val(ip) * (METH_ONE as int) + frac6_val(fp) + if
            frac_rounds_up(fp) {
            1int
        } else {
            0int
        });
        if int_sat == 1 {
            assert(fr == 0);
            assert(bump == 0);
        }
    }
    Ok(int_sat * METH_ONE + fr + bump)
}

/// The strand token is one single plain character.
pub open spec fn valid_strand_token(t: Seq<u8>) -> bool {
    t.len() == 1 && t[0] < 128
}

/// Copy a byte vector.
fn clone_bytes(src: &Vec<u8>) -> (r: Vec<u8>)
    ensures
        r@ == src@,
{
    let mut r: Vec<u8> = Vec::new();
    let mut i: usize = 0;
    while i < src.len()
        invariant
            i <= src@.len(),
            r@ == src@.take(i as int),
        decreases src@.len() - i,
    {
        r.push(src[i]);
        i = i + 1;
        proof {
            assert(src@.take(i as int) =~= src@.take(i - 1).push(src@[i - 1]));
        }
    }
    proof {
        assert(src@.take(i as int) =~= src@);
    }
    r
}

/// Which error, if any, a line is rejected with: the six fields are
/// examined in order, and for each field first its presence, then its
/// form; the range of the level is checked as soon as the level is read,
/// before the read count is even looked at.
pub open spec fn build_err(line: Seq<u8>) -> Option<ParseError> {
    let toks = tokens_of(line);
    if toks.len() < 2 {
        Option::Some(ParseError::MissingField)
    } else if !valid_u64_token(toks[1]) {
        Option::Some(ParseError::InvalidNumber)
    } else if toks.len() < 3 {
        Option::Some(ParseError::MissingField)
    } else if !valid_strand_token(toks[2]) {
        Option::Some(ParseError::InvalidStrand)
    } else if toks.len() < 5 {
        Option::Some(ParseError::MissingField)
    } else if !valid_meth_token(toks[4]) {
        Option::Some(ParseError::InvalidNumber)
    } else if !meth_in_range(toks[4]) {
        Option::Some(ParseError::OutOfRange)
    } else if toks.len() < 6 {
        Option::Some(ParseError::MissingField)
    } else if !valid_u64_token(toks[5]) {
        Option::Some(ParseError::InvalidNumber)
    } else {
        Option::None
    }
}

impl MSite {
    /// Build a site from one line of text: six fields separated by runs
    /// of spaces or tabs — chromosome, position, strand, context,
    /// methylation level, read count. Anything after the sixth field is
    /// ignored.
    pub fn build(s: &[u8]) -> (r: Result<MSite, ParseError>)
        ensures
            ({
                let toks = tokens_of(s@);
                match r {
                    Ok(site) => {
                        &&& build_err(s@) is None
                        &&& toks.len() >= 6
                        &&& site.chrom@ == toks[0]
                        &&& site.pos == u64_token_val(toks[1])
                        &&& site.strand as int == toks[2][0]
                        &&& site.context@ == toks[3]
                        &&& site.meth == meth_micros(toks[4])
                        &&& site.n_reads == u64_token_val(toks[5])
                        &&& site.wf()
                    },
                    Err(e) => build_err(s@) == Option::Some(e),
                }
            }),
    {
        let toks = split_tokens(s);
        let ghost ts = tokens_of(s@);
        proof {
            assert(views_of(toks@) == ts);
        }
        if toks.len() < 2 {
            return Err(ParseError::MissingField);
        }
        proof {
            assert(ts[1] == toks@[1]@);
        }
        let pos: u64 = match parse_u64_token(&toks[1]) {
            Some(v) => v,
            None => {
                return Err(ParseError::InvalidNumber);
            },
        };
        if toks.len() < 3 {
            return Err(ParseError::MissingField);
        }
        proof {
            assert(ts[2] == toks@[2]@);
        }
        let st = &toks[2];
        if st.len() != 1 {
            return Err(ParseError::InvalidStrand);
        }
        let sb = st[0];
        if sb >= 128 {
            return Err(ParseError::InvalidStrand);
        }
        let strand = sb as char;
        if toks.len() < 5 {
            return Err(ParseError::MissingField);
        }
        proof {
            assert(ts[4] == toks@[4]@);
        }
        let meth: u64 = match parse_meth_token(&toks[4]) {
            Ok(m) => m,
            Err(e) => {
                return Err(e);
            },
        };
        if toks.len() < 6 {
            return Err(ParseError::MissingField);
        }
        proof {
            assert(ts[5] == toks@[5]@);
            assert(ts[0] == toks@[0]@);
            assert(ts[3] == toks@[3]@);
        }
        let n_reads: u64 = match parse_u64_token(&toks[5]) {
            Some(v) => v,
            None => {
                return Err(ParseError::InvalidNumber);
            },
        };
        let chrom = clone_bytes(&toks[0]);
        let context = clone_bytes(&toks[3]);
        Ok(MSite { chrom, pos, strand, context, meth, n_reads })
    }
}

} // verus!
