//! Equality and total order on sites: field by field, in declaration
//! order.

use crate::site::MSite;
use core::cmp::Ordering;
use vstd::prelude::*;

verus! {

/// Byte sequences in lexicographic order: the first differing byte
/// decides; a proper prefix comes first.
pub open spec fn bytes_cmp(a: Seq<u8>, b: Seq<u8>) -> Ordering
    decreases a.len(),
{
    if a.len() == 0 && b.len() == 0 {
        Ordering::Equal
    } else if a.len() == 0 {
        Ordering::Less
    } else if b.len() == 0 {
        Ordering::Greater
    } else if a[0] < b[0] {
        Ordering::Less
    } else if a[0] > b[0] {
        Ordering::Greater
    } else {
        bytes_cmp(a.drop_first(), b.drop_first())
    }
}

/// Numbers in their usual order.
pub open spec fn num_cmp(a: int, b: int) -> Ordering {
    if a < b {
        Ordering::Less
    } else if a > b {
        Ordering::Greater
    } else {
        Ordering::Equal
    }
}

/// All fields equal, byte for byte and value for value.
pub open spec fn site_eq(a: MSite, b: MSite) -> bool {
    &&& a.chrom@ == b.chrom@
    &&& a.pos == b.pos
    &&& a.strand == b.strand
    &&& a.context@ == b.context@
    &&& a.meth == b.meth
    &&& a.n_reads == b.n_reads
}

/// Sites in lexicographic order of their fields, in declaration order:
/// chromosome, then position, then strand, then context, then level,
/// then read count.
pub open spec fn site_cmp(a: MSite, b: MSite) -> Ordering {
    if bytes_cmp(a.chrom@, b.chrom@) != Ordering::Equal {
        bytes_cmp(a.chrom@, b.chrom@)
    } else if a.pos != b.pos {
        num_cmp(a.pos as int, b.pos as int)
    } else if a.strand != b.strand {
        num_cmp(a.strand as int, b.strand as int)
    } else if bytes_cmp(a.context@, b.context@) != Ordering::Equal {
        bytes_cmp(a.context@, b.context@)
    } else if a.meth != b.meth {
        num_cmp(a.meth as int, b.meth as int)
    } else {
        num_cmp(a.n_reads as int, b.n_reads as int)
    }
}

/// Two byte sequences compare equal exactly when they are equal.
pub proof fn lemma_bytes_cmp_equal(a: Seq<u8>, b: Seq<u8>)
    ensures
        bytes_cmp(a, b) == Ordering::Equal <==> a == b,
    decreases a.len(),
{
    if a.len() > 0 && b.len() > 0 && a[0] == b[0] {
        lemma_bytes_cmp_equal(a.drop_first(), b.drop_first());
        if bytes_cmp(a, b) == Ordering::Equal {
            assert(a.len() == b.len());
            assert forall|i: int| 0 <= i < a.len() implies a[i] == b[i] by {
                if i >= 1 {
                    assert(a[i] == a.drop_first()[i - 1]);
                    assert(b[i] == b.drop_first()[i - 1]);
                }
            }
            assert(a =~= b);
        } else {
            if a == b {
                assert(a.drop_first() =~= b.drop_first());
            }
        }
    } else {
        if a.len() == 0 && b.len() == 0 {
            assert(a =~= b);
        }
        if a == b && a.len() > 0 {
            assert(a[0] == b[0]);
        }
    }
}

/// A site compares equal to another exactly when every field is equal.
pub proof fn lemma_site_cmp_equal(a: MSite, b: MSite)
    ensures
        site_cmp(a, b) == Ordering::Equal <==> site_eq(a, b),
{
    lemma_bytes_cmp_equal(a.chrom@, b.chrom@);
    lemma_bytes_cmp_equal(a.context@, b.context@);
}

/// The order never refuses a pair: a comparison of two sites always
/// gives an answer, whatever their fields hold.
pub proof fn lemma_site_cmp_total(a: MSite, b: MSite)
    ensures
        site_cmp(a, b) == Ordering::Equal || site_cmp(a, b) == Ordering::Less || site_cmp(a, b)
            == Ordering::Greater,
{
}

/// Swapping the operands mirrors the answer.
pub proof fn lemma_bytes_cmp_flip(a: Seq<u8>, b: Seq<u8>)
    ensures
        bytes_cmp(b, a) == (match bytes_cmp(a, b) {
            Ordering::Less => Ordering::Greater,
            Ordering::Equal => Ordering::Equal,
            Ordering::Greater => Ordering::Less,
        }),
    decreases a.len(),
{
    if a.len() > 0 && b.len() > 0 && a[0] == b[0] {
        lemma_bytes_cmp_flip(a.drop_first(), b.drop_first());
    }
}

/// Lexicographic order on byte sequences chains: below and below is
/// below.
pub proof fn lemma_bytes_cmp_trans(a: Seq<u8>, b: Seq<u8>, c: Seq<u8>)
    requires
        bytes_cmp(a, b) == Ordering::Less,
        bytes_cmp(b, c) == Ordering::Less,
    ensures
        bytes_cmp(a, c) == Ordering::Less,
    decreases a.len(),
{
    if a.len() > 0 && b.len() > 0 && c.len() > 0 && a[0] == b[0] && b[0] == c[0] {
        lemma_bytes_cmp_trans(a.drop_first(), b.drop_first(), c.drop_first());
    }
}

/// Swapping the operands of a site comparison mirrors the answer: the
/// order is antisymmetric.
pub proof fn lemma_site_cmp_flip(a: MSite, b: MSite)
    ensures
        site_cmp(b, a) == (match site_cmp(a, b) {
            Ordering::Less => Ordering::Greater,
            Ordering::Equal => Ordering::Equal,
            Ordering::Greater => Ordering::Less,
        }),
{
    lemma_bytes_cmp_flip(a.chrom@, b.chrom@);
    lemma_bytes_cmp_flip(a.context@, b.context@);
}

/// The order on sites chains: below and below is below. With totality,
/// antisymmetry and equality this makes the comparison a total order.
pub proof fn lemma_site_cmp_transitive(a: MSite, b: MSite, c: MSite)
    requires
        site_cmp(a, b) == Ordering::Less,
        site_cmp(b, c) == Ordering::Less,
    ensures
        site_cmp(a, c) == Ordering::Less,
{
    lemma_bytes_cmp_equal(a.chrom@, b.chrom@);
    lemma_bytes_cmp_equal(b.chrom@, c.chrom@);
    lemma_bytes_cmp_equal(a.chrom@, c.chrom@);
    lemma_bytes_cmp_equal(a.context@, b.context@);
    lemma_bytes_cmp_equal(b.context@, c.context@);
    lemma_bytes_cmp_equal(a.context@, c.context@);
    if bytes_cmp(a.chrom@, b.chrom@) == Ordering::Less && bytes_cmp(b.chrom@, c.chrom@)
        == Ordering::Less {
        lemma_bytes_cmp_trans(a.chrom@, b.chrom@, c.chrom@);
    }
    if bytes_cmp(a.context@, b.context@) == Ordering::Less && bytes_cmp(b.context@, c.context@)
        == Ordering::Less {
        lemma_bytes_cmp_trans(a.context@, b.context@, c.context@);
    }
    lemma_site_cmp_total(a, b);
    lemma_site_cmp_total(b, c);
}

/// Compare two byte vectors lexicographically.
fn cmp_bytes(a: &Vec<u8>, b: &Vec<u8>) -> (r: Ordering)
    ensures
        r == bytes_cmp(a@, b@),
{
    let mut i: usize = 0;
    proof {
        assert(a@.skip(0) =~= a@);
        assert(b@.skip(0) =~= b@);
    }
    while i < a.len() && i < b.len()
        invariant
            i <= a@.len(),
            i <= b@.len(),
            bytes_cmp(a@, b@) == bytes_cmp(a@.skip(i as int), b@.skip(i as int)),
        decreases a@.len() - i,
    {
        proof {
            assert(a@.skip(i as int)[0] == a@[i as int]);
            assert(b@.skip(i as int)[0] == b@[i as int]);
            assert(a@.skip(i as int).drop_first() =~= a@.skip(i + 1));
            assert(b@.skip(i as int).drop_first() =~= b@.skip(i + 1));
        }
        if a[i] < b[i] {
            return Ordering::Less;
        }
        if a[i] > b[i] {
            return Ordering::Greater;
        }
        i = i + 1;
    }
    if a.len() < b.len() {
        Ordering::Less
    } else if a.len() > b.len() {
        Ordering::Greater
    } else {
        Ordering::Equal
    }
}

impl PartialEq for MSite {
    /// Sites are equal when every field is, the level compared exactly.
    fn eq(&self, other: &Self) -> (r: bool) {
        let r = matches!(cmp_bytes(&self.chrom, &other.chrom), Ordering::Equal) && self.pos
            == other.pos && self.strand == other.strand && matches!(
            cmp_bytes(&self.context, &other.context),
            Ordering::Equal,
        ) && self.meth == other.meth && self.n_reads == other.n_reads;
        proof {
            lemma_bytes_cmp_equal(self.chrom@, other.chrom@);
            lemma_bytes_cmp_equal(self.context@, other.context@);
        }
        r
    }
}

impl vstd::std_specs::cmp::PartialEqSpecImpl for MSite {
    open spec fn obeys_eq_spec() -> bool {
        true
    }

    open spec fn eq_spec(&self, other: &Self) -> bool {
        site_eq(*self, *other)
    }
}

impl Eq for MSite {

}

impl PartialOrd for MSite {
    /// Sites are ordered by their fields in declaration order; no pair
    /// is ever incomparable.
    fn partial_cmp(&self, other: &Self) -> (r: Option<Ordering>) {
        let c = cmp_bytes(&self.chrom, &other.chrom);
        if !matches!(c, Ordering::Equal) {
            return Some(c);
        }
        if self.pos != other.pos {
            return Some(
                if self.pos < other.pos {
                    Ordering::Less
                } else {
                    Ordering::Greater
                },
            );
        }
        if self.strand != other.strand {
            return Some(
                if (self.strand as u32) < (other.strand as u32) {
                    Ordering::Less
                } else {
                    Ordering::Greater
                },
            );
        }
        let c = cmp_bytes(&self.context, &other.context);
        if !matches!(c, Ordering::Equal) {
            return Some(c);
        }
        if self.meth != other.meth {
            return Some(
                if self.meth < other.meth {
                    Ordering::Less
                } else {
                    Ordering::Greater
                },
            );
        }
        if self.n_reads != other.n_reads {
            return Some(
                if self.n_reads < other.n_reads {
                    Ordering::Less
                } else {
                    Ordering::Greater
                },
            );
        }
        Some(Ordering::Equal)
    }
}

impl vstd::std_specs::cmp::PartialOrdSpecImpl for MSite {
    open spec fn obeys_partial_cmp_spec() -> bool {
        true
    }

    open spec fn partial_cmp_spec(&self, other: &Self) -> Option<Ordering> {
        Some(site_cmp(*self, *other))
    }
}

} // verus!
