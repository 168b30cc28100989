//! The methylation site record and its operations.

use vstd::prelude::*;

verus! {

/// The value standing for a methylation level of 1.0: levels are held as
/// a count of millionths, six decimal digits of precision.
pub const METH_ONE: u64 = 1000000;

/// The byte `x`: when it is the last byte of the context of a site, the
/// site is marked as mutated.
pub const MUTATION_SENTINEL: u8 = 120;

/// The byte `C`.
pub const UPPER_C: u8 = 67;

/// The byte `G`.
pub const UPPER_G: u8 = 71;

/// The byte `H`.
pub const UPPER_H: u8 = 72;

/// The byte `X`.
pub const UPPER_X: u8 = 88;

/// The byte `p`.
pub const LOWER_P: u8 = 112;

/// One observed site of a reference genome: a position on a chromosome,
/// the strand, the local sequence context, and the methylation evidence
/// aggregated over the reads that cover the position.
#[derive(Debug, Ord)]
pub struct MSite {
    /// Name of the chromosome or contig, as raw bytes.
    pub chrom: Vec<u8>,
    /// 0-based genomic coordinate.
    pub pos: u64,
    /// `+` or `-`; no other value is ever rejected.
    pub strand: char,
    /// Local sequence context label (`CpG`, `CHH`, ...), as raw bytes,
    /// optionally ending in the mutation sentinel.
    pub context: Vec<u8>,
    /// Methylation level in millionths of 1.0; at most [`METH_ONE`] for a
    /// validly constructed site.
    pub meth: u64,
    /// Total number of reads covering the site.
    pub n_reads: u64,
}

/// The context bytes carry the mutation mark: they are non-empty and end
/// in the sentinel byte.
pub open spec fn is_mutated_seq(ctx: Seq<u8>) -> bool {
    ctx.len() > 0 && ctx.last() == MUTATION_SENTINEL
}

/// The context bytes start with the three given bytes.
pub open spec fn has_prefix3(s: Seq<u8>, a: u8, b: u8, c: u8) -> bool {
    s.len() >= 3 && s[0] == a && s[1] == b && s[2] == c
}

/// `num / den` rounded to the nearest integer, ties away from zero, for
/// nonnegative `num` and positive `den`.
pub open spec fn round_div(num: int, den: int) -> int
    recommends
        num >= 0,
        den > 0,
{
    (2 * num + den) / (2 * den)
}

/// Count of methylated reads: the read count times the methylation
/// level, rounded to the nearest whole read, ties away from zero.
pub open spec fn n_meth_spec(s: MSite) -> int {
    round_div(s.n_reads * s.meth, METH_ONE as int)
}

/// Count of unmethylated reads: whatever the methylated reads leave.
pub open spec fn n_umeth_spec(s: MSite) -> int {
    s.n_reads - n_meth_spec(s)
}

/// The context after merging another observation in: a site that was not
/// yet marked mutated takes the mark over from the other operand.
pub open spec fn merged_context(own: Seq<u8>, other: Seq<u8>) -> Seq<u8> {
    if !is_mutated_seq(own) && is_mutated_seq(other) {
        own.push(MUTATION_SENTINEL)
    } else {
        own
    }
}

/// The methylation level after merging: methylated reads of both
/// operands over the combined read count, rounded to millionths; a floor
/// of one read guards the division when no read covers the site.
pub open spec fn merged_meth(a: MSite, b: MSite) -> int {
    round_div(
        (n_meth_spec(a) + n_meth_spec(b)) * METH_ONE,
        if a.n_reads + b.n_reads >= 1 {
            a.n_reads + b.n_reads
        } else {
            1
        },
    )
}

/// Two sites are mates when they form one CpG dinucleotide: adjacent
/// positions, both in CpG context, the first on the plus strand and the
/// second on the minus strand.
pub open spec fn is_mate_of_spec(a: MSite, b: MSite) -> bool {
    &&& a.pos + 1 == b.pos
    &&& has_prefix3(a.context@, UPPER_C, LOWER_P, UPPER_G)
    &&& has_prefix3(b.context@, UPPER_C, LOWER_P, UPPER_G)
    &&& a.strand == '+'
    &&& b.strand == '-'
}

impl MSite {
    /// The invariant every constructed site satisfies: the level does not
    /// exceed 1.0, and the strand is a plain ASCII character, so that it
    /// renders as one byte.
    pub open spec fn wf(self) -> bool {
        &&& self.meth <= METH_ONE
        &&& (self.strand as int) < 128
    }

    /// The empty site: blank names, position zero, plus strand, no reads.
    pub fn new() -> (s: MSite)
        ensures
            s.chrom@ == Seq::<u8>::empty(),
            s.pos == 0,
            s.strand == '+',
            s.context@ == Seq::<u8>::empty(),
            s.meth == 0,
            s.n_reads == 0,
            !is_mutated_seq(s.context@),
            s.wf(),
    {
        MSite {
            chrom: Vec::new(),
            pos: 0,
            strand: '+',
            context: Vec::new(),
            meth: 0,
            n_reads: 0,
        }
    }

    /// Number of reads supporting methylation.
    pub fn n_meth(&self) -> (r: u64)
        requires
            self.wf(),
        ensures
            r == n_meth_spec(*self),
            r <= self.n_reads,
    {
        proof {
            assert(self.n_reads * self.meth <= self.n_reads * 1000000) by (nonlinear_arith)
                requires
                    self.meth <= 1000000,
                    self.n_reads >= 0,
            ;
            assert(self.n_reads * 1000000 <= 0xffffffffffffffff * 1000000) by (nonlinear_arith)
                requires
                    self.n_reads <= 0xffffffffffffffff,
            ;
        }
        let num: u128 = (self.n_reads as u128) * (self.meth as u128);
        proof {
            lemma_round_div_le(num as int, self.n_reads as int, METH_ONE as int);
        }
        let q: u128 = (2 * num + 1000000) / 2000000;
        q as u64
    }

    /// Number of reads not supporting methylation.
    pub fn n_umeth(&self) -> (r: u64)
        requires
            self.wf(),
        ensures
            r == n_umeth_spec(*self),
    {
        self.n_reads - self.n_meth()
    }

    /// The context starts with `CpG`.
    pub fn is_cpg(&self) -> (r: bool)
        ensures
            r == has_prefix3(self.context@, UPPER_C, LOWER_P, UPPER_G),
    {
        self.context.len() >= 3 && self.context[0] == UPPER_C && self.context[1] == LOWER_P
            && self.context[2] == UPPER_G
    }

    /// The context starts with `CCG`.
    pub fn is_ccg(&self) -> (r: bool)
        ensures
            r == has_prefix3(self.context@, UPPER_C, UPPER_C, UPPER_G),
    {
        self.context.len() >= 3 && self.context[0] == UPPER_C && self.context[1] == UPPER_C
            && self.context[2] == UPPER_G
    }

    /// The context starts with `CXG`.
    pub fn is_cxg(&self) -> (r: bool)
        ensures
            r == has_prefix3(self.context@, UPPER_C, UPPER_X, UPPER_G),
    {
        self.context.len() >= 3 && self.context[0] == UPPER_C && self.context[1] == UPPER_X
            && self.context[2] == UPPER_G
    }

    /// The context starts with `CHH`.
    pub fn is_chh(&self) -> (r: bool)
        ensures
            r == has_prefix3(self.context@, UPPER_C, UPPER_H, UPPER_H),
    {
        self.context.len() >= 3 && self.context[0] == UPPER_C && self.context[1] == UPPER_H
            && self.context[2] == UPPER_H
    }

    /// Whether `second` reports the guanine-side cytosine of the CpG
    /// dinucleotide whose plus-strand cytosine `self` reports.
    pub fn is_mate_of(&self, second: &MSite) -> (r: bool)
        ensures
            r == is_mate_of_spec(*self, *second),
    {
        self.pos < u64::MAX && self.pos + 1 == second.pos && self.is_cpg() && second.is_cpg()
            && self.strand == '+' && second.strand == '-'
    }

    /// The site carries the mutation mark.
    pub fn is_mutated(&self) -> (r: bool)
        ensures
            r == is_mutated_seq(self.context@),
    {
        let n = self.context.len();
        if n == 0 {
            false
        } else {
            self.context[n - 1] == MUTATION_SENTINEL
        }
    }

    /// Remove the mutation mark: a marked site loses exactly the final
    /// sentinel byte of its context; an unmarked site is left as it is.
    pub fn set_unmutated(&mut self)
        ensures
            final(self).context@ == if is_mutated_seq(old(self).context@) {
                old(self).context@.drop_last()
            } else {
                old(self).context@
            },
            final(self).chrom == old(self).chrom,
            final(self).pos == old(self).pos,
            final(self).strand == old(self).strand,
            final(self).meth == old(self).meth,
            final(self).n_reads == old(self).n_reads,
    {
        if self.is_mutated() {
            self.context.pop();
        }
    }

    /// Merge the observation of `other` into `self`: the mutation mark is
    /// taken over when `other` carries it, read counts accumulate, and
    /// the level becomes the combined methylated reads over the combined
    /// read count.
    pub fn add(&mut self, other: &MSite)
        requires
            old(self).wf(),
            other.wf(),
            old(self).n_reads + other.n_reads <= u64::MAX,
        ensures
            final(self).chrom == old(self).chrom,
            final(self).pos == old(self).pos,
            final(self).strand == old(self).strand,
            final(self).context@ == merged_context(old(self).context@, other.context@),
            final(self).n_reads == old(self).n_reads + other.n_reads,
            final(self).meth == merged_meth(*old(self), *other),
            final(self).wf(),
    {
        if !self.is_mutated() && other.is_mutated() {
            self.context.push(MUTATION_SENTINEL);
        }
        let total: u64 = self.n_meth() + other.n_meth();
        self.n_reads = self.n_reads + other.n_reads;
        let floor: u64 = if self.n_reads >= 1 {
            self.n_reads
        } else {
            1
        };
        let num: u128 = (total as u128) * 1000000;
        proof {
            assert(total * 1000000 <= floor * 1000000) by (nonlinear_arith)
                requires
                    total <= floor,
            ;
            lemma_round_div_le(num as int, METH_ONE as int, floor as int);
        }
        let q: u128 = (2 * num + (floor as u128)) / (2 * (floor as u128));
        self.meth = q as u64;
    }
}

/// When `num <= bound * den`, the rounded quotient `num / den` is at most
/// `bound`.
pub proof fn lemma_round_div_le(num: int, bound: int, den: int)
    requires
        num >= 0,
        den > 0,
        bound >= 0,
        num <= bound * den,
    ensures
        0 <= round_div(num, den) <= bound,
{
    assert(0 <= (2 * num + den) / (2 * den) <= bound) by (nonlinear_arith)
        requires
            num >= 0,
            den > 0,
            bound >= 0,
            num <= bound * den,
    ;
}

/// A merge of two unmarked operands leaves the receiver unmarked.
pub proof fn lemma_merge_keeps_unmutated(own: Seq<u8>, other: Seq<u8>)
    requires
        !is_mutated_seq(own),
        !is_mutated_seq(other),
    ensures
        !is_mutated_seq(merged_context(own, other)),
{
}

/// A merge with a marked operand leaves the receiver marked.
pub proof fn lemma_merge_takes_mark(own: Seq<u8>, other: Seq<u8>)
    requires
        is_mutated_seq(other),
    ensures
        is_mutated_seq(merged_context(own, other)),
{
    if !is_mutated_seq(own) {
        assert(own.push(MUTATION_SENTINEL).last() == MUTATION_SENTINEL);
    }
}

/// A marked receiver stays marked through any merge.
pub proof fn lemma_merge_keeps_mark(own: Seq<u8>, other: Seq<u8>)
    requires
        is_mutated_seq(own),
    ensures
        is_mutated_seq(merged_context(own, other)),
{
}

/// For a receiver that was unmarked, merging marks it exactly when the
/// operand is marked, and removing the mark afterwards — the step
/// `set_unmutated` takes — gives the very context back.
pub proof fn lemma_mark_round_trip(own: Seq<u8>, other: Seq<u8>)
    requires
        !is_mutated_seq(own),
    ensures
        is_mutated_seq(merged_context(own, other)) == is_mutated_seq(other),
        (if is_mutated_seq(merged_context(own, other)) {
            merged_context(own, other).drop_last()
        } else {
            merged_context(own, other)
        }) == own,
{
    if is_mutated_seq(other) {
        assert(own.push(MUTATION_SENTINEL).last() == MUTATION_SENTINEL);
        assert(own.push(MUTATION_SENTINEL).drop_last() =~= own);
    }
}

/// The methylated and the unmethylated reads of a well-formed site
/// partition its total read count.
pub proof fn lemma_reads_partition(s: MSite)
    requires
        s.wf(),
    ensures
        0 <= n_meth_spec(s) <= s.n_reads,
        n_meth_spec(s) + n_umeth_spec(s) == s.n_reads,
{
    assert(s.n_reads * s.meth <= s.n_reads * METH_ONE) by (nonlinear_arith)
        requires
            s.meth <= METH_ONE,
            s.n_reads >= 0,
    ;
    assert(s.n_reads * s.meth >= 0) by (nonlinear_arith)
        requires
            s.meth >= 0,
            s.n_reads >= 0,
    ;
    lemma_round_div_le(s.n_reads * s.meth, s.n_reads as int, METH_ONE as int);
}

} // verus!
