use msite::{MSite, ParseError};

#[test]
fn build_from_valid_string() {
    let valid_line1: String = "chr1 0 + CpG 0 0".to_string();
    let valid_example = MSite {
        chrom: b"chr1".to_vec(),
        pos: 0,
        strand: '+',
        context: b"CpG".to_vec(),
        meth: 0,
        n_reads: 0,
    };
    let the_site = match MSite::build(valid_line1.as_bytes()) {
        Ok(site) => site,
        Err(err) => panic!("failed parsing site: {:?} {}", err, valid_line1),
    };
    assert_eq!(valid_example, the_site);

    let valid_line2: String = "chr1\t1000 - CHH 0.8 10".to_string();
    let valid_example2 = MSite {
        chrom: b"chr1".to_vec(),
        pos: 1000,
        strand: '-',
        context: b"CHH".to_vec(),
        meth: 800000,
        n_reads: 10,
    };
    let the_site = match MSite::build(valid_line2.as_bytes()) {
        Ok(site) => site,
        Err(err) => panic!("failed parsing site: {:?} {}", err, valid_line2),
    };
    assert_eq!(valid_example2, the_site);
}

#[test]
fn build_with_missing_field() {
    let invalid_line1: String = "chr1 1 + CpG 0".to_string();
    assert!(MSite::build(invalid_line1.as_bytes()).is_err())
}

#[test]
fn build_with_invalid_position() {
    let invalid_line1: String = "chr1 -10 + CpG 0 0".to_string();
    assert_eq!(
        MSite::build(invalid_line1.as_bytes()),
        Err(ParseError::InvalidNumber)
    );
}

#[test]
fn build_with_invalid_methylation_level() {
    let invalid_line1: String = "chr1 0 + CpG 1.2 10".to_string();
    assert!(MSite::build(invalid_line1.as_bytes()).is_err())
}

#[test]
fn missing_field_error_kind() {
    assert_eq!(
        MSite::build(b"chr1 1 + CpG 0"),
        Err(ParseError::MissingField)
    );
    assert_eq!(MSite::build(b""), Err(ParseError::MissingField));
    assert_eq!(MSite::build(b"   \t "), Err(ParseError::MissingField));
}

#[test]
fn out_of_range_error_kind() {
    assert_eq!(
        MSite::build(b"chr1 0 + CpG 1.2 10"),
        Err(ParseError::OutOfRange)
    );
    assert_eq!(
        MSite::build(b"chr1 0 + CpG -0.5 10"),
        Err(ParseError::OutOfRange)
    );
    // the range of the level is judged before the read count is read
    assert_eq!(
        MSite::build(b"chr1 0 + CpG 1.2 oops"),
        Err(ParseError::OutOfRange)
    );
    assert_eq!(MSite::build(b"chr1 0 + CpG 2 10"), Err(ParseError::OutOfRange));
}

#[test]
fn invalid_strand_error_kind() {
    assert_eq!(
        MSite::build(b"chr1 0 ++ CpG 0 0"),
        Err(ParseError::InvalidStrand)
    );
    assert_eq!(
        MSite::build(b"chr1 0 fw CpG 0 0"),
        Err(ParseError::InvalidStrand)
    );
}

#[test]
fn invalid_number_error_kind() {
    assert_eq!(
        MSite::build(b"chr1 x + CpG 0 0"),
        Err(ParseError::InvalidNumber)
    );
    assert_eq!(
        MSite::build(b"chr1 0 + CpG 0.5.5 0"),
        Err(ParseError::InvalidNumber)
    );
    assert_eq!(
        MSite::build(b"chr1 0 + CpG . 0"),
        Err(ParseError::InvalidNumber)
    );
    assert_eq!(
        MSite::build(b"chr1 0 + CpG 0 -1"),
        Err(ParseError::InvalidNumber)
    );
    // a position one past the largest representable is refused
    assert_eq!(
        MSite::build(b"chr1 18446744073709551616 + CpG 0 0"),
        Err(ParseError::InvalidNumber)
    );
}

#[test]
fn position_edge_values() {
    let site = MSite::build(b"chr1 18446744073709551615 + CpG 0 0").unwrap();
    assert_eq!(site.pos, u64::MAX);
    let site = MSite::build(b"chr1 +10 + CpG 0 7").unwrap();
    assert_eq!(site.pos, 10);
    assert_eq!(site.n_reads, 7);
}

#[test]
fn meth_token_forms() {
    assert_eq!(MSite::build(b"c 0 + CpG .5 0").unwrap().meth, 500000);
    assert_eq!(MSite::build(b"c 0 + CpG 1. 0").unwrap().meth, 1000000);
    assert_eq!(MSite::build(b"c 0 + CpG 1.000000 0").unwrap().meth, 1000000);
    assert_eq!(MSite::build(b"c 0 + CpG 0.25 0").unwrap().meth, 250000);
    assert_eq!(MSite::build(b"c 0 + CpG -0 0").unwrap().meth, 0);
    assert_eq!(MSite::build(b"c 0 + CpG -0.000 0").unwrap().meth, 0);
}

#[test]
fn meth_rounds_to_six_places() {
    // the seventh decimal digit rounds the sixth, ties away from zero
    assert_eq!(MSite::build(b"c 0 + CpG 0.12345678 0").unwrap().meth, 123457);
    assert_eq!(MSite::build(b"c 0 + CpG 0.12345612 0").unwrap().meth, 123456);
    assert_eq!(MSite::build(b"c 0 + CpG 0.1234565 0").unwrap().meth, 123457);
    assert_eq!(MSite::build(b"c 0 + CpG 0.9999995 0").unwrap().meth, 1000000);
}

#[test]
fn round_trip_tab_line() {
    let line = b"chr1\t0\t+\tCpG\t0\t0";
    let site = MSite::build(line).unwrap();
    assert_eq!(site.to_line(), line.to_vec());

    let line2 = b"chrX\t1234\t-\tCHHx\t0.25\t8";
    let site2 = MSite::build(line2).unwrap();
    assert_eq!(site2.to_line(), line2.to_vec());

    let line3 = b"chr2\t7\t+\tCCG\t0.123456\t1000";
    let site3 = MSite::build(line3).unwrap();
    assert_eq!(site3.to_line(), line3.to_vec());
}

#[test]
fn format_uses_shortest_level_form() {
    let site = MSite::build(b"chr1 7 + CHH 0.8 10").unwrap();
    assert_eq!(site.to_line(), b"chr1\t7\t+\tCHH\t0.8\t10".to_vec());
    let site = MSite::build(b"c 0 + CpG 0.250000 4").unwrap();
    assert_eq!(site.to_line(), b"c\t0\t+\tCpG\t0.25\t4".to_vec());
    let site = MSite::build(b"c 0 + CpG 1.000000 4").unwrap();
    assert_eq!(site.to_line(), b"c\t0\t+\tCpG\t1\t4".to_vec());
    let site = MSite::build(b"c 0 + CpG 0.000001 4").unwrap();
    assert_eq!(site.to_line(), b"c\t0\t+\tCpG\t0.000001\t4".to_vec());
    let site = MSite::build(b"c 0 + CpG 0.9999995 4").unwrap();
    assert_eq!(site.to_line(), b"c\t0\t+\tCpG\t1\t4".to_vec());
}

#[test]
fn new_site_is_empty() {
    let site = MSite::new();
    assert_eq!(site.chrom, Vec::<u8>::new());
    assert_eq!(site.pos, 0);
    assert_eq!(site.strand, '+');
    assert_eq!(site.context, Vec::<u8>::new());
    assert_eq!(site.meth, 0);
    assert_eq!(site.n_reads, 0);
    assert!(!site.is_mutated());
}

#[test]
fn new_site_renders_empty_fields() {
    assert_eq!(MSite::new().to_line(), b"\t0\t+\t\t0\t0".to_vec());
}

#[test]
fn read_counts_partition() {
    let site = MSite::build(b"chr1 0 + CpG 0.5 10").unwrap();
    assert_eq!(site.n_meth(), 5);
    assert_eq!(site.n_umeth(), 5);
    assert_eq!(site.n_meth() + site.n_umeth(), site.n_reads);

    // half a read rounds away from zero
    let site = MSite::build(b"chr1 0 + CpG 0.5 3").unwrap();
    assert_eq!(site.n_meth(), 2);
    assert_eq!(site.n_umeth(), 1);

    let site = MSite::build(b"chr1 0 + CpG 0.25 3").unwrap();
    assert_eq!(site.n_meth(), 1);
    assert_eq!(site.n_umeth(), 2);
    assert_eq!(site.n_meth() + site.n_umeth(), site.n_reads);
}

#[test]
fn context_classification() {
    let site = MSite::build(b"chr1 0 + CpG 0 0").unwrap();
    assert!(site.is_cpg() && !site.is_ccg() && !site.is_cxg() && !site.is_chh());
    let site = MSite::build(b"chr1 0 + CCG 0 0").unwrap();
    assert!(!site.is_cpg() && site.is_ccg() && !site.is_cxg() && !site.is_chh());
    let site = MSite::build(b"chr1 0 + CXG 0 0").unwrap();
    assert!(site.is_cxg() && !site.is_chh());
    let site = MSite::build(b"chr1 0 + CHH 0 0").unwrap();
    assert!(site.is_chh() && !site.is_cpg());
    // the prefix decides, case-sensitively
    let site = MSite::build(b"chr1 0 + CpGx 0 0").unwrap();
    assert!(site.is_cpg());
    let site = MSite::build(b"chr1 0 + cpg 0 0").unwrap();
    assert!(!site.is_cpg());
    let site = MSite::build(b"chr1 0 + Cp 0 0").unwrap();
    assert!(!site.is_cpg());
}

#[test]
fn mate_detection() {
    let a = MSite::build(b"chr1 100 + CpG 0 0").unwrap();
    let b = MSite::build(b"chr1 101 - CpG 0 0").unwrap();
    assert!(a.is_mate_of(&b));
    // the positions must be adjacent, in order
    let far = MSite::build(b"chr1 102 - CpG 0 0").unwrap();
    assert!(!a.is_mate_of(&far));
    assert!(!b.is_mate_of(&a));
    // both contexts must be CpG
    let chh = MSite::build(b"chr1 101 - CHH 0 0").unwrap();
    assert!(!a.is_mate_of(&chh));
    let a_chh = MSite::build(b"chr1 100 + CHH 0 0").unwrap();
    assert!(!a_chh.is_mate_of(&b));
    // the strands must be plus then minus
    let plus = MSite::build(b"chr1 101 + CpG 0 0").unwrap();
    assert!(!a.is_mate_of(&plus));
}

#[test]
fn add_merges_counts() {
    let mut a = MSite::build(b"chr1 5 + CpG 0.5 10").unwrap();
    let b = MSite::build(b"chr1 5 - CpG 0.5 10").unwrap();
    assert_eq!(a.n_meth(), 5);
    assert_eq!(b.n_meth(), 5);
    a.add(&b);
    assert_eq!(a.n_reads, 20);
    assert_eq!(a.meth, 500000);
    assert_eq!(a.n_meth(), 10);
}

#[test]
fn add_with_no_reads() {
    let mut a = MSite::build(b"chr1 5 + CpG 0 0").unwrap();
    let b = MSite::build(b"chr1 5 - CpG 1 0").unwrap();
    a.add(&b);
    assert_eq!(a.n_reads, 0);
    assert_eq!(a.meth, 0);
}

#[test]
fn add_rounds_level() {
    let mut a = MSite::build(b"chr1 5 + CpG 1 1").unwrap();
    let b = MSite::build(b"chr1 5 - CpG 0 2").unwrap();
    a.add(&b);
    assert_eq!(a.n_reads, 3);
    // one methylated read of three: 1/3 rounded to six places
    assert_eq!(a.meth, 333333);
}

#[test]
fn mutation_mark_lifecycle() {
    let mut site = MSite::build(b"chr1 0 + CpG 0.5 10").unwrap();
    assert!(!site.is_mutated());

    // a merge with an unmarked operand leaves the site unmarked
    let plain = MSite::build(b"chr1 0 - CpG 0.5 10").unwrap();
    site.add(&plain);
    assert!(!site.is_mutated());

    // a merge with a marked operand marks the site
    let marked = MSite::build(b"chr1 0 - CpGx 0.5 10").unwrap();
    assert!(marked.is_mutated());
    site.add(&marked);
    assert!(site.is_mutated());
    assert_eq!(site.context, b"CpGx".to_vec());

    // the mark is sticky under further unmarked merges
    site.add(&plain);
    assert!(site.is_mutated());
    assert_eq!(site.context, b"CpGx".to_vec());

    // removing the mark restores the bare context
    site.set_unmutated();
    assert!(!site.is_mutated());
    assert_eq!(site.context, b"CpG".to_vec());

    // removing it again changes nothing
    site.set_unmutated();
    assert_eq!(site.context, b"CpG".to_vec());
}

#[test]
fn mutated_site_formats_with_sentinel() {
    let mut site = MSite::build(b"chr1\t3\t+\tCpG\t0.5\t10").unwrap();
    let marked = MSite::build(b"chr1 3 - CpGx 0.5 10").unwrap();
    site.add(&marked);
    assert_eq!(site.to_line(), b"chr1\t3\t+\tCpGx\t0.5\t20".to_vec());
}

#[test]
fn ordering_is_lexicographic_by_field() {
    let base = MSite::build(b"chr1 100 + CpG 0.5 10").unwrap();
    let same = MSite::build(b"chr1 100 + CpG 0.5 10").unwrap();
    assert_eq!(base, same);
    assert!(!(base < same) && !(base > same));

    // chromosome decides first
    let chrom2 = MSite::build(b"chr2 0 + CpG 0 0").unwrap();
    assert!(base < chrom2);
    // then position
    let later = MSite::build(b"chr1 101 + CpG 0 0").unwrap();
    assert!(base < later);
    // then strand: `+` orders before `-`
    let minus = MSite::build(b"chr1 100 - CpG 0.5 10").unwrap();
    assert!(base < minus);
    // then context, byte-wise: `X` orders before the lowercase `p`
    let cxg = MSite::build(b"chr1 100 + CXG 0.5 10").unwrap();
    assert!(cxg < base);
    // then level
    let higher = MSite::build(b"chr1 100 + CpG 0.75 10").unwrap();
    assert!(base < higher);
    // then read count
    let more = MSite::build(b"chr1 100 + CpG 0.5 11").unwrap();
    assert!(base < more);

    // a chromosome that is a proper prefix orders first
    let prefix = MSite::build(b"chr 100 + CpG 0.5 10").unwrap();
    assert!(prefix < base);
}

#[test]
fn sites_sort_into_field_order() {
    let mut sites = vec![
        MSite::build(b"chr2 5 + CpG 0 0").unwrap(),
        MSite::build(b"chr1 9 + CpG 0 0").unwrap(),
        MSite::build(b"chr1 5 - CpG 0 0").unwrap(),
        MSite::build(b"chr1 5 + CpG 0 0").unwrap(),
    ];
    sites.sort();
    assert_eq!(sites[0].to_line(), b"chr1\t5\t+\tCpG\t0\t0".to_vec());
    assert_eq!(sites[1].to_line(), b"chr1\t5\t-\tCpG\t0\t0".to_vec());
    assert_eq!(sites[2].to_line(), b"chr1\t9\t+\tCpG\t0\t0".to_vec());
    assert_eq!(sites[3].to_line(), b"chr2\t5\t+\tCpG\t0\t0".to_vec());
}

#[test]
fn extra_fields_are_ignored() {
    let site = MSite::build(b"chr1 0 + CpG 0.5 10 trailing junk").unwrap();
    assert_eq!(site.n_reads, 10);
    assert_eq!(site.to_line(), b"chr1\t0\t+\tCpG\t0.5\t10".to_vec());
}
