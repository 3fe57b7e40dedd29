use fxtools::counts::{base_map, normalize_counts, position_counts, FrequencyMatrix, ProbabilityMatrix};
use fxtools::emit::{format_print, write_to_output};
use fxtools::error::RegionError;
use fxread::FastaReader;
use fxtools::record::Record;
use fxtools::region::{
    assign_contiguous, border, find_longest_contiguous, is_contiguous, resolve_region,
    selected_positions,
};

fn fasta(records: &[(&str, &str)]) -> Vec<Record> {
    records
        .iter()
        .map(|(id, seq)| Record::fasta(id.as_bytes().to_vec(), seq.as_bytes().to_vec()))
        .collect()
}

fn read_fasta(data: &'static [u8]) -> Vec<Record> {
    FastaReader::new(data)
        .map(|r| Record::fasta(r.id().to_vec(), r.seq().to_vec()))
        .collect()
}

fn ratio(p: &ProbabilityMatrix, pos: usize, ch: usize) -> f64 {
    let (num, den) = p.fraction(pos, ch);
    num as f64 / den as f64
}

fn entropies(p: &ProbabilityMatrix) -> Vec<f64> {
    (0..p.len())
        .map(|pos| {
            -(0..4)
                .map(|ch| ratio(p, pos, ch))
                .filter(|x| *x > 0.)
                .map(|x| x * x.log2())
                .sum::<f64>()
        })
        .collect()
}

fn mask_above(values: &[f64], threshold: f64) -> Vec<bool> {
    let n = values.len() as f64;
    let mean = values.iter().sum::<f64>() / n;
    let std = (values.iter().map(|x| (x - mean) * (x - mean)).sum::<f64>() / n).sqrt();
    values.iter().map(|x| (x - mean) / std > threshold).collect()
}

fn row(m: &FrequencyMatrix, pos: usize) -> [usize; 4] {
    [m.count(pos, 0), m.count(pos, 1), m.count(pos, 2), m.count(pos, 3)]
}

#[test]
fn test_base_map() {
    let bytes = b"ACGTN";
    assert_eq!(base_map(bytes[0]), Some(0));
    assert_eq!(base_map(bytes[1]), Some(1));
    assert_eq!(base_map(bytes[2]), Some(2));
    assert_eq!(base_map(bytes[3]), Some(3));
    assert_eq!(base_map(bytes[4]), None);
}

#[test]
fn test_border() {
    let array = vec![1, 2, 3, 4];
    assert_eq!(border(&array).unwrap(), (1, 4));
}

#[test]
fn test_contiguous() {
    let array = vec![1, 2, 3, 4];
    assert!(is_contiguous(&array));

    let array = vec![1, 4, 3, 2];
    assert!(!is_contiguous(&array));
}

#[test]
fn test_position_counts() {
    let fasta: &'static [u8] = b">seq.0\nACGT\n>seq.1\nACGT\n>seq.2\nACGT\n";
    let records = read_fasta(fasta);
    let posmat = position_counts(&records, 3).unwrap();

    // position 0; A
    assert_eq!(posmat.count(0, 0), 3);

    // position 0; C
    assert_eq!(posmat.count(0, 1), 0);

    // position 4; T
    assert_eq!(posmat.count(3, 3), 3);
}

#[test]
fn test_position_frequency() {
    let fasta: &'static [u8] = b">seq.0\nACGT\n>seq.1\nACGT\n>seq.2\nACGT\n";
    let records = read_fasta(fasta);
    let posmat = position_counts(&records, 3).unwrap();
    let pos_prob = normalize_counts(posmat).unwrap();

    // position 0; A
    assert_eq!(ratio(&pos_prob, 0, 0), 1.);

    // position 0; C
    assert_eq!(ratio(&pos_prob, 0, 1), 0.);

    // position 4; T
    assert_eq!(ratio(&pos_prob, 3, 3), 1.);
}

#[test]
fn test_longest_contiguous() {
    let array = vec![1, 3, 4, 5, 6];
    let cont = find_longest_contiguous(&array);
    assert_eq!(cont, vec![3, 4, 5, 6]);
}

#[test]
fn longest_contiguous_takes_first_of_equal_runs() {
    assert_eq!(find_longest_contiguous(&vec![1, 2, 5, 6]), vec![1, 2]);
    assert_eq!(find_longest_contiguous(&vec![1, 2, 3, 10, 20]), vec![1, 2, 3]);
    assert_eq!(find_longest_contiguous(&vec![1, 5, 9]), vec![1]);
    assert_eq!(find_longest_contiguous(&vec![]), Vec::<usize>::new());
}

#[test]
fn contiguous_set_is_kept() {
    let set = vec![3, 4, 5];
    assert!(is_contiguous(&set));
    assert_eq!(assign_contiguous(set.clone()), Ok(set));
}

#[test]
fn gapped_set_resolves_to_longest_run() {
    assert_eq!(assign_contiguous(vec![0, 2, 3, 4, 8]), Ok(vec![2, 3, 4]));
    assert_eq!(assign_contiguous(vec![]), Err(RegionError::NoContiguousRegion));
}

#[test]
fn border_errors() {
    assert_eq!(border(&vec![]), Err(RegionError::NoContiguousRegion));
    assert_eq!(border(&vec![5, 5]), Err(RegionError::DegenerateThreshold));
    assert_eq!(border(&vec![7, 2, 9]), Ok((2, 9)));
}

#[test]
fn selected_positions_in_order() {
    assert_eq!(selected_positions(&vec![false, true, true, false, true]), vec![1, 2, 4]);
    assert_eq!(selected_positions(&vec![false, false]), Vec::<usize>::new());
}

#[test]
fn resolve_region_outcomes() {
    assert_eq!(resolve_region(&vec![false, true, true, false]), Ok((1, 2)));
    assert_eq!(resolve_region(&vec![true, false, true, true, true]), Ok((2, 4)));
    assert_eq!(resolve_region(&vec![false, false]), Err(RegionError::NoContiguousRegion));
    assert_eq!(resolve_region(&vec![false, true, false]), Err(RegionError::DegenerateThreshold));
}

#[test]
fn empty_source_is_rejected() {
    assert!(matches!(position_counts(&vec![], 5), Err(RegionError::EmptySource)));
}

#[test]
fn ambiguous_base_counts_in_every_channel() {
    let records = fasta(&[("r0", "AAA"), ("r1", "ANA"), ("r2", "AC")]);
    let m = position_counts(&records, 10).unwrap();
    assert_eq!(m.len(), 3);
    assert_eq!(m.num_sampled(), 3);
    assert_eq!(row(&m, 0), [3, 0, 0, 0]);
    assert_eq!(row(&m, 1), [2, 2, 1, 1]);
    // the shorter record adds nothing at the last position
    assert_eq!(row(&m, 2), [2, 0, 0, 0]);
}

#[test]
fn sample_size_limits_the_records_tallied() {
    let records = fasta(&[("r0", "A"), ("r1", "C"), ("r2", "G"), ("r3", "T")]);
    let m = position_counts(&records, 2).unwrap();
    assert_eq!(m.num_sampled(), 2);
    assert_eq!(row(&m, 0), [1, 1, 0, 0]);
}

#[test]
fn longer_records_are_cut_to_the_first_length() {
    let records = fasta(&[("r0", "AC"), ("r1", "ACGT")]);
    let m = position_counts(&records, 5).unwrap();
    assert_eq!(m.len(), 2);
    assert_eq!(row(&m, 1), [0, 2, 0, 0]);
}

#[test]
fn rows_without_counts_have_no_distribution() {
    let records = fasta(&[("r0", "ACGT")]);
    let m = position_counts(&records, 0).unwrap();
    assert_eq!(m.len(), 4);
    assert_eq!(m.num_sampled(), 0);
    assert!(normalize_counts(m).is_none());
}

#[test]
fn single_record_is_its_own_sample() {
    let records = fasta(&[("r0", "ACGT")]);
    let m = position_counts(&records, 1).unwrap();
    assert_eq!(row(&m, 0), [1, 0, 0, 0]);
    let p = normalize_counts(m).unwrap();
    assert_eq!(p.fraction(3, 3), (1, 1));
}

#[test]
fn row_sums_equal_the_sample_size() {
    let records = fasta(&[("r0", "ACGT"), ("r1", "ACGT"), ("r2", "TTTT")]);
    let m = position_counts(&records, 2).unwrap();
    for pos in 0..4 {
        assert_eq!(row(&m, pos).iter().sum::<usize>(), 2);
    }
    assert_eq!(row(&m, 0), [2, 0, 0, 0]);
}

#[test]
fn distribution_rows_sum_to_one() {
    let records = fasta(&[("r0", "ACGT"), ("r1", "ACNT"), ("r2", "GCTA"), ("r3", "TTTT")]);
    let p = normalize_counts(position_counts(&records, 3).unwrap()).unwrap();
    for pos in 0..p.len() {
        let sum: f64 = (0..4).map(|ch| ratio(&p, pos, ch)).sum();
        assert!((sum - 1.0).abs() < 1e-12);
    }
    assert_eq!(p.fraction(2, 0), (1, 6));
    assert_eq!(p.fraction(2, 3), (2, 6));
}

#[test]
fn identical_samples_have_zero_entropy() {
    let records = read_fasta(b">seq.0\nACGT\n>seq.1\nACGT\n>seq.2\nACGT\n");
    let p = normalize_counts(position_counts(&records, 3).unwrap()).unwrap();
    assert!(entropies(&p).iter().all(|x| *x == 0.));
}

#[test]
fn complementary_samples_have_two_outcome_entropy() {
    let records = read_fasta(b">seq.0\nTCGA\n>seq.1\nGATC\n");
    let m = position_counts(&records, 2).unwrap();
    for pos in 0..4 {
        let mut counts = row(&m, pos).to_vec();
        counts.sort();
        assert_eq!(counts, vec![0, 0, 1, 1]);
    }
    let p = normalize_counts(m).unwrap();
    let two_outcome = -(0.5f64 * 0.5f64.log2() + 0.5f64 * 0.5f64.log2());
    assert!(entropies(&p).iter().all(|x| *x == two_outcome));
}

#[test]
fn identical_prefix_of_sample_has_zero_entropy() {
    let records = fasta(&[("r0", "ACGT"), ("r1", "ACGT"), ("r2", "TTTT")]);
    let p = normalize_counts(position_counts(&records, 2).unwrap()).unwrap();
    assert!(entropies(&p).iter().all(|x| *x == 0.));
}

#[test]
fn disagreeing_positions_are_extracted() {
    let records = read_fasta(b">seq.0\nACGT\n>seq.1\nACGT\n>seq.2\nAGCT\n");
    let p = normalize_counts(position_counts(&records, 3).unwrap()).unwrap();
    let mask = mask_above(&entropies(&p), 0.5);
    assert_eq!(selected_positions(&mask), vec![1, 2]);
    assert!(is_contiguous(&selected_positions(&mask)));
    let (lo, hi) = resolve_region(&mask).unwrap();
    assert_eq!((lo, hi), (1, 2));
    let out: Vec<Vec<u8>> = records.iter().map(|r| format_print(r, lo, hi).unwrap()).collect();
    assert_eq!(out[0], b">seq.0\nCG\n".to_vec());
    assert_eq!(out[1], b">seq.1\nCG\n".to_vec());
    assert_eq!(out[2], b">seq.2\nGC\n".to_vec());
}

#[test]
fn quality_is_cut_with_the_bases() {
    let r = Record::fastq(b"q1".to_vec(), b"ACGTA".to_vec(), b"+".to_vec(), b"ABCDE".to_vec())
        .unwrap();
    assert_eq!(format_print(&r, 1, 3).unwrap(), b"@q1\nCGT\n+\nBCD\n".to_vec());
}

#[test]
fn short_record_fails_emission() {
    let records = fasta(&[("a", "ACGT"), ("b", "AC")]);
    assert_eq!(format_print(&records[1], 1, 2), Err(RegionError::RecordTooShort));
    assert_eq!(write_to_output(&records, 1, 2), Err(RegionError::RecordTooShort));
    assert_eq!(write_to_output(&records, 0, 1).unwrap(), b">a\nAC\n>b\nAC\n".to_vec());
}

#[test]
fn mismatched_quality_is_refused() {
    assert!(Record::fastq(b"q".to_vec(), b"ACG".to_vec(), b"+".to_vec(), b"AB".to_vec()).is_none());
}

#[test]
fn full_interval_reproduces_records() {
    let records = fasta(&[("seq.0", "ACGT"), ("seq.1", "TTGA")]);
    assert_eq!(
        write_to_output(&records, 0, 3).unwrap(),
        b">seq.0\nACGT\n>seq.1\nTTGA\n".to_vec()
    );
    let fastq = vec![
        Record::fastq(b"r1".to_vec(), b"ACGT".to_vec(), b"+".to_vec(), b"IIII".to_vec()).unwrap(),
        Record::fastq(b"r2".to_vec(), b"TGCA".to_vec(), b"+r2".to_vec(), b"!!II".to_vec()).unwrap(),
    ];
    assert_eq!(
        write_to_output(&fastq, 0, 3).unwrap(),
        b"@r1\nACGT\n+\nIIII\n@r2\nTGCA\n+r2\n!!II\n".to_vec()
    );
}
