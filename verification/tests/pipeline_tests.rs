use num_bigint::BigUint;
use uniformity_scan::errors::AnalysisError;
use uniformity_scan::freq::build;
use uniformity_scan::pipeline::{run, segment, split};
use uniformity_scan::ranker::rank;
use uniformity_scan::stat::{z_squared, zsq_greater};
use uniformity_scan::validator::validate;

fn blocks(vals: &[&[u8]]) -> Vec<Vec<u8>> {
    vals.iter().map(|v| v.to_vec()).collect()
}

#[test]
fn segment_slices_and_drops_short_tail() {
    let data = vec![1u8, 2, 3, 4, 5];
    let (bs, dropped) = segment(&data, 16).unwrap();
    assert_eq!(bs, vec![vec![1u8, 2], vec![3u8, 4]]);
    assert!(dropped);

    let data = vec![9u8, 8, 7, 6];
    let (bs, dropped) = segment(&data, 16).unwrap();
    assert_eq!(bs, vec![vec![9u8, 8], vec![7u8, 6]]);
    assert!(!dropped);
}

#[test]
fn segment_rejects_bad_block_sizes() {
    let data = vec![1u8, 2, 3];
    assert_eq!(segment(&data, 0).unwrap_err(), AnalysisError::InvalidConfiguration);
    assert_eq!(segment(&data, 12).unwrap_err(), AnalysisError::InvalidConfiguration);
    assert_eq!(segment(&data, 1).unwrap_err(), AnalysisError::InvalidConfiguration);
}

#[test]
fn split_gives_extra_block_to_training() {
    let bs = blocks(&[&[1], &[2], &[3], &[4], &[5]]);
    let (tr, te) = split(bs);
    assert_eq!(tr, blocks(&[&[1], &[2], &[3]]));
    assert_eq!(te, blocks(&[&[4], &[5]]));
}

#[test]
fn frequency_counts_sum_to_collection_size() {
    // Keys 1 (twice), 2 and 3: three distinct keys, counts summing to four.
    let tr = blocks(&[&[1], &[2], &[1], &[3]]);
    let table = build(&tr).unwrap();
    assert_eq!(table.distinct_count(), 3);
    let total: usize = table.entries.iter().map(|e| e.count).sum();
    assert_eq!(total, tr.len());
    // Keys come out strictly ascending with their multiplicities.
    let got: Vec<(BigUint, usize)> =
        table.entries.iter().map(|e| (e.key.clone(), e.count)).collect();
    assert_eq!(
        got,
        vec![
            (BigUint::from(1u8), 2usize),
            (BigUint::from(2u8), 1usize),
            (BigUint::from(3u8), 1usize),
        ]
    );
}

#[test]
fn empty_collection_is_rejected() {
    let none: Vec<Vec<u8>> = Vec::new();
    assert_eq!(build(&none).unwrap_err(), AnalysisError::EmptyInput);
}

#[test]
fn distinct_training_gives_unit_counts() {
    // Every block distinct: every count is 1, so the cumulative count at
    // rank i is i itself.
    let tr = blocks(&[&[4], &[1], &[9], &[6]]);
    let table = build(&tr).unwrap();
    assert_eq!(table.distinct_count(), 4);
    for e in table.entries.iter() {
        assert_eq!(e.count, 1);
    }
}

#[test]
fn rank_bounds_and_flagged_size() {
    let tr = blocks(&[&[5], &[5], &[5], &[2], &[9]]);
    let table = build(&tr).unwrap();
    let d = table.distinct_count();
    let out = rank(&table, tr.len() as u64, 8).unwrap();
    assert!(1 <= out.t_max && out.t_max <= d);
    assert_eq!(out.flagged.len(), out.t_max);
    // The most frequent key ranks first.
    assert_eq!(out.ranked[0].key, BigUint::from(5u8));
    assert_eq!(out.ranked[0].count, 3);
}

#[test]
fn equal_counts_break_ties_by_ascending_key() {
    let tr = blocks(&[&[7], &[3], &[11]]);
    let table = build(&tr).unwrap();
    let out = rank(&table, 3, 8).unwrap();
    let keys: Vec<BigUint> = out.ranked.iter().map(|e| e.key.clone()).collect();
    assert_eq!(
        keys,
        vec![BigUint::from(3u8), BigUint::from(7u8), BigUint::from(11u8)]
    );
}

#[test]
fn one_bit_statistic_rank_one_computes() {
    // Four of eight blocks in the top slot of a 2-value space: q = 1/2.
    // z^2 = (4*2 - 8*1)^2 / (8*1*(2-1)) = 0/8.
    let z = z_squared(4, 1, 8, 1).unwrap();
    assert_eq!(z.num, BigUint::from(0u8));
    assert_eq!(z.den, BigUint::from(8u8));
}

#[test]
fn one_bit_statistic_rank_two_is_degenerate() {
    // Rank 2 of a 2-value space has q = 1, so the statistic is undefined.
    assert_eq!(z_squared(8, 2, 8, 1).unwrap_err(), AnalysisError::DegenerateStatistic);
}

#[test]
fn rank_zero_and_empty_sample_are_degenerate() {
    assert_eq!(z_squared(0, 0, 8, 8).unwrap_err(), AnalysisError::DegenerateStatistic);
    assert_eq!(z_squared(0, 1, 0, 8).unwrap_err(), AnalysisError::DegenerateStatistic);
}

#[test]
fn all_identical_training_closed_form() {
    // Ten identical blocks over the 256-value space: one entry of count 10,
    // t_max = 1, and z^2 = (10*256 - 10)^2 / (10*1*255) = 6502500 / 2550.
    let tr = vec![vec![7u8]; 10];
    let table = build(&tr).unwrap();
    assert_eq!(table.distinct_count(), 1);
    assert_eq!(table.entries[0].count, 10);
    let out = rank(&table, 10, 8).unwrap();
    assert_eq!(out.t_max, 1);
    assert_eq!(out.training_zsq.num, BigUint::from(6502500u32));
    assert_eq!(out.training_zsq.den, BigUint::from(2550u32));
}

#[test]
fn holdout_without_flagged_keys_observes_zero() {
    // No testing key is flagged: observed = 0 and
    // z^2 = (0*256 - 4*1)^2 / (4*1*255) = 16 / 1020.
    let te = blocks(&[&[1], &[2], &[3], &[4]]);
    let flagged = vec![BigUint::from(7u8)];
    let rep = validate(&te, &flagged, 1, 8).unwrap();
    assert_eq!(rep.observed, 0);
    assert_eq!(rep.zsq.num, BigUint::from(16u8));
    assert_eq!(rep.zsq.den, BigUint::from(1020u16));
}

#[test]
fn holdout_counts_memberships_not_frequencies() {
    let te = blocks(&[&[7], &[7], &[2], &[7]]);
    let flagged = vec![BigUint::from(7u8)];
    let rep = validate(&te, &flagged, 1, 8).unwrap();
    assert_eq!(rep.observed, 3);
}

#[test]
fn holdout_rejects_empty_collection() {
    let te: Vec<Vec<u8>> = Vec::new();
    let flagged = vec![BigUint::from(7u8)];
    assert_eq!(validate(&te, &flagged, 1, 8).unwrap_err(), AnalysisError::EmptyInput);
}

#[test]
fn exact_comparison_of_squared_statistics() {
    // 25/8 > 9/8 and not conversely.
    let tr = vec![vec![1u8]; 8];
    let table = build(&tr).unwrap();
    let big = rank(&table, 8, 8).unwrap().training_zsq;
    let small = z_squared(1, 1, 8, 1).unwrap();
    assert!(zsq_greater(&big, &small));
    assert!(!zsq_greater(&small, &big));
    assert!(!zsq_greater(&small, &small));
}

#[test]
fn pipeline_is_deterministic_on_identical_input() {
    let data: Vec<u8> = (0u8..200).map(|x| x.wrapping_mul(37) % 11).collect();
    let (bs1, _) = segment(&data, 8).unwrap();
    let (tr1, te1) = split(bs1);
    let a1 = run(&tr1, &te1, 8).unwrap();
    let (bs2, _) = segment(&data, 8).unwrap();
    let (tr2, te2) = split(bs2);
    let a2 = run(&tr2, &te2, 8).unwrap();
    assert_eq!(a1.outcome.t_max, a2.outcome.t_max);
    assert_eq!(a1.outcome.training_zsq.num, a2.outcome.training_zsq.num);
    assert_eq!(a1.outcome.training_zsq.den, a2.outcome.training_zsq.den);
    assert_eq!(a1.holdout.zsq.num, a2.holdout.zsq.num);
    assert_eq!(a1.holdout.zsq.den, a2.holdout.zsq.den);
    assert_eq!(a1.holdout.observed, a2.holdout.observed);
    assert_eq!(a1.trials, a2.trials);
}

#[test]
fn full_pipeline_end_to_end_closed_form() {
    // Stream 7 7 7 2 at 8-bit blocks: training = [7, 7], testing = [7, 2].
    // Training: one distinct key (7) with count 2; t_max = 1;
    //   z^2 = (2*256 - 2*1)^2 / (2*1*255) = 260100 / 510.
    // Testing: key 7 flagged, observed = 1 of 2;
    //   z^2 = (1*256 - 2*1)^2 / (2*1*255) = 64516 / 510.
    let data = vec![7u8, 7, 7, 2];
    let (blocks, dropped) = segment(&data, 8).unwrap();
    assert!(!dropped);
    let (tr, te) = split(blocks);
    assert_eq!(tr, vec![vec![7u8], vec![7u8]]);
    assert_eq!(te, vec![vec![7u8], vec![2u8]]);
    let a = run(&tr, &te, 8).unwrap();
    assert_eq!(a.outcome.t_max, 1);
    assert_eq!(a.outcome.flagged, vec![BigUint::from(7u8)]);
    assert_eq!(a.outcome.training_zsq.num, BigUint::from(260100u32));
    assert_eq!(a.outcome.training_zsq.den, BigUint::from(510u16));
    assert_eq!(a.holdout.observed, 1);
    assert_eq!(a.holdout.zsq.num, BigUint::from(64516u32));
    assert_eq!(a.holdout.zsq.den, BigUint::from(510u16));
    assert_eq!(a.trials, 2);
}

#[test]
fn run_rejects_misshaped_input() {
    let tr = blocks(&[&[1, 2], &[3]]);
    let te = blocks(&[&[4, 5]]);
    assert_eq!(run(&tr, &te, 16).unwrap_err(), AnalysisError::InvalidConfiguration);
}

#[test]
fn run_rejects_empty_halves() {
    let tr = blocks(&[&[1]]);
    let te: Vec<Vec<u8>> = Vec::new();
    assert_eq!(run(&tr, &te, 8).unwrap_err(), AnalysisError::EmptyInput);
}

#[test]
fn run_reports_degeneracy_when_keys_fill_the_space() {
    // Training holds all 256 byte values, so the scan reaches rank 256 of a
    // 256-value space, where the statistic is degenerate.
    let tr: Vec<Vec<u8>> = (0u16..256).map(|v| vec![v as u8]).collect();
    let te = blocks(&[&[1], &[2]]);
    assert_eq!(run(&tr, &te, 8).unwrap_err(), AnalysisError::DegenerateStatistic);
}

#[test]
fn error_descriptions_name_each_failure() {
    assert_eq!(
        AnalysisError::InvalidConfiguration.describe(),
        "invalid block-size configuration"
    );
    assert_eq!(AnalysisError::EmptyInput.describe(), "empty block collection");
    assert_eq!(
        AnalysisError::DegenerateStatistic.describe(),
        "degenerate deviation statistic"
    );
    assert_eq!(AnalysisError::OracleFailure.describe(), "significance oracle failure");
}
