//! The full analysis pipeline, from raw bytes to the held-out statistic.
//!
//! `segment` slices a byte stream into fixed-size blocks (dropping a short
//! trailing block), `split` hands the first half to training and the rest to
//! testing, and `run` builds the frequency table, ranks it, selects the
//! anomaly threshold and validates it on the held-out half.  The outcome
//! carries everything the significance computation needs: the observed
//! held-out count, the number of trials, and the selected rank.

use vstd::prelude::*;
use vstd::arithmetic::power2::pow2;
use vstd::arithmetic::div_mod::lemma_fundamental_div_mod_converse;
use vstd::arithmetic::mul::lemma_mul_is_distributive_add_other_way;
use crate::bignum::key_values;
use crate::codec::{keys_of, blocks_sized, lemma_keys_bounded};
use crate::errors::AnalysisError;
use crate::freq::{
    FrequencyTable, entries_model, is_table_for, build, lemma_table_unique,
    lemma_table_len_is_distinct_count,
};
use crate::ranker::{
    RankOutcome, ranked_order, model_keys, is_first_argmax, zsq_at, rank, lemma_ranked_unique,
    lemma_first_argmax_unique,
};
use crate::stat::{zsq_model, z_num_spec, z_den_spec, degenerate};
use crate::validator::{HoldoutReport, hits_count, validate};

verus! {

/// A block size is usable when it is positive, byte-aligned, and small
/// enough that `2^block_size` can be formed.
pub open spec fn cfg_ok(block_size: nat) -> bool {
    &&& 1 <= block_size
    &&& block_size % 8 == 0
    &&& block_size <= 0xffff_ffff
}

/// The completed analysis of one training/testing pair.
#[derive(Debug)]
pub struct Analysis {
    pub table: FrequencyTable,
    pub outcome: RankOutcome,
    pub holdout: HoldoutReport,
    pub trials: usize,
}

/// Everything `run` establishes about a completed analysis: the table is the
/// frequency table of the training keys, the ranked list is its ordering
/// under the ranking order, `t_max` is the first rank maximizing the scanned
/// statistic, the flagged set is the top `t_max` keys, and the held-out
/// report counts flagged testing keys and scores them at rank `t_max`.
pub open spec fn analysis_spec(
    training: Seq<Vec<u8>>,
    testing: Seq<Vec<u8>>,
    block_size: nat,
    a: Analysis,
) -> bool {
    let space = pow2(block_size);
    let tm = a.table.model();
    let m = entries_model(a.outcome.ranked@);
    let t = a.outcome.t_max as int;
    let observed = hits_count(keys_of(testing), key_values(a.outcome.flagged@));
    &&& is_table_for(tm, keys_of(training))
    &&& forall|j: int| 0 <= j < tm.len() ==> (#[trigger] tm[j]).0 < space
    &&& m.to_multiset() == tm.to_multiset()
    &&& m.len() == tm.len()
    &&& m.len() == keys_of(training).to_set().len()
    &&& ranked_order(m)
    &&& is_first_argmax(m, t, training.len(), space)
    &&& zsq_model(a.outcome.training_zsq) == zsq_at(m, t, training.len(), space)
    &&& a.outcome.flagged@.len() == a.outcome.t_max
    &&& key_values(a.outcome.flagged@) == model_keys(m.take(t))
    &&& a.holdout.observed == observed
    &&& zsq_model(a.holdout.zsq) == (
        z_num_spec(observed, a.outcome.t_max as nat, testing.len(), space),
        z_den_spec(a.outcome.t_max as nat, testing.len(), space) as nat,
    )
    &&& a.trials == testing.len()
}

/// The analysis of a given input is unique: two results that both satisfy
/// the pipeline's contract on the same training data, testing data and block
/// size agree on every reported value.  Re-running the pipeline therefore
/// reproduces the same threshold, statistics and held-out count.
pub proof fn lemma_analysis_deterministic(
    training: Seq<Vec<u8>>,
    testing: Seq<Vec<u8>>,
    block_size: nat,
    a1: Analysis,
    a2: Analysis,
)
    requires
        analysis_spec(training, testing, block_size, a1),
        analysis_spec(training, testing, block_size, a2),
    ensures
        a1.table.model() == a2.table.model(),
        entries_model(a1.outcome.ranked@) == entries_model(a2.outcome.ranked@),
        a1.outcome.t_max == a2.outcome.t_max,
        zsq_model(a1.outcome.training_zsq) == zsq_model(a2.outcome.training_zsq),
        key_values(a1.outcome.flagged@) == key_values(a2.outcome.flagged@),
        a1.holdout.observed == a2.holdout.observed,
        zsq_model(a1.holdout.zsq) == zsq_model(a2.holdout.zsq),
        a1.trials == a2.trials,
{
    let m1 = entries_model(a1.outcome.ranked@);
    let m2 = entries_model(a2.outcome.ranked@);
    lemma_table_unique(a1.table.model(), a2.table.model(), keys_of(training));
    lemma_ranked_unique(m1, m2);
    lemma_first_argmax_unique(
        m1,
        a1.outcome.t_max as int,
        a2.outcome.t_max as int,
        training.len(),
        pow2(block_size),
    );
}

/// Slices a byte stream into consecutive blocks of `block_size / 8` bytes,
/// dropping any shorter trailing remainder; the flag reports whether a
/// remainder was dropped.  Fails exactly on an unusable block size.
pub fn segment(data: &Vec<u8>, block_size: usize) -> (r: Result<
    (Vec<Vec<u8>>, bool),
    AnalysisError,
>)
    ensures
        r is Err <==> !cfg_ok(block_size as nat),
        r is Err ==> r == Err::<(Vec<Vec<u8>>, bool), AnalysisError>(
            AnalysisError::InvalidConfiguration,
        ),
        r is Ok ==> ({
            let blocks = r->Ok_0.0;
            let dropped = r->Ok_0.1;
            let width = (block_size / 8) as int;
            &&& blocks@.len() == data@.len() as int / width
            &&& blocks_sized(blocks@, (block_size / 8) as nat)
            &&& forall|j: int, k: int|
                0 <= j < blocks@.len() && 0 <= k < width ==> (#[trigger] blocks@[j]@[k]) == data@[j
                    * width + k]
            &&& (dropped <==> data@.len() as int % width != 0)
        }),
{
    if block_size == 0 || block_size % 8 != 0 || block_size as u64 > 0xffff_ffffu64 {
        return Err(AnalysisError::InvalidConfiguration);
    }
    let width = block_size / 8;
    let mut blocks: Vec<Vec<u8>> = Vec::new();
    let mut pos: usize = 0;
    proof {
        assert(blocks@.len() == 0);
        assert(blocks@.len() * width == 0);
    }
    while data.len() - pos >= width
        invariant
            1 <= width,
            width == block_size as int / 8,
            pos <= data@.len(),
            pos == blocks@.len() * width,
            blocks_sized(blocks@, width as nat),
            forall|j: int, k: int|
                0 <= j < blocks@.len() && 0 <= k < width ==> (#[trigger] blocks@[j]@[k]) == data@[j
                    * (width as int) + k],
        decreases data@.len() - pos,
    {
        let mut block: Vec<u8> = Vec::new();
        let mut k: usize = 0;
        while k < width
            invariant
                0 <= k <= width,
                pos + width <= data@.len(),
                pos + width <= usize::MAX,
                block@.len() == k,
                forall|t: int| 0 <= t < k ==> block@[t] == data@[pos + t],
            decreases width - k,
        {
            block.push(data[pos + k]);
            k = k + 1;
        }
        let ghost old_blocks = blocks@;
        blocks.push(block);
        proof {
            lemma_mul_is_distributive_add_other_way(
                width as int,
                old_blocks.len() as int,
                1,
            );
            assert(blocks@.len() * width == pos + width);
            assert forall|j: int, k: int|
                0 <= j < blocks@.len() && 0 <= k < width implies (#[trigger] blocks@[j]@[k])
                == data@[j * (width as int) + k] by {
                if j < old_blocks.len() {
                    assert(blocks@[j] == old_blocks[j]);
                } else {
                    assert(j == old_blocks.len());
                    assert(j * (width as int) == pos);
                }
            }
        }
        pos = pos + width;
    }
    let dropped = pos != data.len();
    proof {
        lemma_fundamental_div_mod_converse(
            data@.len() as int,
            width as int,
            blocks@.len() as int,
            data@.len() - pos,
        );
    }
    Ok((blocks, dropped))
}

/// Splits a block collection into its training and testing halves: the
/// training half comes first and receives the extra block of an odd count.
pub fn split(blocks: Vec<Vec<u8>>) -> (r: (Vec<Vec<u8>>, Vec<Vec<u8>>))
    ensures
        ({
            let half = blocks@.len() - blocks@.len() / 2;
            &&& r.0@ == blocks@.subrange(0, half as int)
            &&& r.1@ == blocks@.subrange(half as int, blocks@.len() as int)
            &&& r.0@.len() >= r.1@.len()
        }),
{
    let mut training = blocks;
    let half = training.len() - training.len() / 2;
    let testing = training.split_off(half);
    (training, testing)
}

/// Whether every block of the collection has exactly `width` bytes.
fn check_sized(blocks: &Vec<Vec<u8>>, width: usize) -> (r: bool)
    ensures
        r == blocks_sized(blocks@, width as nat),
{
    let mut i: usize = 0;
    while i < blocks.len()
        invariant
            0 <= i <= blocks@.len(),
            forall|j: int| 0 <= j < i ==> (#[trigger] blocks@[j])@.len() == width,
        decreases blocks@.len() - i,
    {
        if blocks[i].len() != width {
            return false;
        }
        i = i + 1;
    }
    true
}

/// Runs the whole pipeline on a training/testing pair: builds the frequency
/// table over the training keys, ranks it, selects the threshold maximizing
/// the deviation statistic, and validates the flagged set on the testing
/// half.  Fails on an unusable block size or misshaped blocks, on an empty
/// half, or when a scanned rank is degenerate (the distinct-key count
/// reaches the whole value space).
pub fn run(training: &Vec<Vec<u8>>, testing: &Vec<Vec<u8>>, block_size: usize) -> (r: Result<
    Analysis,
    AnalysisError,
>)
    ensures
        ({
            let width = (block_size / 8) as nat;
            let good_shape = cfg_ok(block_size as nat) && blocks_sized(training@, width)
                && blocks_sized(testing@, width);
            let nonempty = training@.len() > 0 && testing@.len() > 0;
            let space = pow2(block_size as nat);
            let distinct = keys_of(training@).to_set().len();
            &&& (r == Err::<Analysis, AnalysisError>(AnalysisError::InvalidConfiguration)
                <==> !good_shape)
            &&& (r == Err::<Analysis, AnalysisError>(AnalysisError::EmptyInput) <==> good_shape
                && !nonempty)
            &&& (r == Err::<Analysis, AnalysisError>(AnalysisError::DegenerateStatistic)
                <==> good_shape && nonempty && space <= distinct)
            &&& (r is Ok <==> good_shape && nonempty && distinct < space)
            &&& (r is Ok ==> analysis_spec(training@, testing@, block_size as nat, r->Ok_0))
        }),
{
    let ghost space = pow2(block_size as nat);
    if block_size == 0 || block_size % 8 != 0 || block_size as u64 > 0xffff_ffffu64 {
        return Err(AnalysisError::InvalidConfiguration);
    }
    let width = block_size / 8;
    if !check_sized(training, width) || !check_sized(testing, width) {
        return Err(AnalysisError::InvalidConfiguration);
    }
    if training.len() == 0 || testing.len() == 0 {
        return Err(AnalysisError::EmptyInput);
    }
    let table = match build(training) {
        Ok(t) => t,
        Err(e) => {
            return Err(e);
        },
    };
    proof {
        lemma_table_len_is_distinct_count(table.model(), keys_of(training@));
    }
    let outcome = match rank(&table, training.len() as u64, block_size as u32) {
        Ok(o) => o,
        Err(e) => {
            return Err(e);
        },
    };
    let rep = match validate(testing, &outcome.flagged, outcome.t_max, block_size as u32) {
        Ok(h) => h,
        Err(e) => {
            proof {
                assert(outcome.t_max >= 1);
                assert(outcome.t_max as nat <= table.model().len());
                assert((table.model().len() as nat) < space);
                assert(!degenerate(outcome.t_max as nat, testing@.len(), space));
            }
            return Err(e);
        },
    };
    let trials = testing.len();
    proof {
        broadcast use vstd::seq_lib::group_to_multiset_ensures;

        let tm = table.model();
        let keys = keys_of(training@);
        vstd::arithmetic::div_mod::lemma_fundamental_div_mod(block_size as int, 8);
        assert(8 * (width as nat) == block_size as nat);
        lemma_keys_bounded(training@, width as nat);
        assert forall|j: int| 0 <= j < tm.len() implies (#[trigger] tm[j]).0 < space by {
            assert(keys.to_multiset().count(tm[j].0) > 0);
            assert(keys.contains(tm[j].0));
            let idx = choose|idx: int| 0 <= idx < keys.len() && keys[idx] == tm[j].0;
            assert(keys_of(training@)[idx] < pow2(8 * (width as nat)));
        }
    }
    Ok(Analysis { table, outcome, holdout: rep, trials })
}

} // verus!
