//! Re-evaluates the discovered threshold on held-out data.
//!
//! Every testing block is encoded to its key; the observed count is the
//! number of testing blocks whose key lies in the flagged set (a membership
//! test, not frequency-weighted).  The held-out statistic uses the selected
//! rank `t_max` as its expected cumulative slot count.

use vstd::prelude::*;
use vstd::arithmetic::power2::pow2;
use num_bigint::BigUint;
use crate::bignum::{big_value, big_eq, key_values};
use crate::codec::{encode, keys_of};
use crate::errors::AnalysisError;
use crate::stat::{ZScoreSq, zsq_model, z_num_spec, z_den_spec, degenerate, z_squared};

verus! {

/// How many keys of `keys` lie in the flagged set `fl`.
pub open spec fn hits_count(keys: Seq<nat>, fl: Seq<nat>) -> nat
    decreases keys.len(),
{
    if keys.len() == 0 {
        0
    } else {
        hits_count(keys.drop_last(), fl) + if fl.contains(keys.last()) {
            1nat
        } else {
            0nat
        }
    }
}

/// If no key of the sequence lies in the flagged set, the count is zero.
pub proof fn lemma_no_flagged_no_hits(keys: Seq<nat>, fl: Seq<nat>)
    requires
        forall|i: int| 0 <= i < keys.len() ==> !fl.contains(#[trigger] keys[i]),
    ensures
        hits_count(keys, fl) == 0,
    decreases keys.len(),
{
    if keys.len() > 0 {
        lemma_no_flagged_no_hits(keys.drop_last(), fl);
        assert(keys.last() == keys[keys.len() - 1]);
    }
}

/// The held-out result: the testing statistic and the membership count.
#[derive(Debug)]
pub struct HoldoutReport {
    pub zsq: ZScoreSq,
    pub observed: usize,
}

/// Whether the flagged set holds the given key value.
fn contains_key(fl: &Vec<BigUint>, key: &BigUint) -> (r: bool)
    ensures
        r == key_values(fl@).contains(big_value(*key)),
{
    let mut i: usize = 0;
    while i < fl.len()
        invariant
            0 <= i <= fl@.len(),
            forall|j: int| 0 <= j < i ==> key_values(fl@)[j] != big_value(*key),
        decreases fl@.len() - i,
    {
        if big_eq(&fl[i], key) {
            proof {
                assert(key_values(fl@)[i as int] == big_value(*key));
            }
            return true;
        }
        i = i + 1;
    }
    false
}

/// Validates a flagged set against a held-out block collection: counts the
/// testing blocks whose key is flagged and computes the exact squared
/// statistic for that count at rank `t_max`.  Fails on an empty collection,
/// or when the statistic at `t_max` is degenerate.
pub fn validate(testing: &Vec<Vec<u8>>, flagged: &Vec<BigUint>, t_max: usize, block_bits: u32) -> (r:
    Result<HoldoutReport, AnalysisError>)
    requires
        t_max == flagged@.len(),
    ensures
        testing@.len() == 0 <==> r == Err::<HoldoutReport, AnalysisError>(
            AnalysisError::EmptyInput,
        ),
        testing@.len() > 0 ==> {
            &&& (r is Err <==> degenerate(t_max as nat, testing@.len(), pow2(block_bits as nat)))
            &&& (r is Err ==> r == Err::<HoldoutReport, AnalysisError>(
                AnalysisError::DegenerateStatistic,
            ))
        },
        r is Ok ==> {
            let rep = r->Ok_0;
            let space = pow2(block_bits as nat);
            let observed = hits_count(keys_of(testing@), key_values(flagged@));
            &&& rep.observed == observed
            &&& zsq_model(rep.zsq) == (
                z_num_spec(observed, t_max as nat, testing@.len(), space),
                z_den_spec(t_max as nat, testing@.len(), space) as nat,
            )
            &&& big_value(rep.zsq.den) > 0
        },
{
    if testing.len() == 0 {
        return Err(AnalysisError::EmptyInput);
    }
    let ghost tkeys = keys_of(testing@);
    let ghost fl = key_values(flagged@);
    let mut observed: usize = 0;
    let mut i: usize = 0;
    while i < testing.len()
        invariant
            0 <= i <= testing@.len(),
            tkeys == keys_of(testing@),
            fl == key_values(flagged@),
            observed <= i,
            observed == hits_count(tkeys.take(i as int), fl),
        decreases testing@.len() - i,
    {
        let key = encode(&testing[i]);
        let hit = contains_key(flagged, &key);
        proof {
            assert(tkeys[i as int] == crate::codec::le_value(testing@[i as int]@));
            assert(tkeys.take(i as int + 1).drop_last() =~= tkeys.take(i as int));
            assert(tkeys.take(i as int + 1).last() == tkeys[i as int]);
            assert(big_value(key) == tkeys[i as int]);
        }
        if hit {
            observed = observed + 1;
        }
        i = i + 1;
    }
    proof {
        assert(tkeys.take(tkeys.len() as int) =~= tkeys);
    }
    let outcome = z_squared(observed as u128, t_max as u64, testing.len() as u64, block_bits);
    match outcome {
        Ok(zsq) => Ok(HoldoutReport { zsq, observed }),
        Err(e) => Err(e),
    }
}

} // verus!
