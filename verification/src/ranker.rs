//! Ranks distinct keys by frequency and locates the anomaly threshold.
//!
//! The table's entries are ordered by strictly descending count, ties broken
//! by ascending key value, which makes the order deterministic.  A scan over
//! every candidate rank `i` picks `t_max`, the first rank maximizing the
//! squared deviation statistic of the cumulative count of the top `i` keys.
//! The keys occupying the top `t_max` positions form the flagged set.

use vstd::prelude::*;
use vstd::arithmetic::power2::pow2;
use vstd::seq_lib::group_to_multiset_ensures;
use vstd::multiset::Multiset;
use num_bigint::BigUint;
use crate::bignum::{big_value, big_clone, big_lt, key_values};
use crate::errors::AnalysisError;
use crate::freq::{
    Entry, FrequencyTable, entry_model, entries_model, occ, sum_counts,
};
use crate::stat::{ZScoreSq, zsq_model, zsq_gt, z_num_spec, z_den_spec, degenerate, z_squared,
    zsq_greater, lemma_zsq_den_pos, lemma_zsq_gt_supersedes};

verus! {

/// The ranking order: larger counts first, equal counts by ascending key.
/// It is total, and antisymmetric because table keys are distinct.
pub open spec fn rank_le(a: (nat, nat), b: (nat, nat)) -> bool {
    a.1 > b.1 || (a.1 == b.1 && a.0 <= b.0)
}

/// An entry sequence sorted by the ranking order.
pub open spec fn ranked_order(m: Seq<(nat, nat)>) -> bool {
    forall|i: int, j: int| 0 <= i <= j < m.len() ==> rank_le(#[trigger] m[i], #[trigger] m[j])
}

/// The keys of an entry sequence, in order.
pub open spec fn model_keys(m: Seq<(nat, nat)>) -> Seq<nat> {
    m.map_values(|p: (nat, nat)| p.0)
}

/// The squared statistic at 1-based rank `i` of a ranked entry list, as a
/// (numerator, denominator) pair: the hits are the cumulative count of the
/// top `i` entries.
pub open spec fn zsq_at(m: Seq<(nat, nat)>, i: int, total: nat, space: nat) -> (nat, nat) {
    (
        z_num_spec(occ(m, i), i as nat, total, space),
        z_den_spec(i as nat, total, space) as nat,
    )
}

/// `t` is the first rank in `[1, len]` maximizing the squared statistic:
/// strictly above every earlier rank, and no rank strictly above it.
pub open spec fn is_first_argmax(m: Seq<(nat, nat)>, t: int, total: nat, space: nat) -> bool {
    &&& 1 <= t <= m.len()
    &&& forall|j: int|
        1 <= j < t ==> zsq_gt(zsq_at(m, t, total, space), #[trigger] zsq_at(m, j, total, space))
    &&& forall|j: int|
        1 <= j <= m.len() ==> !zsq_gt(#[trigger] zsq_at(m, j, total, space), zsq_at(m, t, total, space))
}

/// Cumulative counts only grow with the rank.
pub proof fn lemma_occ_monotone(m: Seq<(nat, nat)>, i: int, j: int)
    requires
        0 <= i <= j,
    ensures
        occ(m, i) <= occ(m, j),
    decreases j,
{
    if j > i {
        lemma_occ_monotone(m, i, j - 1);
    }
}

/// The ranking order admits one sorted arrangement of a given entry
/// multiset: any two ranked lists with the same entries are equal.
pub proof fn lemma_ranked_unique(m1: Seq<(nat, nat)>, m2: Seq<(nat, nat)>)
    requires
        ranked_order(m1),
        ranked_order(m2),
        m1.to_multiset() == m2.to_multiset(),
    ensures
        m1 == m2,
{
    let leq = |a: (nat, nat), b: (nat, nat)| rank_le(a, b);
    assert(vstd::relations::sorted_by(m1, leq));
    assert(vstd::relations::sorted_by(m2, leq));
    assert(vstd::relations::total_ordering(leq)) by {
        assert(vstd::relations::reflexive(leq));
        assert(vstd::relations::antisymmetric(leq)) by {
            assert forall|a: (nat, nat), b: (nat, nat)| #[trigger] leq(a, b) && #[trigger] leq(
                b, a,
            ) implies a == b by {
                assert(a.1 == b.1 && a.0 == b.0);
            }
        }
        assert(vstd::relations::transitive(leq));
        assert(vstd::relations::strongly_connected(leq));
    }
    vstd::seq_lib::lemma_sorted_unique(m1, m2, leq);
}

/// The first maximizing rank of the scanned statistic is unique.
pub proof fn lemma_first_argmax_unique(m: Seq<(nat, nat)>, t1: int, t2: int, total: nat, space: nat)
    requires
        is_first_argmax(m, t1, total, space),
        is_first_argmax(m, t2, total, space),
    ensures
        t1 == t2,
{
    if t1 < t2 {
        assert(zsq_gt(zsq_at(m, t2, total, space), zsq_at(m, t1, total, space)));
        assert(!zsq_gt(zsq_at(m, t2, total, space), zsq_at(m, t1, total, space)));
    }
    if t2 < t1 {
        assert(zsq_gt(zsq_at(m, t1, total, space), zsq_at(m, t2, total, space)));
        assert(!zsq_gt(zsq_at(m, t1, total, space), zsq_at(m, t2, total, space)));
    }
}

/// Whether `a` comes no later than `b` in the ranking order.
fn entry_le(a: &Entry, b: &Entry) -> (r: bool)
    ensures
        r == rank_le(entry_model(*a), entry_model(*b)),
{
    if a.count > b.count {
        true
    } else if a.count < b.count {
        false
    } else {
        !big_lt(&b.key, &a.key)
    }
}

/// Sorts entries into the ranking order, keeping the multiset of
/// (key, count) pairs, by repeatedly extracting a minimal remaining entry.
fn sort_entries(v: Vec<Entry>) -> (r: Vec<Entry>)
    ensures
        entries_model(r@).to_multiset() == entries_model(v@).to_multiset(),
        ranked_order(entries_model(r@)),
{
    let mut rest = v;
    let mut out: Vec<Entry> = Vec::new();
    proof {
        broadcast use vstd::multiset::group_multiset_axioms;
        broadcast use group_to_multiset_ensures;
        broadcast use vstd::multiset::lemma_multiset_empty_len;

        assert(entries_model(out@) =~= Seq::<(nat, nat)>::empty());
        assert(entries_model(out@).to_multiset().len() == 0);
        assert(entries_model(out@).to_multiset() =~= Multiset::<(nat, nat)>::empty());
        assert(entries_model(out@).to_multiset().add(entries_model(rest@).to_multiset())
            =~= entries_model(rest@).to_multiset());
    }
    let ghost whole = entries_model(rest@).to_multiset();
    while rest.len() > 0
        invariant
            entries_model(out@).to_multiset().add(entries_model(rest@).to_multiset()) == whole,
            ranked_order(entries_model(out@)),
            forall|a: int, b: int|
                0 <= a < out@.len() && 0 <= b < rest@.len() ==> rank_le(
                    #[trigger] entries_model(out@)[a],
                    #[trigger] entries_model(rest@)[b],
                ),
        decreases rest@.len(),
    {
        let mut m: usize = 0;
        let mut j: usize = 1;
        while j < rest.len()
            invariant
                rest@.len() > 0,
                0 <= m < rest@.len(),
                1 <= j <= rest@.len(),
                forall|k: int|
                    0 <= k < j ==> rank_le(
                        entries_model(rest@)[m as int],
                        #[trigger] entries_model(rest@)[k],
                    ),
            decreases rest@.len() - j,
        {
            if !entry_le(&rest[m], &rest[j]) {
                m = j;
            }
            j = j + 1;
        }
        let ghost old_rest = rest@;
        let ghost old_out = out@;
        let e = rest.remove(m);
        out.push(e);
        proof {
            broadcast use group_to_multiset_ensures;
            broadcast use vstd::multiset::group_multiset_axioms;

            let x = entry_model(e);
            assert(entries_model(old_rest)[m as int] == x);
            assert(entries_model(rest@) =~= entries_model(old_rest).remove(m as int));
            assert(entries_model(out@) =~= entries_model(old_out).push(x));
            assert(entries_model(rest@).to_multiset() =~= entries_model(
                old_rest,
            ).to_multiset().remove(x));
            assert(entries_model(out@).to_multiset() =~= entries_model(
                old_out,
            ).to_multiset().insert(x));
            assert(entries_model(old_rest).to_multiset().count(x) >= 1) by {
                assert(entries_model(old_rest).contains(x));
            }
            assert(entries_model(out@).to_multiset().add(entries_model(rest@).to_multiset())
                =~= entries_model(old_out).to_multiset().add(entries_model(old_rest).to_multiset()));
        }
    }
    proof {
        broadcast use vstd::multiset::group_multiset_axioms;
        broadcast use group_to_multiset_ensures;
        broadcast use vstd::multiset::lemma_multiset_empty_len;

        assert(entries_model(rest@) =~= Seq::<(nat, nat)>::empty());
        assert(entries_model(rest@).to_multiset().len() == 0);
        assert(entries_model(rest@).to_multiset() =~= Multiset::<(nat, nat)>::empty());
        assert(entries_model(out@).to_multiset().add(Multiset::<(nat, nat)>::empty())
            =~= entries_model(out@).to_multiset());
    }
    out
}

/// The ranker's result: the ranked entry list, the flagged keys (the top
/// `t_max` of the list), the selected rank, and the training statistic.
#[derive(Debug)]
pub struct RankOutcome {
    pub ranked: Vec<Entry>,
    pub flagged: Vec<BigUint>,
    pub t_max: usize,
    pub training_zsq: ZScoreSq,
}

/// Orders the table's distinct keys by descending count (ties by ascending
/// key) and selects the first rank maximizing the squared deviation
/// statistic.  Fails exactly when some scanned rank is degenerate, which
/// happens just when the value space `2^block_bits` is no larger than the
/// number of distinct keys.
pub fn rank(table: &FrequencyTable, total: u64, block_bits: u32) -> (r: Result<
    RankOutcome,
    AnalysisError,
>)
    requires
        table.wf(),
        total as nat == sum_counts(table.model()),
    ensures
        r is Err <==> pow2(block_bits as nat) <= table.model().len(),
        r is Err ==> r == Err::<RankOutcome, AnalysisError>(AnalysisError::DegenerateStatistic),
        r is Ok ==> {
            let out = r->Ok_0;
            let m = entries_model(out.ranked@);
            let space = pow2(block_bits as nat);
            &&& m.to_multiset() == table.model().to_multiset()
            &&& m.len() == table.model().len()
            &&& ranked_order(m)
            &&& is_first_argmax(m, out.t_max as int, total as nat, space)
            &&& zsq_model(out.training_zsq) == zsq_at(m, out.t_max as int, total as nat, space)
            &&& big_value(out.training_zsq.den) > 0
            &&& out.flagged@.len() == out.t_max
            &&& key_values(out.flagged@) == model_keys(m.take(out.t_max as int))
        },
{
    let ghost tm = table.model();
    let ghost space = pow2(block_bits as nat);
    let ghost n = total as nat;
    proof {
        lemma_occ_monotone(tm, 1, tm.len() as int);
        assert(occ(tm, 0) == 0);
        assert(occ(tm, 1) == tm[0].1);
        assert(tm[0].1 >= 1);
        assert(total >= 1);
    }
    // Work on a copy of the entries, so the table stays usable.
    let mut es: Vec<Entry> = Vec::new();
    let mut i: usize = 0;
    while i < table.entries.len()
        invariant
            0 <= i <= table.entries@.len(),
            entries_model(es@) =~= entries_model(table.entries@).take(i as int),
        decreases table.entries@.len() - i,
    {
        let ghost old_es = es@;
        let cloned = Entry { key: big_clone(&table.entries[i].key), count: table.entries[i].count };
        es.push(cloned);
        proof {
            assert(entries_model(es@) =~= entries_model(old_es).push(entry_model(cloned)));
            assert(entries_model(table.entries@).take(i + 1) =~= entries_model(
                table.entries@,
            ).take(i as int).push(entries_model(table.entries@)[i as int]));
        }
        i = i + 1;
    }
    proof {
        assert(entries_model(table.entries@).take(tm.len() as int) =~= tm);
        assert(entries_model(es@) =~= tm);
    }
    let ranked = sort_entries(es);
    let ghost m = entries_model(ranked@);
    proof {
        broadcast use group_to_multiset_ensures;

        assert(m.to_multiset().len() == m.len());
        assert(tm.to_multiset().len() == tm.len());
        assert(m.len() == tm.len());
    }
    let d = ranked.len();
    let mut occur: u128 = ranked[0].count as u128;
    proof {
        assert(m[0] == entry_model(ranked@[0]));
        assert(occ(m, 0) == 0);
        assert(occ(m, 1) == occ(m, 0) + m[0].1);
        assert(occur == occ(m, 1));
    }
    let first = z_squared(occur, 1, total, block_bits);
    let mut best = match first {
        Ok(z) => z,
        Err(e) => {
            proof {
                assert(degenerate(1, n, space));
                assert(space <= 1);
                assert(tm.len() >= 1);
            }
            return Err(e);
        },
    };
    let mut t_max: usize = 1;
    let mut i: usize = 1;
    while i < d
        invariant
            1 <= i <= d,
            d == ranked@.len(),
            d == table.model().len(),
            m == entries_model(ranked@),
            m.len() == d,
            n == total as nat,
            space == pow2(block_bits as nat),
            total >= 1,
            occur == occ(m, i as int),
            occur <= (i as u128) * 0xffff_ffff_ffff_ffffu128,
            (i as nat) < space,
            1 <= t_max <= i,
            zsq_model(best) == zsq_at(m, t_max as int, n, space),
            big_value(best.den) > 0,
            forall|j: int|
                1 <= j < t_max ==> zsq_gt(zsq_at(m, t_max as int, n, space), #[trigger] zsq_at(
                    m, j, n, space,
                )),
            forall|j: int|
                1 <= j <= i ==> !zsq_gt(#[trigger] zsq_at(m, j, n, space), zsq_at(
                    m, t_max as int, n, space,
                )),
        decreases d - i,
    {
        let c = ranked[i].count;
        proof {
            assert(m[i as int] == entry_model(ranked@[i as int]));
            assert((c as u128) <= 0xffff_ffff_ffff_ffffu128);
            assert(occur + (c as u128) <= ((i as u128) + 1) * 0xffff_ffff_ffff_ffffu128) by (nonlinear_arith)
                requires
                    occur <= (i as u128) * 0xffff_ffff_ffff_ffffu128,
                    (c as u128) <= 0xffff_ffff_ffff_ffffu128,
            ;
            assert(((i as u128) + 1) * 0xffff_ffff_ffff_ffffu128 <= u128::MAX) by (nonlinear_arith)
                requires
                    (i as u128) + 1 <= 0x1_0000_0000_0000_0000u128,
            ;
        }
        occur = occur + c as u128;
        proof {
            assert(occ(m, i as int + 1) == occ(m, i as int) + m[i as int].1);
        }
        let next = z_squared(occur, (i + 1) as u64, total, block_bits);
        let z = match next {
            Ok(z) => z,
            Err(e) => {
                proof {
                    assert(degenerate((i + 1) as nat, n, space));
                    assert(space <= i + 1);
                    assert(space <= table.model().len());
                }
                return Err(e);
            },
        };
        proof {
            assert(zsq_model(z) == zsq_at(m, i as int + 1, n, space));
        }
        if zsq_greater(&z, &best) {
            proof {
                let fresh = zsq_at(m, i as int + 1, n, space);
                let incumbent = zsq_at(m, t_max as int, n, space);
                lemma_zsq_den_pos((i + 1) as nat, n, space);
                lemma_zsq_den_pos(t_max as nat, n, space);
                assert forall|j: int| 1 <= j <= i implies zsq_gt(
                    fresh,
                    #[trigger] zsq_at(m, j, n, space),
                ) by {
                    lemma_zsq_den_pos(j as nat, n, space);
                    lemma_zsq_gt_supersedes(fresh, incumbent, zsq_at(m, j, n, space));
                }
            }
            best = z;
            t_max = i + 1;
        }
        i = i + 1;
    }
    // Collect the top-ranked keys into the flagged set.
    let mut flagged: Vec<BigUint> = Vec::new();
    let mut i: usize = 0;
    while i < t_max
        invariant
            0 <= i <= t_max,
            t_max <= ranked@.len(),
            m == entries_model(ranked@),
            key_values(flagged@) =~= model_keys(m.take(i as int)),
            flagged@.len() == i,
        decreases t_max - i,
    {
        let ghost old_flagged = flagged@;
        let k = big_clone(&ranked[i].key);
        flagged.push(k);
        proof {
            assert(key_values(flagged@) =~= key_values(old_flagged).push(big_value(k)));
            assert(m[i as int] == entry_model(ranked@[i as int]));
            assert(model_keys(m.take(i + 1)) =~= model_keys(m.take(i as int)).push(m[i as int].0));
        }
        i = i + 1;
    }
    Ok(RankOutcome { ranked, flagged, t_max, training_zsq: best })
}

} // verus!
