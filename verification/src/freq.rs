//! Frequency table over the canonical keys of a block collection.
//!
//! Every block is encoded to its key, the key sequence is sorted once, and
//! adjacent equal keys are run-length-encoded.  The result maps each distinct
//! key to its number of occurrences: counts sum to the collection size, keys
//! are strictly ascending, and each count is the key's multiplicity in the
//! collection.

use vstd::prelude::*;
use vstd::seq_lib::group_to_multiset_ensures;
use vstd::multiset::{Multiset, group_multiset_axioms};
use num_bigint::BigUint;
use crate::bignum::{big_value, big_clone, big_eq, big_lt, key_values};
use crate::codec::{encode, keys_of};
use crate::errors::AnalysisError;

verus! {

/// One distinct key together with its occurrence count.
#[derive(Debug)]
pub struct Entry {
    pub key: BigUint,
    pub count: usize,
}

/// The mathematical content of an entry: (key value, count).
pub open spec fn entry_model(e: Entry) -> (nat, nat) {
    (big_value(e.key), e.count as nat)
}

/// The mathematical content of an entry sequence.
pub open spec fn entries_model(s: Seq<Entry>) -> Seq<(nat, nat)> {
    s.map_values(|e: Entry| entry_model(e))
}

/// The cumulative count of the first `i` entries.
pub open spec fn occ(m: Seq<(nat, nat)>, i: int) -> nat
    decreases i,
{
    if i <= 0 {
        0
    } else {
        occ(m, i - 1) + m[i - 1].1
    }
}

/// The sum of all counts of an entry sequence.
pub open spec fn sum_counts(m: Seq<(nat, nat)>) -> nat {
    occ(m, m.len() as int)
}

/// Entry keys are strictly ascending (hence distinct).
pub open spec fn keys_ascending(m: Seq<(nat, nat)>) -> bool {
    forall|i: int, j: int| 0 <= i < j < m.len() ==> (#[trigger] m[i]).0 < (#[trigger] m[j]).0
}

/// A key sequence is sorted in non-decreasing order.
pub open spec fn nondecreasing(s: Seq<nat>) -> bool {
    forall|i: int, j: int| 0 <= i <= j < s.len() ==> s[i] <= s[j]
}

/// What it means for `m` to be the frequency table of the key sequence
/// `keys`: strictly ascending distinct keys, each count the key's exact
/// multiplicity (and so at least one), every key of the sequence present,
/// and the counts summing to the sequence length.
pub open spec fn is_table_for(m: Seq<(nat, nat)>, keys: Seq<nat>) -> bool {
    &&& keys_ascending(m)
    &&& forall|j: int|
        0 <= j < m.len() ==> (#[trigger] m[j]).1 == keys.to_multiset().count(m[j].0)
    &&& forall|j: int| 0 <= j < m.len() ==> (#[trigger] m[j]).1 >= 1
    &&& forall|k: nat|
        #[trigger] keys.contains(k) ==> exists|j: int| 0 <= j < m.len() && (#[trigger] m[j]).0 == k
    &&& sum_counts(m) == keys.len()
}

/// Two entry sequences that agree on their first `i` entries accumulate the
/// same cumulative count there.
pub proof fn lemma_occ_prefix(m1: Seq<(nat, nat)>, m2: Seq<(nat, nat)>, i: int)
    requires
        0 <= i <= m1.len(),
        i <= m2.len(),
        forall|j: int| 0 <= j < i ==> m1[j] == m2[j],
    ensures
        occ(m1, i) == occ(m2, i),
    decreases i,
{
    if i > 0 {
        lemma_occ_prefix(m1, m2, i - 1);
    }
}

/// Appending an entry adds its count to the sum.
pub proof fn lemma_sum_push(m: Seq<(nat, nat)>, e: (nat, nat))
    ensures
        sum_counts(m.push(e)) == sum_counts(m) + e.1,
{
    lemma_occ_prefix(m.push(e), m, m.len() as int);
}

/// Being a table is a property of the key multiset alone, not of the order
/// in which the keys were listed.
pub proof fn lemma_table_transfer(m: Seq<(nat, nat)>, a: Seq<nat>, b: Seq<nat>)
    requires
        is_table_for(m, a),
        a.to_multiset() == b.to_multiset(),
    ensures
        is_table_for(m, b),
{
    broadcast use group_to_multiset_ensures;

    assert(a.to_multiset().len() == a.len());
    assert(b.to_multiset().len() == b.len());
    assert(a.len() == b.len());
    assert forall|k: nat| #[trigger] b.contains(k) implies exists|j: int|
        0 <= j < m.len() && (#[trigger] m[j]).0 == k by {
        assert(b.to_multiset().count(k) > 0);
        assert(a.contains(k));
    }
}

/// The table has exactly one entry per distinct key of the collection.
pub proof fn lemma_table_len_is_distinct_count(m: Seq<(nat, nat)>, keys: Seq<nat>)
    requires
        is_table_for(m, keys),
    ensures
        m.len() == keys.to_set().len(),
{
    broadcast use group_to_multiset_ensures;
    broadcast use vstd::set::group_set_axioms;

    let ks = m.map_values(|p: (nat, nat)| p.0);
    assert(ks.no_duplicates()) by {
        assert forall|i: int, j: int| 0 <= i < ks.len() && 0 <= j < ks.len() && i != j implies
            ks[i] != ks[j] by {
            if i < j {
                assert(m[i].0 < m[j].0);
            } else {
                assert(m[j].0 < m[i].0);
            }
        }
    }
    ks.unique_seq_to_set();
    assert(ks.to_set() =~= keys.to_set()) by {
        assert forall|k: nat| #[trigger] ks.to_set().contains(k) implies keys.to_set().contains(
            k,
        ) by {
            let j = choose|j: int| 0 <= j < ks.len() && ks[j] == k;
            assert(m[j].1 == keys.to_multiset().count(k));
            assert(keys.to_multiset().count(k) > 0);
            assert(keys.contains(k));
        }
        assert forall|k: nat| #[trigger] keys.to_set().contains(k) implies ks.to_set().contains(
            k,
        ) by {
            assert(keys.contains(k));
            let j = choose|j: int| 0 <= j < m.len() && (#[trigger] m[j]).0 == k;
            assert(ks[j] == k);
        }
    }
}

/// A key sequence holds the frequency table it induces uniquely: any two
/// tables of the same keys are equal.
pub proof fn lemma_table_unique(m1: Seq<(nat, nat)>, m2: Seq<(nat, nat)>, keys: Seq<nat>)
    requires
        is_table_for(m1, keys),
        is_table_for(m2, keys),
    ensures
        m1 == m2,
{
    broadcast use group_to_multiset_ensures;
    broadcast use group_multiset_axioms;

    let leq = |a: nat, b: nat| a <= b;
    let ks1 = m1.map_values(|p: (nat, nat)| p.0);
    let ks2 = m2.map_values(|p: (nat, nat)| p.0);
    assert(ks1.no_duplicates()) by {
        assert forall|i: int, j: int|
            0 <= i < ks1.len() && 0 <= j < ks1.len() && i != j implies ks1[i] != ks1[j] by {
            if i < j {
                assert(m1[i].0 < m1[j].0);
            } else {
                assert(m1[j].0 < m1[i].0);
            }
        }
    }
    assert(ks2.no_duplicates()) by {
        assert forall|i: int, j: int|
            0 <= i < ks2.len() && 0 <= j < ks2.len() && i != j implies ks2[i] != ks2[j] by {
            if i < j {
                assert(m2[i].0 < m2[j].0);
            } else {
                assert(m2[j].0 < m2[i].0);
            }
        }
    }
    assert forall|k: nat| #[trigger] ks1.contains(k) implies ks2.contains(k) by {
        let j = choose|j: int| 0 <= j < ks1.len() && ks1[j] == k;
        assert(m1[j].1 == keys.to_multiset().count(k));
        assert(keys.to_multiset().count(k) > 0);
        assert(keys.contains(k));
        let j2 = choose|j2: int| 0 <= j2 < m2.len() && (#[trigger] m2[j2]).0 == k;
        assert(ks2[j2] == k);
    }
    assert forall|k: nat| #[trigger] ks2.contains(k) implies ks1.contains(k) by {
        let j = choose|j: int| 0 <= j < ks2.len() && ks2[j] == k;
        assert(m2[j].1 == keys.to_multiset().count(k));
        assert(keys.to_multiset().count(k) > 0);
        assert(keys.contains(k));
        let j1 = choose|j1: int| 0 <= j1 < m1.len() && (#[trigger] m1[j1]).0 == k;
        assert(ks1[j1] == k);
    }
    ks1.lemma_multiset_has_no_duplicates();
    ks2.lemma_multiset_has_no_duplicates();
    assert(ks1.to_multiset() =~= ks2.to_multiset()) by {
        assert forall|k: nat| ks1.to_multiset().count(k) == ks2.to_multiset().count(k) by {
            if ks1.to_multiset().count(k) > 0 {
                assert(ks1.contains(k));
                assert(ks2.contains(k));
            } else if ks2.to_multiset().count(k) > 0 {
                assert(ks2.contains(k));
                assert(ks1.contains(k));
            }
        }
    }
    assert(vstd::relations::sorted_by(ks1, leq));
    assert(vstd::relations::sorted_by(ks2, leq));
    assert(vstd::relations::total_ordering(leq));
    vstd::seq_lib::lemma_sorted_unique(ks1, ks2, leq);
    assert(m1 =~= m2) by {
        assert forall|j: int| 0 <= j < m1.len() implies m1[j] == m2[j] by {
            assert(ks1[j] == ks2[j]);
            assert(m1[j].0 == m2[j].0);
            assert(m1[j].1 == keys.to_multiset().count(m1[j].0));
            assert(m2[j].1 == keys.to_multiset().count(m2[j].0));
        }
    }
}

/// With all counts equal to one, the cumulative count of the first `i`
/// entries is `i` itself.
pub proof fn lemma_occ_of_unit_counts(m: Seq<(nat, nat)>, i: int)
    requires
        0 <= i <= m.len(),
        forall|j: int| 0 <= j < m.len() ==> (#[trigger] m[j]).1 == 1,
    ensures
        occ(m, i) == i,
    decreases i,
{
    if i > 0 {
        lemma_occ_of_unit_counts(m, i - 1);
    }
}

/// Over a collection of pairwise-distinct keys, every table count is one,
/// so the cumulative count at each rank reduces to the rank itself.
pub proof fn lemma_distinct_keys_unit_counts(m: Seq<(nat, nat)>, keys: Seq<nat>)
    requires
        is_table_for(m, keys),
        keys.no_duplicates(),
    ensures
        forall|j: int| 0 <= j < m.len() ==> (#[trigger] m[j]).1 == 1,
        forall|i: int| 0 <= i <= m.len() ==> occ(m, i) == i,
{
    broadcast use group_to_multiset_ensures;

    keys.lemma_multiset_has_no_duplicates();
    assert forall|j: int| 0 <= j < m.len() implies (#[trigger] m[j]).1 == 1 by {
        assert(m[j].1 == keys.to_multiset().count(m[j].0));
        assert(keys.to_multiset().count(m[j].0) > 0);
        assert(keys.to_multiset().contains(m[j].0));
    }
    assert forall|i: int| 0 <= i <= m.len() implies occ(m, i) == i by {
        lemma_occ_of_unit_counts(m, i);
    }
}

/// Sorts keys into non-decreasing order of value, keeping the multiset of
/// values, by repeatedly extracting a minimal remaining element.
fn sort_keys(v: Vec<BigUint>) -> (r: Vec<BigUint>)
    ensures
        key_values(r@).to_multiset() == key_values(v@).to_multiset(),
        nondecreasing(key_values(r@)),
{
    let mut rest = v;
    let mut out: Vec<BigUint> = Vec::new();
    proof {
        broadcast use group_multiset_axioms;
        broadcast use group_to_multiset_ensures;
        broadcast use vstd::multiset::lemma_multiset_empty_len;

        assert(key_values(out@) =~= Seq::<nat>::empty());
        assert(key_values(out@).to_multiset().len() == 0);
        assert(key_values(out@).to_multiset() =~= Multiset::<nat>::empty());
        assert(key_values(out@).to_multiset().add(key_values(rest@).to_multiset())
            =~= key_values(rest@).to_multiset());
    }
    let ghost whole = key_values(rest@).to_multiset();
    while rest.len() > 0
        invariant
            key_values(out@).to_multiset().add(key_values(rest@).to_multiset()) == whole,
            nondecreasing(key_values(out@)),
            forall|a: int, b: int|
                0 <= a < out@.len() && 0 <= b < rest@.len() ==> big_value(out@[a]) <= big_value(
                    rest@[b],
                ),
        decreases rest@.len(),
    {
        let mut m: usize = 0;
        let mut j: usize = 1;
        while j < rest.len()
            invariant
                rest@.len() > 0,
                0 <= m < rest@.len(),
                1 <= j <= rest@.len(),
                forall|k: int| 0 <= k < j ==> big_value(rest@[m as int]) <= big_value(rest@[k]),
            decreases rest@.len() - j,
        {
            if big_lt(&rest[j], &rest[m]) {
                m = j;
            }
            j = j + 1;
        }
        let ghost old_rest = rest@;
        let ghost old_out = out@;
        let e = rest.remove(m);
        out.push(e);
        proof {
            broadcast use group_to_multiset_ensures;
            broadcast use group_multiset_axioms;

            let x = big_value(e);
            assert(key_values(old_rest)[m as int] == x);
            assert(key_values(rest@) =~= key_values(old_rest).remove(m as int));
            assert(key_values(out@) =~= key_values(old_out).push(x));
            assert(key_values(rest@).to_multiset() =~= key_values(old_rest).to_multiset().remove(
                x,
            ));
            assert(key_values(out@).to_multiset() =~= key_values(old_out).to_multiset().insert(x));
            assert(key_values(old_rest).to_multiset().count(x) >= 1) by {
                assert(key_values(old_rest).contains(x));
            }
            assert(key_values(out@).to_multiset().add(key_values(rest@).to_multiset())
                =~= key_values(old_out).to_multiset().add(key_values(old_rest).to_multiset()));
        }
    }
    proof {
        broadcast use group_multiset_axioms;
        broadcast use group_to_multiset_ensures;
        broadcast use vstd::multiset::lemma_multiset_empty_len;

        assert(key_values(rest@) =~= Seq::<nat>::empty());
        assert(key_values(rest@).to_multiset().len() == 0);
        assert(key_values(rest@).to_multiset() =~= Multiset::<nat>::empty());
        assert(key_values(out@).to_multiset().add(Multiset::<nat>::empty()) =~= key_values(
            out@,
        ).to_multiset());
    }
    out
}

/// A member of a one-longer prefix is the new element or a member of the
/// shorter prefix.
proof fn lemma_take_one_more_contains(s: Seq<nat>, i: int, k: nat)
    requires
        0 <= i < s.len(),
        s.take(i + 1).contains(k),
    ensures
        k == s[i] || s.take(i).contains(k),
{
    let t = choose|t: int| 0 <= t < s.take(i + 1).len() && #[trigger] s.take(i + 1)[t] == k;
    if t < i {
        assert(s.take(i)[t] == k);
    }
}

/// Run-length-encodes a sorted key sequence into table entries.
fn to_entries(sorted: Vec<BigUint>) -> (entries: Vec<Entry>)
    requires
        sorted@.len() >= 1,
        nondecreasing(key_values(sorted@)),
    ensures
        is_table_for(entries_model(entries@), key_values(sorted@)),
{
    let ghost s = key_values(sorted@);
    let mut entries: Vec<Entry> = Vec::new();
    let mut prev = big_clone(&sorted[0]);
    let mut count: usize = 1;
    let mut i: usize = 1;
    proof {
        broadcast use group_to_multiset_ensures;
        broadcast use group_multiset_axioms;
        broadcast use vstd::multiset::lemma_multiset_empty_len;

        assert(entries_model(entries@).len() == 0);
        assert(s.take(1) =~= Seq::<nat>::empty().push(s[0]));
        assert(Seq::<nat>::empty().to_multiset().len() == 0);
        assert(Seq::<nat>::empty().to_multiset() =~= Multiset::<nat>::empty());
        assert(s.take(1).to_multiset() =~= Multiset::<nat>::empty().insert(s[0]));
        assert(s.take(1).to_multiset().count(s[0]) == 1);
        assert forall|k: nat| #[trigger] s.take(1).contains(k) implies k == big_value(prev) by {
            lemma_take_one_more_contains(s, 0, k);
            assert(!s.take(0).contains(k));
        }
    }
    while i < sorted.len()
        invariant
            1 <= i <= sorted@.len(),
            s == key_values(sorted@),
            nondecreasing(s),
            s.len() == sorted@.len(),
            1 <= count <= i,
            big_value(prev) == s[i - 1],
            keys_ascending(entries_model(entries@)),
            forall|j: int|
                0 <= j < entries@.len() ==> (#[trigger] entries_model(entries@)[j]).0 < big_value(
                    prev,
                ),
            forall|j: int|
                0 <= j < entries@.len() ==> (#[trigger] entries_model(entries@)[j]).1 == s.take(
                    i as int,
                ).to_multiset().count(entries_model(entries@)[j].0),
            forall|j: int| 0 <= j < entries@.len() ==> (#[trigger] entries_model(entries@)[j]).1 >= 1,
            count == s.take(i as int).to_multiset().count(big_value(prev)),
            forall|k: nat|
                #[trigger] s.take(i as int).contains(k) ==> k == big_value(prev) || exists|j: int|
                    0 <= j < entries@.len() && (#[trigger] entries_model(entries@)[j]).0 == k,
            sum_counts(entries_model(entries@)) + count == i,
        decreases sorted@.len() - i,
    {
        proof {
            broadcast use group_to_multiset_ensures;
            broadcast use group_multiset_axioms;

            assert(s.take(i as int + 1) =~= s.take(i as int).push(s[i as int]));
            assert(s.take(i as int + 1).to_multiset() =~= s.take(i as int).to_multiset().insert(
                s[i as int],
            ));
            assert(s[i as int] >= s[i - 1]);
        }
        let same = big_eq(&sorted[i], &prev);
        if same {
            count = count + 1;
            proof {
                assert forall|k: nat| #[trigger] s.take(i as int + 1).contains(k) implies k
                    == big_value(prev) || exists|j: int|
                    0 <= j < entries@.len() && (#[trigger] entries_model(entries@)[j]).0 == k by {
                    lemma_take_one_more_contains(s, i as int, k);
                }
            }
        } else {
            let ghost old_entries = entries@;
            let finished = Entry { key: prev, count };
            let ghost fe = entry_model(finished);
            entries.push(finished);
            prev = big_clone(&sorted[i]);
            count = 1;
            proof {
                broadcast use group_to_multiset_ensures;
                broadcast use group_multiset_axioms;

                assert(entries_model(entries@) =~= entries_model(old_entries).push(fe));
                assert(entries_model(entries@)[old_entries.len() as int] == fe);
                lemma_sum_push(entries_model(old_entries), fe);
                assert(!s.take(i as int).contains(s[i as int])) by {
                    if s.take(i as int).contains(s[i as int]) {
                        let k = choose|k: int|
                            0 <= k < i && #[trigger] s.take(i as int)[k] == s[i as int];
                        assert(s[k] <= s[i - 1]);
                    }
                }
                assert(s.take(i as int).to_multiset().count(s[i as int]) == 0);
                assert forall|k: nat| #[trigger] s.take(i as int + 1).contains(k) implies k
                    == big_value(prev) || exists|j: int|
                    0 <= j < entries@.len() && (#[trigger] entries_model(entries@)[j]).0 == k by {
                    lemma_take_one_more_contains(s, i as int, k);
                    if k == fe.0 {
                        assert(entries_model(entries@)[old_entries.len() as int].0 == k);
                    } else if k != s[i as int] {
                        assert(s.take(i as int).contains(k));
                        let j = choose|j: int|
                            0 <= j < old_entries.len() && (#[trigger] entries_model(
                                old_entries,
                            )[j]).0 == k;
                        assert(entries_model(entries@)[j].0 == k);
                    }
                }
            }
        }
        i = i + 1;
    }
    let ghost old_entries = entries@;
    let finished = Entry { key: prev, count };
    let ghost fe = entry_model(finished);
    entries.push(finished);
    proof {
        broadcast use group_to_multiset_ensures;

        assert(entries_model(entries@) =~= entries_model(old_entries).push(fe));
        assert(entries_model(entries@)[old_entries.len() as int] == fe);
        lemma_sum_push(entries_model(old_entries), fe);
        assert(s.take(s.len() as int) =~= s);
        assert forall|k: nat| #[trigger] s.contains(k) implies exists|j: int|
            0 <= j < entries@.len() && (#[trigger] entries_model(entries@)[j]).0 == k by {
            assert(s.take(s.len() as int).contains(k));
            if k == fe.0 {
                assert(entries_model(entries@)[old_entries.len() as int].0 == k);
            } else {
                let j = choose|j: int|
                    0 <= j < old_entries.len() && (#[trigger] entries_model(old_entries)[j]).0
                        == k;
                assert(entries_model(entries@)[j].0 == k);
            }
        }
    }
    entries
}

/// The frequency table of a training collection: each distinct key with its
/// occurrence count, keys strictly ascending.
#[derive(Debug)]
pub struct FrequencyTable {
    pub entries: Vec<Entry>,
}

impl FrequencyTable {
    /// The table's mathematical content: (key, count) pairs in key order.
    pub open spec fn model(self) -> Seq<(nat, nat)> {
        entries_model(self.entries@)
    }

    /// Well-formedness: non-empty, strictly ascending keys, positive counts,
    /// and a total count that fits the machine.
    pub open spec fn wf(self) -> bool {
        &&& self.entries@.len() >= 1
        &&& keys_ascending(self.model())
        &&& forall|j: int| 0 <= j < self.model().len() ==> (#[trigger] self.model()[j]).1 >= 1
        &&& sum_counts(self.model()) <= usize::MAX
    }

    /// How many distinct keys the table holds.
    pub fn distinct_count(&self) -> (r: usize)
        ensures
            r == self.model().len(),
    {
        self.entries.len()
    }
}

/// Builds the frequency table of a block collection: encodes every block to
/// its key, sorts the keys, and run-length-encodes adjacent equal keys.
/// Fails exactly on an empty collection.
pub fn build(blocks: &Vec<Vec<u8>>) -> (r: Result<FrequencyTable, AnalysisError>)
    ensures
        r is Err <==> blocks@.len() == 0,
        r is Err ==> r == Err::<FrequencyTable, AnalysisError>(AnalysisError::EmptyInput),
        r is Ok ==> {
            let t = r->Ok_0;
            &&& t.wf()
            &&& is_table_for(t.model(), keys_of(blocks@))
            &&& sum_counts(t.model()) == blocks@.len()
        },
{
    if blocks.len() == 0 {
        return Err(AnalysisError::EmptyInput);
    }
    let mut keys: Vec<BigUint> = Vec::new();
    let mut i: usize = 0;
    while i < blocks.len()
        invariant
            0 <= i <= blocks@.len(),
            key_values(keys@) =~= keys_of(blocks@).take(i as int),
        decreases blocks@.len() - i,
    {
        let k = encode(&blocks[i]);
        let ghost old_keys = keys@;
        keys.push(k);
        proof {
            assert(key_values(keys@) =~= key_values(old_keys).push(big_value(k)));
            assert(keys_of(blocks@).take(i + 1) =~= keys_of(blocks@).take(i as int).push(
                keys_of(blocks@)[i as int],
            ));
        }
        i = i + 1;
    }
    proof {
        assert(keys_of(blocks@).take(blocks@.len() as int) =~= keys_of(blocks@));
    }
    let ghost kv = key_values(keys@);
    let sorted = sort_keys(keys);
    proof {
        broadcast use group_to_multiset_ensures;

        assert(kv == keys_of(blocks@));
        assert(key_values(sorted@).to_multiset().len() == key_values(sorted@).len());
        assert(kv.to_multiset().len() == kv.len());
        assert(key_values(sorted@).len() == keys_of(blocks@).len());
    }
    let entries = to_entries(sorted);
    let table = FrequencyTable { entries };
    proof {
        lemma_table_transfer(table.model(), key_values(sorted@), keys_of(blocks@));
    }
    Ok(table)
}

} // verus!
