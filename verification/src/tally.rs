//! Grouping amounts by a text key.
//!
//! Country totals, team totals and a player's team partition are all the
//! same fold: a list of keyed amounts is grouped by key, and each group is
//! summed and counted. The groups come out in the order in which their keys
//! first occurred.

use crate::text::{position_of, texts};
use vstd::prelude::*;

verus! {

/// The amounts of a list as mathematical integers.
pub open spec fn ints(amounts: Seq<i64>) -> Seq<int> {
    amounts.map_values(|a: i64| a as int)
}

/// The sum of the amounts whose key is `key`.
pub open spec fn sum_for(keys: Seq<Seq<char>>, amounts: Seq<int>, key: Seq<char>) -> int
    decreases keys.len(),
{
    if keys.len() == 0 || amounts.len() != keys.len() {
        0
    } else {
        sum_for(keys.drop_last(), amounts.drop_last(), key) + if keys.last() == key {
            amounts.last()
        } else {
            0
        }
    }
}

/// The number of entries whose key is `key`.
pub open spec fn count_for(keys: Seq<Seq<char>>, key: Seq<char>) -> nat
    decreases keys.len(),
{
    if keys.len() == 0 {
        0
    } else {
        count_for(keys.drop_last(), key) + if keys.last() == key {
            1nat
        } else {
            0nat
        }
    }
}

/// The first position at which `key` occurs, or the length of the list
/// where it does not occur.
pub open spec fn first_of(keys: Seq<Seq<char>>, key: Seq<char>) -> int
    decreases keys.len(),
{
    if keys.len() == 0 {
        0
    } else {
        let before = first_of(keys.drop_last(), key);
        if before < keys.len() - 1 {
            before
        } else if keys.last() == key {
            keys.len() - 1
        } else {
            keys.len() as int
        }
    }
}

/// The absolute values of the amounts together.
pub open spec fn abs_sum(amounts: Seq<int>) -> int
    decreases amounts.len(),
{
    if amounts.len() == 0 {
        0
    } else {
        abs_sum(amounts.drop_last()) + if amounts.last() < 0 {
            -amounts.last()
        } else {
            amounts.last()
        }
    }
}

/// The amounts together.
pub open spec fn total_of(amounts: Seq<int>) -> int
    decreases amounts.len(),
{
    if amounts.len() == 0 {
        0
    } else {
        total_of(amounts.drop_last()) + amounts.last()
    }
}

/// The amounts together lie within their absolute values together.
pub proof fn lemma_total_bounds(amounts: Seq<int>)
    ensures
        -abs_sum(amounts) <= total_of(amounts) <= abs_sum(amounts),
    decreases amounts.len(),
{
    if amounts.len() > 0 {
        lemma_total_bounds(amounts.drop_last());
    }
}

/// The groups of a list of keyed amounts, one per key.
pub struct Tally {
    /// The keys, each once, in the order of their first occurrence.
    pub keys: Vec<String>,
    /// For each key, the sum of its amounts.
    pub totals: Vec<i64>,
    /// For each key, the number of its entries.
    pub counts: Vec<u64>,
    /// For each key, the position of its first entry.
    pub firsts: Vec<usize>,
}

/// Whether `tally` holds the groups of the keyed amounts.
pub open spec fn is_tally_of(tally: Tally, keys: Seq<Seq<char>>, amounts: Seq<int>) -> bool {
    let groups = texts(tally.keys@);
    &&& tally.totals.len() == groups.len()
    &&& tally.counts.len() == groups.len()
    &&& tally.firsts.len() == groups.len()
    &&& forall|i: int|
        0 <= i < groups.len() ==> {
            &&& tally.totals[i] == sum_for(keys, amounts, #[trigger] groups[i])
            &&& tally.counts[i] == count_for(keys, groups[i])
            &&& tally.counts[i] >= 1
            &&& tally.firsts[i] == first_of(keys, groups[i])
            &&& tally.firsts[i] < keys.len()
            &&& keys[tally.firsts[i] as int] == groups[i]
        }
    &&& forall|i: int, j: int|
        0 <= i < j < groups.len() ==> (#[trigger] tally.firsts[i]) < (#[trigger] tally.firsts[j])
            && groups[i] != groups[j]
    &&& forall|j: int| 0 <= j < keys.len() ==> groups.contains(#[trigger] keys[j])
}

/// A key that does not occur has no amounts, no entries and no first
/// position.
pub proof fn lemma_absent_key(keys: Seq<Seq<char>>, amounts: Seq<int>, key: Seq<char>)
    requires
        !keys.contains(key),
    ensures
        sum_for(keys, amounts, key) == 0,
        count_for(keys, key) == 0,
        first_of(keys, key) == keys.len(),
    decreases keys.len(),
{
    if keys.len() > 0 {
        assert(keys.last() == keys[keys.len() - 1]);
        assert forall|i: int| 0 <= i < keys.len() - 1 implies keys.drop_last()[i] != key by {
            assert(keys[i] == keys.drop_last()[i]);
        }
        lemma_absent_key(keys.drop_last(), amounts.drop_last(), key);
    }
}

/// The first position of a key is the one that holds it and has no
/// occurrence before it.
pub proof fn lemma_first_of_is(keys: Seq<Seq<char>>, key: Seq<char>, at: int)
    requires
        0 <= at < keys.len(),
        keys[at] == key,
        forall|j: int| 0 <= j < at ==> keys[j] != key,
    ensures
        first_of(keys, key) == at,
    decreases keys.len(),
{
    let front = keys.drop_last();
    if at < keys.len() - 1 {
        assert(front[at] == key);
        assert forall|j: int| 0 <= j < at implies front[j] != key by {
            assert(keys[j] == front[j]);
        }
        lemma_first_of_is(front, key, at);
    } else {
        assert forall|j: int| 0 <= j < front.len() implies front[j] != key by {
            assert(keys[j] == front[j]);
        }
        lemma_absent_key(front, Seq::empty(), key);
    }
}

/// A group's sum lies within the absolute values of all amounts together,
/// and its count within the length of the list.
pub proof fn lemma_group_bounds(keys: Seq<Seq<char>>, amounts: Seq<int>, key: Seq<char>)
    requires
        keys.len() == amounts.len(),
    ensures
        -abs_sum(amounts) <= sum_for(keys, amounts, key) <= abs_sum(amounts),
        count_for(keys, key) <= keys.len(),
        abs_sum(amounts) >= 0,
    decreases keys.len(),
{
    if keys.len() > 0 {
        lemma_group_bounds(keys.drop_last(), amounts.drop_last(), key);
    }
}

/// The absolute values of a prefix together are at most those of the
/// whole list.
pub proof fn lemma_abs_sum_prefix(amounts: Seq<int>, n: int)
    requires
        0 <= n <= amounts.len(),
    ensures
        0 <= abs_sum(amounts.take(n)) <= abs_sum(amounts),
    decreases amounts.len(),
{
    if n == amounts.len() {
        assert(amounts.take(n) =~= amounts);
        lemma_group_bounds(Seq::new(amounts.len(), |i: int| Seq::<char>::empty()), amounts, Seq::empty());
    } else {
        assert(amounts.drop_last().take(n) =~= amounts.take(n));
        lemma_abs_sum_prefix(amounts.drop_last(), n);
    }
}

/// Adds up a list of amounts.
pub fn sum_amounts(amounts: &Vec<i64>) -> (total: i64)
    requires
        abs_sum(ints(amounts@)) <= i64::MAX,
    ensures
        total == total_of(ints(amounts@)),
{
    let ghost all = ints(amounts@);
    let mut total: i64 = 0;
    let mut i: usize = 0;
    assert(all.take(0) =~= Seq::<int>::empty());
    while i < amounts.len()
        invariant
            i <= amounts.len(),
            all == ints(amounts@),
            abs_sum(all) <= i64::MAX,
            total == total_of(all.take(i as int)),
        decreases amounts.len() - i,
    {
        proof {
            assert(all.take(i + 1).drop_last() =~= all.take(i as int));
            assert(all.take(i + 1).last() == amounts[i as int] as int);
            lemma_abs_sum_prefix(all, i + 1);
            lemma_total_bounds(all.take(i + 1));
        }
        total = total + amounts[i];
        i += 1;
    }
    assert(all.take(i as int) =~= all);
    total
}

/// Groups keyed amounts by key: for each key its sum, its count and where
/// it first occurred.
pub fn tally(keys: &Vec<String>, amounts: &Vec<i64>) -> (out: Tally)
    requires
        keys.len() == amounts.len(),
        abs_sum(ints(amounts@)) <= i64::MAX,
    ensures
        is_tally_of(out, texts(keys@), ints(amounts@)),
{
    let ghost all_keys = texts(keys@);
    let ghost all_amounts = ints(amounts@);
    let mut out = Tally {
        keys: Vec::new(),
        totals: Vec::new(),
        counts: Vec::new(),
        firsts: Vec::new(),
    };
    let mut j: usize = 0;
    while j < keys.len()
        invariant
            j <= keys.len(),
            keys.len() == amounts.len(),
            all_keys == texts(keys@),
            all_amounts == ints(amounts@),
            abs_sum(all_amounts) <= i64::MAX,
            is_tally_of(out, all_keys.take(j as int), all_amounts.take(j as int)),
        decreases keys.len() - j,
    {
        let ghost seen = all_keys.take(j as int);
        let ghost seen_amounts = all_amounts.take(j as int);
        let ghost next = all_keys.take(j + 1);
        let ghost next_amounts = all_amounts.take(j + 1);
        let ghost key = keys[j as int]@;
        let ghost before = out;
        let ghost groups = texts(out.keys@);
        proof {
            assert(next.drop_last() =~= seen);
            assert(next_amounts.drop_last() =~= seen_amounts);
            assert(next.last() == key);
            assert(next_amounts.last() == amounts[j as int] as int);
            lemma_abs_sum_prefix(all_amounts, j + 1);
        }
        match position_of(&out.keys, keys[j].as_str()) {
            Some(i) => {
                proof {
                    assert(groups[i as int] == key);
                    lemma_group_bounds(next, next_amounts, key);
                }
                let total = out.totals[i] + amounts[j];
                let count = out.counts[i] + 1;
                out.totals.set(i, total);
                out.counts.set(i, count);
                proof {
                    assert(texts(out.keys@) == groups);
                    assert forall|t: int| 0 <= t < next.len() implies groups.contains(
                        #[trigger] next[t],
                    ) by {
                        if t < j {
                            assert(seen[t] == next[t]);
                        } else {
                            assert(groups[i as int] == next[t]);
                        }
                    }
                    assert forall|g: int| 0 <= g < groups.len() implies {
                        &&& out.totals[g] == sum_for(next, next_amounts, #[trigger] groups[g])
                        &&& out.counts[g] == count_for(next, groups[g])
                        &&& out.counts[g] >= 1
                        &&& out.firsts[g] == first_of(next, groups[g])
                        &&& out.firsts[g] < next.len()
                        &&& next[out.firsts[g] as int] == groups[g]
                    } by {
                        let group = groups[g];
                        assert(before.totals[g] == sum_for(seen, seen_amounts, group));
                        assert(before.firsts[g] < seen.len());
                        assert(seen[before.firsts[g] as int] == next[before.firsts[g] as int]);
                        if g != i {
                            if g < i {
                                assert(groups[g] != groups[i as int]);
                            } else {
                                assert(groups[i as int] != groups[g]);
                            }
                        }
                    }
                    assert forall|a: int, b: int| 0 <= a < b < groups.len() implies (
                    #[trigger] out.firsts[a]) < (#[trigger] out.firsts[b]) && groups[a]
                        != groups[b] by {
                        assert(before.firsts[a] < before.firsts[b]);
                    }
                }
            },
            None => {
                let key_copy = keys[j].clone();
                proof {
                    assert(!seen.contains(key)) by {
                        if seen.contains(key) {
                            let t = choose|t: int| 0 <= t < seen.len() && seen[t] == key;
                            assert(groups.contains(seen[t]));
                            let g = choose|g: int| 0 <= g < groups.len() && groups[g] == key;
                            assert(out.keys[g]@ == key);
                        }
                    }
                    lemma_absent_key(seen, seen_amounts, key);
                    assert(texts(out.keys@.push(key_copy)) =~= groups.push(key));
                }
                out.keys.push(key_copy);
                out.totals.push(amounts[j]);
                out.counts.push(1);
                out.firsts.push(j);
                proof {
                    let now = texts(out.keys@);
                    let m = groups.len() as int;
                    assert(now =~= groups.push(key));
                    assert forall|t: int| 0 <= t < next.len() implies now.contains(
                        #[trigger] next[t],
                    ) by {
                        if t < j {
                            assert(seen[t] == next[t]);
                            assert(groups.contains(seen[t]));
                            let g = choose|g: int| 0 <= g < groups.len() && groups[g] == seen[t];
                            assert(now[g] == next[t]);
                        } else {
                            assert(now[m] == next[t]);
                        }
                    }
                    assert forall|g: int| 0 <= g < now.len() implies {
                        &&& out.totals[g] == sum_for(next, next_amounts, #[trigger] now[g])
                        &&& out.counts[g] == count_for(next, now[g])
                        &&& out.counts[g] >= 1
                        &&& out.firsts[g] == first_of(next, now[g])
                        &&& out.firsts[g] < next.len()
                        &&& next[out.firsts[g] as int] == now[g]
                    } by {
                        if g < m {
                            let group = groups[g];
                            assert(now[g] == group);
                            assert(before.totals[g] == sum_for(seen, seen_amounts, group));
                            assert(groups[g] != key) by {
                                assert(out.keys[g]@ == groups[g]);
                            }
                            assert(before.firsts[g] < seen.len());
                            assert(seen[before.firsts[g] as int] == next[before.firsts[g] as int]);
                        }
                    }
                    assert forall|a: int, b: int| 0 <= a < b < now.len() implies (
                    #[trigger] out.firsts[a]) < (#[trigger] out.firsts[b]) && now[a] != now[b] by {
                        if b == m {
                            let group = groups[a];
                            assert(now[a] == group);
                            assert(before.totals[a] == sum_for(seen, seen_amounts, group));
                            assert(before.firsts[a] < seen.len());
                            assert(out.keys[a]@ == groups[a]);
                        } else {
                            assert(now[a] == groups[a] && now[b] == groups[b]);
                            assert(before.firsts[a] < before.firsts[b]);
                        }
                    }
                }
            },
        }
        j += 1;
    }
    proof {
        assert(all_keys.take(j as int) =~= all_keys);
        assert(all_amounts.take(j as int) =~= all_amounts);
    }
    out
}

} // verus!
