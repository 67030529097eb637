//! Ranking rollups by their average.
//!
//! A rollup has a key, a total and a count; its average is the total
//! divided by the count, and 0 where the count is 0. Averages are compared
//! exactly, as fractions. Two rollups with the same average are ranked by
//! their keys in ascending order, so that every ranking is determined.

use crate::text::{
    lemma_text_before_irreflexive, lemma_text_before_total, lemma_text_before_transitive,
    sorts_before, text_before,
};
use vstd::prelude::*;

verus! {

/// Which end of the scale a ranking starts at.
#[derive(Clone, Copy, Debug, PartialEq, Eq, Structural)]
pub enum RankOrder {
    /// The highest average first.
    Best,
    /// The lowest average first.
    Worst,
}

/// What a ranking reads of a rollup.
pub struct Standing {
    pub key: Seq<char>,
    pub total: int,
    pub count: nat,
}

/// A rollup to be ranked.
pub struct RankCard {
    pub key: String,
    pub total: i64,
    pub count: u64,
}

impl View for RankCard {
    type V = Standing;

    open spec fn view(&self) -> Standing {
        Standing { key: self.key@, total: self.total as int, count: self.count as nat }
    }
}

/// The numerator of the average: the total, or 0 where nothing was counted.
pub open spec fn average_num(s: Standing) -> int {
    if s.count == 0 {
        0
    } else {
        s.total
    }
}

/// The denominator of the average: the count, or 1 where nothing was
/// counted. It is never 0.
pub open spec fn average_den(s: Standing) -> int {
    if s.count == 0 {
        1
    } else {
        s.count as int
    }
}

/// Whether the average of `a` is less than that of `b`.
pub open spec fn average_less(a: Standing, b: Standing) -> bool {
    average_num(a) * average_den(b) < average_num(b) * average_den(a)
}

/// Whether `a` and `b` have the same average.
pub open spec fn average_same(a: Standing, b: Standing) -> bool {
    average_num(a) * average_den(b) == average_num(b) * average_den(a)
}

/// Whether `a` comes before `b` in a ranking: by average, best or worst
/// first, and among equal averages by key in ascending order.
pub open spec fn ranks_before(order: RankOrder, a: Standing, b: Standing) -> bool {
    let ahead = match order {
        RankOrder::Best => average_less(b, a),
        RankOrder::Worst => average_less(a, b),
    };
    ahead || (average_same(a, b) && text_before(a.key, b.key))
}

/// Fractions with positive denominators are ordered transitively: from
/// a/b <= c/d and c/d <= e/f follows a/b <= e/f, strictly where one of the
/// two is strict.
proof fn lemma_cross_order(na: int, da: int, nb: int, db: int, nc: int, dc: int)
    requires
        da > 0,
        db > 0,
        dc > 0,
        na * db <= nb * da,
        nb * dc <= nc * db,
    ensures
        na * dc <= nc * da,
        (na * db < nb * da || nb * dc < nc * db) ==> na * dc < nc * da,
{
    assert((na * db) * dc <= (nb * da) * dc) by (nonlinear_arith)
        requires
            na * db <= nb * da,
            dc > 0,
    ;
    assert((nb * dc) * da <= (nc * db) * da) by (nonlinear_arith)
        requires
            nb * dc <= nc * db,
            da > 0,
    ;
    assert((na * db) * dc == db * (na * dc)) by (nonlinear_arith);
    assert((nb * da) * dc == (nb * dc) * da) by (nonlinear_arith);
    assert((nc * db) * da == db * (nc * da)) by (nonlinear_arith);
    assert(na * dc <= nc * da) by (nonlinear_arith)
        requires
            db * (na * dc) <= db * (nc * da),
            db > 0,
    ;
    if na * db < nb * da {
        assert((na * db) * dc < (nb * da) * dc) by (nonlinear_arith)
            requires
                na * db < nb * da,
                dc > 0,
        ;
        assert(na * dc < nc * da) by (nonlinear_arith)
            requires
                db * (na * dc) < db * (nc * da),
                db > 0,
        ;
    }
    if nb * dc < nc * db {
        assert((nb * dc) * da < (nc * db) * da) by (nonlinear_arith)
            requires
                nb * dc < nc * db,
                da > 0,
        ;
        assert(na * dc < nc * da) by (nonlinear_arith)
            requires
                db * (na * dc) < db * (nc * da),
                db > 0,
        ;
    }
}

/// No rollup ranks before itself.
pub proof fn lemma_ranks_irreflexive(order: RankOrder, a: Standing)
    ensures
        !ranks_before(order, a, a),
{
    lemma_text_before_irreflexive(a.key);
}

/// Of two rollups with different keys, exactly one ranks before the other.
pub proof fn lemma_ranks_total(order: RankOrder, a: Standing, b: Standing)
    requires
        a.key != b.key,
    ensures
        ranks_before(order, a, b) || ranks_before(order, b, a),
        !(ranks_before(order, a, b) && ranks_before(order, b, a)),
{
    lemma_text_before_total(a.key, b.key);
}

/// Ranking is transitive.
pub proof fn lemma_ranks_transitive(order: RankOrder, a: Standing, b: Standing, c: Standing)
    requires
        ranks_before(order, a, b),
        ranks_before(order, b, c),
    ensures
        ranks_before(order, a, c),
{
    let (na, da) = (average_num(a), average_den(a));
    let (nb, db) = (average_num(b), average_den(b));
    let (nc, dc) = (average_num(c), average_den(c));
    match order {
        RankOrder::Worst => {
            lemma_cross_order(na, da, nb, db, nc, dc);
        },
        RankOrder::Best => {
            lemma_cross_order(nc, dc, nb, db, na, da);
        },
    }
    if average_same(a, b) && average_same(b, c) {
        lemma_cross_order(na, da, nb, db, nc, dc);
        lemma_cross_order(nc, dc, nb, db, na, da);
        lemma_text_before_transitive(a.key, b.key, c.key);
    }
}

/// `order` lists the positions of `cards` in ranking order: every
/// position once, each before all that follow it.
pub open spec fn is_rank_order(order: Seq<usize>, cards: Seq<Standing>, by: RankOrder) -> bool {
    &&& order.len() == cards.len()
    &&& forall|a: int| 0 <= a < order.len() ==> (#[trigger] order[a]) < cards.len()
    &&& forall|a: int, b: int|
        0 <= a < b < order.len() ==> ranks_before(
            by,
            cards[(#[trigger] order[a]) as int],
            cards[(#[trigger] order[b]) as int],
        )
    &&& forall|j: int| 0 <= j < cards.len() ==> #[trigger] order.contains(j as usize)
}

/// The standings of a list of cards.
pub open spec fn standings(cards: Seq<RankCard>) -> Seq<Standing> {
    cards.map_values(|c: RankCard| c@)
}

/// No two cards have the same key.
pub open spec fn distinct_keys(cards: Seq<Standing>) -> bool {
    forall|i: int, j: int| 0 <= i < j < cards.len() ==> cards[i].key != cards[j].key
}

/// Whether the average of `a` is less than that of `b`.
fn less_by_average(a: &RankCard, b: &RankCard) -> (less: bool)
    ensures
        less == average_less(a@, b@),
{
    let (na, da) = average_parts(a.total, a.count);
    let (nb, db) = average_parts(b.total, b.count);
    let (na, da, nb, db) = (na as i128, da as i128, nb as i128, db as i128);
    assert(-0x8000_0000_0000_0000_0000_0000_0000_0000 < na * db
        < 0x8000_0000_0000_0000_0000_0000_0000_0000) by (nonlinear_arith)
        requires
            -0x8000_0000_0000_0000 <= na < 0x8000_0000_0000_0000,
            0 < db < 0x1_0000_0000_0000_0000,
    ;
    assert(-0x8000_0000_0000_0000_0000_0000_0000_0000 < nb * da
        < 0x8000_0000_0000_0000_0000_0000_0000_0000) by (nonlinear_arith)
        requires
            -0x8000_0000_0000_0000 <= nb < 0x8000_0000_0000_0000,
            0 < da < 0x1_0000_0000_0000_0000,
    ;
    na * db < nb * da
}

/// The average of `total` over `count` as a fraction: numerator and
/// denominator. Where nothing was counted the average is 0, given as 0
/// over 1: the denominator is never 0.
pub fn average_parts(total: i64, count: u64) -> (parts: (i64, u64))
    ensures
        parts.1 > 0,
        count == 0 ==> parts == (0i64, 1u64),
        count > 0 ==> parts == (total, count),
        parts.0 == average_num(Standing { key: Seq::empty(), total: total as int, count: count as nat }),
        parts.1 == average_den(Standing { key: Seq::empty(), total: total as int, count: count as nat }),
{
    if count == 0 {
        (0, 1)
    } else {
        (total, count)
    }
}

/// Whether `a` comes before `b` in a ranking.
pub fn card_before(by: RankOrder, a: &RankCard, b: &RankCard) -> (before: bool)
    ensures
        before == ranks_before(by, a@, b@),
{
    let ahead = match by {
        RankOrder::Best => less_by_average(b, a),
        RankOrder::Worst => less_by_average(a, b),
    };
    if ahead {
        return true;
    }
    let behind = match by {
        RankOrder::Best => less_by_average(a, b),
        RankOrder::Worst => less_by_average(b, a),
    };
    if behind {
        return false;
    }
    sorts_before(a.key.as_str(), b.key.as_str())
}

/// The positions of `cards` in ranking order.
pub fn rank_order(cards: &Vec<RankCard>, by: RankOrder) -> (order: Vec<usize>)
    requires
        distinct_keys(standings(cards@)),
    ensures
        is_rank_order(order@, standings(cards@), by),
{
    let ghost all = standings(cards@);
    let mut order: Vec<usize> = Vec::new();
    let mut k: usize = 0;
    while k < cards.len()
        invariant
            k <= cards.len(),
            all == standings(cards@),
            distinct_keys(all),
            is_rank_order(order@, all.take(k as int), by),
        decreases cards.len() - k,
    {
        let ghost seen = all.take(k as int);
        let ghost prev = order@;
        let mut at: usize = 0;
        while at < order.len() && card_before(by, &cards[order[at]], &cards[k])
            invariant
                at <= order.len(),
                k < cards.len(),
                order@ == prev,
                all == standings(cards@),
                is_rank_order(prev, all.take(k as int), by),
                forall|a: int|
                    0 <= a < at ==> ranks_before(by, all[(#[trigger] prev[a]) as int], all[k as int]),
            decreases order.len() - at,
        {
            at += 1;
        }
        order.insert(at, k);
        proof {
            let p = at as int;
            let now = order@;
            let next = all.take(k + 1);
            assert(now =~= prev.insert(p, k));
            assert forall|a: int| 0 <= a < now.len() implies (#[trigger] now[a]) < next.len() by {
                if a < p {
                    assert(now[a] == prev[a]);
                } else if a > p {
                    assert(now[a] == prev[a - 1]);
                }
            }
            if p < prev.len() {
                let held = prev[p];
                assert(held < k);
                assert(all[held as int].key != all[k as int].key);
                lemma_ranks_total(by, all[held as int], all[k as int]);
            }
            assert forall|a: int, b: int| 0 <= a < b < now.len() implies ranks_before(
                by,
                next[(#[trigger] now[a]) as int],
                next[(#[trigger] now[b]) as int],
            ) by {
                if b < p {
                    assert(now[a] == prev[a] && now[b] == prev[b]);
                    assert(ranks_before(by, seen[prev[a] as int], seen[prev[b] as int]));
                } else if b == p {
                    assert(now[a] == prev[a]);
                } else if a == p {
                    assert(now[b] == prev[b - 1]);
                    if b - 1 > p {
                        assert(ranks_before(by, seen[prev[p] as int], seen[prev[b - 1] as int]));
                        lemma_ranks_transitive(
                            by,
                            all[k as int],
                            all[prev[p] as int],
                            all[prev[b - 1] as int],
                        );
                    }
                } else if a < p {
                    assert(now[a] == prev[a] && now[b] == prev[b - 1]);
                    assert(ranks_before(by, seen[prev[a] as int], seen[prev[b - 1] as int]));
                } else {
                    assert(now[a] == prev[a - 1] && now[b] == prev[b - 1]);
                    assert(ranks_before(by, seen[prev[a - 1] as int], seen[prev[b - 1] as int]));
                }
            }
            assert forall|j: int| 0 <= j < next.len() implies #[trigger] now.contains(
                j as usize,
            ) by {
                if j < k {
                    assert(prev.contains(j as usize));
                    let a = choose|a: int| 0 <= a < prev.len() && prev[a] == j as usize;
                    if a < p {
                        assert(now[a] == j as usize);
                    } else {
                        assert(now[a + 1] == j as usize);
                    }
                } else {
                    assert(now[p] == j as usize);
                }
            }
        }
        k += 1;
    }
    assert(all.take(k as int) =~= all);
    order
}

} // verus!
