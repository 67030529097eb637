//! Ranked groups: the groups of a tally, ordered by average.

use crate::ranking::{
    is_rank_order, lemma_ranks_irreflexive, lemma_ranks_total, rank_order, ranks_before,
    standings, RankCard, RankOrder, Standing,
};
use crate::tally::{count_for, ints, is_tally_of, sum_for, Tally};
use crate::text::texts;
use vstd::prelude::*;

verus! {

/// The standing of the group of `key` among keyed amounts: the sum of its
/// amounts and the number of its entries.
pub open spec fn group_standing(keys: Seq<Seq<char>>, amounts: Seq<int>, key: Seq<char>) -> Standing {
    Standing { key, total: sum_for(keys, amounts, key), count: count_for(keys, key) }
}

/// Whether some row has the key `key`.
pub open spec fn rows_hold(rows: Seq<Standing>, key: Seq<char>) -> bool {
    exists|a: int| 0 <= a < rows.len() && (#[trigger] rows[a]).key == key
}

/// Whether `rows` are the first `limit` groups of the keyed amounts in
/// ranking order: each row is the standing of a group, each ranks before
/// all that follow, and a group that is left out ranks after every row of
/// a full ranking.
pub open spec fn is_group_ranking(
    rows: Seq<Standing>,
    keys: Seq<Seq<char>>,
    amounts: Seq<int>,
    by: RankOrder,
    limit: nat,
) -> bool {
    &&& rows.len() <= limit
    &&& forall|a: int|
        0 <= a < rows.len() ==> keys.contains((#[trigger] rows[a]).key) && rows[a]
            == group_standing(keys, amounts, rows[a].key)
    &&& forall|a: int, b: int|
        0 <= a < b < rows.len() ==> ranks_before(by, #[trigger] rows[a], #[trigger] rows[b])
    &&& forall|j: int|
        0 <= j < keys.len() ==> rows_hold(rows, #[trigger] keys[j]) || (rows.len() == limit
            && forall|a: int|
            0 <= a < rows.len() ==> ranks_before(
                by,
                #[trigger] rows[a],
                group_standing(keys, amounts, keys[j]),
            ))
}

/// One row of a ranking: the card and the group of the tally it stands
/// for.
pub struct Ranked {
    pub card: RankCard,
    pub group: usize,
}

/// The standings of a list of ranked rows.
pub open spec fn ranked_standings(rows: Seq<Ranked>) -> Seq<Standing> {
    rows.map_values(|r: Ranked| r.card@)
}

/// The first `limit` groups of a tally in ranking order.
///
/// `keys` and `amounts` are the keyed amounts that `groups` is the tally
/// of.
pub fn rank_tally(
    groups: &Tally,
    keys: &Vec<String>,
    amounts: &Vec<i64>,
    by: RankOrder,
    limit: usize,
) -> (rows: Vec<Ranked>)
    requires
        is_tally_of(*groups, texts(keys@), ints(amounts@)),
    ensures
        is_group_ranking(ranked_standings(rows@), texts(keys@), ints(amounts@), by, limit as nat),
        forall|a: int|
            0 <= a < rows.len() ==> (#[trigger] rows[a]).group < groups.keys.len()
                && groups.keys[rows[a].group as int]@ == rows[a].card.key@,
{
    let ghost all_keys = texts(keys@);
    let ghost all_amounts = ints(amounts@);
    let ghost names = texts(groups.keys@);
    let mut cards: Vec<RankCard> = Vec::new();
    let mut g: usize = 0;
    while g < groups.keys.len()
        invariant
            g <= groups.keys.len(),
            is_tally_of(*groups, all_keys, all_amounts),
            names == texts(groups.keys@),
            cards.len() == g,
            forall|i: int|
                0 <= i < g ==> (#[trigger] cards[i])@ == group_standing(
                    all_keys,
                    all_amounts,
                    names[i],
                ),
        decreases groups.keys.len() - g,
    {
        assert(groups.totals[g as int] == sum_for(all_keys, all_amounts, names[g as int]));
        cards.push(
            RankCard { key: groups.keys[g].clone(), total: groups.totals[g], count: groups.counts[g] },
        );
        g += 1;
    }
    let ghost stands = standings(cards@);
    proof {
        assert forall|i: int, j: int| 0 <= i < j < stands.len() implies stands[i].key
            != stands[j].key by {
            assert(cards[i]@.key == names[i]);
            assert(cards[j]@.key == names[j]);
            assert(groups.firsts[i] < groups.firsts[j]);
        }
    }
    let order = rank_order(&cards, by);
    let mut rows: Vec<Ranked> = Vec::new();
    let mut a: usize = 0;
    while a < order.len() && a < limit
        invariant
            a <= order.len(),
            a <= limit,
            rows.len() == a,
            stands == standings(cards@),
            cards.len() == groups.keys.len(),
            names == texts(groups.keys@),
            is_rank_order(order@, stands, by),
            forall|i: int| 0 <= i < cards.len() ==> (#[trigger] cards[i])@.key == names[i],
            forall|i: int|
                0 <= i < a ==> (#[trigger] rows[i]).group == order[i] && rows[i].card@
                    == stands[order[i] as int],
        decreases order.len() - a,
    {
        let at = order[a];
        assert(at < cards.len());
        let card = &cards[at];
        rows.push(
            Ranked {
                card: RankCard { key: card.key.clone(), total: card.total, count: card.count },
                group: at,
            },
        );
        a += 1;
    }
    proof {
        let shown = ranked_standings(rows@);
        assert forall|i: int| 0 <= i < shown.len() implies shown[i] == stands[order[i] as int] by {
            assert(rows[i].card@ == stands[order[i] as int]);
        }
        assert forall|i: int| 0 <= i < shown.len() implies all_keys.contains(
            (#[trigger] shown[i]).key,
        ) && shown[i] == group_standing(all_keys, all_amounts, shown[i].key) by {
            let at = order[i] as int;
            assert(cards[at]@ == group_standing(all_keys, all_amounts, names[at]));
            assert(groups.totals[at] == sum_for(all_keys, all_amounts, names[at]));
            assert(all_keys[groups.firsts[at] as int] == names[at]);
        }
        assert forall|i: int, j: int| 0 <= i < j < shown.len() implies ranks_before(
            by,
            #[trigger] shown[i],
            #[trigger] shown[j],
        ) by {
            assert(ranks_before(by, stands[order[i] as int], stands[order[j] as int]));
        }
        assert forall|j: int| 0 <= j < all_keys.len() implies rows_hold(
            shown,
            #[trigger] all_keys[j],
        ) || (shown.len() == limit && forall|i: int|
            0 <= i < shown.len() ==> ranks_before(
                by,
                #[trigger] shown[i],
                group_standing(all_keys, all_amounts, all_keys[j]),
            )) by {
            let key = all_keys[j];
            assert(names.contains(key));
            let at = choose|at: int| 0 <= at < names.len() && names[at] == key;
            assert(cards[at]@ == group_standing(all_keys, all_amounts, names[at]));
            assert(order@.contains(at as usize));
            let p = choose|p: int| 0 <= p < order.len() && order[p] == at as usize;
            if p < shown.len() {
                assert(shown[p].key == key);
            } else {
                assert forall|i: int| 0 <= i < shown.len() implies ranks_before(
                    by,
                    #[trigger] shown[i],
                    group_standing(all_keys, all_amounts, key),
                ) by {
                    assert(ranks_before(by, stands[order[i] as int], stands[order[p] as int]));
                }
            }
        }
        assert forall|i: int| 0 <= i < rows.len() implies (#[trigger] rows[i]).group
            < groups.keys.len() && groups.keys[rows[i].group as int]@ == rows[i].card.key@ by {
            let at = order[i] as int;
            assert(cards[at]@.key == names[at]);
        }
    }
    rows
}

/// Two rankings of the same keyed amounts agree at every position that
/// both have.
proof fn lemma_rankings_agree_at(
    a: Seq<Standing>,
    b: Seq<Standing>,
    keys: Seq<Seq<char>>,
    amounts: Seq<int>,
    by: RankOrder,
    limit: nat,
    at: int,
)
    requires
        is_group_ranking(a, keys, amounts, by, limit),
        is_group_ranking(b, keys, amounts, by, limit),
        0 <= at < a.len(),
        at < b.len(),
    ensures
        a[at] == b[at],
    decreases at, 1int,
{
    let x = a[at];
    let y = b[at];
    if x != y {
        assert(keys.contains(x.key) && x == group_standing(keys, amounts, x.key));
        assert(keys.contains(y.key) && y == group_standing(keys, amounts, y.key));
        lemma_ranks_total(by, x, y);
        lemma_row_not_ahead(a, b, keys, amounts, by, limit, at);
        lemma_row_not_ahead(b, a, keys, amounts, by, limit, at);
    }
}

/// The row at a position of one ranking does not rank before the row at
/// the same position of another ranking of the same keyed amounts: the
/// other ranking would have to hold it earlier, later or not at all, and
/// it can do none of these.
proof fn lemma_row_not_ahead(
    a: Seq<Standing>,
    b: Seq<Standing>,
    keys: Seq<Seq<char>>,
    amounts: Seq<int>,
    by: RankOrder,
    limit: nat,
    at: int,
)
    requires
        is_group_ranking(a, keys, amounts, by, limit),
        is_group_ranking(b, keys, amounts, by, limit),
        0 <= at < a.len(),
        at < b.len(),
    ensures
        !ranks_before(by, b[at], a[at]),
    decreases at, 0int,
{
    let x = b[at];
    let y = a[at];
    if ranks_before(by, x, y) {
        assert(keys.contains(x.key) && x == group_standing(keys, amounts, x.key));
        let j = choose|j: int| 0 <= j < keys.len() && keys[j] == x.key;
        lemma_ranks_irreflexive(by, x);
        assert(x.key != y.key);
        lemma_ranks_total(by, x, y);
        if rows_hold(a, keys[j]) {
            let m = choose|m: int| 0 <= m < a.len() && (#[trigger] a[m]).key == x.key;
            assert(keys.contains(a[m].key) && a[m] == group_standing(keys, amounts, a[m].key));
            assert(a[m] == x);
            if m < at {
                lemma_rankings_agree_at(a, b, keys, amounts, by, limit, m);
                assert(ranks_before(by, b[m], b[at]));
            } else if m > at {
                assert(ranks_before(by, a[at], a[m]));
            }
        } else {
            assert(ranks_before(by, a[at], group_standing(keys, amounts, keys[j])));
        }
    }
}

/// Of two rankings of the same keyed amounts, the second is no longer
/// than the first.
proof fn lemma_no_further_row(
    a: Seq<Standing>,
    b: Seq<Standing>,
    keys: Seq<Seq<char>>,
    amounts: Seq<int>,
    by: RankOrder,
    limit: nat,
)
    requires
        is_group_ranking(a, keys, amounts, by, limit),
        is_group_ranking(b, keys, amounts, by, limit),
    ensures
        b.len() <= a.len(),
{
    if a.len() < b.len() {
        let z = b[a.len() as int];
        assert(keys.contains(z.key) && z == group_standing(keys, amounts, z.key));
        let j = choose|j: int| 0 <= j < keys.len() && keys[j] == z.key;
        assert(rows_hold(a, keys[j]));
        let m = choose|m: int| 0 <= m < a.len() && (#[trigger] a[m]).key == z.key;
        assert(keys.contains(a[m].key) && a[m] == group_standing(keys, amounts, a[m].key));
        lemma_rankings_agree_at(a, b, keys, amounts, by, limit, m);
        assert(ranks_before(by, b[m], b[a.len() as int]));
        lemma_ranks_irreflexive(by, z);
    }
}

/// A ranking is determined by what it ranks: two rankings of the same
/// keyed amounts, in the same order and with the same limit, are equal.
pub proof fn lemma_group_ranking_unique(
    a: Seq<Standing>,
    b: Seq<Standing>,
    keys: Seq<Seq<char>>,
    amounts: Seq<int>,
    by: RankOrder,
    limit: nat,
)
    requires
        is_group_ranking(a, keys, amounts, by, limit),
        is_group_ranking(b, keys, amounts, by, limit),
    ensures
        a == b,
{
    lemma_no_further_row(a, b, keys, amounts, by, limit);
    lemma_no_further_row(b, a, keys, amounts, by, limit);
    assert forall|i: int| 0 <= i < a.len() implies a[i] == b[i] by {
        lemma_rankings_agree_at(a, b, keys, amounts, by, limit, i);
    }
    assert(a =~= b);
}

} // verus!
