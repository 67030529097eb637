//! Country rollups.
//!
//! Every round of a counted game that shows a country adds its points to
//! that country, under the country code in lower case. Rounds are shared by
//! all players of a game, so a round counts once whoever answered it.

use crate::fact::{RoundFact, MAX_GAMES, MAX_ROUNDS};
use crate::groups::{is_group_ranking, rank_tally, ranked_standings, Ranked};
use crate::model::{CountryStat, StoredGame};
use crate::ranking::{RankOrder, Standing};
use crate::select::{all_wf, Pick};
use crate::tally::{abs_sum, ints, tally};
use crate::text::{lowercase_of, texts, to_lowercase};
use vstd::prelude::*;

verus! {

/// The country codes, in lower case, of the rounds that show a country,
/// in round order.
pub open spec fn round_codes(rounds: Seq<RoundFact>) -> Seq<Seq<char>>
    decreases rounds.len(),
{
    if rounds.len() == 0 {
        Seq::empty()
    } else {
        let before = round_codes(rounds.drop_last());
        match rounds.last().country_code {
            Some(code) => before.push(lowercase_of(code@)),
            None => before,
        }
    }
}

/// The points of the rounds that show a country, in round order.
pub open spec fn round_code_points(rounds: Seq<RoundFact>) -> Seq<int>
    decreases rounds.len(),
{
    if rounds.len() == 0 {
        Seq::empty()
    } else {
        let before = round_code_points(rounds.drop_last());
        match rounds.last().country_code {
            Some(code) => before.push(rounds.last().points as int),
            None => before,
        }
    }
}

/// The country codes of all rounds of the picked games, game by game.
pub open spec fn picked_codes(games: Seq<StoredGame>, picks: Seq<Pick>) -> Seq<Seq<char>>
    decreases picks.len(),
{
    if picks.len() == 0 {
        Seq::empty()
    } else {
        picked_codes(games, picks.drop_last()) + round_codes(
            games[picks.last().index as int].fact.rounds@,
        )
    }
}

/// The points of all rounds of the picked games that show a country, game
/// by game.
pub open spec fn picked_code_points(games: Seq<StoredGame>, picks: Seq<Pick>) -> Seq<int>
    decreases picks.len(),
{
    if picks.len() == 0 {
        Seq::empty()
    } else {
        picked_code_points(games, picks.drop_last()) + round_code_points(
            games[picks.last().index as int].fact.rounds@,
        )
    }
}

/// Every pick points at a stored game.
pub open spec fn picks_in_range(picks: Seq<Pick>, games: int) -> bool {
    forall|k: int| 0 <= k < picks.len() ==> (#[trigger] picks[k]).index < games
}

/// Amounts that each lie within `bound` lie together within `bound` times
/// their number.
pub proof fn lemma_abs_sum_bound(amounts: Seq<int>, bound: int)
    requires
        bound >= 0,
        forall|i: int| 0 <= i < amounts.len() ==> -bound <= #[trigger] amounts[i] <= bound,
    ensures
        0 <= abs_sum(amounts) <= amounts.len() * bound,
    decreases amounts.len(),
{
    if amounts.len() > 0 {
        let front = amounts.drop_last();
        assert forall|i: int| 0 <= i < front.len() implies -bound <= #[trigger] front[i]
            <= bound by {
            assert(front[i] == amounts[i]);
        }
        lemma_abs_sum_bound(front, bound);
        assert(-bound <= amounts[amounts.len() - 1] <= bound);
        assert(front.len() * bound + bound == amounts.len() * bound) by (nonlinear_arith)
            requires
                front.len() + 1 == amounts.len(),
        ;
    }
}

/// The coded rounds of one game are as many as its codes, and no more
/// than its rounds; each amount is the points of a round.
proof fn lemma_round_codes(rounds: Seq<RoundFact>)
    ensures
        round_codes(rounds).len() == round_code_points(rounds).len(),
        round_codes(rounds).len() <= rounds.len(),
        forall|i: int|
            0 <= i < round_code_points(rounds).len() ==> -0x8000_0000 <= #[trigger] round_code_points(
                rounds,
            )[i] <= 0x8000_0000,
    decreases rounds.len(),
{
    if rounds.len() > 0 {
        lemma_round_codes(rounds.drop_last());
    }
}

/// The country codes and points of all rounds of the picked games.
pub fn coded_rounds(games: &Vec<StoredGame>, picks: &Vec<Pick>) -> (coded: (Vec<String>, Vec<i64>))
    requires
        all_wf(games@),
        picks_in_range(picks@, games.len() as int),
        picks.len() <= MAX_GAMES,
    ensures
        texts(coded.0@) == picked_codes(games@, picks@),
        ints(coded.1@) == picked_code_points(games@, picks@),
        coded.0.len() == coded.1.len(),
        abs_sum(ints(coded.1@)) <= i64::MAX,
{
    let mut codes: Vec<String> = Vec::new();
    let mut points: Vec<i64> = Vec::new();
    let mut k: usize = 0;
    assert(picks@.take(0) =~= Seq::<Pick>::empty());
    assert(texts(codes@) =~= Seq::<Seq<char>>::empty());
    assert(ints(points@) =~= Seq::<int>::empty());
    while k < picks.len()
        invariant
            k <= picks.len(),
            all_wf(games@),
            picks_in_range(picks@, games.len() as int),
            texts(codes@) == picked_codes(games@, picks@.take(k as int)),
            ints(points@) == picked_code_points(games@, picks@.take(k as int)),
            codes.len() == points.len(),
            codes.len() <= k * MAX_ROUNDS,
            forall|i: int|
                0 <= i < points.len() ==> -0x8000_0000 <= #[trigger] ints(points@)[i]
                    <= 0x8000_0000,
        decreases picks.len() - k,
    {
        let pick = picks[k];
        assert(picks@[k as int].index < games.len());
        let rounds = &games[pick.index].fact.rounds;
        assert(games[pick.index as int].fact.wf());
        let ghost codes_before = texts(codes@);
        let ghost points_before = ints(points@);
        let mut r: usize = 0;
        assert(rounds@.take(0) =~= Seq::<RoundFact>::empty());
        assert(codes_before + Seq::<Seq<char>>::empty() =~= codes_before);
        assert(points_before + Seq::<int>::empty() =~= points_before);
        while r < rounds.len()
            invariant
                r <= rounds.len(),
                rounds.len() <= MAX_ROUNDS,
                k < picks.len(),
                texts(codes@) == codes_before + round_codes(rounds@.take(r as int)),
                ints(points@) == points_before + round_code_points(rounds@.take(r as int)),
                codes.len() == points.len(),
                codes_before.len() <= k * MAX_ROUNDS,
                codes.len() <= codes_before.len() + r,
                forall|i: int|
                    0 <= i < points.len() ==> -0x8000_0000 <= #[trigger] ints(points@)[i]
                        <= 0x8000_0000,
            decreases rounds.len() - r,
        {
            assert(rounds@.take(r + 1).drop_last() =~= rounds@.take(r as int));
            match &rounds[r].country_code {
                Some(code) => {
                    let lower = to_lowercase(code.as_str());
                    let amount = rounds[r].points as i64;
                    proof {
                        assert(texts(codes@.push(lower)) =~= texts(codes@).push(lower@));
                        assert(ints(points@.push(amount)) =~= ints(points@).push(amount as int));
                        assert(codes_before + round_codes(rounds@.take(r as int)).push(lower@)
                            =~= (codes_before + round_codes(rounds@.take(r as int))).push(lower@));
                        assert(points_before + round_code_points(rounds@.take(r as int)).push(
                            amount as int,
                        ) =~= (points_before + round_code_points(rounds@.take(r as int))).push(
                            amount as int,
                        ));
                    }
                    codes.push(lower);
                    points.push(amount);
                },
                None => {},
            }
            r += 1;
        }
        proof {
            assert(rounds@.take(r as int) =~= rounds@);
            assert(picks@.take(k + 1).drop_last() =~= picks@.take(k as int));
            assert(picks@.take(k + 1).last() == pick);
            assert(k * MAX_ROUNDS + MAX_ROUNDS == (k + 1) * MAX_ROUNDS) by (nonlinear_arith);
        }
        k += 1;
    }
    proof {
        assert(picks@.take(k as int) =~= picks@);
        lemma_abs_sum_bound(ints(points@), 0x8000_0000);
        assert(points.len() * 0x8000_0000 <= 4_000_000_000 * 0x8000_0000) by (nonlinear_arith)
            requires
                points.len() <= k * MAX_ROUNDS,
                k <= MAX_GAMES,
        ;
    }
    (codes, points)
}

/// The standings of a list of country rollups.
pub open spec fn country_standings(rows: Seq<CountryStat>) -> Seq<Standing> {
    rows.map_values(|c: CountryStat| c@)
}

/// The first `limit` countries of the picked games in ranking order.
pub open spec fn is_country_ranking(
    rows: Seq<CountryStat>,
    games: Seq<StoredGame>,
    picks: Seq<Pick>,
    by: RankOrder,
    limit: nat,
) -> bool {
    is_group_ranking(
        country_standings(rows),
        picked_codes(games, picks),
        picked_code_points(games, picks),
        by,
        limit,
    )
}

/// The country rollups of ranked rows.
pub fn country_rows(ranked: Vec<Ranked>) -> (rows: Vec<CountryStat>)
    ensures
        country_standings(rows@) == ranked_standings(ranked@),
{
    let mut rows: Vec<CountryStat> = Vec::new();
    let mut i: usize = 0;
    let ghost want = ranked_standings(ranked@);
    while i < ranked.len()
        invariant
            i <= ranked.len(),
            want == ranked_standings(ranked@),
            country_standings(rows@) == want.take(i as int),
        decreases ranked.len() - i,
    {
        let card = &ranked[i].card;
        let row = CountryStat {
            country_code: card.key.clone(),
            total_score: card.total,
            count: card.count,
        };
        proof {
            assert(country_standings(rows@.push(row)) =~= country_standings(rows@).push(row@));
            assert(want.take(i + 1) =~= want.take(i as int).push(row@));
        }
        rows.push(row);
        i += 1;
    }
    assert(want.take(i as int) =~= want);
    rows
}

/// The countries of the picked games: the best `limit` and the worst
/// `limit` by average.
pub fn rank_countries(games: &Vec<StoredGame>, picks: &Vec<Pick>, limit: usize) -> (out: (
    Vec<CountryStat>,
    Vec<CountryStat>,
))
    requires
        all_wf(games@),
        picks_in_range(picks@, games.len() as int),
        picks.len() <= MAX_GAMES,
    ensures
        is_country_ranking(out.0@, games@, picks@, RankOrder::Best, limit as nat),
        is_country_ranking(out.1@, games@, picks@, RankOrder::Worst, limit as nat),
{
    let (codes, points) = coded_rounds(games, picks);
    let groups = tally(&codes, &points);
    let best = rank_tally(&groups, &codes, &points, RankOrder::Best, limit);
    let worst = rank_tally(&groups, &codes, &points, RankOrder::Worst, limit);
    (country_rows(best), country_rows(worst))
}

} // verus!
