//! What every scope adds up over its picked games: the totals, the score
//! history and the list of games.

use crate::country::{lemma_abs_sum_bound, picks_in_range};
use crate::fact::{codes_of, score_limit, GameFact, MAX_GAMES};
use crate::model::{
    info_ids, info_names, GameSummary, MatchRecord, PlayerInfo, ScorePoint, StoredGame,
};
use crate::payload::{clone_text, opt_text};
use crate::select::Pick;
use crate::tally::{ints, sum_amounts, total_of};
use crate::text::texts;
use vstd::prelude::*;

verus! {

/// The duration of a game in seconds; 0 where the payload states none.
pub open spec fn duration_of(fact: GameFact) -> int {
    match fact.total_duration {
        Some(d) => d as int,
        None => 0,
    }
}

/// The scores of the picks, in order.
pub open spec fn pick_scores(picks: Seq<Pick>) -> Seq<int> {
    picks.map_values(|p: Pick| p.score as int)
}

/// The durations of the picked games, in order.
pub open spec fn pick_durations(games: Seq<StoredGame>, picks: Seq<Pick>) -> Seq<int> {
    picks.map_values(|p: Pick| duration_of(games[p.index as int].fact))
}

/// Every pick's score lies within the score limit.
pub open spec fn picks_bounded(picks: Seq<Pick>) -> bool {
    forall|k: int|
        0 <= k < picks.len() ==> -score_limit() <= (#[trigger] picks[k]).score <= score_limit()
}

/// The totals of a scope.
pub struct Totals {
    pub games: u64,
    pub score: i64,
    pub duration: i64,
}

/// The number of picked games, their scores together and their durations
/// together.
pub fn add_up(games: &Vec<StoredGame>, picks: &Vec<Pick>) -> (totals: Totals)
    requires
        picks_in_range(picks@, games.len() as int),
        picks_bounded(picks@),
        picks.len() <= MAX_GAMES,
    ensures
        totals.games == picks.len(),
        totals.score == total_of(pick_scores(picks@)),
        totals.duration == total_of(pick_durations(games@, picks@)),
{
    let ghost want_scores = pick_scores(picks@);
    let ghost want_durations = pick_durations(games@, picks@);
    let mut scores: Vec<i64> = Vec::new();
    let mut durations: Vec<i64> = Vec::new();
    let mut k: usize = 0;
    while k < picks.len()
        invariant
            k <= picks.len(),
            picks_in_range(picks@, games.len() as int),
            picks_bounded(picks@),
            want_scores == pick_scores(picks@),
            want_durations == pick_durations(games@, picks@),
            ints(scores@) == want_scores.take(k as int),
            ints(durations@) == want_durations.take(k as int),
        decreases picks.len() - k,
    {
        let pick = picks[k];
        assert(picks@[k as int].index < games.len());
        let duration: i64 = match games[pick.index].fact.total_duration {
            Some(d) => d as i64,
            None => 0,
        };
        proof {
            assert(ints(scores@.push(pick.score)) =~= ints(scores@).push(pick.score as int));
            assert(ints(durations@.push(duration)) =~= ints(durations@).push(duration as int));
            assert(want_scores.take(k + 1) =~= want_scores.take(k as int).push(pick.score as int));
            assert(want_durations.take(k + 1) =~= want_durations.take(k as int).push(
                duration as int,
            ));
        }
        scores.push(pick.score);
        durations.push(duration);
        k += 1;
    }
    proof {
        assert(want_scores.take(k as int) =~= want_scores);
        assert(want_durations.take(k as int) =~= want_durations);
        assert forall|i: int| 0 <= i < want_scores.len() implies -score_limit()
            <= #[trigger] want_scores[i] <= score_limit() by {
            assert(-score_limit() <= picks[i].score <= score_limit());
        }
        lemma_abs_sum_bound(want_scores, score_limit());
        lemma_abs_sum_bound(want_durations, 0x8000_0000);
        assert(want_scores.len() * score_limit() <= 4_000_000 * score_limit()) by (nonlinear_arith)
            requires
                want_scores.len() <= 4_000_000,
                score_limit() >= 0,
        ;
        assert(want_durations.len() * 0x8000_0000 <= 4_000_000 * 0x8000_0000) by (nonlinear_arith)
            requires
                want_durations.len() <= 4_000_000,
        ;
    }
    Totals {
        games: picks.len() as u64,
        score: sum_amounts(&scores),
        duration: sum_amounts(&durations),
    }
}

/// Whether `point` is the history point of a game counted with `score`.
pub open spec fn is_score_point(point: ScorePoint, fact: GameFact, score: i64) -> bool {
    &&& point.date@ == fact.played_at@
    &&& point.score == score
    &&& point.map_name@ == match fact.map_name {
        Some(name) => name@,
        None => Seq::empty(),
    }
}

/// Whether `history` holds one point for each picked game, in order.
pub open spec fn is_history(history: Seq<ScorePoint>, games: Seq<StoredGame>, picks: Seq<Pick>) -> bool {
    &&& history.len() == picks.len()
    &&& forall|k: int|
        0 <= k < history.len() ==> is_score_point(
            #[trigger] history[k],
            games[picks[k].index as int].fact,
            picks[k].score,
        )
}

/// The score history of the picked games: one point for each, in order.
pub fn score_history(games: &Vec<StoredGame>, picks: &Vec<Pick>) -> (history: Vec<ScorePoint>)
    requires
        picks_in_range(picks@, games.len() as int),
    ensures
        is_history(history@, games@, picks@),
{
    let mut history: Vec<ScorePoint> = Vec::new();
    let mut k: usize = 0;
    while k < picks.len()
        invariant
            k <= picks.len(),
            picks_in_range(picks@, games.len() as int),
            history.len() == k,
            forall|j: int|
                0 <= j < k ==> is_score_point(
                    #[trigger] history[j],
                    games[picks[j].index as int].fact,
                    picks[j].score,
                ),
        decreases picks.len() - k,
    {
        let pick = picks[k];
        assert(picks@[k as int].index < games.len());
        let fact = &games[pick.index].fact;
        let map_name = match &fact.map_name {
            Some(name) => name.clone(),
            None => String::new(),
        };
        history.push(ScorePoint { date: fact.played_at.clone(), score: pick.score, map_name });
        k += 1;
    }
    history
}

/// Whether `summary` lists `game` with the score `score` and the players
/// `ids`, named `names`.
pub open spec fn is_summary(
    summary: GameSummary,
    game: StoredGame,
    score: Option<i64>,
    ids: Seq<Seq<char>>,
    names: Seq<Seq<char>>,
) -> bool {
    &&& summary.id == game.record.id
    &&& opt_text(summary.game_id) == opt_text(game.record.game_id)
    &&& opt_text(summary.map_name) == opt_text(game.record.map_name)
    &&& summary.score == score
    &&& summary.round_time == game.record.round_time
    &&& summary.total_duration == game.record.total_duration
    &&& summary.played_at@ == game.fact.played_at@
    &&& info_ids(summary.players@) == ids
    &&& info_names(summary.players@) == names
    &&& texts(summary.country_codes@) == codes_of(game.fact.rounds@)
    &&& summary.round_count == game.fact.rounds.len()
    &&& summary.max_score == game.fact.rounds.len() * 5000
    &&& summary.is_finished == game.fact.finished
}

/// The summary of one stored game, with the score and the players that
/// the listing shows for it.
pub fn summarize(game: &StoredGame, score: Option<i64>, players: Vec<PlayerInfo>) -> (summary:
    GameSummary)
    requires
        game.fact.wf(),
    ensures
        is_summary(summary, *game, score, info_ids(players@), info_names(players@)),
{
    let record: &MatchRecord = &game.record;
    GameSummary {
        id: record.id,
        game_id: clone_text(&record.game_id),
        map_name: clone_text(&record.map_name),
        score,
        round_time: record.round_time,
        total_duration: record.total_duration,
        played_at: game.fact.played_at.clone(),
        players,
        country_codes: game.fact.country_codes(),
        round_count: game.fact.round_count(),
        max_score: game.fact.max_score(),
        is_finished: game.fact.finished,
    }
}

} // verus!
