//! Team rollups.
//!
//! Every counted game with a large enough roster is an entry of its team,
//! under the team's canonical key. A team's members and their names are
//! those of its first entry.

use crate::country::{lemma_abs_sum_bound, picks_in_range};
use crate::fact::{score_limit, MAX_GAMES};
use crate::groups::{is_group_ranking, rank_tally, ranked_standings};
use crate::identity::AliasMap;
use crate::model::{clone_infos, info_names, PlayerInfo, StoredGame, TeamStatSimple, TeamStats};
use crate::names::{build_team, is_team_of, raw_ids_of, raw_keys, team_name_of, Team};
use crate::ranking::{RankOrder, Standing};
use crate::rollup::{pick_durations, pick_scores, picks_bounded};
use crate::select::Pick;
use crate::tally::{first_of, ints, is_tally_of, sum_for, tally};
use crate::team::{build_team_key, team_key_of};
use crate::text::{joined, position_of, texts};
use crate::text_map::TextMap;
use vstd::prelude::*;

verus! {

/// The picks whose game has at least `least` players, in order.
pub open spec fn roster_picks(games: Seq<StoredGame>, picks: Seq<Pick>, least: nat) -> Seq<Pick>
    decreases picks.len(),
{
    if picks.len() == 0 {
        Seq::empty()
    } else {
        let before = roster_picks(games, picks.drop_last(), least);
        if games[picks.last().index as int].fact.players.len() >= least {
            before.push(picks.last())
        } else {
            before
        }
    }
}

/// The team key of each entry's game.
pub open spec fn entry_keys(
    games: Seq<StoredGame>,
    entries: Seq<Pick>,
    links: Map<Seq<char>, Seq<char>>,
) -> Seq<Seq<char>> {
    entries.map_values(
        |p: Pick| team_key_of(links, raw_keys(games[p.index as int].fact.players@)),
    )
}

/// The picks that are team entries: those whose game has at least `least`
/// players.
pub fn team_entries(games: &Vec<StoredGame>, picks: &Vec<Pick>, least: usize) -> (entries: Vec<Pick>)
    requires
        picks_in_range(picks@, games.len() as int),
        picks_bounded(picks@),
    ensures
        entries@ == roster_picks(games@, picks@, least as nat),
        picks_in_range(entries@, games.len() as int),
        picks_bounded(entries@),
        entries.len() <= picks.len(),
{
    let mut entries: Vec<Pick> = Vec::new();
    let mut k: usize = 0;
    assert(picks@.take(0) =~= Seq::<Pick>::empty());
    while k < picks.len()
        invariant
            k <= picks.len(),
            picks_in_range(picks@, games.len() as int),
            picks_bounded(picks@),
            entries@ == roster_picks(games@, picks@.take(k as int), least as nat),
            picks_in_range(entries@, games.len() as int),
            picks_bounded(entries@),
            entries.len() <= k,
        decreases picks.len() - k,
    {
        assert(picks@.take(k + 1).drop_last() =~= picks@.take(k as int));
        let pick = picks[k];
        assert(picks@[k as int].index < games.len());
        assert(-score_limit() <= picks@[k as int].score <= score_limit());
        if games[pick.index].fact.players.len() >= least {
            entries.push(pick);
        }
        k += 1;
    }
    assert(picks@.take(k as int) =~= picks@);
    entries
}

/// The team keys, scores and durations of the entries.
pub fn keyed_entries(games: &Vec<StoredGame>, entries: &Vec<Pick>, aliases: &AliasMap) -> (keyed: (
    Vec<String>,
    Vec<i64>,
    Vec<i64>,
))
    requires
        aliases.wf(),
        picks_in_range(entries@, games.len() as int),
    ensures
        texts(keyed.0@) == entry_keys(games@, entries@, aliases@),
        ints(keyed.1@) == pick_scores(entries@),
        ints(keyed.2@) == pick_durations(games@, entries@),
{
    let ghost want_keys = entry_keys(games@, entries@, aliases@);
    let ghost want_scores = pick_scores(entries@);
    let ghost want_durations = pick_durations(games@, entries@);
    let mut keys: Vec<String> = Vec::new();
    let mut scores: Vec<i64> = Vec::new();
    let mut durations: Vec<i64> = Vec::new();
    let mut k: usize = 0;
    while k < entries.len()
        invariant
            k <= entries.len(),
            aliases.wf(),
            picks_in_range(entries@, games.len() as int),
            want_keys == entry_keys(games@, entries@, aliases@),
            want_scores == pick_scores(entries@),
            want_durations == pick_durations(games@, entries@),
            texts(keys@) == want_keys.take(k as int),
            ints(scores@) == want_scores.take(k as int),
            ints(durations@) == want_durations.take(k as int),
        decreases entries.len() - k,
    {
        let pick = entries[k];
        assert(entries@[k as int].index < games.len());
        let fact = &games[pick.index].fact;
        let raw = raw_ids_of(&fact.players);
        let key = build_team_key(&raw, aliases).key;
        let duration: i64 = match fact.total_duration {
            Some(d) => d as i64,
            None => 0,
        };
        proof {
            assert(texts(keys@.push(key)) =~= texts(keys@).push(key@));
            assert(ints(scores@.push(pick.score)) =~= ints(scores@).push(pick.score as int));
            assert(ints(durations@.push(duration)) =~= ints(durations@).push(duration as int));
            assert(want_keys.take(k + 1) =~= want_keys.take(k as int).push(key@));
            assert(want_scores.take(k + 1) =~= want_scores.take(k as int).push(pick.score as int));
            assert(want_durations.take(k + 1) =~= want_durations.take(k as int).push(
                duration as int,
            ));
        }
        keys.push(key);
        scores.push(pick.score);
        durations.push(duration);
        k += 1;
    }
    proof {
        assert(want_keys.take(k as int) =~= want_keys);
        assert(want_scores.take(k as int) =~= want_scores);
        assert(want_durations.take(k as int) =~= want_durations);
    }
    (keys, scores, durations)
}

/// The standings of a list of team rollups.
pub open spec fn team_standings(rows: Seq<TeamStats>) -> Seq<Standing> {
    rows.map_values(|t: TeamStats| t@)
}

/// Whether a team's key, name and members are those of a team among the
/// entries: the members and their names are those of the roster of the
/// team's first entry, and the name is the members' names joined.
pub open spec fn is_team_card(
    team_key: String,
    team_name: String,
    members: Vec<PlayerInfo>,
    games: Seq<StoredGame>,
    entries: Seq<Pick>,
    links: Map<Seq<char>, Seq<char>>,
    directory: Map<Seq<char>, Seq<char>>,
) -> bool {
    let keys = entry_keys(games, entries, links);
    let first = first_of(keys, team_key@);
    &&& 0 <= first < entries.len()
    &&& is_team_of(
        Team { key: team_key, members },
        games[entries[first].index as int].fact.players@,
        links,
        directory,
    )
    &&& team_name@ == joined(info_names(members@), ", "@)
}

/// Whether `row` is the rollup of a team among the entries: its games,
/// scores and durations added up, its members and their names those of
/// the roster of its first entry.
pub open spec fn is_team_row(
    row: TeamStats,
    games: Seq<StoredGame>,
    entries: Seq<Pick>,
    links: Map<Seq<char>, Seq<char>>,
    directory: Map<Seq<char>, Seq<char>>,
) -> bool {
    &&& is_team_card(row.team_key, row.team_name, row.members, games, entries, links, directory)
    &&& row.total_duration == sum_for(
        entry_keys(games, entries, links),
        pick_durations(games, entries),
        row.team_key@,
    )
}

/// Whether `rows` are the first `limit` teams of the entries, the best
/// average first.
pub open spec fn is_team_ranking(
    rows: Seq<TeamStats>,
    games: Seq<StoredGame>,
    entries: Seq<Pick>,
    links: Map<Seq<char>, Seq<char>>,
    directory: Map<Seq<char>, Seq<char>>,
    limit: nat,
) -> bool {
    &&& is_group_ranking(
        team_standings(rows),
        entry_keys(games, entries, links),
        pick_scores(entries),
        RankOrder::Best,
        limit,
    )
    &&& forall|a: int|
        0 <= a < rows.len() ==> is_team_row(#[trigger] rows[a], games, entries, links, directory)
}

/// The first `limit` teams of the entries, the best average first.
pub fn rank_teams(
    games: &Vec<StoredGame>,
    entries: &Vec<Pick>,
    aliases: &AliasMap,
    directory: &TextMap,
    limit: usize,
) -> (rows: Vec<TeamStats>)
    requires
        aliases.wf(),
        directory.wf(),
        picks_in_range(entries@, games.len() as int),
        picks_bounded(entries@),
        entries.len() <= MAX_GAMES,
    ensures
        is_team_ranking(rows@, games@, entries@, aliases@, directory@, limit as nat),
{
    let (keys, scores, durations) = keyed_entries(games, entries, aliases);
    let ghost all_keys = entry_keys(games@, entries@, aliases@);
    let ghost all_scores = pick_scores(entries@);
    let ghost all_durations = pick_durations(games@, entries@);
    proof {
        assert forall|i: int| 0 <= i < all_scores.len() implies -score_limit()
            <= #[trigger] all_scores[i] <= score_limit() by {
            assert(-score_limit() <= entries[i].score <= score_limit());
        }
        lemma_abs_sum_bound(all_scores, score_limit());
        lemma_abs_sum_bound(all_durations, 0x8000_0000);
        assert(all_scores.len() * score_limit() <= 4_000_000 * score_limit()) by (nonlinear_arith)
            requires
                all_scores.len() <= 4_000_000,
                score_limit() >= 0,
        ;
        assert(all_durations.len() * 0x8000_0000 <= 4_000_000 * 0x8000_0000) by (nonlinear_arith)
            requires
                all_durations.len() <= 4_000_000,
        ;
        assert(texts(keys@).len() == keys.len());
        assert(ints(scores@).len() == scores.len());
        assert(ints(durations@).len() == durations.len());
    }
    let by_score = tally(&keys, &scores);
    let by_duration = tally(&keys, &durations);
    let ranked = rank_tally(&by_score, &keys, &scores, RankOrder::Best, limit);
    let ghost want = ranked_standings(ranked@);
    let mut rows: Vec<TeamStats> = Vec::new();
    let mut a: usize = 0;
    while a < ranked.len()
        invariant
            a <= ranked.len(),
            aliases.wf(),
            directory.wf(),
            picks_in_range(entries@, games.len() as int),
            all_keys == entry_keys(games@, entries@, aliases@),
            all_durations == pick_durations(games@, entries@),
            texts(keys@) == all_keys,
            ints(scores@) == all_scores,
            ints(durations@) == all_durations,
            is_tally_of(by_score, all_keys, all_scores),
            is_tally_of(by_duration, all_keys, all_durations),
            want == ranked_standings(ranked@),
            forall|i: int|
                0 <= i < ranked.len() ==> (#[trigger] ranked[i]).group < by_score.keys.len()
                    && by_score.keys[ranked[i].group as int]@ == ranked[i].card.key@,
            team_standings(rows@) == want.take(a as int),
            forall|i: int|
                0 <= i < a ==> is_team_row(#[trigger] rows[i], games@, entries@, aliases@, directory@),
        decreases ranked.len() - a,
    {
        let row = &ranked[a];
        let group = row.group;
        let key = row.card.key.clone();
        let ghost names = texts(by_score.keys@);
        proof {
            assert(names[group as int] == key@);
            assert(by_score.totals[group as int] == sum_for(all_keys, all_scores, names[group as int]));
            assert(all_keys[by_score.firsts[group as int] as int] == key@);
        }
        let first = by_score.firsts[group];
        assert(first < entries.len());
        let pick = entries[first];
        assert(entries@[first as int].index < games.len());
        let team = build_team(&games[pick.index].fact.players, aliases, directory);
        let total_duration = match position_of(&by_duration.keys, key.as_str()) {
            Some(at) => {
                proof {
                    let dnames = texts(by_duration.keys@);
                    assert(dnames[at as int] == key@);
                    assert(by_duration.totals[at as int] == sum_for(
                        all_keys,
                        all_durations,
                        dnames[at as int],
                    ));
                }
                by_duration.totals[at]
            },
            None => {
                proof {
                    let dnames = texts(by_duration.keys@);
                    assert(dnames.contains(all_keys[first as int]));
                    let w = choose|w: int| 0 <= w < dnames.len() && dnames[w] == key@;
                    assert(by_duration.keys[w]@ == key@);
                }
                0
            },
        };
        let team_name = team_name_of(&team.members);
        let out = TeamStats {
            team_key: key,
            team_name,
            members: team.members,
            games_played: row.card.count,
            total_score: row.card.total,
            total_duration,
        };
        proof {
            assert(out@ == row.card@);
            assert(team_standings(rows@.push(out)) =~= team_standings(rows@).push(out@));
            assert(want.take(a + 1) =~= want.take(a as int).push(out@));
            assert(is_team_row(out, games@, entries@, aliases@, directory@));
        }
        rows.push(out);
        a += 1;
    }
    assert(want.take(a as int) =~= want);
    rows
}

/// The standings of a list of short team rollups.
pub open spec fn simple_standings(rows: Seq<TeamStatSimple>) -> Seq<Standing> {
    rows.map_values(
        |t: TeamStatSimple|
            Standing {
                key: t.team_key@,
                total: t.total_score as int,
                count: t.games_played as nat,
            },
    )
}

/// Whether `rows` are the first `limit` teams of the entries, the best
/// average first, in their short form.
pub open spec fn is_simple_ranking(
    rows: Seq<TeamStatSimple>,
    games: Seq<StoredGame>,
    entries: Seq<Pick>,
    links: Map<Seq<char>, Seq<char>>,
    directory: Map<Seq<char>, Seq<char>>,
    limit: nat,
) -> bool {
    &&& is_group_ranking(
        simple_standings(rows),
        entry_keys(games, entries, links),
        pick_scores(entries),
        RankOrder::Best,
        limit,
    )
    &&& forall|a: int|
        0 <= a < rows.len() ==> is_team_card(
            (#[trigger] rows[a]).team_key,
            rows[a].team_name,
            rows[a].members,
            games,
            entries,
            links,
            directory,
        )
}

/// The first `limit` teams of the entries, the best average first, in
/// their short form.
pub fn rank_teams_simple(
    games: &Vec<StoredGame>,
    entries: &Vec<Pick>,
    aliases: &AliasMap,
    directory: &TextMap,
    limit: usize,
) -> (rows: Vec<TeamStatSimple>)
    requires
        aliases.wf(),
        directory.wf(),
        picks_in_range(entries@, games.len() as int),
        picks_bounded(entries@),
        entries.len() <= MAX_GAMES,
    ensures
        is_simple_ranking(rows@, games@, entries@, aliases@, directory@, limit as nat),
{
    let full = rank_teams(games, entries, aliases, directory, limit);
    let ghost want = team_standings(full@);
    let mut rows: Vec<TeamStatSimple> = Vec::new();
    let mut a: usize = 0;
    while a < full.len()
        invariant
            a <= full.len(),
            want == team_standings(full@),
            is_team_ranking(full@, games@, entries@, aliases@, directory@, limit as nat),
            simple_standings(rows@) == want.take(a as int),
            forall|i: int|
                0 <= i < a ==> is_team_card(
                    (#[trigger] rows[i]).team_key,
                    rows[i].team_name,
                    rows[i].members,
                    games@,
                    entries@,
                    aliases@,
                    directory@,
                ),
        decreases full.len() - a,
    {
        let row = &full[a];
        assert(is_team_row(full@[a as int], games@, entries@, aliases@, directory@));
        let out = TeamStatSimple {
            team_key: row.team_key.clone(),
            team_name: row.team_name.clone(),
            members: clone_infos(&row.members),
            total_score: row.total_score,
            games_played: row.games_played,
        };
        proof {
            let stand = Standing {
                key: out.team_key@,
                total: out.total_score as int,
                count: out.games_played as nat,
            };
            assert(stand == row@);
            assert(simple_standings(rows@.push(out)) =~= simple_standings(rows@).push(stand));
            assert(want.take(a + 1) =~= want.take(a as int).push(stand));
        }
        rows.push(out);
        a += 1;
    }
    assert(want.take(a as int) =~= want);
    rows
}

} // verus!
