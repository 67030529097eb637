//! The statistics queries.
//!
//! Each query is a pure function of the stored games, the alias relation
//! and the player directory, recomputed on every call. The games are read
//! in the order in which they are given; the history and the list of games
//! of a rollup keep that order.

use crate::country::{is_country_ranking, picks_in_range, rank_countries};
use crate::fact::{GameFact, MAX_GAMES};
use crate::identity::{resolved, AliasMap};
use crate::model::{
    clone_infos, info_ids, info_names, AdminPlayerInfo, CountryStat, Filter, GameSummary,
    PlayerInfo, PlayerStatsDetailed, StoredGame, TeamStats, TeamStatsDetailed,
};
use crate::names::{
    build_team, learn_names, learned, member_names, player_names, raw_keys, roster_infos, team_ids,
    team_name_of,
};
use crate::payload::opt_text;
use crate::ranking::RankOrder;
use crate::rollup::{
    add_up, is_history, is_summary, pick_durations, pick_scores, picks_bounded, score_history,
    summarize,
};
use crate::select::{
    all_wf, board_verdict, board_verdicts, collect_picks, lemma_picks, picks_of, player_verdict,
    player_verdicts, roster_passes, team_roster_passes, team_verdict, team_verdicts,
    verdicts_bounded, Pick,
};
use crate::tally::total_of;
use crate::team::{build_team_key, parse_team_ids, team_ids_of, team_members_of};
use crate::teams::{
    is_simple_ranking, is_team_ranking, rank_teams, rank_teams_simple, roster_picks, team_entries,
};
use crate::text::{joined, texts};
use crate::text_map::{keys_matching, TextMap};
use vstd::prelude::*;

verus! {

/// How many countries a leaderboard shows.
pub const LEADERBOARD_LIMIT: usize = 10;

/// How many best and worst countries a player's or a team's statistics
/// show.
pub const PODIUM_LIMIT: usize = 3;

/// The picks of a list of verdicts, with what the rollups need of them.
fn picks_from(verdicts: &Vec<Option<i64>>) -> (picks: Vec<Pick>)
    requires
        verdicts_bounded(verdicts@),
    ensures
        picks@ == picks_of(verdicts@),
        picks_in_range(picks@, verdicts.len() as int),
        picks_bounded(picks@),
        picks.len() <= verdicts.len(),
{
    let picks = collect_picks(verdicts);
    proof {
        lemma_picks(verdicts@);
        assert forall|k: int| 0 <= k < picks.len() implies (#[trigger] picks@[k]).index
            < verdicts.len() by {
            assert(picks_of(verdicts@)[k].index < verdicts.len());
        }
        assert forall|k: int| 0 <= k < picks.len() implies -crate::fact::score_limit() <= (
        #[trigger] picks@[k]).score <= crate::fact::score_limit() by {
            let pick = picks_of(verdicts@)[k];
            assert(verdicts@[pick.index as int] == Some(pick.score));
        }
    }
    picks
}

/// What a player's statistics count of each game.
pub open spec fn player_verdict_seq(
    games: Seq<StoredGame>,
    filter: Filter,
    links: Map<Seq<char>, Seq<char>>,
    primary: Seq<char>,
) -> Seq<Option<i64>> {
    Seq::new(games.len(), |i: int| player_verdict(filter, games[i].fact, links, primary))
}

/// What a team's statistics count of each game.
pub open spec fn team_verdict_seq(
    games: Seq<StoredGame>,
    filter: Filter,
    links: Map<Seq<char>, Seq<char>>,
    members: Seq<Seq<char>>,
) -> Seq<Option<i64>> {
    Seq::new(games.len(), |i: int| team_verdict(filter, games[i].fact, links, members))
}

/// What the team leaderboard counts of each game.
pub open spec fn board_verdict_seq(games: Seq<StoredGame>, filter: Filter) -> Seq<Option<i64>> {
    Seq::new(games.len(), |i: int| board_verdict(filter, games[i].fact))
}

/// The verdicts that count every game, whatever its score.
pub open spec fn every_game(count: nat) -> Seq<Option<i64>> {
    Seq::new(count, |i: int| Some(0i64))
}

/// Whether `list` shows each picked game with its counted score and the
/// players of its own roster, under their raw ids.
pub open spec fn is_player_games(
    list: Seq<GameSummary>,
    games: Seq<StoredGame>,
    picks: Seq<Pick>,
    links: Map<Seq<char>, Seq<char>>,
    directory: Map<Seq<char>, Seq<char>>,
) -> bool {
    &&& list.len() == picks.len()
    &&& forall|k: int|
        0 <= k < list.len() ==> {
            let game = games[picks[k].index as int];
            is_summary(
                #[trigger] list[k],
                game,
                Some(picks[k].score),
                raw_keys(game.fact.players@),
                player_names(game.fact.players@, links, directory),
            )
        }
}

/// Whether `list` shows each picked game with its counted score and the
/// given members as its players.
pub open spec fn is_team_games(
    list: Seq<GameSummary>,
    games: Seq<StoredGame>,
    picks: Seq<Pick>,
    members: Seq<PlayerInfo>,
) -> bool {
    &&& list.len() == picks.len()
    &&& forall|k: int|
        0 <= k < list.len() ==> is_summary(
            #[trigger] list[k],
            games[picks[k].index as int],
            Some(picks[k].score),
            info_ids(members),
            info_names(members),
        )
}

/// What `player_stats` returns for the identity `primary`.
pub open spec fn is_player_stats(
    stats: PlayerStatsDetailed,
    games: Seq<StoredGame>,
    links: Map<Seq<char>, Seq<char>>,
    directory: Map<Seq<char>, Seq<char>>,
    primary: Seq<char>,
    filter: Filter,
) -> bool {
    let picks = picks_of(player_verdict_seq(games, filter, links, primary));
    &&& stats.player_id@ == primary
    &&& stats.total_games == picks.len()
    &&& stats.total_score == total_of(pick_scores(picks))
    &&& stats.total_duration == total_of(pick_durations(games, picks))
    &&& is_country_ranking(stats.best_countries@, games, picks, RankOrder::Best, PODIUM_LIMIT as nat)
    &&& is_country_ranking(
        stats.worst_countries@,
        games,
        picks,
        RankOrder::Worst,
        PODIUM_LIMIT as nat,
    )
    &&& is_simple_ranking(
        stats.best_teams@,
        games,
        roster_picks(games, picks, 2),
        links,
        directory,
        usize::MAX as nat,
    )
    &&& is_history(stats.score_history@, games, picks)
    &&& is_player_games(stats.games@, games, picks, links, directory)
    &&& opt_text(stats.player_name) == if directory.contains_key(primary) {
        Some(directory[primary])
    } else {
        None
    }
}

/// The statistics of one player.
///
/// `player_id` may be a primary id or an alias; the statistics are those
/// of the identity it stands for, over every game in which one of the
/// identity's raw ids played. Of a game with several such players only the
/// first one counts. The map filter is applied first, then the roster is
/// matched, then abandoned games are left out. Teams are the player's
/// teams of at least two players, the best average first.
pub fn player_stats(
    games: &Vec<StoredGame>,
    aliases: &AliasMap,
    directory: &TextMap,
    player_id: &str,
    filter: &Filter,
) -> (stats: PlayerStatsDetailed)
    requires
        aliases.wf(),
        directory.wf(),
        all_wf(games@),
        games.len() <= MAX_GAMES,
    ensures
        is_player_stats(
            stats,
            games@,
            aliases@,
            directory@,
            resolved(aliases@, player_id@),
            *filter,
        ),
{
    let primary = aliases.resolve(player_id);
    let verdicts = player_verdicts(games, filter, aliases, primary.as_str());
    assert(verdicts@ =~= player_verdict_seq(games@, *filter, aliases@, primary@));
    let picks = picks_from(&verdicts);
    let totals = add_up(games, &picks);
    let (best_countries, worst_countries) = rank_countries(games, &picks, PODIUM_LIMIT);
    let entries = team_entries(games, &picks, 2);
    let best_teams = rank_teams_simple(games, &entries, aliases, directory, usize::MAX);
    let history = score_history(games, &picks);
    let mut list: Vec<GameSummary> = Vec::new();
    let mut k: usize = 0;
    while k < picks.len()
        invariant
            k <= picks.len(),
            aliases.wf(),
            directory.wf(),
            all_wf(games@),
            picks_in_range(picks@, games.len() as int),
            list.len() == k,
            forall|j: int|
                0 <= j < k ==> {
                    let game = games[picks[j].index as int];
                    is_summary(
                        #[trigger] list[j],
                        game,
                        Some(picks[j].score),
                        raw_keys(game.fact.players@),
                        player_names(game.fact.players@, aliases@, directory@),
                    )
                },
        decreases picks.len() - k,
    {
        let pick = picks[k];
        assert(picks@[k as int].index < games.len());
        let game = &games[pick.index];
        assert(games@[pick.index as int].fact.wf());
        let players = roster_infos(&game.fact.players, aliases, directory);
        list.push(summarize(game, Some(pick.score), players));
        k += 1;
    }
    let player_name = match directory.get(primary.as_str()) {
        Some(name) => Some(name.clone()),
        None => None,
    };
    PlayerStatsDetailed {
        player_id: primary,
        total_games: totals.games,
        total_score: totals.score,
        total_duration: totals.duration,
        best_countries,
        worst_countries,
        best_teams,
        score_history: history,
        games: list,
        player_name,
    }
}

/// The position of the first game that the team played and that passes
/// the map filter, or the number of games where there is none.
pub open spec fn first_team_game(
    games: Seq<StoredGame>,
    filter: Filter,
    links: Map<Seq<char>, Seq<char>>,
    members: Seq<Seq<char>>,
) -> int
    decreases games.len(),
{
    if games.len() == 0 {
        0
    } else {
        let before = first_team_game(games.drop_last(), filter, links, members);
        if before < games.len() - 1 {
            before
        } else if team_roster_passes(filter, games.last().fact, links, members) {
            games.len() - 1
        } else {
            games.len() as int
        }
    }
}

/// A position is the first team game if it passes and none before it
/// does.
proof fn lemma_first_team_game_is(
    games: Seq<StoredGame>,
    filter: Filter,
    links: Map<Seq<char>, Seq<char>>,
    members: Seq<Seq<char>>,
    at: int,
)
    requires
        0 <= at <= games.len(),
        at < games.len() ==> team_roster_passes(filter, games[at].fact, links, members),
        forall|j: int|
            0 <= j < at ==> !team_roster_passes(filter, (#[trigger] games[j]).fact, links, members),
    ensures
        first_team_game(games, filter, links, members) == at,
    decreases games.len(),
{
    if games.len() > 0 {
        let front = games.drop_last();
        assert forall|j: int| 0 <= j < at && j < front.len() implies !team_roster_passes(
            filter,
            (#[trigger] front[j]).fact,
            links,
            members,
        ) by {
            assert(front[j] == games[j]);
        }
        if at < games.len() - 1 {
            assert(front[at] == games[at]);
            lemma_first_team_game_is(front, filter, links, members, at);
        } else {
            lemma_first_team_game_is(front, filter, links, members, front.len() as int);
        }
    }
}

/// What `team_stats` returns for the team of the comma-joined ids
/// `team_id`.
pub open spec fn is_team_stats(
    stats: TeamStatsDetailed,
    games: Seq<StoredGame>,
    links: Map<Seq<char>, Seq<char>>,
    directory: Map<Seq<char>, Seq<char>>,
    team_id: Seq<char>,
    filter: Filter,
) -> bool {
    let team = team_members_of(links, team_ids_of(team_id));
    let picks = picks_of(team_verdict_seq(games, filter, links, team));
    let first = first_team_game(games, filter, links, team);
    &&& stats.team_id@ == team_id
    &&& stats.total_games == picks.len()
    &&& stats.total_score == total_of(pick_scores(picks))
    &&& stats.total_duration == total_of(pick_durations(games, picks))
    &&& is_country_ranking(stats.best_countries@, games, picks, RankOrder::Best, PODIUM_LIMIT as nat)
    &&& is_country_ranking(
        stats.worst_countries@,
        games,
        picks,
        RankOrder::Worst,
        PODIUM_LIMIT as nat,
    )
    &&& is_history(stats.score_history@, games, picks)
    &&& is_team_games(stats.games@, games, picks, stats.members@)
    &&& if first < games.len() {
        let players = games[first].fact.players@;
        &&& info_ids(stats.members@) == team_ids(players, links)
        &&& info_names(stats.members@) == member_names(
            players,
            links,
            directory,
            team_ids(players, links),
        )
    } else {
        stats.members.len() == 0
    }
    &&& stats.team_name@ == joined(info_names(stats.members@), ", "@)
}

/// The statistics of one team.
///
/// `team_id` is a comma-joined list of player ids, primaries or aliases
/// in any order. A game counts where its roster, resolved, is exactly the
/// team. The members are shown as the first such game that passes the map
/// filter names them. Every game is counted with its game-level score.
pub fn team_stats(
    games: &Vec<StoredGame>,
    aliases: &AliasMap,
    directory: &TextMap,
    team_id: &str,
    filter: &Filter,
) -> (stats: TeamStatsDetailed)
    requires
        aliases.wf(),
        directory.wf(),
        all_wf(games@),
        games.len() <= MAX_GAMES,
    ensures
        is_team_stats(stats, games@, aliases@, directory@, team_id@, *filter),
{
    let raw = parse_team_ids(team_id);
    let team = build_team_key(&raw, aliases).members;
    let ghost team_view = texts(team@);
    let verdicts = team_verdicts(games, filter, aliases, &team);
    assert(verdicts@ =~= team_verdict_seq(games@, *filter, aliases@, team_view));
    let picks = picks_from(&verdicts);
    let totals = add_up(games, &picks);
    let (best_countries, worst_countries) = rank_countries(games, &picks, PODIUM_LIMIT);
    let history = score_history(games, &picks);
    let mut first: usize = 0;
    while first < games.len() && !roster_passes(filter, &games[first].fact, aliases, &team)
        invariant
            first <= games.len(),
            aliases.wf(),
            team_view == texts(team@),
            forall|j: int|
                0 <= j < first ==> !team_roster_passes(
                    *filter,
                    (#[trigger] games[j]).fact,
                    aliases@,
                    team_view,
                ),
        decreases games.len() - first,
    {
        first += 1;
    }
    proof {
        lemma_first_team_game_is(games@, *filter, aliases@, team_view, first as int);
    }
    let members = if first < games.len() {
        build_team(&games[first].fact.players, aliases, directory).members
    } else {
        Vec::new()
    };
    proof {
        if first >= games.len() {
            assert(info_ids(members@) =~= Seq::<Seq<char>>::empty());
        }
    }
    let mut list: Vec<GameSummary> = Vec::new();
    let mut k: usize = 0;
    while k < picks.len()
        invariant
            k <= picks.len(),
            all_wf(games@),
            picks_in_range(picks@, games.len() as int),
            list.len() == k,
            forall|j: int|
                0 <= j < k ==> is_summary(
                    #[trigger] list[j],
                    games[picks[j].index as int],
                    Some(picks[j].score),
                    info_ids(members@),
                    info_names(members@),
                ),
        decreases picks.len() - k,
    {
        let pick = picks[k];
        assert(picks@[k as int].index < games.len());
        let game = &games[pick.index];
        assert(games@[pick.index as int].fact.wf());
        list.push(summarize(game, Some(pick.score), clone_infos(&members)));
        k += 1;
    }
    let team_name = team_name_of(&members);
    TeamStatsDetailed {
        team_id: team_id.to_owned(),
        team_name,
        members,
        total_games: totals.games,
        total_score: totals.score,
        total_duration: totals.duration,
        best_countries,
        worst_countries,
        score_history: history,
        games: list,
    }
}

/// The team leaderboard: the ten teams with the best average game-level
/// score, over the games that pass the filters and have players.
pub fn team_leaderboard(
    games: &Vec<StoredGame>,
    aliases: &AliasMap,
    directory: &TextMap,
    filter: &Filter,
) -> (board: Vec<TeamStats>)
    requires
        aliases.wf(),
        directory.wf(),
        all_wf(games@),
        games.len() <= MAX_GAMES,
    ensures
        is_team_ranking(
            board@,
            games@,
            picks_of(board_verdict_seq(games@, *filter)),
            aliases@,
            directory@,
            LEADERBOARD_LIMIT as nat,
        ),
{
    let verdicts = board_verdicts(games, filter);
    assert(verdicts@ =~= board_verdict_seq(games@, *filter));
    let picks = picks_from(&verdicts);
    rank_teams(games, &picks, aliases, directory, LEADERBOARD_LIMIT)
}

/// The global country leaderboard: the ten countries with the best
/// average, over the rounds of all stored games.
pub fn country_leaderboard(games: &Vec<StoredGame>) -> (board: Vec<CountryStat>)
    requires
        all_wf(games@),
        games.len() <= MAX_GAMES,
    ensures
        is_country_ranking(
            board@,
            games@,
            picks_of(every_game(games.len() as nat)),
            RankOrder::Best,
            LEADERBOARD_LIMIT as nat,
        ),
{
    let mut verdicts: Vec<Option<i64>> = Vec::new();
    let mut i: usize = 0;
    while i < games.len()
        invariant
            i <= games.len(),
            verdicts.len() == i,
            forall|j: int| 0 <= j < i ==> #[trigger] verdicts[j] == Some(0i64),
        decreases games.len() - i,
    {
        verdicts.push(Some(0));
        i += 1;
    }
    assert(verdicts@ =~= every_game(games.len() as nat));
    let picks = picks_from(&verdicts);
    rank_countries(games, &picks, LEADERBOARD_LIMIT).0
}

/// Whether `list` shows every stored game, in order, with its stored
/// score and the players of its roster under their raw ids.
pub open spec fn is_game_list(
    list: Seq<GameSummary>,
    games: Seq<StoredGame>,
    links: Map<Seq<char>, Seq<char>>,
    directory: Map<Seq<char>, Seq<char>>,
) -> bool {
    &&& list.len() == games.len()
    &&& forall|i: int|
        0 <= i < list.len() ==> is_summary(
            #[trigger] list[i],
            games[i],
            games[i].record.score,
            raw_keys(games[i].fact.players@),
            player_names(games[i].fact.players@, links, directory),
        )
}

/// The list of all stored games.
pub fn list_games(games: &Vec<StoredGame>, aliases: &AliasMap, directory: &TextMap) -> (list: Vec<
    GameSummary,
>)
    requires
        aliases.wf(),
        directory.wf(),
        all_wf(games@),
    ensures
        is_game_list(list@, games@, aliases@, directory@),
{
    let mut list: Vec<GameSummary> = Vec::new();
    let mut i: usize = 0;
    while i < games.len()
        invariant
            i <= games.len(),
            aliases.wf(),
            directory.wf(),
            all_wf(games@),
            list.len() == i,
            forall|j: int|
                0 <= j < i ==> is_summary(
                    #[trigger] list[j],
                    games[j],
                    games[j].record.score,
                    raw_keys(games[j].fact.players@),
                    player_names(games[j].fact.players@, aliases@, directory@),
                ),
        decreases games.len() - i,
    {
        let game = &games[i];
        assert(games@[i as int].fact.wf());
        let players = roster_infos(&game.fact.players, aliases, directory);
        list.push(summarize(game, game.record.score, players));
        i += 1;
    }
    list
}

/// The directory after it has learnt the nicks of the rosters of all
/// games, game by game.
pub open spec fn learned_all(
    directory: Map<Seq<char>, Seq<char>>,
    facts: Seq<GameFact>,
) -> Map<Seq<char>, Seq<char>>
    decreases facts.len(),
{
    if facts.len() == 0 {
        directory
    } else {
        learned(learned_all(directory, facts.drop_last()), facts.last().players@)
    }
}

/// Enters the nicks of the rosters of all games in the directory.
pub fn learn_all(directory: &mut TextMap, games: &Vec<StoredGame>)
    requires
        old(directory).wf(),
    ensures
        final(directory).wf(),
        final(directory)@ == learned_all(old(directory)@, crate::select::facts_of(games@)),
{
    let ghost facts = crate::select::facts_of(games@);
    let mut i: usize = 0;
    assert(facts.take(0) =~= Seq::<GameFact>::empty());
    while i < games.len()
        invariant
            i <= games.len(),
            directory.wf(),
            facts == crate::select::facts_of(games@),
            directory@ == learned_all(old(directory)@, facts.take(i as int)),
        decreases games.len() - i,
    {
        assert(facts.take(i + 1).drop_last() =~= facts.take(i as int));
        assert(facts.take(i + 1).last() == games[i as int].fact);
        learn_names(directory, &games[i].fact.players);
        i += 1;
    }
    assert(facts.take(i as int) =~= facts);
}

/// Whether `info` describes the directory entry `id`, named `name`: its
/// primary where it is an alias, and the aliases that point at it.
pub open spec fn is_admin_info(
    info: AdminPlayerInfo,
    id: Seq<char>,
    name: Seq<char>,
    aliases: AliasMap,
) -> bool {
    &&& info.id@ == id
    &&& info.name@ == name
    &&& opt_text(info.primary_id) == if aliases@.contains_key(id) {
        Some(aliases@[id])
    } else {
        None
    }
    &&& texts(info.aliases@) == keys_matching(aliases.links.keys@, aliases.links.vals@, id)
}

/// Every player of the directory, in directory order, with the aliases
/// around them.
pub fn admin_players(directory: &TextMap, aliases: &AliasMap) -> (list: Vec<AdminPlayerInfo>)
    requires
        directory.wf(),
        aliases.wf(),
    ensures
        list.len() == directory.keys.len(),
        forall|i: int|
            0 <= i < list.len() ==> is_admin_info(
                #[trigger] list[i],
                directory.keys[i]@,
                directory.vals[i]@,
                *aliases,
            ),
{
    let mut list: Vec<AdminPlayerInfo> = Vec::new();
    let mut i: usize = 0;
    while i < directory.keys.len()
        invariant
            i <= directory.keys.len(),
            directory.wf(),
            aliases.wf(),
            list.len() == i,
            forall|j: int|
                0 <= j < i ==> is_admin_info(
                    #[trigger] list[j],
                    directory.keys[j]@,
                    directory.vals[j]@,
                    *aliases,
                ),
        decreases directory.keys.len() - i,
    {
        let id = directory.keys[i].clone();
        let name = directory.vals[i].clone();
        let primary_id = match aliases.links.get(id.as_str()) {
            Some(p) => Some(p.clone()),
            None => None,
        };
        let held = aliases.links.keys_with_value(id.as_str());
        list.push(AdminPlayerInfo { id, name, primary_id, aliases: held });
        i += 1;
    }
    list
}

} // verus!
