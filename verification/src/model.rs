//! The records that come in and the rollups that go out.

use crate::fact::GameFact;
use crate::payload::opt_text;
use crate::ranking::Standing;
use crate::text::{same_text, texts};
use vstd::prelude::*;

verus! {

/// The columns of one stored match.
pub struct MatchRecord {
    pub id: i64,
    pub game_id: Option<String>,
    pub map_name: Option<String>,
    pub score: Option<i64>,
    pub round_time: Option<i64>,
    pub total_duration: Option<i64>,
    pub played_at: String,
}

/// One stored match: its columns and the normal form of its payload.
pub struct StoredGame {
    pub record: MatchRecord,
    pub fact: GameFact,
}

/// A player as a rollup names them.
pub struct PlayerInfo {
    pub id: String,
    pub name: String,
}

/// One match of a listing.
pub struct GameSummary {
    pub id: i64,
    pub game_id: Option<String>,
    pub map_name: Option<String>,
    pub score: Option<i64>,
    pub round_time: Option<i64>,
    pub total_duration: Option<i64>,
    pub played_at: String,
    pub players: Vec<PlayerInfo>,
    pub country_codes: Vec<String>,
    pub round_count: i64,
    pub max_score: i64,
    pub is_finished: bool,
}

/// The rounds of one country, added up.
pub struct CountryStat {
    /// The country code, in lower case.
    pub country_code: String,
    pub total_score: i64,
    pub count: u64,
}

impl View for CountryStat {
    type V = Standing;

    open spec fn view(&self) -> Standing {
        Standing {
            key: self.country_code@,
            total: self.total_score as int,
            count: self.count as nat,
        }
    }
}

/// The filters of a statistics query, as they arrive.
pub struct StatsQuery {
    pub exclude_abandons: Option<bool>,
    pub map: Option<String>,
    /// "personal" or "game".
    pub score_type: Option<String>,
}

/// Which score a player's statistics count.
#[derive(Clone, Copy, Debug, PartialEq, Eq, Structural)]
pub enum ScoreMode {
    /// The game-level score.
    Game,
    /// The points of the player's own guesses.
    Personal,
}

/// The filters of a statistics query, read.
pub struct Filter {
    pub exclude_abandons: bool,
    pub map: Option<String>,
    pub score_mode: ScoreMode,
}

/// One point of a score history.
pub struct ScorePoint {
    pub date: String,
    pub score: i64,
    pub map_name: String,
}

/// One team of a leaderboard.
pub struct TeamStats {
    /// The canonical key of the team.
    pub team_key: String,
    /// The names of the members, joined with ", ".
    pub team_name: String,
    pub members: Vec<PlayerInfo>,
    pub games_played: u64,
    pub total_score: i64,
    pub total_duration: i64,
}

impl View for TeamStats {
    type V = Standing;

    open spec fn view(&self) -> Standing {
        Standing {
            key: self.team_key@,
            total: self.total_score as int,
            count: self.games_played as nat,
        }
    }
}

/// One team that a player was part of.
pub struct TeamStatSimple {
    /// The canonical key of the team.
    pub team_key: String,
    /// The names of the members, joined with ", ".
    pub team_name: String,
    pub members: Vec<PlayerInfo>,
    pub total_score: i64,
    pub games_played: u64,
}

/// The statistics of one player.
pub struct PlayerStatsDetailed {
    /// The primary id of the identity that was asked for.
    pub player_id: String,
    pub total_games: u64,
    pub total_score: i64,
    pub total_duration: i64,
    pub best_countries: Vec<CountryStat>,
    pub worst_countries: Vec<CountryStat>,
    pub best_teams: Vec<TeamStatSimple>,
    pub score_history: Vec<ScorePoint>,
    pub games: Vec<GameSummary>,
    pub player_name: Option<String>,
}

/// The statistics of one team.
pub struct TeamStatsDetailed {
    pub team_id: String,
    pub team_name: String,
    pub members: Vec<PlayerInfo>,
    pub total_games: u64,
    pub total_score: i64,
    pub total_duration: i64,
    pub best_countries: Vec<CountryStat>,
    pub worst_countries: Vec<CountryStat>,
    pub score_history: Vec<ScorePoint>,
    pub games: Vec<GameSummary>,
}

/// One player of the directory, with the aliases around them.
pub struct AdminPlayerInfo {
    pub id: String,
    pub name: String,
    /// The primary of this id, where it is an alias.
    pub primary_id: Option<String>,
    /// The aliases of this id.
    pub aliases: Vec<String>,
}

/// The ids of a list of players.
pub open spec fn info_ids(infos: Seq<PlayerInfo>) -> Seq<Seq<char>> {
    infos.map_values(|p: PlayerInfo| p.id@)
}

/// The names of a list of players.
pub open spec fn info_names(infos: Seq<PlayerInfo>) -> Seq<Seq<char>> {
    infos.map_values(|p: PlayerInfo| p.name@)
}

/// A copy of a list of players.
pub fn clone_infos(infos: &Vec<PlayerInfo>) -> (out: Vec<PlayerInfo>)
    ensures
        info_ids(out@) == info_ids(infos@),
        info_names(out@) == info_names(infos@),
{
    let mut out: Vec<PlayerInfo> = Vec::new();
    let mut i: usize = 0;
    while i < infos.len()
        invariant
            i <= infos.len(),
            info_ids(out@) == info_ids(infos@).take(i as int),
            info_names(out@) == info_names(infos@).take(i as int),
        decreases infos.len() - i,
    {
        let copy = PlayerInfo { id: infos[i].id.clone(), name: infos[i].name.clone() };
        proof {
            assert(info_ids(out@.push(copy)) =~= info_ids(out@).push(copy.id@));
            assert(info_names(out@.push(copy)) =~= info_names(out@).push(copy.name@));
            assert(info_ids(infos@).take(i + 1) =~= info_ids(infos@).take(i as int).push(
                infos[i as int].id@,
            ));
            assert(info_names(infos@).take(i + 1) =~= info_names(infos@).take(i as int).push(
                infos[i as int].name@,
            ));
        }
        out.push(copy);
        i += 1;
    }
    proof {
        assert(info_ids(infos@).take(i as int) =~= info_ids(infos@));
        assert(info_names(infos@).take(i as int) =~= info_names(infos@));
    }
    out
}

/// A copy of a list of strings.
pub fn clone_texts(list: &Vec<String>) -> (out: Vec<String>)
    ensures
        texts(out@) == texts(list@),
{
    let mut out: Vec<String> = Vec::new();
    let mut i: usize = 0;
    while i < list.len()
        invariant
            i <= list.len(),
            texts(out@) == texts(list@).take(i as int),
        decreases list.len() - i,
    {
        let copy = list[i].clone();
        proof {
            assert(texts(out@.push(copy)) =~= texts(out@).push(copy@));
            assert(texts(list@).take(i + 1) =~= texts(list@).take(i as int).push(list[i as int]@));
        }
        out.push(copy);
        i += 1;
    }
    assert(texts(list@).take(i as int) =~= texts(list@));
    out
}

/// What a query's filters mean: abandons are left out only where the query
/// says `true`, and the game-level score counts only where it says "game".
pub open spec fn is_filter_of(filter: Filter, query: StatsQuery) -> bool {
    &&& filter.exclude_abandons == (query.exclude_abandons == Some(true))
    &&& opt_text(filter.map) == opt_text(query.map)
    &&& filter.score_mode == if opt_text(query.score_type) == Some("game"@) {
        ScoreMode::Game
    } else {
        ScoreMode::Personal
    }
}

/// Reads the filters of a query.
pub fn filter_of(query: &StatsQuery) -> (filter: Filter)
    ensures
        is_filter_of(filter, *query),
{
    let exclude_abandons = match query.exclude_abandons {
        Some(b) => b,
        None => false,
    };
    let map = match &query.map {
        Some(m) => Some(m.clone()),
        None => None,
    };
    let score_mode = match &query.score_type {
        Some(t) => if same_text(t.as_str(), "game") {
            ScoreMode::Game
        } else {
            ScoreMode::Personal
        },
        None => ScoreMode::Personal,
    };
    Filter { exclude_abandons, map, score_mode }
}

} // verus!
