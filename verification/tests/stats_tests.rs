use bullseye_stats::fact::normalize;
use bullseye_stats::identity::AliasMap;
use bullseye_stats::model::{
    filter_of, CountryStat, Filter, MatchRecord, ScoreMode, StatsQuery, StoredGame,
};
use bullseye_stats::names::{build_team, learn_names, resolve_display_name, roster_infos};
use bullseye_stats::payload::{
    BullseyeData, BullseyePayload, BullseyeState, Guess, Panorama, Player, Round, Score,
};
use bullseye_stats::stats::{
    admin_players, country_leaderboard, learn_all, list_games, player_stats, team_leaderboard,
    team_stats,
};
use bullseye_stats::text_map::TextMap;

struct Game {
    id: i64,
    map: Option<&'static str>,
    status: Option<&'static str>,
    duration: Option<i32>,
    // (country, points)
    rounds: Vec<(Option<&'static str>, i32)>,
    // (id, nick, guess points)
    players: Vec<(Option<&'static str>, Option<&'static str>, Option<Vec<i32>>)>,
}

fn stored(game: Game) -> StoredGame {
    let rounds = game
        .rounds
        .iter()
        .enumerate()
        .map(|(i, (country, points))| Round {
            round_number: Some(i as i32 + 1),
            panorama: country.map(|c| Panorama { country_code: Some(c.to_string()) }),
            start_time: None,
            score: Some(Score { points: Some(*points) }),
        })
        .collect();
    let players = game
        .players
        .iter()
        .map(|(id, nick, guesses)| Player {
            player_id: id.map(|s| s.to_string()),
            nick: nick.map(|s| s.to_string()),
            guesses: guesses.as_ref().map(|g| {
                g.iter()
                    .map(|p| Guess { round_number: None, score: Some(Score { points: Some(*p) }) })
                    .collect()
            }),
        })
        .collect();
    let payload = Some(BullseyePayload {
        game_id: Some(format!("game-{}", game.id)),
        timestamp: Some(format!("2024-01-{:02}", game.id)),
        bullseye: Some(BullseyeData {
            state: Some(BullseyeState {
                game_id: None,
                status: game.status.map(|s| s.to_string()),
                options: None,
                rounds: Some(rounds),
                players: Some(players),
                map_name: game.map.map(|s| s.to_string()),
            }),
            guess: None,
        }),
        total_duration: game.duration,
    });
    let fact = normalize(&payload, "stored");
    StoredGame {
        record: MatchRecord {
            id: game.id,
            game_id: Some(format!("game-{}", game.id)),
            map_name: game.map.map(|s| s.to_string()),
            score: Some(fact.score),
            round_time: None,
            total_duration: game.duration.map(|d| d as i64),
            played_at: "stored".to_string(),
        },
        fact,
    }
}

fn solo(id: i64, player: &'static str, points: &[i32]) -> Game {
    Game {
        id,
        map: Some("World"),
        status: Some("finished"),
        duration: Some(100),
        rounds: points.iter().map(|p| (Some("fr"), *p)).collect(),
        players: vec![(Some(player), None, Some(points.to_vec()))],
    }
}

fn no_filter() -> Filter {
    Filter { exclude_abandons: false, map: None, score_mode: ScoreMode::Personal }
}

fn country(rows: &[CountryStat]) -> Vec<(String, i64, u64)> {
    rows.iter().map(|c| (c.country_code.clone(), c.total_score, c.count)).collect()
}

fn row(code: &str, total: i64, count: u64) -> (String, i64, u64) {
    (code.to_string(), total, count)
}

#[test]
fn alias_and_primary_games_are_merged() {
    let games = vec![
        stored(solo(1, "p1", &[1000, 2000])),
        stored(solo(2, "p2", &[500])),
        stored(solo(3, "p3", &[4000])),
    ];
    let mut aliases = AliasMap::new();
    assert_eq!(aliases.link("p2", "p1"), Ok(()));
    let directory = TextMap::new();
    let stats = player_stats(&games, &aliases, &directory, "p2", &no_filter());
    assert_eq!(stats.player_id, "p1");
    assert_eq!(stats.total_games, 2);
    assert_eq!(stats.total_score, 3500);
    assert_eq!(stats.total_duration, 200);
    assert_eq!(stats.games.len(), 2);
    assert_eq!(stats.games[0].id, 1);
    assert_eq!(stats.games[1].id, 2);
    let by_primary = player_stats(&games, &aliases, &directory, "p1", &no_filter());
    assert_eq!(by_primary.player_id, "p1");
    assert_eq!(by_primary.total_games, 2);
    assert_eq!(by_primary.total_score, 3500);
}

#[test]
fn unlinked_alias_counts_alone_again() {
    let games = vec![stored(solo(1, "p1", &[1000])), stored(solo(2, "p2", &[500]))];
    let mut aliases = AliasMap::new();
    assert_eq!(aliases.link("p2", "p1"), Ok(()));
    assert!(aliases.unlink("p2"));
    let directory = TextMap::new();
    let stats = player_stats(&games, &aliases, &directory, "p2", &no_filter());
    assert_eq!(stats.player_id, "p2");
    assert_eq!(stats.total_games, 1);
    assert_eq!(stats.total_score, 500);
}

#[test]
fn player_without_games_has_empty_stats() {
    let games = vec![stored(solo(1, "p1", &[1000]))];
    let stats = player_stats(&games, &AliasMap::new(), &TextMap::new(), "nobody", &no_filter());
    assert_eq!(stats.player_id, "nobody");
    assert_eq!(stats.total_games, 0);
    assert_eq!(stats.total_score, 0);
    assert_eq!(stats.total_duration, 0);
    assert!(stats.best_countries.is_empty());
    assert!(stats.worst_countries.is_empty());
    assert!(stats.best_teams.is_empty());
    assert!(stats.score_history.is_empty());
    assert!(stats.games.is_empty());
    assert_eq!(stats.player_name, None);
}

#[test]
fn personal_score_is_own_guesses_and_game_score_is_rounds() {
    let game = Game {
        id: 1,
        map: None,
        status: Some("finished"),
        duration: None,
        rounds: vec![(None, 5000), (None, 4000)],
        players: vec![
            (Some("p1"), None, Some(vec![100, 200])),
            (Some("p2"), None, None),
        ],
    };
    let games = vec![stored(game)];
    let aliases = AliasMap::new();
    let directory = TextMap::new();
    let personal = player_stats(&games, &aliases, &directory, "p1", &no_filter());
    assert_eq!(personal.total_score, 300);
    let mut by_game = no_filter();
    by_game.score_mode = ScoreMode::Game;
    let game_mode = player_stats(&games, &aliases, &directory, "p1", &by_game);
    assert_eq!(game_mode.total_score, 9000);
    // No guess list: the game-level score stands in.
    let fallback = player_stats(&games, &aliases, &directory, "p2", &no_filter());
    assert_eq!(fallback.total_score, 9000);
    assert_eq!(fallback.score_history[0].score, 9000);
    assert_eq!(fallback.games[0].score, Some(9000));
}

#[test]
fn only_first_matching_roster_entry_counts() {
    let game = Game {
        id: 1,
        map: None,
        status: Some("finished"),
        duration: Some(10),
        rounds: vec![(None, 1)],
        players: vec![
            (Some("other"), None, Some(vec![7])),
            (Some("alt"), None, Some(vec![50])),
            (Some("main"), None, Some(vec![900])),
        ],
    };
    let games = vec![stored(game)];
    let mut aliases = AliasMap::new();
    assert_eq!(aliases.link("alt", "main"), Ok(()));
    let stats = player_stats(&games, &aliases, &TextMap::new(), "main", &no_filter());
    assert_eq!(stats.total_games, 1);
    assert_eq!(stats.total_score, 50);
}

#[test]
fn abandon_filter_leaves_out_unfinished_games() {
    let mut abandoned = solo(2, "p1", &[700]);
    abandoned.status = Some("started");
    let mut no_status = solo(3, "p1", &[11]);
    no_status.status = None;
    let games = vec![stored(solo(1, "p1", &[1000])), stored(abandoned), stored(no_status)];
    let aliases = AliasMap::new();
    let directory = TextMap::new();
    let all = player_stats(&games, &aliases, &directory, "p1", &no_filter());
    assert_eq!(all.total_games, 3);
    assert_eq!(all.total_score, 1711);
    let mut f = no_filter();
    f.exclude_abandons = true;
    let finished = player_stats(&games, &aliases, &directory, "p1", &f);
    assert_eq!(finished.total_games, 1);
    assert_eq!(finished.total_score, 1000);
}

#[test]
fn map_filter_ignores_case_and_needs_a_map_name() {
    let mut diverse = solo(1, "p1", &[1]);
    diverse.map = Some("A Diverse World");
    let mut urban = solo(2, "p1", &[10]);
    urban.map = Some("Urban");
    let mut unnamed = solo(3, "p1", &[100]);
    unnamed.map = None;
    let games = vec![stored(diverse), stored(urban), stored(unnamed)];
    let mut f = no_filter();
    f.map = Some("DIVERSE".to_string());
    let stats = player_stats(&games, &AliasMap::new(), &TextMap::new(), "p1", &f);
    assert_eq!(stats.total_games, 1);
    assert_eq!(stats.total_score, 1);
    assert_eq!(stats.score_history[0].map_name, "A Diverse World");
    f.map = Some("".to_string());
    let with_name = player_stats(&games, &AliasMap::new(), &TextMap::new(), "p1", &f);
    assert_eq!(with_name.total_score, 11);
}

#[test]
fn countries_are_keyed_in_lower_case_and_ranked() {
    let game = Game {
        id: 1,
        map: None,
        status: Some("finished"),
        duration: None,
        rounds: vec![
            (Some("FR"), 5000),
            (Some("fr"), 3000),
            (Some("de"), 1000),
            (None, 4999),
            (Some("IT"), 4500),
            (Some("es"), 2000),
            (Some("Es"), 0),
        ],
        players: vec![(Some("p1"), None, None)],
    };
    let games = vec![stored(game)];
    let stats = player_stats(&games, &AliasMap::new(), &TextMap::new(), "p1", &no_filter());
    assert_eq!(
        country(&stats.best_countries),
        vec![row("it", 4500, 1), row("fr", 8000, 2), row("de", 1000, 1)]
    );
    assert_eq!(
        country(&stats.worst_countries),
        vec![row("de", 1000, 1), row("es", 2000, 2), row("fr", 8000, 2)]
    );
    assert_eq!(stats.games[0].country_codes, vec!["FR", "fr", "de", "IT", "es", "Es"]);
    assert_eq!(stats.games[0].round_count, 7);
    assert_eq!(stats.games[0].max_score, 35000);
}

#[test]
fn countries_with_equal_average_rank_by_code() {
    let game = Game {
        id: 1,
        map: None,
        status: None,
        duration: None,
        rounds: vec![(Some("se"), 100), (Some("no"), 100), (Some("dk"), 100), (Some("fi"), 100)],
        players: vec![(Some("p1"), None, None)],
    };
    let games = vec![stored(game)];
    let stats = player_stats(&games, &AliasMap::new(), &TextMap::new(), "p1", &no_filter());
    let best: Vec<String> = stats.best_countries.iter().map(|c| c.country_code.clone()).collect();
    let worst: Vec<String> = stats.worst_countries.iter().map(|c| c.country_code.clone()).collect();
    assert_eq!(best, vec!["dk", "fi", "no"]);
    assert_eq!(worst, vec!["dk", "fi", "no"]);
}

#[test]
fn country_leaderboard_shows_ten_best_of_all_games() {
    let codes = ["aa", "bb", "cc", "dd", "ee", "ff", "gg", "hh", "ii", "jj", "kk", "ll"];
    let mut games = Vec::new();
    for (i, code) in codes.iter().enumerate() {
        games.push(stored(Game {
            id: i as i64 + 1,
            map: None,
            status: None,
            duration: None,
            rounds: vec![(Some(code), (i as i32 + 1) * 100)],
            players: vec![],
        }));
    }
    let board = country_leaderboard(&games);
    assert_eq!(board.len(), 10);
    assert_eq!(board[0].country_code, "ll");
    assert_eq!(board[0].total_score, 1200);
    assert_eq!(board[9].country_code, "cc");
    for pair in board.windows(2) {
        assert!(pair[0].total_score > pair[1].total_score);
    }
    assert!(country_leaderboard(&vec![]).is_empty());
}

#[test]
fn player_teams_need_two_players() {
    let duo = |id: i64, a: &'static str, b: &'static str, points: i32| Game {
        id,
        map: None,
        status: Some("finished"),
        duration: Some(60),
        rounds: vec![(None, points)],
        players: vec![(Some(a), Some("A"), Some(vec![points])), (Some(b), Some("B"), None)],
    };
    let games = vec![
        stored(duo(1, "p1", "p2", 1000)),
        stored(duo(2, "p2", "p1", 3000)),
        stored(duo(3, "p1", "p3", 2500)),
        stored(solo(4, "p1", &[5000])),
    ];
    let stats = player_stats(&games, &AliasMap::new(), &TextMap::new(), "p1", &no_filter());
    assert_eq!(stats.total_games, 4);
    assert_eq!(stats.best_teams.len(), 2);
    assert_eq!(stats.best_teams[0].team_key, "p1,p3");
    assert_eq!(stats.best_teams[0].games_played, 1);
    assert_eq!(stats.best_teams[0].total_score, 2500);
    assert_eq!(stats.best_teams[1].team_key, "p1,p2");
    assert_eq!(stats.best_teams[1].games_played, 2);
    // Game 2 lists p2 first; p1's own guess list is absent there, so the
    // game-level score counts.
    assert_eq!(stats.best_teams[1].total_score, 4000);
    assert_eq!(stats.best_teams[1].team_name, "A, B");
    assert_eq!(stats.best_teams[1].members.len(), 2);
    assert_eq!(stats.best_teams[1].members[0].id, "p1");
    assert_eq!(stats.best_teams[1].members[1].id, "p2");
}

#[test]
fn team_leaderboard_groups_by_canonical_key() {
    let duo = |id: i64, a: &'static str, b: &'static str, points: i32, status: &'static str| Game {
        id,
        map: Some("World"),
        status: Some(status),
        duration: Some(30),
        rounds: vec![(None, points)],
        players: vec![(Some(a), None, None), (Some(b), None, None)],
    };
    let games = vec![
        stored(duo(1, "b", "a", 1000, "finished")),
        stored(duo(2, "a", "b2", 2000, "finished")),
        stored(duo(3, "c", "d", 1800, "started")),
        stored(Game {
            id: 4,
            map: None,
            status: Some("finished"),
            duration: None,
            rounds: vec![(None, 9999)],
            players: vec![],
        }),
    ];
    let mut aliases = AliasMap::new();
    assert_eq!(aliases.link("b2", "b"), Ok(()));
    let mut directory = TextMap::new();
    directory.insert("a".to_string(), "Ann".to_string());
    directory.insert("b".to_string(), "Bob".to_string());
    let f = Filter { exclude_abandons: false, map: None, score_mode: ScoreMode::Game };
    let board = team_leaderboard(&games, &aliases, &directory, &f);
    assert_eq!(board.len(), 2);
    assert_eq!(board[0].team_key, "c,d");
    assert_eq!(board[0].games_played, 1);
    assert_eq!(board[0].total_score, 1800);
    assert_eq!(board[0].team_name, "c, d");
    assert_eq!(board[1].team_key, "a,b");
    assert_eq!(board[1].games_played, 2);
    assert_eq!(board[1].total_score, 3000);
    assert_eq!(board[1].total_duration, 60);
    assert_eq!(board[1].team_name, "Ann, Bob");
    let finished =
        Filter { exclude_abandons: true, map: None, score_mode: ScoreMode::Game };
    let only_finished = team_leaderboard(&games, &aliases, &directory, &finished);
    assert_eq!(only_finished.len(), 1);
    assert_eq!(only_finished[0].team_key, "a,b");
}

#[test]
fn team_leaderboard_shows_at_most_ten() {
    let names = ["a", "b", "c", "d", "e", "f", "g", "h", "i", "j", "k", "l"];
    let games: Vec<StoredGame> = names
        .iter()
        .enumerate()
        .map(|(i, name)| stored(solo(i as i64 + 1, name, &[i as i32 * 10])))
        .collect();
    let board = team_leaderboard(&games, &AliasMap::new(), &TextMap::new(), &no_filter());
    assert_eq!(board.len(), 10);
    assert_eq!(board[0].team_key, "l");
    assert_eq!(board[9].team_key, "c");
}

#[test]
fn team_stats_match_the_exact_roster() {
    let duo = |id: i64, a: &'static str, b: &'static str, points: i32, status: &'static str| Game {
        id,
        map: Some("World"),
        status: Some(status),
        duration: Some(30),
        rounds: vec![(Some("FR"), points)],
        players: vec![(Some(a), Some("Nick A"), None), (Some(b), None, None)],
    };
    let games = vec![
        stored(duo(1, "a", "c", 10, "finished")),
        stored(duo(2, "b2", "a", 1000, "started")),
        stored(duo(3, "a", "b", 3000, "finished")),
        stored(solo(4, "a", &[77])),
    ];
    let mut aliases = AliasMap::new();
    assert_eq!(aliases.link("b2", "b"), Ok(()));
    let mut directory = TextMap::new();
    directory.insert("b".to_string(), "Bob".to_string());
    let stats = team_stats(&games, &aliases, &directory, " b , a", &no_filter());
    assert_eq!(stats.team_id, " b , a");
    assert_eq!(stats.total_games, 2);
    assert_eq!(stats.total_score, 4000);
    assert_eq!(stats.total_duration, 60);
    assert_eq!(stats.members.len(), 2);
    assert_eq!(stats.members[0].id, "a");
    assert_eq!(stats.members[1].id, "b");
    // The first matching game names b2 with the nick of its first player.
    assert_eq!(stats.members[0].name, "a");
    assert_eq!(stats.members[1].name, "Nick A");
    assert_eq!(stats.team_name, "a, Nick A");
    assert_eq!(country(&stats.best_countries), vec![row("fr", 4000, 2)]);
    assert_eq!(stats.score_history.len(), 2);
    assert_eq!(stats.score_history[0].score, 1000);
    assert_eq!(stats.score_history[0].date, "2024-01-02");
    assert_eq!(stats.games.len(), 2);
    assert_eq!(stats.games[1].id, 3);
    assert_eq!(stats.games[1].players.len(), 2);
    let mut f = no_filter();
    f.exclude_abandons = true;
    let finished = team_stats(&games, &aliases, &directory, "a,b2", &f);
    assert_eq!(finished.total_games, 1);
    assert_eq!(finished.total_score, 3000);
    // The members are still named by the first game of the team, abandoned
    // or not.
    assert_eq!(finished.members[1].name, "Nick A");
    let nobody = team_stats(&games, &aliases, &directory, "x,y", &no_filter());
    assert_eq!(nobody.total_games, 0);
    assert!(nobody.members.is_empty());
    assert_eq!(nobody.team_name, "");
}

#[test]
fn display_name_fallback_order() {
    let mut directory = TextMap::new();
    directory.insert("primary".to_string(), "Primary Name".to_string());
    directory.insert("raw".to_string(), "Raw Name".to_string());
    let raw = Some("raw".to_string());
    let nick = Some("Nick".to_string());
    assert_eq!(resolve_display_name(&raw, "primary", &nick, &directory), "Nick");
    assert_eq!(resolve_display_name(&raw, "primary", &None, &directory), "Primary Name");
    assert_eq!(resolve_display_name(&raw, "other", &None, &directory), "Raw Name");
    let unlisted = Some("unlisted".to_string());
    assert_eq!(resolve_display_name(&unlisted, "unlisted", &None, &directory), "unlisted");
    assert_eq!(resolve_display_name(&None, "", &None, &directory), "Unknown");
}

#[test]
fn roster_infos_keep_raw_ids() {
    let game = stored(Game {
        id: 1,
        map: None,
        status: None,
        duration: None,
        rounds: vec![],
        players: vec![(Some("alt"), None, None), (None, None, None), (Some("x"), Some("X"), None)],
    });
    let mut aliases = AliasMap::new();
    assert_eq!(aliases.link("alt", "main"), Ok(()));
    let mut directory = TextMap::new();
    directory.insert("main".to_string(), "Main".to_string());
    let infos = roster_infos(&game.fact.players, &aliases, &directory);
    assert_eq!(infos.len(), 3);
    assert_eq!(infos[0].id, "alt");
    assert_eq!(infos[0].name, "Main");
    assert_eq!(infos[1].id, "");
    assert_eq!(infos[1].name, "Unknown");
    assert_eq!(infos[2].name, "X");
    let team = build_team(&game.fact.players, &aliases, &directory);
    assert_eq!(team.key, ",main,x");
    assert_eq!(team.members.len(), 3);
    assert_eq!(team.members[1].id, "main");
    assert_eq!(team.members[1].name, "Main");
}

#[test]
fn learn_names_enters_players_with_id_and_nick() {
    let game = stored(Game {
        id: 1,
        map: None,
        status: None,
        duration: None,
        rounds: vec![],
        players: vec![
            (Some("a"), Some("Ann"), None),
            (Some("b"), None, None),
            (None, Some("Ghost"), None),
            (Some("a"), Some("Anna"), None),
        ],
    });
    let mut directory = TextMap::new();
    directory.insert("b".to_string(), "Bob".to_string());
    learn_names(&mut directory, &game.fact.players);
    assert_eq!(directory.get("a").map(|s| s.as_str()), Some("Anna"));
    assert_eq!(directory.get("b").map(|s| s.as_str()), Some("Bob"));
    assert_eq!(directory.len(), 2);
    let mut other = TextMap::new();
    learn_all(&mut other, &vec![game, stored(solo(2, "z", &[1]))]);
    assert_eq!(other.get("a").map(|s| s.as_str()), Some("Anna"));
    assert_eq!(other.len(), 1);
}

#[test]
fn list_games_shows_every_game_with_its_stored_score() {
    let mut first = solo(1, "p1", &[1000, 1500, 2500]);
    first.players = vec![(Some("p1"), Some("One"), None)];
    let games = vec![stored(first), stored(solo(2, "p2", &[]))];
    let list = list_games(&games, &AliasMap::new(), &TextMap::new());
    assert_eq!(list.len(), 2);
    assert_eq!(list[0].id, 1);
    assert_eq!(list[0].game_id, Some("game-1".to_string()));
    assert_eq!(list[0].score, Some(5000));
    assert_eq!(list[0].max_score, 15000);
    assert_eq!(list[0].round_count, 3);
    assert!(list[0].is_finished);
    assert_eq!(list[0].played_at, "2024-01-01");
    assert_eq!(list[0].players.len(), 1);
    assert_eq!(list[0].players[0].name, "One");
    assert_eq!(list[0].total_duration, Some(100));
    assert_eq!(list[1].max_score, 0);
    assert_eq!(list[1].players[0].name, "p2");
}

#[test]
fn admin_players_lists_primary_and_aliases() {
    let mut directory = TextMap::new();
    directory.insert("p1".to_string(), "One".to_string());
    directory.insert("p2".to_string(), "Two".to_string());
    directory.insert("p3".to_string(), "Three".to_string());
    let mut aliases = AliasMap::new();
    assert_eq!(aliases.link("p2", "p1"), Ok(()));
    assert_eq!(aliases.link("p9", "p1"), Ok(()));
    let list = admin_players(&directory, &aliases);
    assert_eq!(list.len(), 3);
    assert_eq!(list[0].id, "p1");
    assert_eq!(list[0].name, "One");
    assert_eq!(list[0].primary_id, None);
    assert_eq!(list[0].aliases, vec!["p2", "p9"]);
    assert_eq!(list[1].primary_id, Some("p1".to_string()));
    assert!(list[1].aliases.is_empty());
    assert_eq!(list[2].primary_id, None);
    assert!(list[2].aliases.is_empty());
}

#[test]
fn filter_of_reads_a_query() {
    let q = StatsQuery { exclude_abandons: None, map: None, score_type: None };
    let f = filter_of(&q);
    assert!(!f.exclude_abandons);
    assert_eq!(f.map, None);
    assert_eq!(f.score_mode, ScoreMode::Personal);
    let q = StatsQuery {
        exclude_abandons: Some(true),
        map: Some("urban".to_string()),
        score_type: Some("game".to_string()),
    };
    let f = filter_of(&q);
    assert!(f.exclude_abandons);
    assert_eq!(f.map, Some("urban".to_string()));
    assert_eq!(f.score_mode, ScoreMode::Game);
    let q = StatsQuery {
        exclude_abandons: Some(false),
        map: None,
        score_type: Some("Game".to_string()),
    };
    let f = filter_of(&q);
    assert!(!f.exclude_abandons);
    assert_eq!(f.score_mode, ScoreMode::Personal);
}

#[test]
fn player_name_comes_from_the_directory() {
    let games = vec![stored(solo(1, "p2", &[1]))];
    let mut aliases = AliasMap::new();
    assert_eq!(aliases.link("p2", "p1"), Ok(()));
    let mut directory = TextMap::new();
    directory.insert("p1".to_string(), "Primary".to_string());
    directory.insert("p2".to_string(), "Alias".to_string());
    let stats = player_stats(&games, &aliases, &directory, "p2", &no_filter());
    assert_eq!(stats.player_name, Some("Primary".to_string()));
    assert_eq!(stats.games[0].players[0].id, "p2");
    assert_eq!(stats.games[0].players[0].name, "Primary");
}
