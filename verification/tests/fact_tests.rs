use bullseye_stats::fact::{fits_limits, normalize, stated_played_at, MAX_ROUNDS};
use bullseye_stats::payload::{
    BullseyeData, BullseyePayload, BullseyeState, GameOptions, Guess, Panorama, Player, Round,
    Score,
};

fn score(points: i32) -> Option<Score> {
    Some(Score { points: Some(points) })
}

fn round(number: Option<i32>, country: Option<&str>, start: Option<&str>, points: Option<i32>) -> Round {
    Round {
        round_number: number,
        panorama: country.map(|c| Panorama { country_code: Some(c.to_string()) }),
        start_time: start.map(|s| s.to_string()),
        score: points.map(|p| Score { points: Some(p) }),
    }
}

fn player(id: Option<&str>, nick: Option<&str>, guesses: Option<Vec<i32>>) -> Player {
    Player {
        player_id: id.map(|s| s.to_string()),
        nick: nick.map(|s| s.to_string()),
        guesses: guesses.map(|points| {
            points.into_iter().map(|p| Guess { round_number: None, score: score(p) }).collect()
        }),
    }
}

fn state(status: Option<&str>, rounds: Vec<Round>, players: Vec<Player>) -> BullseyeState {
    BullseyeState {
        game_id: None,
        status: status.map(|s| s.to_string()),
        options: None,
        rounds: Some(rounds),
        players: Some(players),
        map_name: None,
    }
}

fn payload(state: BullseyeState) -> BullseyePayload {
    BullseyePayload {
        game_id: None,
        timestamp: None,
        bullseye: Some(BullseyeData { state: Some(state), guess: None }),
        total_duration: None,
    }
}

fn points_rounds(points: &[i32]) -> Vec<Round> {
    points.iter().enumerate().map(|(i, p)| round(Some(i as i32 + 1), None, None, Some(*p))).collect()
}

#[test]
fn score_falls_back_to_round_points() {
    let p = Some(payload(state(None, points_rounds(&[1000, 2000, 0]), vec![])));
    let fact = normalize(&p, "stored");
    assert_eq!(fact.score, 3000);
}

#[test]
fn explicit_zero_score_falls_back_to_round_points() {
    let mut p = payload(state(None, points_rounds(&[1000, 2000, 0]), vec![]));
    p.bullseye.as_mut().unwrap().guess = Some(Guess { round_number: None, score: score(0) });
    let fact = normalize(&Some(p), "stored");
    assert_eq!(fact.score, 3000);
}

#[test]
fn explicit_nonzero_score_wins() {
    let mut p = payload(state(None, points_rounds(&[1000, 2000, 0]), vec![]));
    p.bullseye.as_mut().unwrap().guess = Some(Guess { round_number: None, score: score(4200) });
    let fact = normalize(&Some(p), "stored");
    assert_eq!(fact.score, 4200);
}

#[test]
fn score_without_rounds_is_zero() {
    let p = Some(payload(state(None, vec![], vec![])));
    assert_eq!(normalize(&p, "stored").score, 0);
}

#[test]
fn finished_three_round_game() {
    let p = Some(payload(state(Some("finished"), points_rounds(&[1000, 1500, 2500]), vec![])));
    let fact = normalize(&p, "stored");
    assert_eq!(fact.score, 5000);
    assert_eq!(fact.max_score(), 15000);
    assert_eq!(fact.round_count(), 3);
    assert!(fact.finished);
}

#[test]
fn max_score_is_5000_per_round() {
    for n in [0usize, 1, 2, 5, 13] {
        let points: Vec<i32> = vec![7; n];
        let p = Some(payload(state(None, points_rounds(&points), vec![])));
        let fact = normalize(&p, "stored");
        assert_eq!(fact.round_count(), n as i64);
        assert_eq!(fact.max_score(), n as i64 * 5000);
    }
}

#[test]
fn finished_ignores_ascii_case() {
    for status in ["finished", "Finished", "FINISHED", "fInIsHeD"] {
        let p = Some(payload(state(Some(status), vec![], vec![])));
        assert!(normalize(&p, "stored").finished, "{}", status);
    }
    for status in ["", "started", "finishe", "finished "] {
        let p = Some(payload(state(Some(status), vec![], vec![])));
        assert!(!normalize(&p, "stored").finished, "{}", status);
    }
    let p = Some(payload(state(None, vec![], vec![])));
    assert!(!normalize(&p, "stored").finished);
}

#[test]
fn played_at_prefers_explicit_timestamp() {
    let mut p = payload(state(
        None,
        vec![round(Some(1), None, Some("round-one"), None)],
        vec![],
    ));
    p.timestamp = Some("explicit".to_string());
    assert_eq!(normalize(&Some(p), "stored").played_at, "explicit");
}

#[test]
fn played_at_falls_back_to_round_one() {
    let p = payload(state(
        None,
        vec![
            round(Some(2), None, Some("round-two"), None),
            round(Some(1), None, Some("round-one"), None),
        ],
        vec![],
    ));
    assert_eq!(normalize(&Some(p), "stored").played_at, "round-one");
}

#[test]
fn played_at_falls_back_to_first_round() {
    let p = payload(state(
        None,
        vec![
            round(Some(2), None, Some("round-two"), None),
            round(Some(3), None, Some("round-three"), None),
        ],
        vec![],
    ));
    assert_eq!(normalize(&Some(p), "stored").played_at, "round-two");
}

#[test]
fn played_at_skips_round_one_without_start() {
    let p = payload(state(
        None,
        vec![round(Some(2), None, Some("round-two"), None), round(Some(1), None, None, None)],
        vec![],
    ));
    assert_eq!(normalize(&Some(p), "stored").played_at, "round-two");
}

#[test]
fn played_at_falls_back_to_stored_time() {
    let p = payload(state(None, vec![round(Some(1), None, None, None)], vec![]));
    assert_eq!(normalize(&Some(p), "stored").played_at, "stored");
    let empty = payload(state(None, vec![], vec![]));
    assert_eq!(normalize(&Some(empty), "stored").played_at, "stored");
}

#[test]
fn stated_played_at_is_none_without_any_time() {
    let p = Some(payload(state(None, vec![round(Some(1), None, None, None)], vec![])));
    assert_eq!(stated_played_at(&p), None);
    assert_eq!(stated_played_at(&None), None);
    let q = Some(payload(state(None, vec![round(None, None, Some("t"), None)], vec![])));
    assert_eq!(stated_played_at(&q), Some("t".to_string()));
}

#[test]
fn undecodable_payload_gives_empty_fact() {
    let fact = normalize(&None, "stored");
    assert!(!fact.finished);
    assert!(fact.rounds.is_empty());
    assert!(fact.players.is_empty());
    assert_eq!(fact.score, 0);
    assert_eq!(fact.played_at, "stored");
    assert_eq!(fact.game_id, None);
    assert_eq!(fact.map_name, None);
    assert_eq!(fact.round_time, None);
    assert_eq!(fact.total_duration, None);
    assert_eq!(fact.max_score(), 0);
}

#[test]
fn payload_without_state_gives_empty_rosters() {
    let p = BullseyePayload {
        game_id: Some("g".to_string()),
        timestamp: None,
        bullseye: Some(BullseyeData { state: None, guess: None }),
        total_duration: Some(77),
    };
    let fact = normalize(&Some(p), "stored");
    assert_eq!(fact.game_id, Some("g".to_string()));
    assert_eq!(fact.total_duration, Some(77));
    assert!(fact.rounds.is_empty());
    assert!(fact.players.is_empty());
    assert!(!fact.finished);
}

#[test]
fn game_id_prefers_top_level() {
    let mut s = state(None, vec![], vec![]);
    s.game_id = Some("nested".to_string());
    let mut p = payload(s);
    assert_eq!(normalize(&Some(payload(state(None, vec![], vec![]))), "s").game_id, None);
    p.game_id = None;
    let nested_only = normalize(&Some(p), "s");
    assert_eq!(nested_only.game_id, Some("nested".to_string()));
    let mut s2 = state(None, vec![], vec![]);
    s2.game_id = Some("nested".to_string());
    let mut p2 = payload(s2);
    p2.game_id = Some("top".to_string());
    assert_eq!(normalize(&Some(p2), "s").game_id, Some("top".to_string()));
}

#[test]
fn map_name_and_round_time_come_from_state() {
    let mut s = state(None, vec![], vec![]);
    s.map_name = Some("A Diverse World".to_string());
    s.options = Some(GameOptions { round_time: Some(90) });
    let fact = normalize(&Some(payload(s)), "s");
    assert_eq!(fact.map_name, Some("A Diverse World".to_string()));
    assert_eq!(fact.round_time, Some(90));
}

#[test]
fn country_codes_skip_rounds_without_one() {
    let p = payload(state(
        None,
        vec![
            round(Some(1), Some("FR"), None, Some(10)),
            round(Some(2), None, None, Some(20)),
            round(Some(3), Some("de"), None, None),
        ],
        vec![],
    ));
    let fact = normalize(&Some(p), "s");
    assert_eq!(fact.country_codes(), vec!["FR", "de"]);
    assert_eq!(fact.rounds.len(), 3);
    assert_eq!(fact.rounds[0].points, 10);
    assert_eq!(fact.rounds[1].country_code, None);
    assert_eq!(fact.rounds[2].points, 0);
    assert_eq!(fact.rounds[2].round_number, Some(3));
}

#[test]
fn players_keep_ids_nicks_and_guess_sums() {
    let p = payload(state(
        None,
        vec![],
        vec![
            player(Some("p1"), Some("Ann"), Some(vec![100, 200, 300])),
            player(None, None, None),
            player(Some("p3"), None, Some(vec![])),
        ],
    ));
    let fact = normalize(&Some(p), "s");
    assert_eq!(fact.players.len(), 3);
    assert_eq!(fact.players[0].id, Some("p1".to_string()));
    assert_eq!(fact.players[0].nick, Some("Ann".to_string()));
    assert_eq!(fact.players[0].guess_points, Some(600));
    assert_eq!(fact.players[1].id, None);
    assert_eq!(fact.players[1].guess_points, None);
    assert_eq!(fact.players[2].guess_points, Some(0));
}

#[test]
fn negative_points_are_added_as_they_are() {
    let p = Some(payload(state(None, points_rounds(&[-5, 3]), vec![])));
    assert_eq!(normalize(&p, "s").score, -2);
}

#[test]
fn fits_limits_counts_rounds_and_guesses() {
    assert!(fits_limits(&None));
    let ok = Some(payload(state(None, points_rounds(&vec![1; MAX_ROUNDS]), vec![])));
    assert!(fits_limits(&ok));
    let too_many_rounds = Some(payload(state(None, points_rounds(&vec![1; MAX_ROUNDS + 1]), vec![])));
    assert!(!fits_limits(&too_many_rounds));
    let too_many_guesses =
        Some(payload(state(None, vec![], vec![player(None, None, Some(vec![1; MAX_ROUNDS + 1]))])));
    assert!(!fits_limits(&too_many_guesses));
    let full = Some(payload(state(None, points_rounds(&vec![i32::MAX; MAX_ROUNDS]), vec![])));
    assert_eq!(normalize(&full, "s").score, i32::MAX as i64 * MAX_ROUNDS as i64);
}
