//! Normalised game facts.
//!
//! `normalize` turns one payload into a `GameFact`. It never fails: every
//! field has a fallback chain that ends in a default, and a payload that
//! could not be decoded at all gives the empty fact.

use crate::payload::{
    clone_text, explicit_score, guess_points_sum, lemma_guess_points_bounded,
    lemma_round_points_bounded, opt_text, players_of, points_of, round_points_sum, rounds_of,
    score_points, state_of, BullseyePayload, BullseyeState, Guess, Player, Round,
};
use crate::text::{eq_ignore_ascii_case, same_ignoring_ascii_case};
use vstd::prelude::*;

verus! {

/// The points that one round can give at most.
pub const ROUND_CEILING: i64 = 5_000;

/// The most rounds of one match, and the most guesses of one player, that
/// a fact is made of. With it, the points of one match fit in 64 bits.
pub const MAX_ROUNDS: usize = 1_000;

/// The most stored games that one query folds. With it, the points of
/// all rounds of all games fit in 64 bits.
pub const MAX_GAMES: usize = 4_000_000;

/// The largest absolute score that a well-formed fact holds: the points of
/// `MAX_ROUNDS` rounds, each at the end of the 32-bit range.
pub open spec fn score_limit() -> int {
    MAX_ROUNDS * 0x8000_0000
}

/// One round of a match, as the statistics see it.
pub struct RoundFact {
    pub round_number: Option<i32>,
    pub country_code: Option<String>,
    pub points: i32,
}

/// One player of a match, as the statistics see it.
pub struct PlayerRef {
    /// The raw player id, as the payload gave it.
    pub id: Option<String>,
    pub nick: Option<String>,
    /// The points of the player's own guesses together; `None` where the
    /// payload has no guess list for the player.
    pub guess_points: Option<i64>,
}

/// The gameplay content of one stored match.
pub struct GameFact {
    pub game_id: Option<String>,
    pub map_name: Option<String>,
    pub round_time: Option<i32>,
    pub total_duration: Option<i32>,
    pub played_at: String,
    pub finished: bool,
    /// The game-level score.
    pub score: i64,
    pub rounds: Vec<RoundFact>,
    pub players: Vec<PlayerRef>,
}

/// Whether a payload is small enough to be normalised: at most `MAX_ROUNDS`
/// rounds, and at most `MAX_ROUNDS` guesses of each player.
pub open spec fn within_limits(payload: Option<BullseyePayload>) -> bool {
    &&& rounds_of(payload).len() <= MAX_ROUNDS
    &&& forall|i: int|
        0 <= i < players_of(payload).len() ==> guesses_within_limits(
            #[trigger] players_of(payload)[i],
        )
}

/// Whether a player has at most `MAX_ROUNDS` guesses.
pub open spec fn guesses_within_limits(player: Player) -> bool {
    match player.guesses {
        Some(g) => g.len() <= MAX_ROUNDS,
        None => true,
    }
}

/// The game id: the payload's own, else that of its state.
pub open spec fn game_id_of(payload: Option<BullseyePayload>) -> Option<Seq<char>> {
    match payload {
        Some(p) => match p.game_id {
            Some(id) => Some(id@),
            None => match state_of(payload) {
                Some(s) => opt_text(s.game_id),
                None => None,
            },
        },
        None => None,
    }
}

/// The map name of the payload's state.
pub open spec fn map_name_of(payload: Option<BullseyePayload>) -> Option<Seq<char>> {
    match state_of(payload) {
        Some(s) => opt_text(s.map_name),
        None => None,
    }
}

/// The round time of the payload's options.
pub open spec fn round_time_of(payload: Option<BullseyePayload>) -> Option<i32> {
    match state_of(payload) {
        Some(s) => match s.options {
            Some(o) => o.round_time,
            None => None,
        },
        None => None,
    }
}

/// The total duration that the payload states.
pub open spec fn total_duration_of(payload: Option<BullseyePayload>) -> Option<i32> {
    match payload {
        Some(p) => p.total_duration,
        None => None,
    }
}

/// The game-level score: the payload's own guess score where that is not
/// 0, else the points of all rounds together.
pub open spec fn game_score_of(payload: Option<BullseyePayload>) -> int {
    if explicit_score(payload) != 0 {
        explicit_score(payload)
    } else {
        round_points_sum(rounds_of(payload))
    }
}

/// Whether the state's status reads "finished", in any letter case. A
/// payload without a status is not finished.
pub open spec fn finished_of(payload: Option<BullseyePayload>) -> bool {
    match state_of(payload) {
        Some(s) => match s.status {
            Some(t) => same_ignoring_ascii_case(t@, "finished"@),
            None => false,
        },
        None => false,
    }
}

/// The start time of the first round numbered 1, if there is such a round
/// and it has a start time.
pub open spec fn round_one_start(rounds: Seq<Round>) -> Option<Seq<char>>
    decreases rounds.len(),
{
    if rounds.len() == 0 {
        None
    } else if rounds[0].round_number == Some(1i32) {
        opt_text(rounds[0].start_time)
    } else {
        round_one_start(rounds.drop_first())
    }
}

/// The start time of the first round present, if it has one.
pub open spec fn first_round_start(rounds: Seq<Round>) -> Option<Seq<char>> {
    if rounds.len() == 0 {
        None
    } else {
        opt_text(rounds[0].start_time)
    }
}

/// When the payload says the match was played: its own timestamp, else
/// the start of round 1, else the start of the first round present.
pub open spec fn payload_played_at(payload: Option<BullseyePayload>) -> Option<Seq<char>> {
    let explicit = match payload {
        Some(p) => opt_text(p.timestamp),
        None => None,
    };
    if explicit is Some {
        explicit
    } else if round_one_start(rounds_of(payload)) is Some {
        round_one_start(rounds_of(payload))
    } else {
        first_round_start(rounds_of(payload))
    }
}

/// When the match was played: what the payload says, else the time at
/// which the record was stored.
pub open spec fn played_at_of(payload: Option<BullseyePayload>, stored: Seq<char>) -> Seq<char> {
    match payload_played_at(payload) {
        Some(t) => t,
        None => stored,
    }
}

/// The country code of a round's panorama, if it has one.
pub open spec fn country_of(round: Round) -> Option<Seq<char>> {
    match round.panorama {
        Some(p) => opt_text(p.country_code),
        None => None,
    }
}

/// Whether `fact` states what `round` holds.
pub open spec fn is_round_fact(fact: RoundFact, round: Round) -> bool {
    &&& fact.round_number == round.round_number
    &&& opt_text(fact.country_code) == country_of(round)
    &&& fact.points == points_of(round.score)
}

/// The points of a player's own guesses together, if the player has a
/// guess list.
pub open spec fn guess_points_of(player: Player) -> Option<int> {
    match player.guesses {
        Some(g) => Some(guess_points_sum(g@)),
        None => None,
    }
}

/// Whether `fact` states what `player` holds.
pub open spec fn is_player_ref(fact: PlayerRef, player: Player) -> bool {
    &&& opt_text(fact.id) == opt_text(player.player_id)
    &&& opt_text(fact.nick) == opt_text(player.nick)
    &&& match fact.guess_points {
        Some(g) => guess_points_of(player) == Some(g as int),
        None => guess_points_of(player) is None,
    }
}

/// Whether `fact` is the normal form of `payload`, stored at `stored`.
pub open spec fn is_fact_of(
    fact: GameFact,
    payload: Option<BullseyePayload>,
    stored: Seq<char>,
) -> bool {
    &&& opt_text(fact.game_id) == game_id_of(payload)
    &&& opt_text(fact.map_name) == map_name_of(payload)
    &&& fact.round_time == round_time_of(payload)
    &&& fact.total_duration == total_duration_of(payload)
    &&& fact.played_at@ == played_at_of(payload, stored)
    &&& fact.finished == finished_of(payload)
    &&& fact.score == game_score_of(payload)
    &&& fact.rounds.len() == rounds_of(payload).len()
    &&& forall|i: int|
        0 <= i < fact.rounds.len() ==> is_round_fact(
            #[trigger] fact.rounds[i],
            rounds_of(payload)[i],
        )
    &&& fact.players.len() == players_of(payload).len()
    &&& forall|i: int|
        0 <= i < fact.players.len() ==> is_player_ref(
            #[trigger] fact.players[i],
            players_of(payload)[i],
        )
}

impl GameFact {
    /// The fact is small enough for its numbers to be added up in 64
    /// bits.
    pub open spec fn wf(&self) -> bool {
        &&& self.rounds.len() <= MAX_ROUNDS
        &&& -score_limit() <= self.score <= score_limit()
        &&& forall|i: int|
            0 <= i < self.players.len() ==> match (#[trigger] self.players[i]).guess_points {
                Some(g) => -score_limit() <= g <= score_limit(),
                None => true,
            }
    }

    /// The most points that the match could give: `ROUND_CEILING` for each
    /// round.
    pub open spec fn spec_max_score(&self) -> int {
        self.rounds.len() * ROUND_CEILING
    }

    /// The number of rounds of the match.
    pub fn round_count(&self) -> (count: i64)
        requires
            self.wf(),
        ensures
            count == self.rounds.len(),
    {
        self.rounds.len() as i64
    }

    /// The most points that the match could give.
    pub fn max_score(&self) -> (max: i64)
        requires
            self.wf(),
        ensures
            max == self.rounds.len() * 5000,
            max == self.spec_max_score(),
    {
        self.round_count() * ROUND_CEILING
    }

    /// The country codes of the rounds that have one, in round order.
    pub fn country_codes(&self) -> (codes: Vec<String>)
        ensures
            crate::text::texts(codes@) == codes_of(self.rounds@),
    {
        let mut codes: Vec<String> = Vec::new();
        let mut i: usize = 0;
        assert(self.rounds@.take(0) =~= Seq::<RoundFact>::empty());
        while i < self.rounds.len()
            invariant
                i <= self.rounds.len(),
                crate::text::texts(codes@) == codes_of(self.rounds@.take(i as int)),
            decreases self.rounds.len() - i,
        {
            assert(self.rounds@.take(i + 1).drop_last() =~= self.rounds@.take(i as int));
            match &self.rounds[i].country_code {
                Some(code) => {
                    let c = code.clone();
                    assert(crate::text::texts(codes@.push(c)) =~= crate::text::texts(codes@).push(
                        c@,
                    ));
                    codes.push(c);
                },
                None => {},
            }
            i += 1;
        }
        assert(self.rounds@.take(i as int) =~= self.rounds@);
        codes
    }
}

/// The country codes of the rounds that have one, in round order.
pub open spec fn codes_of(rounds: Seq<RoundFact>) -> Seq<Seq<char>>
    decreases rounds.len(),
{
    if rounds.len() == 0 {
        Seq::empty()
    } else {
        let before = codes_of(rounds.drop_last());
        match rounds.last().country_code {
            Some(c) => before.push(c@),
            None => before,
        }
    }
}

/// Whether `payload` is small enough to be normalised.
pub fn fits_limits(payload: &Option<BullseyePayload>) -> (fits: bool)
    ensures
        fits == within_limits(*payload),
{
    let state = match state_ref(payload) {
        Some(s) => s,
        None => {
            return true;
        },
    };
    match &state.rounds {
        Some(r) => {
            if r.len() > MAX_ROUNDS {
                return false;
            }
        },
        None => {},
    }
    match &state.players {
        Some(players) => {
            let mut i: usize = 0;
            while i < players.len()
                invariant
                    i <= players.len(),
                    players@ == players_of(*payload),
                    forall|j: int|
                        0 <= j < i ==> guesses_within_limits(#[trigger] players_of(*payload)[j]),
                decreases players.len() - i,
            {
                match &players[i].guesses {
                    Some(g) => {
                        if g.len() > MAX_ROUNDS {
                            assert(!guesses_within_limits(players_of(*payload)[i as int]));
                            return false;
                        }
                    },
                    None => {},
                }
                i += 1;
            }
            true
        },
        None => true,
    }
}

/// The state of a payload, if it has one.
fn state_ref(payload: &Option<BullseyePayload>) -> (state: Option<&BullseyeState>)
    ensures
        match state {
            Some(s) => state_of(*payload) == Some(*s),
            None => state_of(*payload) is None,
        },
{
    match payload {
        Some(p) => match &p.bullseye {
            Some(b) => match &b.state {
                Some(s) => Some(s),
                None => None,
            },
            None => None,
        },
        None => None,
    }
}

/// The points of all rounds together.
fn sum_round_points(rounds: &Vec<Round>) -> (sum: i64)
    requires
        rounds.len() <= MAX_ROUNDS,
    ensures
        sum == round_points_sum(rounds@),
{
    let mut sum: i64 = 0;
    let mut i: usize = 0;
    assert(rounds@.take(0) =~= Seq::<Round>::empty());
    while i < rounds.len()
        invariant
            i <= rounds.len(),
            rounds.len() <= MAX_ROUNDS,
            sum == round_points_sum(rounds@.take(i as int)),
        decreases rounds.len() - i,
    {
        proof {
            assert(rounds@.take(i + 1).drop_last() =~= rounds@.take(i as int));
            lemma_round_points_bounded(rounds@.take(i as int));
        }
        sum = sum + score_points(&rounds[i].score) as i64;
        i += 1;
    }
    assert(rounds@.take(i as int) =~= rounds@);
    sum
}

/// The points of all guesses together.
fn sum_guess_points(guesses: &Vec<Guess>) -> (sum: i64)
    requires
        guesses.len() <= MAX_ROUNDS,
    ensures
        sum == guess_points_sum(guesses@),
{
    let mut sum: i64 = 0;
    let mut i: usize = 0;
    assert(guesses@.take(0) =~= Seq::<Guess>::empty());
    while i < guesses.len()
        invariant
            i <= guesses.len(),
            guesses.len() <= MAX_ROUNDS,
            sum == guess_points_sum(guesses@.take(i as int)),
        decreases guesses.len() - i,
    {
        proof {
            assert(guesses@.take(i + 1).drop_last() =~= guesses@.take(i as int));
            lemma_guess_points_bounded(guesses@.take(i as int));
        }
        sum = sum + score_points(&guesses[i].score) as i64;
        i += 1;
    }
    assert(guesses@.take(i as int) =~= guesses@);
    sum
}

/// The start time of the first round numbered 1, if that round has one.
fn find_round_one_start(rounds: &Vec<Round>) -> (start: Option<String>)
    ensures
        opt_text(start) == round_one_start(rounds@),
{
    let mut i: usize = 0;
    assert(rounds@.skip(0) =~= rounds@);
    while i < rounds.len()
        invariant
            i <= rounds.len(),
            round_one_start(rounds@) == round_one_start(rounds@.skip(i as int)),
        decreases rounds.len() - i,
    {
        assert(rounds@.skip(i as int).drop_first() =~= rounds@.skip(i + 1));
        let is_one = match rounds[i].round_number {
            Some(n) => n == 1,
            None => false,
        };
        if is_one {
            return clone_text(&rounds[i].start_time);
        }
        i += 1;
    }
    None
}

/// When the payload says the match was played: its own timestamp, else
/// the start of round 1, else the start of the first round present. `None`
/// where the payload says nothing; the time of storing then stands in.
pub fn stated_played_at(payload: &Option<BullseyePayload>) -> (at: Option<String>)
    ensures
        opt_text(at) == payload_played_at(*payload),
{
    match payload {
        Some(p) => match &p.timestamp {
            Some(t) => {
                return Some(t.clone());
            },
            None => {},
        },
        None => {},
    }
    let state = match state_ref(payload) {
        Some(s) => s,
        None => {
            return None;
        },
    };
    match &state.rounds {
        Some(rounds) => {
            let from_one = find_round_one_start(rounds);
            if from_one.is_some() {
                return from_one;
            }
            if rounds.len() > 0 {
                clone_text(&rounds[0].start_time)
            } else {
                None
            }
        },
        None => None,
    }
}

/// The game-level score of a payload.
fn find_game_score(payload: &Option<BullseyePayload>) -> (score: i64)
    requires
        rounds_of(*payload).len() <= MAX_ROUNDS,
    ensures
        score == game_score_of(*payload),
        -score_limit() <= score <= score_limit(),
{
    let explicit: i32 = match payload {
        Some(p) => match &p.bullseye {
            Some(b) => match &b.guess {
                Some(g) => score_points(&g.score),
                None => 0,
            },
            None => 0,
        },
        None => 0,
    };
    if explicit != 0 {
        return explicit as i64;
    }
    proof {
        lemma_round_points_bounded(rounds_of(*payload));
    }
    match state_ref(payload) {
        Some(s) => match &s.rounds {
            Some(rounds) => sum_round_points(rounds),
            None => 0,
        },
        None => 0,
    }
}

/// Whether the payload's status reads "finished".
fn find_finished(payload: &Option<BullseyePayload>) -> (finished: bool)
    ensures
        finished == finished_of(*payload),
{
    match state_ref(payload) {
        Some(s) => match &s.status {
            Some(t) => eq_ignore_ascii_case(t.as_str(), "finished"),
            None => false,
        },
        None => false,
    }
}

/// The facts of the payload's rounds.
fn round_facts(payload: &Option<BullseyePayload>) -> (facts: Vec<RoundFact>)
    ensures
        facts.len() == rounds_of(*payload).len(),
        forall|i: int|
            0 <= i < facts.len() ==> is_round_fact(#[trigger] facts[i], rounds_of(*payload)[i]),
{
    let mut facts: Vec<RoundFact> = Vec::new();
    let rounds = match state_ref(payload) {
        Some(s) => match &s.rounds {
            Some(r) => r,
            None => {
                return facts;
            },
        },
        None => {
            return facts;
        },
    };
    let mut i: usize = 0;
    while i < rounds.len()
        invariant
            i <= rounds.len(),
            rounds@ == rounds_of(*payload),
            facts.len() == i,
            forall|j: int| 0 <= j < i ==> is_round_fact(#[trigger] facts[j], rounds@[j]),
        decreases rounds.len() - i,
    {
        let round = &rounds[i];
        let country_code = match &round.panorama {
            Some(p) => clone_text(&p.country_code),
            None => None,
        };
        facts.push(
            RoundFact {
                round_number: round.round_number,
                country_code,
                points: score_points(&round.score),
            },
        );
        i += 1;
    }
    facts
}

/// The facts of the payload's players.
fn player_refs(payload: &Option<BullseyePayload>) -> (refs: Vec<PlayerRef>)
    requires
        within_limits(*payload),
    ensures
        refs.len() == players_of(*payload).len(),
        forall|i: int|
            0 <= i < refs.len() ==> is_player_ref(#[trigger] refs[i], players_of(*payload)[i]),
        forall|i: int|
            0 <= i < refs.len() ==> match (#[trigger] refs[i]).guess_points {
                Some(g) => -score_limit() <= g <= score_limit(),
                None => true,
            },
{
    let mut refs: Vec<PlayerRef> = Vec::new();
    let players = match state_ref(payload) {
        Some(s) => match &s.players {
            Some(p) => p,
            None => {
                return refs;
            },
        },
        None => {
            return refs;
        },
    };
    let mut i: usize = 0;
    while i < players.len()
        invariant
            i <= players.len(),
            players@ == players_of(*payload),
            within_limits(*payload),
            refs.len() == i,
            forall|j: int| 0 <= j < i ==> is_player_ref(#[trigger] refs[j], players@[j]),
            forall|j: int|
                0 <= j < i ==> match (#[trigger] refs[j]).guess_points {
                    Some(g) => -score_limit() <= g <= score_limit(),
                    None => true,
                },
        decreases players.len() - i,
    {
        let player = &players[i];
        assert(guesses_within_limits(players_of(*payload)[i as int]));
        let guess_points = match &player.guesses {
            Some(g) => {
                proof {
                    lemma_guess_points_bounded(g@);
                }
                Some(sum_guess_points(g))
            },
            None => None,
        };
        refs.push(
            PlayerRef {
                id: clone_text(&player.player_id),
                nick: clone_text(&player.nick),
                guess_points,
            },
        );
        i += 1;
    }
    refs
}

/// The normal form of one stored match.
///
/// `payload` is the decoded blob of the record, or `None` where the blob
/// could not be decoded; `stored_played_at` is the time at which the record
/// was stored. A payload that is `None` gives the empty fact: not finished,
/// no rounds, no players, score 0, played when it was stored.
pub fn normalize(payload: &Option<BullseyePayload>, stored_played_at: &str) -> (fact: GameFact)
    requires
        within_limits(*payload),
    ensures
        is_fact_of(fact, *payload, stored_played_at@),
        fact.wf(),
        fact.spec_max_score() == rounds_of(*payload).len() * 5000,
{
    let game_id = match payload {
        Some(p) => match &p.game_id {
            Some(id) => Some(id.clone()),
            None => match state_ref(payload) {
                Some(s) => clone_text(&s.game_id),
                None => None,
            },
        },
        None => None,
    };
    let map_name = match state_ref(payload) {
        Some(s) => clone_text(&s.map_name),
        None => None,
    };
    let round_time = match state_ref(payload) {
        Some(s) => match &s.options {
            Some(o) => o.round_time,
            None => None,
        },
        None => None,
    };
    let total_duration = match payload {
        Some(p) => p.total_duration,
        None => None,
    };
    let played_at = match stated_played_at(payload) {
        Some(t) => t,
        None => stored_played_at.to_owned(),
    };
    GameFact {
        game_id,
        map_name,
        round_time,
        total_duration,
        played_at,
        finished: find_finished(payload),
        score: find_game_score(payload),
        rounds: round_facts(payload),
        players: player_refs(payload),
    }
}

/// Where the payload's own guess score is 0, a positive sum of round
/// points is the game-level score.
pub proof fn lemma_score_falls_back_to_rounds(payload: Option<BullseyePayload>)
    requires
        explicit_score(payload) == 0,
        round_points_sum(rounds_of(payload)) > 0,
    ensures
        game_score_of(payload) == round_points_sum(rounds_of(payload)),
{
}

/// The time of play is taken in a fixed order of precedence: the
/// payload's own timestamp, else the start of round 1, else the start of
/// the first round, else the time at which the record was stored.
pub proof fn lemma_played_at_precedence(payload: Option<BullseyePayload>, stored: Seq<char>)
    ensures
        match payload {
            Some(p) => p.timestamp is Some ==> played_at_of(payload, stored)
                == p.timestamp->0@,
            None => played_at_of(payload, stored) == stored,
        },
        no_timestamp(payload) ==> match round_one_start(rounds_of(payload)) {
            Some(start) => played_at_of(payload, stored) == start,
            None => match first_round_start(rounds_of(payload)) {
                Some(start) => played_at_of(payload, stored) == start,
                None => played_at_of(payload, stored) == stored,
            },
        },
{
}

/// Whether the payload has no timestamp of its own.
pub open spec fn no_timestamp(payload: Option<BullseyePayload>) -> bool {
    match payload {
        Some(p) => p.timestamp is None,
        None => true,
    }
}

/// Every normal form of a payload has the same most points: 5000 for
/// each round of the payload.
pub proof fn lemma_max_score(fact: GameFact, payload: Option<BullseyePayload>, stored: Seq<char>)
    requires
        is_fact_of(fact, payload, stored),
    ensures
        fact.spec_max_score() == rounds_of(payload).len() * 5000,
        fact.spec_max_score() == fact.rounds.len() * 5000,
{
}

} // verus!
