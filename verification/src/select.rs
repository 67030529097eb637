//! Which games a query counts, and with which score.
//!
//! The map filter comes first, then the roster is matched against the
//! scope, then abandoned games are left out. A game that passes is picked,
//! with the score that the scope counts for it.

use crate::fact::{score_limit, GameFact, PlayerRef};
use crate::identity::{link_verdict, resolved, AliasMap};
use crate::model::{Filter, ScoreMode, StoredGame};
use crate::names::{raw_ids_of, raw_keys};
use crate::team::{build_team_key, team_members_of};
use crate::text::{
    contains_text, lowercase_of, position_of, same_text, text_contains, texts, to_lowercase,
};
use vstd::prelude::*;

verus! {

/// Whether a game passes the map filter: where one is set, the game's map
/// name must hold it, both read in lower case. A game without a map name
/// does not pass a filter that is set.
pub open spec fn map_passes(filter: Filter, fact: GameFact) -> bool {
    match filter.map {
        None => true,
        Some(wanted) => match fact.map_name {
            Some(name) => text_contains(lowercase_of(name@), lowercase_of(wanted@)),
            None => false,
        },
    }
}

/// Whether a game passes the abandon filter.
pub open spec fn abandon_passes(filter: Filter, fact: GameFact) -> bool {
    !filter.exclude_abandons || fact.finished
}

/// Whether the raw id `id` belongs to the identity `primary`: it is the
/// primary itself or one of its aliases.
pub open spec fn in_identity(
    links: Map<Seq<char>, Seq<char>>,
    primary: Seq<char>,
    id: Seq<char>,
) -> bool {
    id == primary || (links.contains_key(id) && links[id] == primary)
}

/// Whether a player of a roster belongs to the identity `primary`. A
/// player without an id belongs to nobody.
pub open spec fn player_matches(
    player: PlayerRef,
    links: Map<Seq<char>, Seq<char>>,
    primary: Seq<char>,
) -> bool {
    match player.id {
        Some(id) => in_identity(links, primary, id@),
        None => false,
    }
}

/// The position of the first player of a roster that belongs to the
/// identity, or the length of the roster where none does.
pub open spec fn first_match(
    players: Seq<PlayerRef>,
    links: Map<Seq<char>, Seq<char>>,
    primary: Seq<char>,
) -> int
    decreases players.len(),
{
    if players.len() == 0 {
        0
    } else {
        let before = first_match(players.drop_last(), links, primary);
        if before < players.len() - 1 {
            before
        } else if player_matches(players.last(), links, primary) {
            players.len() - 1
        } else {
            players.len() as int
        }
    }
}

/// A position is the first match if it matches and none before it does.
pub proof fn lemma_first_match_is(
    players: Seq<PlayerRef>,
    links: Map<Seq<char>, Seq<char>>,
    primary: Seq<char>,
    at: int,
)
    requires
        0 <= at <= players.len(),
        at < players.len() ==> player_matches(players[at], links, primary),
        forall|j: int| 0 <= j < at ==> !player_matches(#[trigger] players[j], links, primary),
    ensures
        first_match(players, links, primary) == at,
    decreases players.len(),
{
    if players.len() > 0 {
        let front = players.drop_last();
        assert forall|j: int| 0 <= j < at && j < front.len() implies !player_matches(
            #[trigger] front[j],
            links,
            primary,
        ) by {
            assert(front[j] == players[j]);
        }
        if at < players.len() - 1 {
            assert(front[at] == players[at]);
            lemma_first_match_is(front, links, primary, at);
        } else {
            lemma_first_match_is(front, links, primary, front.len() as int);
        }
    }
}

/// What a player's statistics count of a game: the score, or `None` where
/// the game does not count.
pub open spec fn player_verdict(
    filter: Filter,
    fact: GameFact,
    links: Map<Seq<char>, Seq<char>>,
    primary: Seq<char>,
) -> Option<i64> {
    let at = first_match(fact.players@, links, primary);
    if map_passes(filter, fact) && at < fact.players.len() && abandon_passes(filter, fact) {
        Some(
            match filter.score_mode {
                ScoreMode::Game => fact.score,
                ScoreMode::Personal => match fact.players[at].guess_points {
                    Some(points) => points,
                    None => fact.score,
                },
            },
        )
    } else {
        None
    }
}

/// Whether a game was played by exactly the team `members`, a canonical
/// roster, and passes the map filter.
pub open spec fn team_roster_passes(
    filter: Filter,
    fact: GameFact,
    links: Map<Seq<char>, Seq<char>>,
    members: Seq<Seq<char>>,
) -> bool {
    map_passes(filter, fact) && team_members_of(links, raw_keys(fact.players@)) == members
}

/// What a team's statistics count of a game: the game-level score, or
/// `None` where the game does not count.
pub open spec fn team_verdict(
    filter: Filter,
    fact: GameFact,
    links: Map<Seq<char>, Seq<char>>,
    members: Seq<Seq<char>>,
) -> Option<i64> {
    if team_roster_passes(filter, fact, links, members) && abandon_passes(filter, fact) {
        Some(fact.score)
    } else {
        None
    }
}

/// What the team leaderboard counts of a game: the game-level score of a
/// game that has players, or `None` where the game does not count.
pub open spec fn board_verdict(filter: Filter, fact: GameFact) -> Option<i64> {
    if map_passes(filter, fact) && abandon_passes(filter, fact) && fact.players.len() > 0 {
        Some(fact.score)
    } else {
        None
    }
}

/// One game that a query counts.
#[derive(Clone, Copy)]
pub struct Pick {
    /// The position of the game among the stored games.
    pub index: usize,
    /// The score that the query counts for it.
    pub score: i64,
}

/// The games that count, in order, each with its score.
pub open spec fn picks_of(verdicts: Seq<Option<i64>>) -> Seq<Pick>
    decreases verdicts.len(),
{
    if verdicts.len() == 0 {
        Seq::empty()
    } else {
        let before = picks_of(verdicts.drop_last());
        match verdicts.last() {
            Some(score) => before.push(Pick { index: (verdicts.len() - 1) as usize, score }),
            None => before,
        }
    }
}

/// Picks point at games that count, in ascending order, with the score of
/// the verdict.
pub proof fn lemma_picks(verdicts: Seq<Option<i64>>)
    requires
        verdicts.len() <= usize::MAX,
    ensures
        picks_of(verdicts).len() <= verdicts.len(),
        forall|k: int|
            0 <= k < picks_of(verdicts).len() ==> {
                let pick = #[trigger] picks_of(verdicts)[k];
                pick.index < verdicts.len() && verdicts[pick.index as int] == Some(pick.score)
            },
        forall|a: int, b: int|
            0 <= a < b < picks_of(verdicts).len() ==> (#[trigger] picks_of(verdicts)[a]).index < (
            #[trigger] picks_of(verdicts)[b]).index,
    decreases verdicts.len(),
{
    if verdicts.len() > 0 {
        lemma_picks(verdicts.drop_last());
    }
}

/// The picks of a list of verdicts.
pub fn collect_picks(verdicts: &Vec<Option<i64>>) -> (picks: Vec<Pick>)
    ensures
        picks@ == picks_of(verdicts@),
{
    let mut picks: Vec<Pick> = Vec::new();
    let mut i: usize = 0;
    assert(verdicts@.take(0) =~= Seq::<Option<i64>>::empty());
    while i < verdicts.len()
        invariant
            i <= verdicts.len(),
            picks@ == picks_of(verdicts@.take(i as int)),
        decreases verdicts.len() - i,
    {
        assert(verdicts@.take(i + 1).drop_last() =~= verdicts@.take(i as int));
        match verdicts[i] {
            Some(score) => {
                picks.push(Pick { index: i, score });
            },
            None => {},
        }
        i += 1;
    }
    assert(verdicts@.take(i as int) =~= verdicts@);
    picks
}

/// The facts of a list of stored games.
pub open spec fn facts_of(games: Seq<StoredGame>) -> Seq<GameFact> {
    games.map_values(|g: StoredGame| g.fact)
}

/// Every fact is well formed.
pub open spec fn all_wf(games: Seq<StoredGame>) -> bool {
    forall|i: int| 0 <= i < games.len() ==> (#[trigger] games[i]).fact.wf()
}

/// Every verdict lies within the score limit.
pub open spec fn verdicts_bounded(verdicts: Seq<Option<i64>>) -> bool {
    forall|i: int|
        0 <= i < verdicts.len() ==> match #[trigger] verdicts[i] {
            Some(score) => -score_limit() <= score <= score_limit(),
            None => true,
        }
}

/// Whether a game passes the map filter.
pub fn passes_map(filter: &Filter, fact: &GameFact) -> (passes: bool)
    ensures
        passes == map_passes(*filter, *fact),
{
    match &filter.map {
        None => true,
        Some(wanted) => match &fact.map_name {
            Some(name) => {
                let hay = to_lowercase(name.as_str());
                let needle = to_lowercase(wanted.as_str());
                contains_text(hay.as_str(), needle.as_str())
            },
            None => false,
        },
    }
}

/// The position of the first player of a roster whose raw id is among
/// `ids`, the raw ids of one identity.
fn find_match(players: &Vec<PlayerRef>, ids: &Vec<String>, aliases: &AliasMap, primary: &str) -> (at:
    usize)
    requires
        aliases.wf(),
        forall|k: Seq<char>| #[trigger]
            texts(ids@).contains(k) <==> in_identity(aliases@, primary@, k),
    ensures
        at == first_match(players@, aliases@, primary@),
        at <= players.len(),
{
    let mut i: usize = 0;
    while i < players.len()
        invariant
            i <= players.len(),
            forall|k: Seq<char>| #[trigger]
                texts(ids@).contains(k) <==> in_identity(aliases@, primary@, k),
            forall|j: int|
                0 <= j < i ==> !player_matches(#[trigger] players[j], aliases@, primary@),
        decreases players.len() - i,
    {
        let hit = match &players[i].id {
            Some(id) => {
                let found = position_of(ids, id.as_str());
                proof {
                    match found {
                        Some(p) => {
                            assert(texts(ids@)[p as int] == id@);
                            assert(texts(ids@).contains(id@));
                        },
                        None => {
                            if texts(ids@).contains(id@) {
                                let p = choose|p: int|
                                    0 <= p < texts(ids@).len() && texts(ids@)[p] == id@;
                                assert(ids[p]@ == id@);
                            }
                        },
                    }
                }
                found.is_some()
            },
            None => false,
        };
        if hit {
            proof {
                lemma_first_match_is(players@, aliases@, primary@, i as int);
            }
            return i;
        }
        i += 1;
    }
    proof {
        lemma_first_match_is(players@, aliases@, primary@, i as int);
    }
    i
}

/// What a player's statistics count of each stored game.
pub fn player_verdicts(
    games: &Vec<StoredGame>,
    filter: &Filter,
    aliases: &AliasMap,
    primary: &str,
) -> (verdicts: Vec<Option<i64>>)
    requires
        aliases.wf(),
        all_wf(games@),
    ensures
        verdicts.len() == games.len(),
        forall|i: int|
            0 <= i < games.len() ==> #[trigger] verdicts[i] == player_verdict(
                *filter,
                games[i].fact,
                aliases@,
                primary@,
            ),
        verdicts_bounded(verdicts@),
{
    let ids = aliases.expand(primary);
    let mut verdicts: Vec<Option<i64>> = Vec::new();
    let mut i: usize = 0;
    while i < games.len()
        invariant
            i <= games.len(),
            aliases.wf(),
            all_wf(games@),
            verdicts.len() == i,
            forall|k: Seq<char>| #[trigger]
                texts(ids@).contains(k) <==> in_identity(aliases@, primary@, k),
            forall|j: int|
                0 <= j < i ==> #[trigger] verdicts[j] == player_verdict(
                    *filter,
                    games[j].fact,
                    aliases@,
                    primary@,
                ),
            verdicts_bounded(verdicts@),
        decreases games.len() - i,
    {
        let fact = &games[i].fact;
        assert(games[i as int].fact.wf());
        let mut verdict: Option<i64> = None;
        if passes_map(filter, fact) {
            let at = find_match(&fact.players, &ids, aliases, primary);
            if at < fact.players.len() && (!filter.exclude_abandons || fact.finished) {
                let score = match filter.score_mode {
                    ScoreMode::Game => fact.score,
                    ScoreMode::Personal => match fact.players[at].guess_points {
                        Some(points) => points,
                        None => fact.score,
                    },
                };
                verdict = Some(score);
            }
        }
        verdicts.push(verdict);
        i += 1;
    }
    verdicts
}

/// What a team's statistics count of each stored game. `members` is the
/// canonical roster of the team.
pub fn team_verdicts(
    games: &Vec<StoredGame>,
    filter: &Filter,
    aliases: &AliasMap,
    members: &Vec<String>,
) -> (verdicts: Vec<Option<i64>>)
    requires
        aliases.wf(),
        all_wf(games@),
    ensures
        verdicts.len() == games.len(),
        forall|i: int|
            0 <= i < games.len() ==> #[trigger] verdicts[i] == team_verdict(
                *filter,
                games[i].fact,
                aliases@,
                texts(members@),
            ),
        verdicts_bounded(verdicts@),
{
    let mut verdicts: Vec<Option<i64>> = Vec::new();
    let mut i: usize = 0;
    while i < games.len()
        invariant
            i <= games.len(),
            aliases.wf(),
            all_wf(games@),
            verdicts.len() == i,
            forall|j: int|
                0 <= j < i ==> #[trigger] verdicts[j] == team_verdict(
                    *filter,
                    games[j].fact,
                    aliases@,
                    texts(members@),
                ),
            verdicts_bounded(verdicts@),
        decreases games.len() - i,
    {
        let fact = &games[i].fact;
        assert(games[i as int].fact.wf());
        let mut verdict: Option<i64> = None;
        if roster_passes(filter, fact, aliases, members) && (!filter.exclude_abandons
            || fact.finished) {
            verdict = Some(fact.score);
        }
        verdicts.push(verdict);
        i += 1;
    }
    verdicts
}

/// Whether a game was played by exactly the team `members` and passes the
/// map filter.
pub fn roster_passes(
    filter: &Filter,
    fact: &GameFact,
    aliases: &AliasMap,
    members: &Vec<String>,
) -> (passes: bool)
    requires
        aliases.wf(),
    ensures
        passes == team_roster_passes(*filter, *fact, aliases@, texts(members@)),
{
    if !passes_map(filter, fact) {
        return false;
    }
    let raw = raw_ids_of(&fact.players);
    let roster = build_team_key(&raw, aliases);
    same_texts(&roster.members, members)
}

/// Whether two lists hold the same texts in the same order.
pub fn same_texts(a: &Vec<String>, b: &Vec<String>) -> (same: bool)
    ensures
        same == (texts(a@) == texts(b@)),
{
    if a.len() != b.len() {
        assert(texts(a@).len() != texts(b@).len());
        return false;
    }
    let mut i: usize = 0;
    while i < a.len()
        invariant
            i <= a.len(),
            a.len() == b.len(),
            forall|j: int| 0 <= j < i ==> a[j]@ == b[j]@,
        decreases a.len() - i,
    {
        if !same_text(a[i].as_str(), b[i].as_str()) {
            assert(texts(a@)[i as int] != texts(b@)[i as int]);
            return false;
        }
        i += 1;
    }
    assert(texts(a@) =~= texts(b@));
    true
}

/// What the team leaderboard counts of each stored game.
pub fn board_verdicts(games: &Vec<StoredGame>, filter: &Filter) -> (verdicts: Vec<Option<i64>>)
    requires
        all_wf(games@),
    ensures
        verdicts.len() == games.len(),
        forall|i: int|
            0 <= i < games.len() ==> #[trigger] verdicts[i] == board_verdict(
                *filter,
                games[i].fact,
            ),
        verdicts_bounded(verdicts@),
{
    let mut verdicts: Vec<Option<i64>> = Vec::new();
    let mut i: usize = 0;
    while i < games.len()
        invariant
            i <= games.len(),
            all_wf(games@),
            verdicts.len() == i,
            forall|j: int|
                0 <= j < i ==> #[trigger] verdicts[j] == board_verdict(*filter, games[j].fact),
            verdicts_bounded(verdicts@),
        decreases games.len() - i,
    {
        let fact = &games[i].fact;
        assert(games[i as int].fact.wf());
        let mut verdict: Option<i64> = None;
        if passes_map(filter, fact) && (!filter.exclude_abandons || fact.finished)
            && fact.players.len() > 0 {
            verdict = Some(fact.score);
        }
        verdicts.push(verdict);
        i += 1;
    }
    verdicts
}

/// After a link, the games of the alias and those of the primary are
/// games of one identity: both ids belong to the identity of the primary,
/// so a roster with either of them matches it.
pub proof fn lemma_linked_ids_match(
    links: Map<Seq<char>, Seq<char>>,
    alias: Seq<char>,
    primary: Seq<char>,
)
    requires
        link_verdict(links, alias, primary) is Ok,
    ensures
        in_identity(links.insert(alias, primary), primary, alias),
        in_identity(links.insert(alias, primary), primary, primary),
        resolved(links.insert(alias, primary), alias) == resolved(
            links.insert(alias, primary),
            primary,
        ),
{
}

} // verus!
