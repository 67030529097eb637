//! Display names and rosters.
//!
//! Every rollup names its players in one way: by the nick that the payload
//! gives, else the directory's name of the identity, else the directory's
//! name of the raw id, else the raw id, else "Unknown".

use crate::fact::PlayerRef;
use crate::identity::{resolved, AliasMap};
use crate::model::{info_ids, info_names, PlayerInfo};
use crate::payload::opt_text;
use crate::tally::{first_of, lemma_first_of_is};
use crate::team::{build_team_key, key_text, resolved_all, team_members_of};
use crate::text::{join_texts, joined, position_of, texts};
use crate::text_map::TextMap;
use vstd::prelude::*;

verus! {

/// The raw id of a player as a key: the empty text where the payload gave
/// none.
pub open spec fn raw_key(player: PlayerRef) -> Seq<char> {
    match player.id {
        Some(id) => id@,
        None => Seq::empty(),
    }
}

/// The raw ids of a roster, in roster order.
pub open spec fn raw_keys(players: Seq<PlayerRef>) -> Seq<Seq<char>> {
    players.map_values(|p: PlayerRef| raw_key(p))
}

/// The name under which a player is shown.
pub open spec fn display_name(
    nick: Option<Seq<char>>,
    primary: Seq<char>,
    raw: Option<Seq<char>>,
    directory: Map<Seq<char>, Seq<char>>,
) -> Seq<char> {
    match nick {
        Some(n) => n,
        None => if directory.contains_key(primary) {
            directory[primary]
        } else {
            match raw {
                Some(r) => if directory.contains_key(r) {
                    directory[r]
                } else {
                    r
                },
                None => "Unknown"@,
            }
        },
    }
}

/// The name under which a player of a roster is shown.
pub open spec fn player_name(
    player: PlayerRef,
    links: Map<Seq<char>, Seq<char>>,
    directory: Map<Seq<char>, Seq<char>>,
) -> Seq<char> {
    display_name(
        opt_text(player.nick),
        resolved(links, raw_key(player)),
        opt_text(player.id),
        directory,
    )
}

/// The names under which the players of a roster are shown.
pub open spec fn player_names(
    players: Seq<PlayerRef>,
    links: Map<Seq<char>, Seq<char>>,
    directory: Map<Seq<char>, Seq<char>>,
) -> Seq<Seq<char>> {
    players.map_values(|p: PlayerRef| player_name(p, links, directory))
}

/// The directory after it has learnt the nicks of a roster: each player
/// with both an id and a nick is entered under that id, a later one over an
/// earlier one.
pub open spec fn learned(
    directory: Map<Seq<char>, Seq<char>>,
    players: Seq<PlayerRef>,
) -> Map<Seq<char>, Seq<char>>
    decreases players.len(),
{
    if players.len() == 0 {
        directory
    } else {
        let before = learned(directory, players.drop_last());
        match (players.last().id, players.last().nick) {
            (Some(id), Some(nick)) => before.insert(id@, nick@),
            _ => before,
        }
    }
}

/// The name under which a player is shown: the payload's nick, else the
/// directory's name of the primary id, else its name of the raw id, else
/// the raw id, else "Unknown".
pub fn resolve_display_name(
    raw_id: &Option<String>,
    primary_id: &str,
    nick: &Option<String>,
    directory: &TextMap,
) -> (name: String)
    requires
        directory.wf(),
    ensures
        name@ == display_name(opt_text(*nick), primary_id@, opt_text(*raw_id), directory@),
{
    match nick {
        Some(n) => {
            return n.clone();
        },
        None => {},
    }
    match directory.get(primary_id) {
        Some(n) => {
            return n.clone();
        },
        None => {},
    }
    match raw_id {
        Some(r) => match directory.get(r.as_str()) {
            Some(n) => n.clone(),
            None => r.clone(),
        },
        None => "Unknown".to_owned(),
    }
}

/// The raw id of a player as a key.
pub fn raw_id_of(player: &PlayerRef) -> (id: String)
    ensures
        id@ == raw_key(*player),
{
    match &player.id {
        Some(id) => id.clone(),
        None => String::new(),
    }
}

/// The raw ids of a roster, in roster order.
pub fn raw_ids_of(players: &Vec<PlayerRef>) -> (ids: Vec<String>)
    ensures
        texts(ids@) == raw_keys(players@),
{
    let mut ids: Vec<String> = Vec::new();
    let mut i: usize = 0;
    while i < players.len()
        invariant
            i <= players.len(),
            texts(ids@) == raw_keys(players@).take(i as int),
        decreases players.len() - i,
    {
        let id = raw_id_of(&players[i]);
        proof {
            assert(texts(ids@.push(id)) =~= texts(ids@).push(id@));
            assert(raw_keys(players@).take(i + 1) =~= raw_keys(players@).take(i as int).push(id@));
        }
        ids.push(id);
        i += 1;
    }
    assert(raw_keys(players@).take(i as int) =~= raw_keys(players@));
    ids
}

/// The name under which a player of a roster is shown.
pub fn name_of_player(player: &PlayerRef, aliases: &AliasMap, directory: &TextMap) -> (name:
    String)
    requires
        aliases.wf(),
        directory.wf(),
    ensures
        name@ == player_name(*player, aliases@, directory@),
{
    let raw = raw_id_of(player);
    let primary = aliases.resolve(raw.as_str());
    resolve_display_name(&player.id, primary.as_str(), &player.nick, directory)
}

/// The players of a roster under their raw ids, with their names.
pub fn roster_infos(players: &Vec<PlayerRef>, aliases: &AliasMap, directory: &TextMap) -> (infos:
    Vec<PlayerInfo>)
    requires
        aliases.wf(),
        directory.wf(),
    ensures
        info_ids(infos@) == raw_keys(players@),
        info_names(infos@) == player_names(players@, aliases@, directory@),
{
    let mut infos: Vec<PlayerInfo> = Vec::new();
    let ghost names = player_names(players@, aliases@, directory@);
    let mut i: usize = 0;
    while i < players.len()
        invariant
            i <= players.len(),
            aliases.wf(),
            directory.wf(),
            names == player_names(players@, aliases@, directory@),
            info_ids(infos@) == raw_keys(players@).take(i as int),
            info_names(infos@) == names.take(i as int),
        decreases players.len() - i,
    {
        let info = PlayerInfo {
            id: raw_id_of(&players[i]),
            name: name_of_player(&players[i], aliases, directory),
        };
        proof {
            assert(info_ids(infos@.push(info)) =~= info_ids(infos@).push(info.id@));
            assert(info_names(infos@.push(info)) =~= info_names(infos@).push(info.name@));
            assert(raw_keys(players@).take(i + 1) =~= raw_keys(players@).take(i as int).push(
                info.id@,
            ));
            assert(names.take(i + 1) =~= names.take(i as int).push(info.name@));
        }
        infos.push(info);
        i += 1;
    }
    proof {
        assert(raw_keys(players@).take(i as int) =~= raw_keys(players@));
        assert(names.take(i as int) =~= names);
    }
    infos
}

/// Enters the nicks of a roster in the directory.
pub fn learn_names(directory: &mut TextMap, players: &Vec<PlayerRef>)
    requires
        old(directory).wf(),
    ensures
        final(directory).wf(),
        final(directory)@ == learned(old(directory)@, players@),
{
    let mut i: usize = 0;
    assert(players@.take(0) =~= Seq::<PlayerRef>::empty());
    while i < players.len()
        invariant
            i <= players.len(),
            directory.wf(),
            directory@ == learned(old(directory)@, players@.take(i as int)),
        decreases players.len() - i,
    {
        assert(players@.take(i + 1).drop_last() =~= players@.take(i as int));
        match (&players[i].id, &players[i].nick) {
            (Some(id), Some(nick)) => {
                directory.insert(id.clone(), nick.clone());
            },
            _ => {},
        }
        i += 1;
    }
    assert(players@.take(i as int) =~= players@);
}

/// A team: its canonical key and its members under their primary ids.
pub struct Team {
    pub key: String,
    pub members: Vec<PlayerInfo>,
}

/// The name of the member `id` of a roster: that of the first player of
/// the roster whose identity is `id`.
pub open spec fn member_name(
    players: Seq<PlayerRef>,
    links: Map<Seq<char>, Seq<char>>,
    directory: Map<Seq<char>, Seq<char>>,
    id: Seq<char>,
) -> Seq<char> {
    player_name(
        players[first_of(resolved_all(links, raw_keys(players)), id)],
        links,
        directory,
    )
}

/// The names of the members `ids` of a roster.
pub open spec fn member_names(
    players: Seq<PlayerRef>,
    links: Map<Seq<char>, Seq<char>>,
    directory: Map<Seq<char>, Seq<char>>,
    ids: Seq<Seq<char>>,
) -> Seq<Seq<char>> {
    ids.map_values(|id: Seq<char>| member_name(players, links, directory, id))
}

/// The primary ids of the team of a roster: the canonical roster.
pub open spec fn team_ids(players: Seq<PlayerRef>, links: Map<Seq<char>, Seq<char>>) -> Seq<
    Seq<char>,
> {
    team_members_of(links, raw_keys(players))
}

/// Whether `team` is the team of the roster `players`.
pub open spec fn is_team_of(
    team: Team,
    players: Seq<PlayerRef>,
    links: Map<Seq<char>, Seq<char>>,
    directory: Map<Seq<char>, Seq<char>>,
) -> bool {
    &&& info_ids(team.members@) == team_ids(players, links)
    &&& info_names(team.members@) == member_names(
        players,
        links,
        directory,
        team_ids(players, links),
    )
    &&& team.key@ == key_text(team_ids(players, links))
}

/// The team of a roster: the identities of its players, each once, in
/// ascending order, each with the name of the first player that stands
/// for it.
pub fn build_team(players: &Vec<PlayerRef>, aliases: &AliasMap, directory: &TextMap) -> (team:
    Team)
    requires
        aliases.wf(),
        directory.wf(),
    ensures
        is_team_of(team, players@, aliases@, directory@),
{
    let raw = raw_ids_of(players);
    let canonical = build_team_key(&raw, aliases);
    let mut identities: Vec<String> = Vec::new();
    let ghost all = resolved_all(aliases@, raw_keys(players@));
    let mut i: usize = 0;
    while i < raw.len()
        invariant
            i <= raw.len(),
            aliases.wf(),
            texts(raw@) == raw_keys(players@),
            all == resolved_all(aliases@, raw_keys(players@)),
            texts(identities@) == all.take(i as int),
        decreases raw.len() - i,
    {
        let id = aliases.resolve(raw[i].as_str());
        proof {
            assert(texts(raw@)[i as int] == raw[i as int]@);
            assert(texts(identities@.push(id)) =~= texts(identities@).push(id@));
            assert(all.take(i + 1) =~= all.take(i as int).push(id@));
        }
        identities.push(id);
        i += 1;
    }
    assert(all.take(i as int) =~= all);
    let ghost ids = texts(canonical.members@);
    let ghost names = member_names(players@, aliases@, directory@, ids);
    let mut members: Vec<PlayerInfo> = Vec::new();
    let mut m: usize = 0;
    while m < canonical.members.len()
        invariant
            m <= canonical.members.len(),
            aliases.wf(),
            directory.wf(),
            ids == texts(canonical.members@),
            ids == team_ids(players@, aliases@),
            crate::team::is_roster_of(ids, aliases@, raw_keys(players@)),
            names == member_names(players@, aliases@, directory@, ids),
            all == resolved_all(aliases@, raw_keys(players@)),
            texts(identities@) == all,
            info_ids(members@) == ids.take(m as int),
            info_names(members@) == names.take(m as int),
        decreases canonical.members.len() - m,
    {
        let id = canonical.members[m].clone();
        proof {
            assert(ids[m as int] == id@);
            assert(ids.contains(id@));
            assert(all.contains(id@));
        }
        let at = match position_of(&identities, id.as_str()) {
            Some(at) => at,
            None => {
                proof {
                    let w = choose|w: int| 0 <= w < all.len() && all[w] == id@;
                    assert(identities[w]@ == all[w]);
                }
                0
            },
        };
        proof {
            assert forall|j: int| 0 <= j < at implies all[j] != id@ by {
                assert(identities[j]@ == all[j]);
            }
            assert(identities[at as int]@ == all[at as int]);
            lemma_first_of_is(all, id@, at as int);
        }
        let info = PlayerInfo { id, name: name_of_player(&players[at], aliases, directory) };
        proof {
            assert(info_ids(members@.push(info)) =~= info_ids(members@).push(info.id@));
            assert(info_names(members@.push(info)) =~= info_names(members@).push(info.name@));
            assert(ids.take(m + 1) =~= ids.take(m as int).push(info.id@));
            assert(names.take(m + 1) =~= names.take(m as int).push(info.name@));
        }
        members.push(info);
        m += 1;
    }
    proof {
        assert(ids.take(m as int) =~= ids);
        assert(names.take(m as int) =~= names);
    }
    Team { key: canonical.key, members }
}

/// The names of a list of players, joined with ", ".
pub fn team_name_of(members: &Vec<PlayerInfo>) -> (name: String)
    ensures
        name@ == joined(info_names(members@), ", "@),
{
    let mut names: Vec<String> = Vec::new();
    let mut i: usize = 0;
    while i < members.len()
        invariant
            i <= members.len(),
            texts(names@) == info_names(members@).take(i as int),
        decreases members.len() - i,
    {
        let n = members[i].name.clone();
        proof {
            assert(texts(names@.push(n)) =~= texts(names@).push(n@));
            assert(info_names(members@).take(i + 1) =~= info_names(members@).take(i as int).push(
                n@,
            ));
        }
        names.push(n);
        i += 1;
    }
    assert(info_names(members@).take(i as int) =~= info_names(members@));
    join_texts(&names, ", ")
}

} // verus!
