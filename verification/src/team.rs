//! Canonical team keys.
//!
//! A team is named by the resolved ids of its players, sorted, without
//! repeats, joined with commas. Two rosters of the same people give the same
//! key, in whatever order and under whatever aliases they were listed.

use crate::identity::{resolved, AliasMap};
use crate::text::{
    join_texts, joined, lemma_text_before_irreflexive, lemma_text_before_total,
    lemma_text_before_transitive, same_text, sorts_before, split_at, split_text, text_before,
    texts, trim, trimmed,
};
use vstd::prelude::*;

verus! {

/// Each text sorts strictly before all that follow it.
pub open spec fn strictly_sorted(ids: Seq<Seq<char>>) -> bool {
    forall|i: int, j: int| 0 <= i < j < ids.len() ==> text_before(ids[i], ids[j])
}

/// The identity of each raw id of a roster, in roster order.
pub open spec fn resolved_all(links: Map<Seq<char>, Seq<char>>, raw: Seq<Seq<char>>) -> Seq<
    Seq<char>,
> {
    raw.map_values(|id: Seq<char>| resolved(links, id))
}

/// `members` is the canonical roster of the raw ids `raw`: the identities in
/// `raw`, each once, in ascending order.
pub open spec fn is_roster_of(
    members: Seq<Seq<char>>,
    links: Map<Seq<char>, Seq<char>>,
    raw: Seq<Seq<char>>,
) -> bool {
    &&& strictly_sorted(members)
    &&& forall|k: Seq<char>| #[trigger]
        members.contains(k) <==> resolved_all(links, raw).contains(k)
}

/// The text of a team key: the members joined with commas.
pub open spec fn key_text(members: Seq<Seq<char>>) -> Seq<char> {
    joined(members, seq![','])
}

/// The canonical roster of the raw ids `raw`.
pub open spec fn team_members_of(links: Map<Seq<char>, Seq<char>>, raw: Seq<Seq<char>>) -> Seq<
    Seq<char>,
> {
    choose|members: Seq<Seq<char>>| is_roster_of(members, links, raw)
}

/// The canonical team key of the raw ids `raw`.
pub open spec fn team_key_of(links: Map<Seq<char>, Seq<char>>, raw: Seq<Seq<char>>) -> Seq<char> {
    key_text(team_members_of(links, raw))
}

/// A roster has one canonical form: a list that is one is the one.
pub proof fn lemma_team_members_unique(
    members: Seq<Seq<char>>,
    links: Map<Seq<char>, Seq<char>>,
    raw: Seq<Seq<char>>,
)
    requires
        is_roster_of(members, links, raw),
    ensures
        members == team_members_of(links, raw),
{
    let chosen = team_members_of(links, raw);
    assert(is_roster_of(chosen, links, raw));
    assert forall|k: Seq<char>| members.contains(k) <==> chosen.contains(k) by {
        assert(members.contains(k) <==> resolved_all(links, raw).contains(k));
        assert(chosen.contains(k) <==> resolved_all(links, raw).contains(k));
    }
    lemma_sorted_lists_equal(members, chosen);
}

/// A team's canonical key and the resolved ids it was made of.
pub struct TeamKey {
    pub key: String,
    pub members: Vec<String>,
}

/// Puts `id` at its place in a sorted list, unless the list holds it.
pub fn insert_sorted(list: &mut Vec<String>, id: String)
    requires
        strictly_sorted(texts(old(list)@)),
    ensures
        strictly_sorted(texts(final(list)@)),
        forall|k: Seq<char>| #[trigger]
            texts(final(list)@).contains(k) <==> (texts(old(list)@).contains(k) || k == id@),
{
    let ghost before = texts(list@);
    let mut at: usize = 0;
    while at < list.len() && sorts_before(list[at].as_str(), id.as_str())
        invariant
            at <= list.len(),
            list@ == old(list)@,
            before == texts(list@),
            forall|j: int| 0 <= j < at ==> text_before(#[trigger] before[j], id@),
        decreases list.len() - at,
    {
        at += 1;
    }
    let mut present = false;
    if at < list.len() {
        present = same_text(list[at].as_str(), id.as_str());
    }
    if present {
        proof {
            assert(before[at as int] == id@);
            assert forall|k: Seq<char>| #[trigger]
                before.contains(k) <==> (before.contains(k) || k == id@) by {}
        }
    } else {
        proof {
            if at < before.len() {
                lemma_text_before_total(before[at as int], id@);
            }
        }
        list.insert(at, id);
        proof {
            let after = texts(list@);
            let p = at as int;
            assert(after =~= before.insert(p, id@));
            assert forall|i: int, j: int| 0 <= i < j < after.len() implies text_before(
                after[i],
                after[j],
            ) by {
                if j < p {
                } else if j == p {
                } else if i == p {
                    if j - 1 > p {
                        lemma_text_before_transitive(id@, before[p], before[j - 1]);
                    }
                } else if i < p {
                    assert(text_before(before[i], before[j - 1]));
                } else {
                    assert(text_before(before[i - 1], before[j - 1]));
                }
            }
            assert forall|k: Seq<char>| #[trigger]
                after.contains(k) <==> (before.contains(k) || k == id@) by {
                if after.contains(k) {
                    let a = choose|a: int| 0 <= a < after.len() && after[a] == k;
                    if a < p {
                        assert(before[a] == k);
                    } else if a > p {
                        assert(before[a - 1] == k);
                    }
                }
                if before.contains(k) {
                    let b = choose|b: int| 0 <= b < before.len() && before[b] == k;
                    if b < p {
                        assert(after[b] == k);
                    } else {
                        assert(after[b + 1] == k);
                    }
                }
                if k == id@ {
                    assert(after[p] == k);
                }
            }
        }
    }
}

/// The canonical key of a roster of raw player ids.
///
/// Each id is resolved to its identity; the identities are sorted, each
/// kept once, and joined with commas.
pub fn build_team_key(raw_ids: &Vec<String>, aliases: &AliasMap) -> (team: TeamKey)
    requires
        aliases.wf(),
    ensures
        is_roster_of(texts(team.members@), aliases@, texts(raw_ids@)),
        texts(team.members@) == team_members_of(aliases@, texts(raw_ids@)),
        team.key@ == key_text(texts(team.members@)),
        team.key@ == team_key_of(aliases@, texts(raw_ids@)),
{
    let mut members: Vec<String> = Vec::new();
    let ghost raw = texts(raw_ids@);
    let ghost all = resolved_all(aliases@, raw);
    let mut i: usize = 0;
    while i < raw_ids.len()
        invariant
            i <= raw_ids.len(),
            aliases.wf(),
            raw == texts(raw_ids@),
            all == resolved_all(aliases@, raw),
            strictly_sorted(texts(members@)),
            forall|k: Seq<char>| #[trigger]
                texts(members@).contains(k) <==> all.take(i as int).contains(k),
        decreases raw_ids.len() - i,
    {
        let id = aliases.resolve(raw_ids[i].as_str());
        let ghost prev = texts(members@);
        insert_sorted(&mut members, id);
        proof {
            let now = texts(members@);
            assert(id@ == all[i as int]);
            assert forall|k: Seq<char>| #[trigger]
                now.contains(k) <==> all.take(i + 1).contains(k) by {
                let short = all.take(i as int);
                let long = all.take(i + 1);
                assert(prev.contains(k) <==> short.contains(k));
                if short.contains(k) {
                    let a = choose|a: int| 0 <= a < short.len() && short[a] == k;
                    assert(long[a] == k);
                }
                if k == id@ {
                    assert(long[i as int] == k);
                }
                if long.contains(k) {
                    let a = choose|a: int| 0 <= a < long.len() && long[a] == k;
                    if a < i {
                        assert(short[a] == k);
                    }
                }
            }
        }
        i += 1;
    }
    assert(all.take(i as int) =~= all);
    let key = join_texts(&members, ",");
    proof {
        reveal_strlit(",");
        assert(","@ =~= seq![',']);
        lemma_team_members_unique(texts(members@), aliases@, texts(raw_ids@));
    }
    TeamKey { key, members }
}

/// The raw ids that a comma-joined team id names: the pieces between the
/// commas, each without the white space around it.
pub open spec fn team_ids_of(text: Seq<char>) -> Seq<Seq<char>> {
    split_text(text, ',').map_values(|piece: Seq<char>| trimmed(piece))
}

/// Reads a comma-joined team id into its raw ids.
pub fn parse_team_ids(text: &str) -> (ids: Vec<String>)
    ensures
        texts(ids@) == team_ids_of(text@),
{
    let pieces = split_at(text, ',');
    let mut ids: Vec<String> = Vec::new();
    let mut i: usize = 0;
    while i < pieces.len()
        invariant
            i <= pieces.len(),
            texts(pieces@) == split_text(text@, ','),
            texts(ids@) == team_ids_of(text@).take(i as int),
        decreases pieces.len() - i,
    {
        let id = trim(pieces[i].as_str()).to_owned();
        proof {
            assert(texts(pieces@)[i as int] == pieces[i as int]@);
            assert(texts(ids@.push(id)) =~= texts(ids@).push(id@));
            assert(team_ids_of(text@).take(i + 1) =~= team_ids_of(text@).take(i as int).push(
                id@,
            ));
        }
        ids.push(id);
        i += 1;
    }
    assert(team_ids_of(text@).take(i as int) =~= team_ids_of(text@));
    ids
}

/// Two sorted lists without repeats that hold the same texts are equal.
pub proof fn lemma_sorted_lists_equal(a: Seq<Seq<char>>, b: Seq<Seq<char>>)
    requires
        strictly_sorted(a),
        strictly_sorted(b),
        forall|k: Seq<char>| a.contains(k) <==> b.contains(k),
    ensures
        a == b,
    decreases a.len(),
{
    if a.len() == 0 {
        if b.len() > 0 {
            assert(b.contains(b[0]));
        }
        assert(a =~= b);
    } else {
        assert(a.contains(a[0]));
        assert(b.contains(a[0]));
        let jb = choose|j: int| 0 <= j < b.len() && b[j] == a[0];
        assert(b.contains(b[0]));
        assert(a.contains(b[0]));
        let ia = choose|i: int| 0 <= i < a.len() && a[i] == b[0];
        if a[0] != b[0] {
            assert(text_before(a[0], a[ia]));
            assert(text_before(b[0], b[jb]));
            lemma_text_before_total(a[0], b[0]);
        }
        let ta = a.drop_first();
        let tb = b.drop_first();
        assert forall|i: int, j: int| 0 <= i < j < ta.len() implies text_before(ta[i], ta[j]) by {
            assert(text_before(a[i + 1], a[j + 1]));
        }
        assert forall|i: int, j: int| 0 <= i < j < tb.len() implies text_before(tb[i], tb[j]) by {
            assert(text_before(b[i + 1], b[j + 1]));
        }
        assert forall|k: Seq<char>| ta.contains(k) <==> tb.contains(k) by {
            lemma_text_before_irreflexive(k);
            if ta.contains(k) {
                let i = choose|i: int| 0 <= i < ta.len() && ta[i] == k;
                assert(a[i + 1] == k);
                assert(text_before(a[0], a[i + 1]));
                assert(a.contains(k));
                let j = choose|j: int| 0 <= j < b.len() && b[j] == k;
                assert(j != 0);
                assert(tb[j - 1] == k);
            }
            if tb.contains(k) {
                let j = choose|j: int| 0 <= j < tb.len() && tb[j] == k;
                assert(b[j + 1] == k);
                assert(text_before(b[0], b[j + 1]));
                assert(b.contains(k));
                let i = choose|i: int| 0 <= i < a.len() && a[i] == k;
                assert(i != 0);
                assert(ta[i - 1] == k);
            }
        }
        lemma_sorted_lists_equal(ta, tb);
        assert(a =~= seq![a[0]] + ta);
        assert(b =~= seq![b[0]] + tb);
    }
}

/// Rosters of the same identities have the same team key, whatever the
/// order of their ids and whichever aliases stand for the identities.
pub proof fn lemma_team_key_canonical(
    links: Map<Seq<char>, Seq<char>>,
    raw_a: Seq<Seq<char>>,
    raw_b: Seq<Seq<char>>,
    members_a: Seq<Seq<char>>,
    members_b: Seq<Seq<char>>,
)
    requires
        is_roster_of(members_a, links, raw_a),
        is_roster_of(members_b, links, raw_b),
        forall|k: Seq<char>|
            resolved_all(links, raw_a).contains(k) <==> resolved_all(links, raw_b).contains(k),
    ensures
        members_a == members_b,
        key_text(members_a) == key_text(members_b),
{
    assert forall|k: Seq<char>| members_a.contains(k) <==> members_b.contains(k) by {
        assert(members_a.contains(k) <==> resolved_all(links, raw_a).contains(k));
        assert(members_b.contains(k) <==> resolved_all(links, raw_b).contains(k));
    }
    lemma_sorted_lists_equal(members_a, members_b);
}

/// A roster listed in another order has the same identities, so the same
/// team key.
pub proof fn lemma_roster_order_irrelevant(
    links: Map<Seq<char>, Seq<char>>,
    raw_a: Seq<Seq<char>>,
    raw_b: Seq<Seq<char>>,
)
    requires
        forall|k: Seq<char>| raw_a.contains(k) <==> raw_b.contains(k),
    ensures
        forall|k: Seq<char>|
            resolved_all(links, raw_a).contains(k) <==> resolved_all(links, raw_b).contains(k),
{
    assert forall|k: Seq<char>|
        resolved_all(links, raw_a).contains(k) <==> resolved_all(links, raw_b).contains(k) by {
        lemma_resolved_all_contains(links, raw_a, raw_b, k);
        lemma_resolved_all_contains(links, raw_b, raw_a, k);
    }
}

/// A roster whose raw ids all occur in another resolves to identities that
/// all occur in the other's.
proof fn lemma_resolved_all_contains(
    links: Map<Seq<char>, Seq<char>>,
    raw_a: Seq<Seq<char>>,
    raw_b: Seq<Seq<char>>,
    k: Seq<char>,
)
    requires
        forall|r: Seq<char>| raw_a.contains(r) ==> raw_b.contains(r),
    ensures
        resolved_all(links, raw_a).contains(k) ==> resolved_all(links, raw_b).contains(k),
{
    let ra = resolved_all(links, raw_a);
    let rb = resolved_all(links, raw_b);
    if ra.contains(k) {
        let i = choose|i: int| 0 <= i < ra.len() && ra[i] == k;
        assert(raw_a.contains(raw_a[i]));
        let j = choose|j: int| 0 <= j < raw_b.len() && raw_b[j] == raw_a[i];
        assert(rb[j] == k);
    }
}

/// Listing an alias beside its primary, or in its place, adds no
/// identity: the roster resolves to the same identities as without it.
pub proof fn lemma_alias_adds_no_identity(
    links: Map<Seq<char>, Seq<char>>,
    raw: Seq<Seq<char>>,
    alias: Seq<char>,
)
    requires
        links.contains_key(alias),
        raw.contains(links[alias]),
        !links.contains_key(links[alias]),
    ensures
        forall|k: Seq<char>|
            resolved_all(links, raw.push(alias)).contains(k) <==> resolved_all(links, raw).contains(
                k,
            ),
{
    let short = resolved_all(links, raw);
    let long = resolved_all(links, raw.push(alias));
    let at = choose|at: int| 0 <= at < raw.len() && raw[at] == links[alias];
    assert(short[at] == links[alias]);
    assert forall|k: Seq<char>| long.contains(k) <==> short.contains(k) by {
        if long.contains(k) {
            let i = choose|i: int| 0 <= i < long.len() && long[i] == k;
            if i < raw.len() {
                assert(short[i] == k);
            } else {
                assert(short[at] == k);
            }
        }
        if short.contains(k) {
            let i = choose|i: int| 0 <= i < short.len() && short[i] == k;
            assert(long[i] == k);
        }
    }
}

} // verus!
