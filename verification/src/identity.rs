//! Player identity: which raw player ids stand for the same person.
//!
//! An alias points at exactly one primary id. Resolution takes one hop: a
//! primary is never itself an alias, so the relation is a forest of depth at
//! most one. `link` keeps it so and `unlink` cannot break it.

use crate::text::{same_text, texts};
use crate::text_map::{keys_matching, TextMap};
use vstd::prelude::*;

verus! {

/// One edge of the alias relation, as the alias store holds it.
pub struct AliasEdge {
    pub alias_id: String,
    pub primary_id: String,
}

/// Why a link was refused.
#[derive(Clone, Copy, Debug, PartialEq, Eq, Structural)]
pub enum LinkError {
    /// The alias and the primary are the same id.
    SelfLink,
    /// The primary is itself an alias of another id.
    PrimaryIsAlias,
    /// The alias already has aliases of its own.
    AliasHasAliases,
}

/// The identity that `id` stands for under the relation `links`: its
/// primary if it is an alias, else itself.
pub open spec fn resolved(links: Map<Seq<char>, Seq<char>>, id: Seq<char>) -> Seq<char> {
    if links.contains_key(id) {
        links[id]
    } else {
        id
    }
}

/// No primary is itself an alias.
pub open spec fn is_forest(links: Map<Seq<char>, Seq<char>>) -> bool {
    forall|a: Seq<char>| links.contains_key(a) ==> !links.contains_key(#[trigger] links[a])
}

/// Whether some alias points at `id`.
pub open spec fn has_aliases(links: Map<Seq<char>, Seq<char>>, id: Seq<char>) -> bool {
    exists|a: Seq<char>| links.contains_key(a) && #[trigger] links[a] == id
}

/// What `link` answers for a request, by the state it meets.
pub open spec fn link_verdict(
    links: Map<Seq<char>, Seq<char>>,
    alias: Seq<char>,
    primary: Seq<char>,
) -> Result<(), LinkError> {
    if alias == primary {
        Err(LinkError::SelfLink)
    } else if links.contains_key(primary) {
        Err(LinkError::PrimaryIsAlias)
    } else if has_aliases(links, alias) {
        Err(LinkError::AliasHasAliases)
    } else {
        Ok(())
    }
}

/// The relation that a list of edges describes. Where an alias occurs
/// twice, its last edge counts.
pub open spec fn edges_map(edges: Seq<AliasEdge>) -> Map<Seq<char>, Seq<char>>
    decreases edges.len(),
{
    if edges.len() == 0 {
        Map::empty()
    } else {
        edges_map(edges.drop_last()).insert(edges.last().alias_id@, edges.last().primary_id@)
    }
}

/// The alias relation: a map from alias id to primary id.
pub struct AliasMap {
    pub links: TextMap,
}

impl View for AliasMap {
    type V = Map<Seq<char>, Seq<char>>;

    open spec fn view(&self) -> Map<Seq<char>, Seq<char>> {
        self.links@
    }
}

impl AliasMap {
    /// No alias is listed twice.
    pub open spec fn wf(&self) -> bool {
        self.links.wf()
    }

    /// The relation without any alias.
    pub fn new() -> (out: AliasMap)
        ensures
            out.wf(),
            out@ == Map::<Seq<char>, Seq<char>>::empty(),
            is_forest(out@),
    {
        AliasMap { links: TextMap::new() }
    }

    /// The relation that the store's edges describe.
    pub fn from_edges(edges: &Vec<AliasEdge>) -> (out: AliasMap)
        ensures
            out.wf(),
            out@ == edges_map(edges@),
    {
        let mut links = TextMap::new();
        let mut i: usize = 0;
        assert(edges@.take(0) =~= Seq::<AliasEdge>::empty());
        while i < edges.len()
            invariant
                i <= edges.len(),
                links.wf(),
                links@ == edges_map(edges@.take(i as int)),
            decreases edges.len() - i,
        {
            assert(edges@.take(i + 1).drop_last() =~= edges@.take(i as int));
            links.insert(edges[i].alias_id.clone(), edges[i].primary_id.clone());
            i += 1;
        }
        assert(edges@.take(i as int) =~= edges@);
        AliasMap { links }
    }

    /// The primary identity of `id`.
    pub fn resolve(&self, id: &str) -> (primary: String)
        requires
            self.wf(),
        ensures
            primary@ == resolved(self@, id@),
    {
        match self.links.get(id) {
            Some(p) => p.clone(),
            None => id.to_owned(),
        }
    }

    /// Every raw id of one identity: the primary first, then its aliases.
    pub fn expand(&self, primary: &str) -> (ids: Vec<String>)
        requires
            self.wf(),
        ensures
            texts(ids@) == seq![primary@] + keys_matching(
                self.links.keys@,
                self.links.vals@,
                primary@,
            ),
            forall|k: Seq<char>| #[trigger]
                texts(ids@).contains(k) <==> (k == primary@ || (self@.contains_key(k) && self@[k]
                    == primary@)),
    {
        let aliases = self.links.keys_with_value(primary);
        let mut ids: Vec<String> = Vec::new();
        ids.push(primary.to_owned());
        let mut i: usize = 0;
        while i < aliases.len()
            invariant
                i <= aliases.len(),
                texts(ids@) == seq![primary@] + texts(aliases@).take(i as int),
            decreases aliases.len() - i,
        {
            let next = aliases[i].clone();
            assert(texts(ids@.push(next)) =~= texts(ids@).push(next@));
            assert(texts(aliases@).take(i + 1) =~= texts(aliases@).take(i as int).push(next@));
            ids.push(next);
            i += 1;
        }
        proof {
            assert(texts(aliases@).take(i as int) =~= texts(aliases@));
            let head = seq![primary@];
            let tail = texts(aliases@);
            assert forall|k: Seq<char>| #[trigger]
                texts(ids@).contains(k) <==> (k == primary@ || (self@.contains_key(k) && self@[k]
                    == primary@)) by {
                let all = head + tail;
                if all.contains(k) {
                    let a = choose|a: int| 0 <= a < all.len() && all[a] == k;
                    if a >= 1 {
                        assert(tail[a - 1] == k);
                        assert(tail.contains(k));
                    }
                }
                if k == primary@ {
                    assert(all[0] == k);
                }
                if tail.contains(k) {
                    let a = choose|a: int| 0 <= a < tail.len() && tail[a] == k;
                    assert(all[a + 1] == k);
                }
            }
        }
        ids
    }

    /// Makes `alias` an alias of `primary`, or says why it may not be one.
    ///
    /// Refused are a link of an id to itself, a primary that is itself an
    /// alias, and an alias that already has aliases. An alias that existed
    /// is pointed at its new primary. A refusal changes nothing.
    pub fn link(&mut self, alias: &str, primary: &str) -> (outcome: Result<(), LinkError>)
        requires
            old(self).wf(),
        ensures
            final(self).wf(),
            outcome == link_verdict(old(self)@, alias@, primary@),
            outcome is Ok ==> final(self)@ == old(self)@.insert(alias@, primary@),
            outcome is Err ==> final(self)@ == old(self)@,
            is_forest(old(self)@) ==> is_forest(final(self)@),
    {
        if same_text(alias, primary) {
            return Err(LinkError::SelfLink);
        }
        if self.links.contains_key(primary) {
            return Err(LinkError::PrimaryIsAlias);
        }
        if self.links.has_value(alias) {
            return Err(LinkError::AliasHasAliases);
        }
        let ghost before = self@;
        self.links.insert(alias.to_owned(), primary.to_owned());
        proof {
            if is_forest(before) {
                lemma_link_keeps_forest(before, alias@, primary@);
            }
        }
        Ok(())
    }

    /// Removes the edge of `alias`, if there is one. Says whether there was.
    pub fn unlink(&mut self, alias: &str) -> (existed: bool)
        requires
            old(self).wf(),
        ensures
            final(self).wf(),
            final(self)@ == old(self)@.remove(alias@),
            existed == old(self)@.contains_key(alias@),
            is_forest(old(self)@) ==> is_forest(final(self)@),
    {
        let ghost before = self@;
        let existed = self.links.remove(alias);
        proof {
            if is_forest(before) {
                lemma_unlink_keeps_forest(before, alias@);
            }
        }
        existed
    }
}

/// An accepted link leaves the relation a forest of depth one.
pub proof fn lemma_link_keeps_forest(
    links: Map<Seq<char>, Seq<char>>,
    alias: Seq<char>,
    primary: Seq<char>,
)
    requires
        is_forest(links),
        link_verdict(links, alias, primary) is Ok,
    ensures
        is_forest(links.insert(alias, primary)),
{
    let after = links.insert(alias, primary);
    assert forall|a: Seq<char>| after.contains_key(a) implies !after.contains_key(
        #[trigger] after[a],
    ) by {
        if a == alias {
        } else {
            assert(links.contains_key(a));
            assert(!links.contains_key(links[a]));
            if links[a] == alias {
                assert(has_aliases(links, alias));
            }
        }
    }
}

/// Removing an edge leaves the relation a forest of depth one.
pub proof fn lemma_unlink_keeps_forest(links: Map<Seq<char>, Seq<char>>, alias: Seq<char>)
    requires
        is_forest(links),
    ensures
        is_forest(links.remove(alias)),
{
    let after = links.remove(alias);
    assert forall|a: Seq<char>| after.contains_key(a) implies !after.contains_key(
        #[trigger] after[a],
    ) by {
        assert(links.contains_key(a));
        assert(!links.contains_key(links[a]));
    }
}

/// In a forest of depth one, resolution is done after one hop: resolving
/// a resolved id changes nothing.
pub proof fn lemma_resolve_idempotent(links: Map<Seq<char>, Seq<char>>, id: Seq<char>)
    requires
        is_forest(links),
    ensures
        resolved(links, resolved(links, id)) == resolved(links, id),
{
    if links.contains_key(id) {
        assert(!links.contains_key(links[id]));
    }
}

/// A link of an id to itself, to a primary that is an alias, or of an id
/// that has aliases is refused, whatever else the relation holds.
pub proof fn lemma_link_refusals(
    links: Map<Seq<char>, Seq<char>>,
    alias: Seq<char>,
    primary: Seq<char>,
)
    ensures
        alias == primary ==> link_verdict(links, alias, primary) is Err,
        links.contains_key(primary) ==> link_verdict(links, alias, primary) is Err,
        has_aliases(links, alias) ==> link_verdict(links, alias, primary) is Err,
        link_verdict(links, alias, primary) is Ok ==> !is_chain(
            links.insert(alias, primary),
            alias,
        ),
{
}

/// Whether resolving `id` leads to an id that is itself an alias.
pub open spec fn is_chain(links: Map<Seq<char>, Seq<char>>, id: Seq<char>) -> bool {
    links.contains_key(id) && links.contains_key(links[id])
}

/// After a link, the alias and its primary resolve to the same identity,
/// which is the primary.
pub proof fn lemma_linked_ids_share_identity(
    links: Map<Seq<char>, Seq<char>>,
    alias: Seq<char>,
    primary: Seq<char>,
)
    requires
        link_verdict(links, alias, primary) is Ok,
    ensures
        resolved(links.insert(alias, primary), alias) == primary,
        resolved(links.insert(alias, primary), primary) == primary,
{
}

/// After an unlink, the former alias stands for itself again, and every
/// other id resolves as before.
pub proof fn lemma_unlinked_id_is_its_own(
    links: Map<Seq<char>, Seq<char>>,
    alias: Seq<char>,
    other: Seq<char>,
)
    ensures
        resolved(links.remove(alias), alias) == alias,
        other != alias ==> resolved(links.remove(alias), other) == resolved(links, other),
{
}

} // verus!
