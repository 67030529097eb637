use bullseye_stats::identity::{AliasEdge, AliasMap, LinkError};
use bullseye_stats::text_map::TextMap;

fn edge(alias: &str, primary: &str) -> AliasEdge {
    AliasEdge { alias_id: alias.to_string(), primary_id: primary.to_string() }
}

#[test]
fn resolve_unknown_id_is_itself() {
    let map = AliasMap::new();
    assert_eq!(map.resolve("p1"), "p1");
    assert_eq!(map.resolve(""), "");
}

#[test]
fn link_then_resolve_gives_primary() {
    let mut map = AliasMap::new();
    assert_eq!(map.link("p2", "p1"), Ok(()));
    assert_eq!(map.resolve("p2"), "p1");
    assert_eq!(map.resolve("p1"), "p1");
    assert_eq!(map.resolve("p3"), "p3");
}

#[test]
fn link_rejects_self_link() {
    let mut map = AliasMap::new();
    assert_eq!(map.link("p1", "p1"), Err(LinkError::SelfLink));
    assert_eq!(map.resolve("p1"), "p1");
    assert_eq!(map.links.len(), 0);
}

#[test]
fn link_rejects_primary_that_is_an_alias() {
    let mut map = AliasMap::new();
    assert_eq!(map.link("p2", "p1"), Ok(()));
    assert_eq!(map.link("p3", "p2"), Err(LinkError::PrimaryIsAlias));
    assert_eq!(map.resolve("p3"), "p3");
    assert_eq!(map.links.len(), 1);
}

#[test]
fn link_rejects_alias_that_has_aliases() {
    let mut map = AliasMap::new();
    assert_eq!(map.link("p2", "p1"), Ok(()));
    assert_eq!(map.link("p1", "p3"), Err(LinkError::AliasHasAliases));
    assert_eq!(map.resolve("p1"), "p1");
    assert_eq!(map.resolve("p2"), "p1");
    assert_eq!(map.links.len(), 1);
}

#[test]
fn link_checks_self_link_first() {
    let mut map = AliasMap::new();
    assert_eq!(map.link("p2", "p1"), Ok(()));
    assert_eq!(map.link("p2", "p2"), Err(LinkError::SelfLink));
    assert_eq!(map.link("p1", "p1"), Err(LinkError::SelfLink));
}

#[test]
fn link_checks_primary_before_alias() {
    let mut map = AliasMap::from_edges(&vec![edge("a", "b"), edge("c", "d")]);
    // "b" has aliases and "c" is an alias: both rules refuse, the rule on
    // the primary is reported.
    assert_eq!(map.link("b", "c"), Err(LinkError::PrimaryIsAlias));
}

#[test]
fn link_repoints_an_existing_alias() {
    let mut map = AliasMap::new();
    assert_eq!(map.link("p2", "p1"), Ok(()));
    assert_eq!(map.link("p2", "p3"), Ok(()));
    assert_eq!(map.resolve("p2"), "p3");
    assert_eq!(map.links.len(), 1);
}

#[test]
fn unlink_removes_edge_and_is_idempotent() {
    let mut map = AliasMap::new();
    assert_eq!(map.link("p2", "p1"), Ok(()));
    assert!(map.unlink("p2"));
    assert_eq!(map.resolve("p2"), "p2");
    assert!(!map.unlink("p2"));
    assert!(!map.unlink("never"));
    assert_eq!(map.links.len(), 0);
}

#[test]
fn expand_lists_primary_then_aliases() {
    let mut map = AliasMap::new();
    assert_eq!(map.link("p2", "p1"), Ok(()));
    assert_eq!(map.link("x", "y"), Ok(()));
    assert_eq!(map.link("p3", "p1"), Ok(()));
    assert_eq!(map.expand("p1"), vec!["p1", "p2", "p3"]);
    assert_eq!(map.expand("y"), vec!["y", "x"]);
    assert_eq!(map.expand("nobody"), vec!["nobody"]);
}

#[test]
fn from_edges_last_edge_of_an_alias_counts() {
    let map = AliasMap::from_edges(&vec![edge("a", "b"), edge("c", "d"), edge("a", "e")]);
    assert_eq!(map.resolve("a"), "e");
    assert_eq!(map.resolve("c"), "d");
    assert_eq!(map.links.len(), 2);
}

#[test]
fn text_map_insert_get_remove() {
    let mut map = TextMap::new();
    assert_eq!(map.len(), 0);
    assert!(map.get("k").is_none());
    map.insert("k".to_string(), "v".to_string());
    map.insert("l".to_string(), "w".to_string());
    assert_eq!(map.get("k").map(|s| s.as_str()), Some("v"));
    map.insert("k".to_string(), "v2".to_string());
    assert_eq!(map.get("k").map(|s| s.as_str()), Some("v2"));
    assert_eq!(map.len(), 2);
    assert!(map.contains_key("l"));
    assert!(map.has_value("w"));
    assert!(!map.has_value("v"));
    assert!(map.remove("k"));
    assert!(!map.remove("k"));
    assert!(!map.contains_key("k"));
    assert_eq!(map.get("l").map(|s| s.as_str()), Some("w"));
    assert_eq!(map.len(), 1);
}

#[test]
fn text_map_keys_with_value_in_insertion_order() {
    let mut map = TextMap::new();
    map.insert("c".to_string(), "x".to_string());
    map.insert("a".to_string(), "y".to_string());
    map.insert("b".to_string(), "x".to_string());
    assert_eq!(map.keys_with_value("x"), vec!["c", "b"]);
    assert_eq!(map.keys_with_value("y"), vec!["a"]);
    assert_eq!(map.keys_with_value("z"), Vec::<String>::new());
}
