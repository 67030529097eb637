use bullseye_stats::identity::AliasMap;
use bullseye_stats::team::{build_team_key, insert_sorted, parse_team_ids};

fn strings(items: &[&str]) -> Vec<String> {
    items.iter().map(|s| s.to_string()).collect()
}

#[test]
fn team_key_is_order_invariant() {
    let aliases = AliasMap::new();
    let ab = build_team_key(&strings(&["a", "b"]), &aliases);
    let ba = build_team_key(&strings(&["b", "a"]), &aliases);
    assert_eq!(ab.key, "a,b");
    assert_eq!(ba.key, "a,b");
    assert_eq!(ab.members, strings(&["a", "b"]));
    assert_eq!(ba.members, strings(&["a", "b"]));
}

#[test]
fn team_key_collapses_aliases() {
    let mut aliases = AliasMap::new();
    assert_eq!(aliases.link("b", "a"), Ok(()));
    let team = build_team_key(&strings(&["a", "b"]), &aliases);
    assert_eq!(team.key, "a");
    assert_eq!(team.members, strings(&["a"]));
    let only_alias = build_team_key(&strings(&["b"]), &aliases);
    assert_eq!(only_alias.key, "a");
}

#[test]
fn team_key_treats_ids_as_distinct_again_after_unlink() {
    let mut aliases = AliasMap::new();
    assert_eq!(aliases.link("b", "a"), Ok(()));
    assert_eq!(build_team_key(&strings(&["a", "b"]), &aliases).key, "a");
    assert!(aliases.unlink("b"));
    let team = build_team_key(&strings(&["a", "b"]), &aliases);
    assert_eq!(team.key, "a,b");
    assert_eq!(team.members, strings(&["a", "b"]));
}

#[test]
fn team_key_drops_repeats_and_sorts() {
    let aliases = AliasMap::new();
    let team = build_team_key(&strings(&["c", "a", "c", "b", "a"]), &aliases);
    assert_eq!(team.key, "a,b,c");
    assert_eq!(team.members, strings(&["a", "b", "c"]));
}

#[test]
fn team_key_of_empty_roster_is_empty() {
    let aliases = AliasMap::new();
    let team = build_team_key(&strings(&[]), &aliases);
    assert_eq!(team.key, "");
    assert!(team.members.is_empty());
}

#[test]
fn team_key_keeps_the_empty_id() {
    let aliases = AliasMap::new();
    let team = build_team_key(&strings(&["b", ""]), &aliases);
    assert_eq!(team.key, ",b");
    assert_eq!(team.members, strings(&["", "b"]));
}

#[test]
fn insert_sorted_keeps_order_and_skips_known() {
    let mut list = strings(&["b", "d"]);
    insert_sorted(&mut list, "c".to_string());
    assert_eq!(list, strings(&["b", "c", "d"]));
    insert_sorted(&mut list, "a".to_string());
    insert_sorted(&mut list, "e".to_string());
    insert_sorted(&mut list, "c".to_string());
    assert_eq!(list, strings(&["a", "b", "c", "d", "e"]));
}

#[test]
fn parse_team_ids_splits_and_trims() {
    assert_eq!(parse_team_ids("a,b"), strings(&["a", "b"]));
    assert_eq!(parse_team_ids(" a , b\t"), strings(&["a", "b"]));
    assert_eq!(parse_team_ids(""), strings(&[""]));
    assert_eq!(parse_team_ids("a,,b"), strings(&["a", "", "b"]));
    assert_eq!(parse_team_ids("  one id  "), strings(&["one id"]));
}
