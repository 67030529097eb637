use bullseye_stats::ranking::{average_parts, card_before, rank_order, RankCard, RankOrder};
use bullseye_stats::tally::{sum_amounts, tally};

fn card(key: &str, total: i64, count: u64) -> RankCard {
    RankCard { key: key.to_string(), total, count }
}

fn strings(items: &[&str]) -> Vec<String> {
    items.iter().map(|s| s.to_string()).collect()
}

#[test]
fn average_of_nothing_is_zero_over_one() {
    assert_eq!(average_parts(0, 0), (0, 1));
    assert_eq!(average_parts(1234, 0), (0, 1));
    assert_eq!(average_parts(-5, 0), (0, 1));
}

#[test]
fn average_parts_are_total_and_count() {
    assert_eq!(average_parts(9000, 2), (9000, 2));
    assert_eq!(average_parts(-7, 3), (-7, 3));
    let (num, den) = average_parts(9000, 2);
    assert_eq!(num as f64 / den as f64, 4500.0);
    let (num, den) = average_parts(0, 0);
    assert_eq!(num as f64 / den as f64, 0.0);
}

#[test]
fn best_ranks_higher_average_first() {
    let a = card("a", 3000, 1);
    let b = card("b", 5000, 2);
    assert!(card_before(RankOrder::Best, &a, &b));
    assert!(!card_before(RankOrder::Best, &b, &a));
    assert!(card_before(RankOrder::Worst, &b, &a));
    assert!(!card_before(RankOrder::Worst, &a, &b));
}

#[test]
fn equal_averages_rank_by_key() {
    let a = card("a", 2, 1);
    let b = card("b", 4, 2);
    for by in [RankOrder::Best, RankOrder::Worst] {
        assert!(card_before(by, &a, &b));
        assert!(!card_before(by, &b, &a));
        assert!(!card_before(by, &a, &a));
    }
}

#[test]
fn averages_are_compared_exactly() {
    // 1/3 against 333333333333/1000000000000: the first is larger.
    let third = card("t", 1, 3);
    let almost = card("a", 333_333_333_333, 1_000_000_000_000);
    assert!(card_before(RankOrder::Best, &third, &almost));
    assert!(card_before(RankOrder::Worst, &almost, &third));
    let big = card("x", i64::MAX, 1);
    let small = card("y", i64::MIN, u64::MAX);
    assert!(card_before(RankOrder::Best, &big, &small));
    assert!(card_before(RankOrder::Worst, &small, &big));
}

#[test]
fn nothing_counted_ranks_as_zero() {
    let none = card("n", 999, 0);
    let minus = card("m", -1, 1);
    let plus = card("p", 1, 1);
    assert!(card_before(RankOrder::Best, &plus, &none));
    assert!(card_before(RankOrder::Best, &none, &minus));
    assert!(card_before(RankOrder::Worst, &minus, &none));
}

#[test]
fn rank_order_lists_positions() {
    let cards = vec![card("c", 10, 1), card("a", 30, 1), card("b", 30, 1), card("d", 40, 2)];
    assert_eq!(rank_order(&cards, RankOrder::Best), vec![1, 2, 3, 0]);
    assert_eq!(rank_order(&cards, RankOrder::Worst), vec![0, 3, 1, 2]);
    assert_eq!(rank_order(&vec![], RankOrder::Best), Vec::<usize>::new());
}

#[test]
fn tally_groups_in_order_of_first_occurrence() {
    let keys = strings(&["fr", "de", "fr", "it", "de", "fr"]);
    let amounts = vec![10, 20, 30, 40, -50, 60];
    let groups = tally(&keys, &amounts);
    assert_eq!(groups.keys, strings(&["fr", "de", "it"]));
    assert_eq!(groups.totals, vec![100, -30, 40]);
    assert_eq!(groups.counts, vec![3, 2, 1]);
    assert_eq!(groups.firsts, vec![0, 1, 3]);
}

#[test]
fn tally_of_nothing_is_empty() {
    let groups = tally(&vec![], &vec![]);
    assert!(groups.keys.is_empty());
    assert!(groups.totals.is_empty());
}

#[test]
fn sum_amounts_adds_everything() {
    assert_eq!(sum_amounts(&vec![]), 0);
    assert_eq!(sum_amounts(&vec![5, -7, 10]), 8);
}
