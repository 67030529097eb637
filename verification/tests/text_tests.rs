use bullseye_stats::text::{
    chars_of, contains_text, eq_ignore_ascii_case, join_texts, position_of, same_text,
    sorts_before, split_at,
};

fn strings(items: &[&str]) -> Vec<String> {
    items.iter().map(|s| s.to_string()).collect()
}

#[test]
fn chars_of_keeps_every_character() {
    assert_eq!(chars_of("aé𝄞"), vec!['a', 'é', '𝄞']);
    assert_eq!(chars_of(""), Vec::<char>::new());
}

#[test]
fn same_text_compares_characters() {
    assert!(same_text("abc", "abc"));
    assert!(!same_text("abc", "abd"));
    assert!(!same_text("abc", "ab"));
    assert!(same_text("", ""));
}

#[test]
fn sorts_before_is_lexicographic() {
    assert!(sorts_before("a", "b"));
    assert!(!sorts_before("b", "a"));
    assert!(!sorts_before("a", "a"));
    assert!(sorts_before("a", "ab"));
    assert!(!sorts_before("ab", "a"));
    assert!(sorts_before("", "a"));
    assert!(sorts_before("Z", "a"));
    assert!(sorts_before("p10", "p2"));
}

#[test]
fn sorts_before_agrees_with_std_order() {
    let words = ["", "a", "ab", "b", "B", "é", "z", "10", "2", "𝄞"];
    for a in words {
        for b in words {
            assert_eq!(sorts_before(a, b), a < b, "{:?} {:?}", a, b);
        }
    }
}

#[test]
fn eq_ignore_ascii_case_folds_only_ascii() {
    assert!(eq_ignore_ascii_case("Finished", "finished"));
    assert!(eq_ignore_ascii_case("FINISHED", "finished"));
    assert!(!eq_ignore_ascii_case("finishe", "finished"));
    assert!(!eq_ignore_ascii_case("É", "é"));
    assert!(eq_ignore_ascii_case("", ""));
    assert!(!eq_ignore_ascii_case("@", "`"));
    assert!(!eq_ignore_ascii_case("[", "{"));
}

#[test]
fn contains_text_finds_runs() {
    assert!(contains_text("a diverse world", "diverse"));
    assert!(contains_text("a diverse world", ""));
    assert!(contains_text("", ""));
    assert!(!contains_text("", "a"));
    assert!(!contains_text("abc", "abcd"));
    assert!(contains_text("abc", "abc"));
    assert!(contains_text("aab", "ab"));
    assert!(!contains_text("abab", "bb"));
    assert!(contains_text("xyz", "z"));
}

#[test]
fn join_texts_puts_separator_between() {
    assert_eq!(join_texts(&strings(&[]), ","), "");
    assert_eq!(join_texts(&strings(&["a"]), ","), "a");
    assert_eq!(join_texts(&strings(&["a", "b", "c"]), ","), "a,b,c");
    assert_eq!(join_texts(&strings(&["Ann", "Bob"]), ", "), "Ann, Bob");
    assert_eq!(join_texts(&strings(&["", ""]), ","), ",");
}

#[test]
fn split_at_gives_every_piece() {
    assert_eq!(split_at("a,b,c", ','), strings(&["a", "b", "c"]));
    assert_eq!(split_at("", ','), strings(&[""]));
    assert_eq!(split_at(",", ','), strings(&["", ""]));
    assert_eq!(split_at("a,,b,", ','), strings(&["a", "", "b", ""]));
    assert_eq!(split_at("abc", ','), strings(&["abc"]));
}

#[test]
fn split_at_agrees_with_std_split() {
    for text in ["", "a", ",", "a,b", ",a,", "é,𝄞,,x"] {
        let want: Vec<String> = text.split(',').map(|s| s.to_string()).collect();
        assert_eq!(split_at(text, ','), want);
    }
}

#[test]
fn position_of_finds_first() {
    let list = strings(&["a", "b", "a", "c"]);
    assert_eq!(position_of(&list, "a"), Some(0));
    assert_eq!(position_of(&list, "c"), Some(3));
    assert_eq!(position_of(&list, "d"), None);
    assert_eq!(position_of(&strings(&[]), "a"), None);
}
