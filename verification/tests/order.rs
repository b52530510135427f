use rbedic::database::DictDB;
use rbedic::sort::sort_by_headword;
use std::cmp::Ordering;

fn entry(word: &str, translation: &str) -> DictDB {
    DictDB { word: word.to_string(), translation: translation.to_string() }
}

fn headwords(list: &[DictDB]) -> Vec<&str> {
    list.iter().map(|r| r.word.as_str()).collect()
}

#[test]
fn records_are_equal_by_headword_alone() {
    assert!(entry("cat", "a furry animal") == entry("cat", "_"));
    assert!(entry("cat", "same") != entry("car", "same"));
    assert!(entry("", "x") == entry("", "y"));
}

#[test]
fn records_are_ordered_by_headword_alone() {
    assert_eq!(entry("car", "z").cmp(&entry("card", "a")), Ordering::Less);
    assert_eq!(entry("card", "a").cmp(&entry("cat", "a")), Ordering::Less);
    assert_eq!(entry("cat", "a").cmp(&entry("car", "z")), Ordering::Greater);
    assert_eq!(entry("cat", "a").cmp(&entry("cat", "b")), Ordering::Equal);
    assert_eq!(entry("cat", "a").partial_cmp(&entry("cat", "b")), Some(Ordering::Equal));
    assert_eq!(entry("", "a").partial_cmp(&entry("a", "")), Some(Ordering::Less));
    assert!(entry("car", "z") < entry("cat", "a"));
    assert!(entry("cat", "a") >= entry("cat", "b"));
}

#[test]
fn order_is_by_code_point() {
    assert!(entry("Z", "") < entry("a", ""));
    assert!(entry("z", "") < entry("А", ""));
    assert!(entry("А", "") < entry("Я", ""));
    assert!(entry("Я", "") < entry("а", ""));
    assert!(entry("abc", "") < entry("abd", ""));
    assert!(entry("ab", "") < entry("abc", ""));
    assert!(entry("\u{ffff}", "") < entry("\u{10000}", ""));
    assert!(entry("é", "") > entry("z", ""));
}

#[test]
fn a_copy_keeps_both_fields() {
    let record = entry("cat", "a furry animal");
    let copy = record.clone();
    assert_eq!(copy.word, "cat");
    assert_eq!(copy.translation, "a furry animal");
}

#[test]
fn sort_orders_by_headword() {
    let sorted = sort_by_headword(vec![
        entry("pear", ""),
        entry("apple", ""),
        entry("fig", ""),
        entry("", ""),
        entry("banana", ""),
        entry("app", ""),
    ]);
    assert_eq!(headwords(&sorted), vec!["", "app", "apple", "banana", "fig", "pear"]);
}

#[test]
fn sort_keeps_the_order_of_equal_headwords() {
    let sorted = sort_by_headword(vec![
        entry("b", "1"),
        entry("a", "2"),
        entry("b", "3"),
        entry("a", "4"),
        entry("c", "5"),
        entry("b", "6"),
        entry("a", "7"),
    ]);
    let shown: Vec<(&str, &str)> =
        sorted.iter().map(|r| (r.word.as_str(), r.translation.as_str())).collect();
    assert_eq!(
        shown,
        vec![("a", "2"), ("a", "4"), ("a", "7"), ("b", "1"), ("b", "3"), ("b", "6"), ("c", "5")]
    );
}

#[test]
fn sort_of_nothing_and_of_one() {
    assert!(sort_by_headword(Vec::new()).is_empty());
    let one = sort_by_headword(vec![entry("only", "one")]);
    assert_eq!(headwords(&one), vec!["only"]);
}

#[test]
fn sort_agrees_with_the_standard_stable_sort() {
    let mut seed: u32 = 12345;
    for len in 0..60usize {
        let mut list = Vec::new();
        for i in 0..len {
            seed = seed.wrapping_mul(1103515245).wrapping_add(12345);
            let key = (seed >> 16) % 7;
            list.push(entry(&format!("k{}", key), &format!("{}", i)));
        }
        let mut expected: Vec<(String, String)> =
            list.iter().map(|r| (r.word.clone(), r.translation.clone())).collect();
        expected.sort_by(|a, b| a.0.cmp(&b.0));
        let sorted = sort_by_headword(list);
        let got: Vec<(String, String)> =
            sorted.iter().map(|r| (r.word.clone(), r.translation.clone())).collect();
        assert_eq!(got, expected);
    }
}
