use rbedic::database::DictDB;
use rbedic::history::History;
use rbedic::parser::parse;

fn item(word: &str, translation: &str) -> DictDB {
    DictDB { word: word.to_string(), translation: translation.to_string() }
}

fn shown(list: &[DictDB]) -> Vec<(&str, &str)> {
    list.iter().map(|r| (r.word.as_str(), r.translation.as_str())).collect()
}

#[test]
fn new_history_is_empty() {
    let history = History::new();
    assert!(history.is_empty());
    assert_eq!(history.len(), 0);
    assert!(!history.contains("cat"));
    assert!(history.find("cat").is_none());
    assert!(history.snapshot_for_display(false).is_empty());
    assert!(history.snapshot_for_display(true).is_empty());
}

#[test]
fn inserted_record_is_contained_and_last() {
    let mut history = History::new();
    assert!(history.insert("dog", "a loyal animal"));
    assert!(!history.contains("cat"));
    assert!(history.insert("cat", "a furry animal"));
    assert!(history.contains("cat"));
    let snapshot = history.snapshot_for_display(false);
    let last = &snapshot[snapshot.len() - 1];
    assert_eq!(last.word, "cat");
    assert_eq!(last.translation, "a furry animal");
    assert_eq!(history.len(), 2);
    assert!(!history.is_empty());
}

#[test]
fn a_headword_is_not_added_twice() {
    let mut history = History::new();
    assert!(history.insert("cat", "a furry animal"));
    assert!(!history.insert("cat", "another translation"));
    assert_eq!(history.len(), 1);
    assert_eq!(shown(&history.snapshot_for_display(false)), vec![("cat", "a furry animal")]);
    assert_eq!(history.find("cat").unwrap().translation, "a furry animal");
}

#[test]
fn gated_inserts_leave_no_two_records_of_one_headword() {
    let offered = [
        ("pear", "1"),
        ("apple", "2"),
        ("pear", "3"),
        ("fig", "4"),
        ("apple", "5"),
        ("apple", "6"),
        ("banana", "7"),
        ("fig", "8"),
    ];
    let mut history = History::new();
    for (word, translation) in offered.iter() {
        if !history.contains(word) {
            assert!(history.insert(word, translation));
        }
    }
    let snapshot = history.snapshot_for_display(false);
    assert_eq!(shown(&snapshot), vec![("pear", "1"), ("apple", "2"), ("fig", "4"), ("banana", "7")]);
    for i in 0..snapshot.len() {
        for j in (i + 1)..snapshot.len() {
            assert!(snapshot[i] != snapshot[j]);
        }
    }
    for (word, _) in offered.iter() {
        assert!(history.contains(word));
    }
}

#[test]
fn snapshot_is_in_order_of_insertion_or_reversed() {
    let mut history = History::new();
    history.insert("pear", "1");
    history.insert("apple", "2");
    history.insert("fig", "3");
    assert_eq!(
        shown(&history.snapshot_for_display(false)),
        vec![("pear", "1"), ("apple", "2"), ("fig", "3")]
    );
    assert_eq!(
        shown(&history.snapshot_for_display(true)),
        vec![("fig", "3"), ("apple", "2"), ("pear", "1")]
    );
    assert_eq!(
        shown(&history.snapshot_for_display(false)),
        vec![("pear", "1"), ("apple", "2"), ("fig", "3")]
    );
}

#[test]
fn lookup_goes_by_headword_whatever_the_order_of_insertion() {
    let mut history = History::new();
    let words = ["m", "c", "x", "a", "q", "b", "z", "n", "d", "y"];
    for (i, word) in words.iter().enumerate() {
        assert!(history.insert(word, &format!("{}", i)));
        for (j, other) in words.iter().enumerate() {
            assert_eq!(history.contains(other), j <= i);
        }
    }
    for (i, word) in words.iter().enumerate() {
        assert_eq!(history.find(word).unwrap().translation, format!("{}", i));
    }
    assert!(!history.contains("e"));
    assert!(!history.contains(""));
    assert!(!history.contains("mm"));
}

#[test]
fn headwords_are_compared_as_they_stand() {
    let mut history = History::new();
    history.insert("Cat", "capital");
    assert!(history.contains("Cat"));
    assert!(!history.contains("cat"));
    assert!(!history.contains("CAT"));
    assert!(history.insert("cat", "small"));
    assert_eq!(history.len(), 2);
}

#[test]
fn history_of_given_records_keeps_their_order() {
    let history = History::from_records(vec![item("pear", "1"), item("apple", "2"), item("fig", "3")]);
    assert_eq!(history.len(), 3);
    assert_eq!(
        shown(&history.snapshot_for_display(false)),
        vec![("pear", "1"), ("apple", "2"), ("fig", "3")]
    );
    assert!(history.contains("apple"));
    assert!(history.contains("fig"));
    assert!(history.contains("pear"));
    assert!(!history.contains("plum"));
}

#[test]
fn history_of_given_records_may_hold_a_headword_twice() {
    let mut history = History::from_records(vec![item("b", "1"), item("a", "2"), item("b", "3")]);
    assert_eq!(history.len(), 3);
    assert_eq!(history.find("b").unwrap().translation, "1");
    assert!(!history.insert("b", "4"));
    assert!(history.insert("c", "5"));
    assert_eq!(
        shown(&history.snapshot_for_display(false)),
        vec![("b", "1"), ("a", "2"), ("b", "3"), ("c", "5")]
    );
}

#[test]
fn history_can_be_fed_by_the_parser() {
    let mut history = History::from_records(parse("one\nfirst^;two\nsecond"));
    assert!(history.contains("one"));
    assert!(history.contains("two"));
    assert!(!history.insert("one", "again"));
    assert!(history.insert("three", "three\nthird"));
    assert_eq!(
        shown(&history.snapshot_for_display(true)),
        vec![("three", "three\nthird"), ("two", "two\nsecond"), ("one", "one\nfirst")]
    );
}
