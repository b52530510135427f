use rbedic::database::DictDB;
use rbedic::parser::parse;
use regex::Regex;

fn pairs(list: &[DictDB]) -> Vec<(String, String)> {
    list.iter().map(|r| (r.word.clone(), r.translation.clone())).collect()
}

fn pair(word: &str, translation: &str) -> (String, String) {
    (word.to_string(), translation.to_string())
}

/// The records of `text` by the pattern that a record has to match: a first
/// line, a line break, and whatever follows.
fn by_pattern(text: &str) -> Vec<(String, String)> {
    let item = Regex::new(r"^(.*)\n(.|\s)*").unwrap();
    let mut found = Vec::new();
    for piece in text.split("^;") {
        if let Some(cap) = item.captures(piece) {
            found.push((cap[1].to_string(), cap[0].to_string()));
        }
    }
    found
}

#[test]
fn parses_records_in_source_order() {
    let text = "ZEBRA\nan animal^;APPLE\na fruit\nsecond line^;MANGO\nanother fruit";
    assert_eq!(
        pairs(&parse(text)),
        vec![
            pair("ZEBRA", "ZEBRA\nan animal"),
            pair("APPLE", "APPLE\na fruit\nsecond line"),
            pair("MANGO", "MANGO\nanother fruit"),
        ]
    );
}

#[test]
fn translation_holds_the_headword_line() {
    let list = parse("cat\na furry animal");
    assert_eq!(list.len(), 1);
    assert_eq!(list[0].word, "cat");
    assert_eq!(list[0].translation, "cat\na furry animal");
}

#[test]
fn pieces_without_a_line_break_are_passed_over() {
    assert!(parse("").is_empty());
    assert!(parse("no line break").is_empty());
    assert!(parse("one^;two^;three").is_empty());
    assert_eq!(pairs(&parse("one^;two\n2^;three")), vec![pair("two", "two\n2")]);
    assert_eq!(pairs(&parse("^;^;a\nb^;^;")), vec![pair("a", "a\nb")]);
}

#[test]
fn headword_is_kept_as_it_stands() {
    assert_eq!(pairs(&parse("  Cat \u{442}\t\nx")), vec![pair("  Cat \u{442}\t", "  Cat \u{442}\t\nx")]);
    assert_eq!(pairs(&parse("word\r\nx")), vec![pair("word\r", "word\r\nx")]);
}

#[test]
fn headword_may_be_empty_and_translation_may_end_at_the_line_break() {
    assert_eq!(pairs(&parse("\nonly a translation")), vec![pair("", "\nonly a translation")]);
    assert_eq!(pairs(&parse("word\n")), vec![pair("word", "word\n")]);
    assert_eq!(pairs(&parse("\n")), vec![pair("", "\n")]);
    assert_eq!(pairs(&parse("a\nb^;\nc\nd")), vec![pair("a", "a\nb"), pair("", "\nc\nd")]);
}

#[test]
fn only_the_two_characters_together_part_records() {
    assert_eq!(pairs(&parse("a^b;c\nd")), vec![pair("a^b;c", "a^b;c\nd")]);
    assert_eq!(pairs(&parse("a;^\nd")), vec![pair("a;^", "a;^\nd")]);
    assert_eq!(pairs(&parse("a\nb^")), vec![pair("a", "a\nb^")]);
    assert_eq!(pairs(&parse("a\nb^^;c\nd")), vec![pair("a", "a\nb^"), pair("c", "c\nd")]);
    assert_eq!(pairs(&parse("a\nb^;;c\nd")), vec![pair("a", "a\nb"), pair(";c", ";c\nd")]);
    assert_eq!(pairs(&parse("a\nb^^^;^c\nd")), vec![pair("a", "a\nb^^"), pair("^c", "^c\nd")]);
    assert_eq!(pairs(&parse("^\n^;^\n")), vec![pair("^", "^\n"), pair("^", "^\n")]);
}

#[test]
fn parses_text_outside_ascii() {
    let text = "ДУМА\nword\u{1F600}^;ЯБЪЛКА\nябълка\n";
    assert_eq!(
        pairs(&parse(text)),
        vec![pair("ДУМА", "ДУМА\nword\u{1F600}"), pair("ЯБЪЛКА", "ЯБЪЛКА\nябълка\n")]
    );
}

#[test]
fn parser_agrees_with_the_record_pattern() {
    let samples = [
        "",
        "\n",
        "^;",
        "^",
        ";",
        "a",
        "a\n",
        "a\nb",
        "a\nb^;c\nd",
        "a\nb^;c",
        "^;a\nb",
        "a\nb^;",
        "a^\n;b^;\n^;^^;;\n^",
        "x\ty \n z\r\n^;\u{a0}\n\u{2028}^;q\u{85}\nr",
        "^^^\n^;;^;^;\n\n\n^;^",
        "АБВ\nгде^;ЖЗИ\nклм\nноп^;рст",
    ];
    for text in samples.iter() {
        assert_eq!(pairs(&parse(text)), by_pattern(text), "text {:?}", text);
    }
}

#[test]
fn parser_agrees_with_the_record_pattern_on_generated_texts() {
    let alphabet = ['a', '^', ';', '\n', 'Б', ' '];
    let mut seed: u32 = 2024;
    for round in 0..400 {
        let len = round % 17;
        let mut text = String::new();
        for _ in 0..len {
            seed = seed.wrapping_mul(1664525).wrapping_add(1013904223);
            text.push(alphabet[((seed >> 24) % 6) as usize]);
        }
        assert_eq!(pairs(&parse(&text)), by_pattern(&text), "text {:?}", text);
    }
}
