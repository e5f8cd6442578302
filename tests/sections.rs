use wikt::section::{section_text, split_by_section, GRAM_RX, LANG_RX};

#[test]
fn splits_languages() {
    let text = "==English==\nfoo\n===Noun===\nbar\n==French==\nbaz\n";
    let parts = split_by_section(LANG_RX, text).unwrap();
    assert_eq!(parts.len(), 2);
    assert_eq!(section_text(&parts, "english").unwrap(), "foo\n===Noun===\nbar");
    assert_eq!(section_text(&parts, "french").unwrap(), "baz");
    let english = section_text(&parts, "english").unwrap();
    let grams = split_by_section(GRAM_RX, &english).unwrap();
    assert_eq!(section_text(&grams, "noun").unwrap(), "bar");
}

#[test]
fn second_split_of_a_section_is_empty() {
    let text = "== A ==\nX\n== B ==\nY\n";
    let parts = split_by_section(LANG_RX, text).unwrap();
    assert_eq!(parts.len(), 2);
    assert_eq!(parts[0].1, "X");
    assert_eq!(parts[1].1, "Y");
    for (_, body) in &parts {
        assert!(split_by_section(LANG_RX, body).unwrap().is_empty());
    }
}

#[test]
fn no_headings_no_sections() {
    assert!(split_by_section(LANG_RX, "plain text\n").unwrap().is_empty());
}

#[test]
fn later_duplicate_wins() {
    let parts = split_by_section(LANG_RX, "==A==\none\n==a==\ntwo\n").unwrap();
    assert_eq!(section_text(&parts, "a").unwrap(), "two");
    assert!(section_text(&parts, "b").is_none());
}

#[test]
fn bad_pattern_is_refused() {
    assert!(split_by_section("(", "x").is_none());
}

#[test]
fn bodies_lose_unicode_white_space() {
    let parts = split_by_section(LANG_RX, "==X==\n\u{3000}body text\u{a0}\n").unwrap();
    assert_eq!(section_text(&parts, "x").unwrap(), "body text");
}
