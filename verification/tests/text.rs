use liteparse::text::{clean_ocr_table_artifacts, CharClass};

#[test]
fn test_clean_ocr_table_artifacts() {
    assert_eq!(clean_ocr_table_artifacts("44520]"), "44520");
    assert_eq!(clean_ocr_table_artifacts("|123"), "123");
    assert_eq!(clean_ocr_table_artifacts("0.3|"), "0.3");
    assert_eq!(clean_ocr_table_artifacts("(note)"), "(note)");
    assert_eq!(clean_ocr_table_artifacts("|hello|"), "|hello|");
    assert_eq!(clean_ocr_table_artifacts("N/A"), "N/A");
    assert_eq!(clean_ocr_table_artifacts(""), "");
    assert_eq!(clean_ocr_table_artifacts("|||"), "|||");
}

#[test]
fn space_is_what_unicode_calls_white_space() {
    for code in 0..=0x10ffffu32 {
        if let Some(c) = char::from_u32(code) {
            assert_eq!(CharClass::Space.contains(c), c.is_whitespace(), "{code:x}");
        }
    }
}

#[test]
fn borders_are_bars_and_brackets() {
    for code in 0..=0x10ffffu32 {
        if let Some(c) = char::from_u32(code) {
            assert_eq!(CharClass::Border.contains(c), "|[](){}".contains(c), "{code:x}");
        }
    }
}

#[test]
fn number_cells_lose_their_borders() {
    assert_eq!(clean_ocr_table_artifacts("[{(1,234.50)}]"), "1,234.50");
    assert_eq!(clean_ocr_table_artifacts("| 12 % |"), "12 %");
    assert_eq!(clean_ocr_table_artifacts("|N/A|"), "N/A");
    assert_eq!(clean_ocr_table_artifacts("[Z]"), "Z");
    assert_eq!(clean_ocr_table_artifacts("(-)"), "-");
    assert_eq!(clean_ocr_table_artifacts("|+1*2/3-4|"), "+1*2/3-4");
    assert_eq!(clean_ocr_table_artifacts("(N/B)"), "(N/B)");
    assert_eq!(clean_ocr_table_artifacts("(ZZ)"), "(ZZ)");
}

#[test]
fn outer_space_goes_from_any_text() {
    assert_eq!(clean_ocr_table_artifacts("  (note)\t\n"), "(note)");
    assert_eq!(clean_ocr_table_artifacts("\u{a0}\u{3000}über\u{2028}"), "über");
    assert_eq!(clean_ocr_table_artifacts(" \u{85}\u{2009} "), "");
    assert_eq!(clean_ocr_table_artifacts(" | | "), "| |");
}

#[test]
fn inner_borders_stay() {
    assert_eq!(clean_ocr_table_artifacts("| |5"), "| |5");
    assert_eq!(clean_ocr_table_artifacts("1|2"), "1|2");
}

#[test]
fn cleaning_twice_is_cleaning_once() {
    for text in ["| 12 |", "(note)", " | | ", "", "[N/A]", "|||", "\u{a0}5\u{a0}", "| |5"] {
        let once = clean_ocr_table_artifacts(text);
        assert_eq!(clean_ocr_table_artifacts(&once), once);
        assert!(text.contains(once.as_str()));
        assert_eq!(once.trim(), once);
        assert_eq!(once.is_empty(), text.trim().is_empty());
    }
}

#[test]
fn only_space_and_borders_are_lost_around_a_stretch() {
    for text in ["", " | [ 1,200 ] | ", "|hello| ", "\u{3000}(12%)", "[a] 5 {b}", "((-))", " \t "] {
        let cleaned = clean_ocr_table_artifacts(text);
        let start = text.find(cleaned.as_str()).unwrap();
        let lost = text[..start].chars().chain(text[start + cleaned.len()..].chars());
        for c in lost {
            assert!(CharClass::Space.contains(c) || CharClass::Border.contains(c), "{text:?}");
        }
    }
    assert_eq!(clean_ocr_table_artifacts("[ 1,200 ]"), "1,200");
}
