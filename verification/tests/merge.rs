use liteparse::merge::{
    merge_outcomes, merge_results, needs_ocr, overlaps_existing_text, text_length, Page,
    PageOutcome, TextItem, CONFIDENCE_FLOOR_BITS, CONFIDENCE_STEPS_BITS, POINTS_PER_INCH_BITS,
    TOLERANCE_BITS,
};
use liteparse::ocr::OcrResult;
use liteparse::scalar::Scalar;

type Corners = [f32; 4];

fn s(value: f32) -> Scalar {
    Scalar { bits: value.to_bits() }
}

fn item(text: &str, x: f32, y: f32, width: f32, height: f32) -> TextItem {
    TextItem {
        text: text.to_string(),
        x: s(x),
        y: s(y),
        width: s(width),
        height: s(height),
        rotation: s(90.0),
        font_name: None,
        font_size: None,
        font_height: None,
        font_ascent: None,
        font_descent: None,
        font_weight: Some(400),
        font_flags: None,
        text_width: None,
        font_is_buggy: true,
        mcid: None,
        fill_color: None,
        stroke_color: None,
        confidence: None,
    }
}

fn result(text: &str, confidence: f32, corners: Corners) -> OcrResult {
    OcrResult {
        text: text.to_string(),
        bbox: corners.map(s),
        confidence: s(confidence),
        polygon: None,
    }
}

fn page(number: usize, texts: &[&str]) -> Page {
    let text_items = texts
        .iter()
        .enumerate()
        .map(|(i, text)| item(text, 0.0, 20.0 * i as f32, 50.0, 10.0))
        .collect();
    Page { page_number: number, text_items }
}

fn texts(items: &[TextItem]) -> Vec<&str> {
    items.iter().map(|i| i.text.as_str()).collect()
}

#[test]
fn thin_pages_and_pages_with_images_are_read() {
    let thin = page(1, &["a", &"b".repeat(98)]);
    let full = page(1, &["a", &"b".repeat(99)]);
    assert_eq!(text_length(&thin.text_items), 99);
    assert_eq!(text_length(&full.text_items), 100);
    assert!(needs_ocr(&thin, false));
    assert!(needs_ocr(&thin, true));
    assert!(!needs_ocr(&full, false));
    assert!(needs_ocr(&full, true));
    assert!(needs_ocr(&page(1, &[]), false));
}

#[test]
fn native_text_is_counted_in_characters() {
    let accented = page(1, &[&"é".repeat(60)]);
    assert_eq!(text_length(&accented.text_items), 60);
    assert!(needs_ocr(&accented, false));
    assert!(!needs_ocr(&page(1, &[&"é".repeat(100)]), false));
}

#[test]
fn constants_are_what_they_stand_for() {
    assert_eq!(CONFIDENCE_FLOOR_BITS, 0.1f32.to_bits());
    assert_eq!(POINTS_PER_INCH_BITS, 72.0f32.to_bits());
    assert_eq!(TOLERANCE_BITS, 2.0f32.to_bits());
    assert_eq!(CONFIDENCE_STEPS_BITS, 1000.0f32.to_bits());
}

fn overlaps(items: &[TextItem], x: f32, y: f32, w: f32, h: f32) -> bool {
    overlaps_existing_text(items, s(x), s(y), s(w), s(h), s(2.0))
}

#[test]
fn overlap_is_judged_with_a_tolerance() {
    let items = vec![item("a", 10.0, 10.0, 20.0, 10.0)];
    assert!(overlaps(&items, 15.0, 12.0, 5.0, 5.0));
    assert!(overlaps(&items, 31.9, 10.0, 5.0, 5.0));
    assert!(!overlaps(&items, 32.0, 10.0, 5.0, 5.0));
    assert!(overlaps(&items, 3.5, 10.0, 5.0, 5.0));
    assert!(!overlaps(&items, 3.0, 10.0, 5.0, 5.0));
    assert!(overlaps(&items, 10.0, 3.5, 5.0, 5.0));
    assert!(!overlaps(&items, 10.0, 3.0, 5.0, 5.0));
    assert!(overlaps(&items, 10.0, 21.9, 5.0, 5.0));
    assert!(!overlaps(&items, 10.0, 22.0, 5.0, 5.0));
    assert!(!overlaps(&items, f32::NAN, 12.0, 5.0, 5.0));
    assert!(!overlaps(&[], 10.0, 10.0, 5.0, 5.0));
    assert!(!overlaps_existing_text(&items, s(31.0), s(10.0), s(5.0), s(5.0), s(0.0)));
}

#[test]
fn a_result_becomes_an_item() {
    let mut items = vec![item("old", 0.0, 0.0, 10.0, 10.0)];
    let results = [result("|123", 0.87654, [200.0, 100.0, 260.0, 124.5])];
    let added = merge_results(&mut items, &results, s(72.0).quotient(s(144.0)));
    assert_eq!(added, 1);
    assert_eq!(texts(&items), ["old", "123"]);
    assert_eq!(items[0].rotation, s(90.0));
    let new = &items[1];
    assert_eq!((new.x, new.y), (s(100.0), s(50.0)));
    assert_eq!((new.width, new.height), (s(30.0), s(12.25)));
    assert_eq!(new.rotation, s(0.0));
    assert_eq!(new.font_name.as_deref(), Some("OCR"));
    assert_eq!(new.font_size, Some(s(12.25)));
    assert_eq!(new.confidence, Some(s(0.877)));
    assert_eq!(new.font_height, None);
    assert_eq!(new.font_ascent, None);
    assert_eq!(new.font_descent, None);
    assert_eq!(new.font_weight, None);
    assert_eq!(new.font_flags, None);
    assert_eq!(new.text_width, None);
    assert!(!new.font_is_buggy);
    assert_eq!(new.mcid, None);
    assert_eq!(new.fill_color, None);
    assert_eq!(new.stroke_color, None);
}

#[test]
fn places_are_scaled_as_the_hardware_scales() {
    for dpi in [72.0f32, 150.0, 200.0, 299.7, 300.0] {
        let corners = [123.25f32, 45.5, 321.125, 67.75];
        let mut pages = vec![page(1, &[])];
        let outcomes = [PageOutcome {
            page_index: 0,
            page_number: 1,
            recognized: Ok(vec![result("text", 0.33333334, corners)]),
        }];
        assert_eq!(merge_outcomes(&mut pages, &outcomes, s(dpi)), [1]);
        let scale = 72.0 / dpi;
        let new = &pages[0].text_items[0];
        assert_eq!(new.x, s(corners[0] * scale));
        assert_eq!(new.y, s(corners[1] * scale));
        assert_eq!(new.width, s((corners[2] - corners[0]) * scale));
        assert_eq!(new.height, s((corners[3] - corners[1]) * scale));
        assert_eq!(new.confidence, Some(s((0.33333334f32 * 1000.0).round() / 1000.0)));
    }
}

#[test]
fn doubtful_empty_and_covered_results_are_left_out() {
    let mut items = vec![item("old", 0.0, 0.0, 10.0, 10.0)];
    let results = [
        result("doubtful", 0.1, [0.0, 100.0, 10.0, 110.0]),
        result("  ", 0.9, [0.0, 200.0, 10.0, 210.0]),
        result("covered", 0.9, [5.0, 5.0, 15.0, 15.0]),
        result("kept", 0.11, [0.0, 300.0, 10.0, 310.0]),
        result("later", 0.9, [5.0, 305.0, 15.0, 315.0]),
        result("unsure", f32::NAN, [0.0, 400.0, 10.0, 410.0]),
    ];
    assert_eq!(merge_results(&mut items, &results, s(1.0)), 2);
    assert_eq!(texts(&items), ["old", "kept", "unsure"]);
}

#[test]
fn merging_again_adds_nothing() {
    let results = [
        result("a", 0.9, [0.0, 0.0, 10.0, 10.0]),
        result("b", 0.9, [50.0, 0.0, 60.0, 10.0]),
    ];
    let mut items = vec![];
    assert_eq!(merge_results(&mut items, &results, s(1.0)), 2);
    assert_eq!(merge_results(&mut items, &results, s(1.0)), 0);
    assert_eq!(texts(&items), ["a", "b"]);
}

#[test]
fn boxes_that_do_not_overlap_themselves_come_again() {
    let results = [result("a", 0.9, [f32::NAN, 0.0, 10.0, 10.0])];
    let mut items = vec![];
    assert_eq!(merge_results(&mut items, &results, s(1.0)), 1);
    assert_eq!(merge_results(&mut items, &results, s(1.0)), 1);
}

#[test]
fn merging_in_parts_is_merging_at_once() {
    let first = vec![
        result("a", 0.9, [0.0, 0.0, 10.0, 10.0]),
        result("b", 0.9, [5.0, 5.0, 15.0, 15.0]),
    ];
    let second = vec![result("c", 0.9, [20.0, 20.0, 30.0, 30.0])];
    let mut parts = vec![];
    merge_results(&mut parts, &first, s(1.0));
    merge_results(&mut parts, &second, s(1.0));
    let mut whole = vec![];
    let all: Vec<OcrResult> = first.into_iter().chain(second).collect();
    merge_results(&mut whole, &all, s(1.0));
    assert_eq!(texts(&parts), texts(&whole));
    assert_eq!(texts(&whole), ["a", "c"]);
}

#[test]
fn results_go_to_their_own_pages() {
    let mut pages = vec![page(1, &["one"]), page(2, &["two"]), page(3, &["three"]), page(4, &[])];
    let spot = [200.0, 200.0, 210.0, 210.0];
    let outcomes = [
        PageOutcome {
            page_index: 2,
            page_number: 3,
            recognized: Ok(vec![result("c", 0.9, spot), result("d", 0.9, spot)]),
        },
        PageOutcome { page_index: 0, page_number: 1, recognized: Err("timeout".to_string()) },
        PageOutcome { page_index: 1, page_number: 2, recognized: Ok(vec![]) },
        PageOutcome {
            page_index: 3,
            page_number: 4,
            recognized: Ok(vec![result("e", 0.9, spot)]),
        },
    ];
    assert_eq!(merge_outcomes(&mut pages, &outcomes, s(72.0)), [1, 0, 0, 1]);
    assert_eq!(texts(&pages[0].text_items), ["one"]);
    assert_eq!(texts(&pages[1].text_items), ["two"]);
    assert_eq!(texts(&pages[2].text_items), ["three", "c"]);
    assert_eq!(texts(&pages[3].text_items), ["e"]);
    let numbers: Vec<usize> = pages.iter().map(|p| p.page_number).collect();
    assert_eq!(numbers, [1, 2, 3, 4]);
}

#[test]
fn no_outcomes_leave_the_pages_alone() {
    let mut pages = vec![page(1, &["one"])];
    assert!(merge_outcomes(&mut pages, &[], s(72.0)).is_empty());
    assert_eq!(texts(&pages[0].text_items), ["one"]);
}

#[test]
fn ordinary_boxes_overlap_themselves() {
    for [x, y, w, h] in [
        [0.0, 0.0, 0.0, 0.0],
        [10.5, -20.25, 3.0, 4.0],
        [1.0e6, 1.0e6, 1.0e3, 0.0],
        [-8.0e6, 8.0e6, 1.0, 1.0],
        [-1.0e7, 1.0e7, 1.0e30, f32::INFINITY],
    ] {
        assert!(overlaps(&[item("a", x, y, w, h)], x, y, w, h));
    }
    // Far out, the tolerance is lost in rounding.
    assert!(!overlaps(&[item("a", 1.0e9, 0.0, 0.0, 5.0)], 1.0e9, 0.0, 0.0, 5.0));
}

#[test]
fn added_items_overlap_nothing_before_them() {
    let mut items = vec![item("old", 0.0, 0.0, 30.0, 10.0)];
    let results: Vec<OcrResult> = (0..40)
        .map(|i| {
            let x = (i * 7 % 40) as f32 * 3.0;
            let y = (i * 11 % 40) as f32 * 2.0;
            result("t", 0.9, [x, y, x + 12.0, y + 8.0])
        })
        .collect();
    let added = merge_results(&mut items, &results, s(1.0));
    assert!(added > 1 && added < 40);
    for j in 1..items.len() {
        let new = &items[j];
        let before = &items[..j];
        assert!(!overlaps_existing_text(before, new.x, new.y, new.width, new.height, s(2.0)));
    }
}
