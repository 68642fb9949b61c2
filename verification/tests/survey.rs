use liteparse::merge::{merge_outcomes, Page, TextItem};
use liteparse::ocr::{OcrError, OcrResult};
use liteparse::scalar::Scalar;
use liteparse::survey::{Step, Survey, MAX_IMAGE_COVER_BITS, MIN_IMAGE_SIZE_BITS};

const ZERO: Scalar = Scalar { bits: 0 };

fn page(number: usize, chars: usize) -> Page {
    let item = TextItem {
        text: "x".repeat(chars),
        x: ZERO,
        y: ZERO,
        width: ZERO,
        height: ZERO,
        rotation: ZERO,
        font_name: None,
        font_size: None,
        font_height: None,
        font_ascent: None,
        font_descent: None,
        font_weight: None,
        font_flags: None,
        text_width: None,
        font_is_buggy: false,
        mcid: None,
        fill_color: None,
        stroke_color: None,
        confidence: None,
    };
    Page { page_number: number, text_items: vec![item] }
}

fn result(text: &str) -> OcrResult {
    OcrResult {
        text: text.to_string(),
        bbox: [100.0f32, 100.0, 150.0, 110.0].map(|c| Scalar { bits: c.to_bits() }),
        confidence: Scalar { bits: 0.9f32.to_bits() },
        polygon: None,
    }
}

fn inspect(page_index: usize, object_index: i32) -> Step {
    Step::Inspect {
        page_index,
        object_index,
        min_size: Scalar { bits: 25.0f32.to_bits() },
        max_cover: Scalar { bits: 0.9f32.to_bits() },
    }
}

/// Surveys the pages; those with an even number have images.
fn surveyed(pages: &[Page]) -> Survey {
    let mut survey = Survey::new(pages);
    loop {
        match survey.step(pages) {
            Step::Inspect { page_index, .. } => {
                survey.inspected(pages, pages[page_index].page_number % 2 == 0)
            }
            Step::Render { .. } => survey.take_rendering(pages, vec![0; 4], 1, 1).unwrap(),
            Step::Done => return survey,
        }
    }
}

/// Surveys the pages and merges what reading them gives: one long result, one short one
/// and one that is doubtful.
fn pass(pages: &mut Vec<Page>, dpi: f32) -> (Vec<usize>, Vec<usize>) {
    let survey = surveyed(pages);
    let read = survey.rendered.iter().map(|r| r.page_index).collect();
    let long = "y".repeat(150);
    let outcomes: Vec<_> = survey
        .rendered
        .iter()
        .map(|r| {
            let mut far = result("far");
            far.bbox = [300.0f32, 300.0, 350.0, 310.0].map(|c| Scalar { bits: c.to_bits() });
            let mut doubtful = result("doubtful");
            doubtful.confidence = ZERO;
            r.outcome(Ok(vec![result(&long), doubtful, far]))
        })
        .collect();
    (read, merge_outcomes(pages, &outcomes, Scalar { bits: dpi.to_bits() }))
}

#[test]
fn a_second_pass_changes_nothing() {
    let mut pages = vec![page(1, 500), page(2, 500), page(3, 0), page(4, 0)];
    let (read, added) = pass(&mut pages, 150.0);
    assert_eq!(read, [1, 2, 3]);
    assert_eq!(added, [2, 2, 2]);
    let before = format!("{pages:?}");
    let (read, added) = pass(&mut pages, 150.0);
    assert_eq!(read, [1, 3]);
    assert_eq!(added, [0, 0]);
    assert_eq!(format!("{pages:?}"), before);
}

#[test]
fn a_second_pass_at_a_negative_resolution_adds_again() {
    let mut pages = vec![page(2, 0)];
    assert_eq!(pass(&mut pages, -72.0).1, [2]);
    assert_eq!(pass(&mut pages, -72.0).1, [2]);
    assert_eq!(pages[0].text_items.len(), 5);
}

#[test]
fn limits_are_what_they_stand_for() {
    assert_eq!(MIN_IMAGE_SIZE_BITS, 25.0f32.to_bits());
    assert_eq!(MAX_IMAGE_COVER_BITS, 0.9f32.to_bits());
}

#[test]
fn a_survey_reads_the_pages_that_need_it() {
    let pages = vec![page(5, 100), page(6, 99), page(7, 300)];
    let mut survey = Survey::new(&pages);
    assert_eq!(survey.step(&pages), inspect(0, 4));
    survey.inspected(&pages, false);
    assert_eq!(survey.step(&pages), inspect(1, 5));
    survey.inspected(&pages, false);
    assert_eq!(survey.step(&pages), Step::Render { page_index: 1 });
    survey.take_rendering(&pages, vec![1, 2, 3, 4], 1, 1).unwrap();
    assert_eq!(survey.step(&pages), inspect(2, 6));
    survey.inspected(&pages, true);
    assert_eq!(survey.step(&pages), Step::Render { page_index: 2 });
    survey.take_rendering(&pages, vec![5, 6, 7, 8], 1, 1).unwrap();
    assert_eq!(survey.step(&pages), Step::Done);
    assert_eq!(survey.has_images, [false, false, true]);
    let read: Vec<(usize, usize)> =
        survey.rendered.iter().map(|r| (r.page_index, r.page_number)).collect();
    assert_eq!(read, [(1, 6), (2, 7)]);
    assert_eq!(survey.rendered[0].rgb_bytes, [1, 2, 3]);
    assert_eq!(survey.rendered[1].rgb_bytes, [5, 6, 7]);
}

#[test]
fn a_document_without_pages_is_done_at_once() {
    assert_eq!(Survey::new(&[]).step(&[]), Step::Done);
}

#[test]
fn a_rendering_loses_its_alpha_channel() {
    let pages = vec![page(1, 0)];
    let mut survey = Survey::new(&pages);
    survey.inspected(&pages, false);
    let rgba = vec![1, 2, 3, 255, 4, 5, 6, 0, 7, 8, 9, 128, 10, 11, 12, 1, 99, 99];
    survey.take_rendering(&pages, rgba, 2, 2).unwrap();
    let rendered = &survey.rendered[0];
    assert_eq!(rendered.rgb_bytes, [1, 2, 3, 4, 5, 6, 7, 8, 9, 10, 11, 12]);
    assert_eq!((rendered.width, rendered.height), (2, 2));
}

#[test]
fn an_image_without_extent_has_no_samples() {
    let pages = vec![page(1, 0)];
    let mut survey = Survey::new(&pages);
    survey.inspected(&pages, false);
    survey.take_rendering(&pages, vec![], 0, 5).unwrap();
    assert!(survey.rendered[0].rgb_bytes.is_empty());
}

#[test]
fn a_rendering_with_too_few_samples_is_refused() {
    let pages = vec![page(1, 0)];
    let mut survey = Survey::new(&pages);
    survey.inspected(&pages, false);
    let error = survey.take_rendering(&pages, vec![0; 15], 2, 2).err().unwrap();
    assert!(matches!(error, OcrError::Message(m) if m == "failed to create image buffer"));
    assert_eq!(survey.step(&pages), Step::Render { page_index: 0 });
}

#[test]
fn pages_get_their_own_results() {
    let mut pages = vec![page(1, 500), page(2, 0), page(3, 0)];
    let mut survey = Survey::new(&pages);
    while survey.step(&pages) != Step::Done {
        match survey.step(&pages) {
            Step::Inspect { .. } => survey.inspected(&pages, false),
            _ => survey.take_rendering(&pages, vec![0; 4], 1, 1).unwrap(),
        }
    }
    let outcomes = vec![
        survey.rendered[0].outcome(Ok(vec![result("two")])),
        survey.rendered[1].outcome(Err("timeout".to_string())),
    ];
    assert_eq!(outcomes[0].page_index, 1);
    assert_eq!(outcomes[0].page_number, 2);
    assert_eq!(merge_outcomes(&mut pages, &outcomes, Scalar { bits: 72.0f32.to_bits() }), [1, 0]);
    assert_eq!(pages[0].text_items.len(), 1);
    assert_eq!(pages[1].text_items.len(), 2);
    assert_eq!(pages[1].text_items[1].text, "two");
    assert_eq!(pages[2].text_items.len(), 1);
}
