use liteparse::engine::{read_reply, HttpOcrEngine};
use liteparse::ocr::{OcrError, OcrOptions};
use liteparse::response::{HttpOcrResponse, HttpOcrResponseItem};
use liteparse::scalar::Scalar;

fn english() -> OcrOptions {
    OcrOptions { language: "eng".to_string() }
}

fn message(error: OcrError) -> String {
    match error {
        OcrError::Message(message) => message,
        OcrError::Image(error) => panic!("{error}"),
    }
}

#[test]
fn test_new_sets_name_and_url() {
    let e = HttpOcrEngine::new("http://example.com/ocr".into());
    assert_eq!(e.name(), "http-ocr");
    assert_eq!(e.server_url, "http://example.com/ocr");
}

#[test]
fn new_sends_no_headers() {
    let e = HttpOcrEngine::new("http://example.com/ocr".into());
    assert!(e.headers.is_empty());
}

#[test]
fn headers_go_with_every_request() {
    let headers = vec![
        ("Authorization".to_string(), "Bearer a".to_string()),
        ("X-Trace".to_string(), "1".to_string()),
    ];
    let e = HttpOcrEngine::with_headers("http://example.com/ocr".into(), headers.clone());
    assert_eq!(e.name(), "http-ocr");
    assert_eq!(e.headers, headers);
    let request = e.form_request(vec![1, 2, 3], &english());
    assert_eq!(request.headers, headers);
    assert_eq!(request.file.bytes, [1, 2, 3]);
}

#[test]
fn request_is_a_form_with_file_and_language() {
    let e = HttpOcrEngine::new("http://example.com/ocr".into());
    let request = e.request(&[10, 20, 30, 40, 50, 60], 2, 1, &english()).unwrap();
    assert_eq!(request.url, "http://example.com/ocr");
    assert_eq!(request.file.field, "file");
    assert_eq!(request.file.file_name, "image.png");
    assert_eq!(request.file.mime, "image/png");
    assert_eq!(request.language.field, "language");
    assert_eq!(request.language.value, "eng");
    assert_eq!(request.timeout_millis, 60000);
    assert!(request.headers.is_empty());
}

#[test]
fn request_carries_the_image_as_png() {
    let samples: Vec<u8> = (0..3 * 5 * 4).map(|i| (i * 7 % 251) as u8).collect();
    let e = HttpOcrEngine::new("http://example.com/ocr".into());
    let request = e.request(&samples, 5, 4, &english()).unwrap();
    assert_eq!(&request.file.bytes[..8], b"\x89PNG\r\n\x1a\n");
    let decoded = image::load_from_memory(&request.file.bytes).unwrap().to_rgb8();
    assert_eq!(decoded.dimensions(), (5, 4));
    assert_eq!(decoded.into_raw(), samples);
    // The same image makes the same file.
    assert_eq!(e.request(&samples, 5, 4, &english()).unwrap().file.bytes, request.file.bytes);
}

#[test]
fn samples_beyond_the_image_are_ignored() {
    let e = HttpOcrEngine::new("http://example.com/ocr".into());
    let request = e.request(&[1, 2, 3, 4], 1, 1, &english()).unwrap();
    let decoded = image::load_from_memory(&request.file.bytes).unwrap().to_rgb8();
    assert_eq!(decoded.into_raw(), [1, 2, 3]);
}

#[test]
fn too_few_samples_are_refused() {
    let e = HttpOcrEngine::new("http://example.com/ocr".into());
    let error = e.request(&[0; 11], 2, 2, &english()).err().unwrap();
    assert_eq!(message(error), "failed to create image buffer from raw RGB data");
    let error = e.request(&[0; 11], u32::MAX, u32::MAX, &english()).err().unwrap();
    assert_eq!(message(error), "failed to create image buffer from raw RGB data");
}

#[test]
fn images_without_extent_are_refused() {
    let e = HttpOcrEngine::new("http://example.com/ocr".into());
    assert!(matches!(e.request(&[], 0, 3, &english()), Err(OcrError::Image(_))));
    assert!(matches!(e.request(&[1, 2, 3], 7, 0, &english()), Err(OcrError::Image(_))));
    assert!(matches!(e.request(&[], 0, 0, &english()), Err(OcrError::Image(_))));
}

#[test]
fn a_readable_reply_gives_its_results() {
    let zero = Scalar { bits: 0 };
    let item = HttpOcrResponseItem {
        text: "hi".to_string(),
        bbox: [zero; 4],
        confidence: zero,
        polygon: None,
    };
    let parsed = Ok(HttpOcrResponse::Standard { results: vec![item] });
    let results = read_reply("ignored", parsed).unwrap();
    assert_eq!(results.len(), 1);
    assert_eq!(results[0].text, "hi");
}

#[test]
fn an_unreadable_reply_is_quoted() {
    let error = read_reply("<html>", Err("expected value".to_string())).err().unwrap();
    assert_eq!(
        message(error),
        "OCR server returned unparseable response: expected value; body starts: <html>"
    );
}

#[test]
fn a_quote_ends_after_two_hundred_characters() {
    let raw: String = "é".repeat(150) + &"x".repeat(150);
    let error = read_reply(&raw, Err("e".to_string())).err().unwrap();
    let expected = "é".repeat(150) + &"x".repeat(50);
    assert_eq!(
        message(error),
        format!("OCR server returned unparseable response: e; body starts: {expected}")
    );
    let raw = "y".repeat(200);
    let error = read_reply(&raw, Err("e".to_string())).err().unwrap();
    assert!(message(error).ends_with(&raw));
}
