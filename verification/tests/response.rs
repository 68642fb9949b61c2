use liteparse::ocr::OcrResult;
use liteparse::response::{HttpOcrResponse, HttpOcrResponseItem, ProdOcrItem};
use liteparse::scalar::Scalar;
use serde_json::Value;

fn s(value: f32) -> Scalar {
    Scalar { bits: value.to_bits() }
}

fn number(value: &Value) -> Scalar {
    s(value.as_f64().unwrap() as f32)
}

fn point(value: &Value) -> [Scalar; 2] {
    [number(&value[0]), number(&value[1])]
}

fn standard_item(value: &Value) -> HttpOcrResponseItem {
    let bbox = &value["bbox"];
    HttpOcrResponseItem {
        text: value["text"].as_str().unwrap().to_string(),
        bbox: [number(&bbox[0]), number(&bbox[1]), number(&bbox[2]), number(&bbox[3])],
        confidence: number(&value["confidence"]),
        polygon: value
            .get("polygon")
            .map(|p| [point(&p[0]), point(&p[1]), point(&p[2]), point(&p[3])]),
    }
}

fn prod_item(value: &Value) -> ProdOcrItem {
    ProdOcrItem(
        value[0].as_array().unwrap().iter().map(point).collect(),
        value[1].as_str().unwrap().to_string(),
        number(&value[2]),
    )
}

fn read(raw: &str) -> HttpOcrResponse {
    let value: Value = serde_json::from_str(raw).unwrap();
    match value.get("results") {
        Some(results) => HttpOcrResponse::Standard {
            results: results.as_array().unwrap().iter().map(standard_item).collect(),
        },
        None => HttpOcrResponse::Prod {
            result: value["result"].as_array().unwrap().iter().map(prod_item).collect(),
        },
    }
}

fn bbox(r: &OcrResult) -> [f32; 4] {
    r.bbox.map(|c| f32::from_bits(c.bits))
}

fn confidence(r: &OcrResult) -> f32 {
    f32::from_bits(r.confidence.bits)
}

fn polygon(r: &OcrResult) -> Option<[[f32; 2]; 4]> {
    r.polygon.map(|p| p.map(|q| q.map(|c| f32::from_bits(c.bits))))
}

fn prod(points: &[[f32; 2]]) -> OcrResult {
    ProdOcrItem(points.iter().map(|p| [s(p[0]), s(p[1])]).collect(), "t".to_string(), s(0.5))
        .into_ocr_result()
}

#[test]
fn test_response_deserializes() {
    let raw = r#"{"results":[{"text":"hi","bbox":[1.0,2.0,3.0,4.0],"confidence":0.85}]}"#;
    let parsed = read(raw);
    let results = parsed.into_results();
    assert_eq!(results.len(), 1);
    assert_eq!(results[0].text, "hi");
    assert_eq!(bbox(&results[0]), [1.0, 2.0, 3.0, 4.0]);
    assert!((confidence(&results[0]) - 0.85).abs() < 1e-6);
}

#[test]
fn test_response_deserializes_empty() {
    let raw = r#"{"results":[]}"#;
    let parsed = read(raw);
    assert!(parsed.into_results().is_empty());
}

#[test]
fn test_prod_response_deserializes() {
    let raw = r#"{"document_angle":-90,"result":[[[[10.0,20.0],[60.0,20.0],[60.0,40.0],[10.0,40.0]],"hi",0.85]]}"#;
    let parsed = read(raw);
    let results = parsed.into_results();
    assert_eq!(results.len(), 1);
    assert_eq!(results[0].text, "hi");
    // The box spans the polygon.
    assert_eq!(bbox(&results[0]), [10.0, 20.0, 60.0, 40.0]);
    assert!((confidence(&results[0]) - 0.85).abs() < 1e-6);
    // Four points are handed on as they came.
    assert_eq!(
        polygon(&results[0]),
        Some([[10.0, 20.0], [60.0, 20.0], [60.0, 40.0], [10.0, 40.0]])
    );
}

#[test]
fn test_prod_response_empty() {
    let raw = r#"{"document_angle":null,"result":[]}"#;
    let parsed = read(raw);
    assert!(parsed.into_results().is_empty());
}

#[test]
fn standard_detections_keep_their_polygon() {
    let raw = r#"{"results":[{"text":"a","bbox":[0,0,1,1],"confidence":1,
        "polygon":[[0,0],[1,0],[1,1],[0,1]]}]}"#;
    let results = read(raw).into_results();
    assert_eq!(polygon(&results[0]), Some([[0.0, 0.0], [1.0, 0.0], [1.0, 1.0], [0.0, 1.0]]));
}

#[test]
fn results_keep_the_order_of_the_reply() {
    let raw = r#"{"result":[[[[3,4]],"b",0.5],[[[1,2]],"a",0.25]]}"#;
    let results = read(raw).into_results();
    let texts: Vec<&str> = results.iter().map(|r| r.text.as_str()).collect();
    assert_eq!(texts, ["b", "a"]);
    assert_eq!(bbox(&results[1]), [1.0, 2.0, 1.0, 2.0]);
    assert_eq!(confidence(&results[1]), 0.25);
}

#[test]
fn other_polygons_give_a_box_alone() {
    let r = prod(&[[5.0, -1.0], [2.0, 7.5], [-3.5, 0.0]]);
    assert_eq!(bbox(&r), [-3.5, -1.0, 5.0, 7.5]);
    assert_eq!(polygon(&r), None);
    let r = prod(&[[0.0, 0.0], [1.0, 0.0], [2.0, 1.0], [1.0, 2.0], [0.0, 1.0]]);
    assert_eq!(bbox(&r), [0.0, 0.0, 2.0, 2.0]);
    assert_eq!(polygon(&r), None);
}

#[test]
fn no_points_give_the_empty_box() {
    let r = prod(&[]);
    assert_eq!(
        bbox(&r),
        [f32::INFINITY, f32::INFINITY, f32::NEG_INFINITY, f32::NEG_INFINITY]
    );
    assert_eq!(polygon(&r), None);
}

#[test]
fn coordinates_that_are_no_numbers_do_not_count() {
    let r = prod(&[[f32::NAN, 1.0], [4.0, f32::NAN], [2.0, 3.0]]);
    assert_eq!(bbox(&r), [2.0, 1.0, 4.0, 3.0]);
    let r = prod(&[[f32::NAN, 1.0]]);
    assert_eq!(bbox(&r), [f32::INFINITY, 1.0, f32::NEG_INFINITY, 1.0]);
}

#[test]
fn the_box_holds_every_point() {
    let points = [[3.0, 9.0], [-2.0, 4.0], [7.0, -6.0], [0.5, 0.25]];
    let b = bbox(&prod(&points));
    for p in points {
        assert!(b[0] <= p[0] && p[0] <= b[2] && b[1] <= p[1] && p[1] <= b[3]);
    }
}
