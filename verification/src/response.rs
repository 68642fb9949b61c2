//! Replies of OCR servers, in the two shapes that servers send.
use crate::ocr::OcrResult;
use crate::scalar::{law_infinities_bound, Scalar, INFINITY_BITS, NEG_INFINITY_BITS};
use vstd::prelude::*;

verus! {

/// A detection in the standard shape.
#[derive(Debug)]
pub struct HttpOcrResponseItem {
    pub text: String,
    pub bbox: [Scalar; 4],
    pub confidence: Scalar,
    /// The corners of the detection, where the server sends them.
    pub polygon: Option<[[Scalar; 2]; 4]>,
}

impl HttpOcrResponseItem {
    /// The result with the same four fields.
    pub open spec fn as_result(self) -> OcrResult {
        OcrResult {
            text: self.text,
            bbox: self.bbox,
            confidence: self.confidence,
            polygon: self.polygon,
        }
    }

    /// Hands the detection on as it came.
    pub fn into_ocr_result(self) -> (r: OcrResult)
        ensures
            r == self.as_result(),
            r.text == self.text,
            r.bbox == self.bbox,
            r.confidence == self.confidence,
            r.polygon == self.polygon,
    {
        OcrResult {
            text: self.text,
            bbox: self.bbox,
            confidence: self.confidence,
            polygon: self.polygon,
        }
    }
}

/// Coordinate `axis` of each point: 0 for x, 1 for y.
pub open spec fn coordinates(points: Seq<[Scalar; 2]>, axis: int) -> Seq<Scalar> {
    Seq::new(points.len(), |i: int| points[i]@[axis])
}

/// Whether `m` is the least number of `xs`, the first of its equals; positive infinity
/// where `xs` holds no number.
pub open spec fn is_least(xs: Seq<Scalar>, m: Scalar) -> bool {
    &&& (forall|i: int| 0 <= i < xs.len() ==> (#[trigger] xs[i]).nan()) ==> m.bits == INFINITY_BITS
    &&& (exists|i: int| 0 <= i < xs.len() && !(#[trigger] xs[i]).nan()) ==> exists|i: int|
        is_first_least(xs, i, m)
}

/// Whether `m` is the number at `i`, no number of `xs` is below it, and every number
/// before `i` is above it.
pub open spec fn is_first_least(xs: Seq<Scalar>, i: int, m: Scalar) -> bool {
    &&& 0 <= i < xs.len()
    &&& xs[i] == m
    &&& !m.nan()
    &&& forall|j: int| 0 <= j < xs.len() && !(#[trigger] xs[j]).nan() ==> m.not_above(xs[j])
    &&& forall|j: int| 0 <= j < i && !(#[trigger] xs[j]).nan() ==> m.below(xs[j])
}

/// Whether `m` is the greatest number of `xs`, the first of its equals; negative
/// infinity where `xs` holds no number.
pub open spec fn is_greatest(xs: Seq<Scalar>, m: Scalar) -> bool {
    &&& (forall|i: int| 0 <= i < xs.len() ==> (#[trigger] xs[i]).nan()) ==> m.bits
        == NEG_INFINITY_BITS
    &&& (exists|i: int| 0 <= i < xs.len() && !(#[trigger] xs[i]).nan()) ==> exists|i: int|
        is_first_greatest(xs, i, m)
}

/// Whether `m` is the number at `i`, no number of `xs` is above it, and every number
/// before `i` is below it.
pub open spec fn is_first_greatest(xs: Seq<Scalar>, i: int, m: Scalar) -> bool {
    &&& 0 <= i < xs.len()
    &&& xs[i] == m
    &&& !m.nan()
    &&& forall|j: int| 0 <= j < xs.len() && !(#[trigger] xs[j]).nan() ==> xs[j].not_above(m)
    &&& forall|j: int| 0 <= j < i && !(#[trigger] xs[j]).nan() ==> xs[j].below(m)
}

/// The least of a sequence, once one more number has come.
proof fn lemma_least_push(xs: Seq<Scalar>, x: Scalar, m: Scalar)
    requires
        is_least(xs, m),
    ensures
        is_least(xs.push(x), m.lesser(x)),
{
    let ys = xs.push(x);
    let n = m.lesser(x);
    let last = xs.len() as int;
    assert(ys[last] == x);
    if exists|i: int| 0 <= i < xs.len() && !(#[trigger] xs[i]).nan() {
        let k = choose|i: int| is_first_least(xs, i, m);
        assert(ys[k] == m);
        assert forall|j: int| 0 <= j < last implies ys[j] == #[trigger] xs[j] by {}
        if x.below(m) {
            assert(is_first_least(ys, last, n));
        } else {
            assert(is_first_least(ys, k, n));
        }
    } else if x.nan() {
        assert(forall|i: int| 0 <= i < xs.len() ==> (#[trigger] xs[i]).nan());
        assert forall|i: int| 0 <= i < ys.len() implies (#[trigger] ys[i]).nan() by {
            if i < last {
                assert(xs[i].nan());
            }
        }
    } else {
        assert(forall|i: int| 0 <= i < xs.len() ==> (#[trigger] xs[i]).nan());
        law_infinities_bound(x);
        assert forall|j: int| 0 <= j < last implies (#[trigger] ys[j]).nan() by {
            assert(xs[j].nan());
        }
        crate::scalar::lemma_infinity_unique(x);
        assert(is_first_least(ys, last, n));
    }
}

/// The greatest of a sequence, once one more number has come.
proof fn lemma_greatest_push(xs: Seq<Scalar>, x: Scalar, m: Scalar)
    requires
        is_greatest(xs, m),
    ensures
        is_greatest(xs.push(x), m.greater(x)),
{
    let ys = xs.push(x);
    let n = m.greater(x);
    let last = xs.len() as int;
    assert(ys[last] == x);
    if exists|i: int| 0 <= i < xs.len() && !(#[trigger] xs[i]).nan() {
        let k = choose|i: int| is_first_greatest(xs, i, m);
        assert(ys[k] == m);
        assert forall|j: int| 0 <= j < last implies ys[j] == #[trigger] xs[j] by {}
        if m.below(x) {
            assert(is_first_greatest(ys, last, n));
        } else {
            assert(is_first_greatest(ys, k, n));
        }
    } else if x.nan() {
        assert(forall|i: int| 0 <= i < xs.len() ==> (#[trigger] xs[i]).nan());
        assert forall|i: int| 0 <= i < ys.len() implies (#[trigger] ys[i]).nan() by {
            if i < last {
                assert(xs[i].nan());
            }
        }
    } else {
        assert(forall|i: int| 0 <= i < xs.len() ==> (#[trigger] xs[i]).nan());
        law_infinities_bound(x);
        assert forall|j: int| 0 <= j < last implies (#[trigger] ys[j]).nan() by {
            assert(xs[j].nan());
        }
        crate::scalar::lemma_infinity_unique(x);
        assert(is_first_greatest(ys, last, n));
    }
}

/// A detection in the positional shape, `[polygon, text, confidence]`: the polygon is a
/// list of `[x, y]` points, top left first and then clockwise.
#[derive(Debug)]
pub struct ProdOcrItem(pub Vec<[Scalar; 2]>, pub String, pub Scalar);

impl ProdOcrItem {
    /// Whether `r` is this detection with the box that spans its polygon. The polygon
    /// itself is handed on where it has exactly four points.
    pub open spec fn gives(self, r: OcrResult) -> bool {
        let xs = coordinates(self.0@, 0);
        let ys = coordinates(self.0@, 1);
        &&& r.text == self.1
        &&& r.confidence == self.2
        &&& is_least(xs, r.bbox@[0])
        &&& is_least(ys, r.bbox@[1])
        &&& is_greatest(xs, r.bbox@[2])
        &&& is_greatest(ys, r.bbox@[3])
        &&& r.polygon is Some <==> self.0@.len() == 4
        &&& r.polygon matches Some(corners) ==> corners@ == self.0@
    }

    /// Hands the detection on with the box that spans its polygon.
    pub fn into_ocr_result(self) -> (r: OcrResult)
        ensures
            self.gives(r),
            r.text == self.1,
            r.confidence == self.2,
            self.0@.len() == 4 ==> r.polygon is Some && r.polygon->0@ == self.0@,
            self.0@.len() != 4 ==> r.polygon is None,
    {
        let ProdOcrItem(poly, text, confidence) = self;
        let ghost xs = coordinates(poly@, 0);
        let ghost ys = coordinates(poly@, 1);
        let mut min_x = Scalar::infinity();
        let mut min_y = Scalar::infinity();
        let mut max_x = Scalar::neg_infinity();
        let mut max_y = Scalar::neg_infinity();
        let mut i: usize = 0;
        while i < poly.len()
            invariant
                i <= poly@.len(),
                xs == coordinates(poly@, 0),
                ys == coordinates(poly@, 1),
                is_least(xs.take(i as int), min_x),
                is_least(ys.take(i as int), min_y),
                is_greatest(xs.take(i as int), max_x),
                is_greatest(ys.take(i as int), max_y),
            decreases poly.len() - i,
        {
            let x = poly[i][0];
            let y = poly[i][1];
            proof {
                lemma_least_push(xs.take(i as int), x, min_x);
                lemma_least_push(ys.take(i as int), y, min_y);
                lemma_greatest_push(xs.take(i as int), x, max_x);
                lemma_greatest_push(ys.take(i as int), y, max_y);
                assert(xs.take(i + 1) =~= xs.take(i as int).push(x));
                assert(ys.take(i + 1) =~= ys.take(i as int).push(y));
            }
            min_x = min_x.min(x);
            min_y = min_y.min(y);
            max_x = max_x.max(x);
            max_y = max_y.max(y);
            i = i + 1;
        }
        proof {
            assert(xs.take(i as int) =~= xs);
            assert(ys.take(i as int) =~= ys);
        }
        let polygon = if poly.len() == 4 {
            let corners = [poly[0], poly[1], poly[2], poly[3]];
            assert(corners@ =~= poly@);
            Some(corners)
        } else {
            None
        };
        OcrResult { text, bbox: [min_x, min_y, max_x, max_y], confidence, polygon }
    }
}

/// A server's reply in either shape. A reply that has the standard shape is read as that,
/// and only another one as the positional shape.
#[derive(Debug)]
pub enum HttpOcrResponse {
    Standard { results: Vec<HttpOcrResponseItem> },
    Prod { result: Vec<ProdOcrItem> },
}

impl HttpOcrResponse {
    /// The number of detections in the reply.
    pub open spec fn count(self) -> nat {
        match self {
            HttpOcrResponse::Standard { results } => results@.len(),
            HttpOcrResponse::Prod { result } => result@.len(),
        }
    }

    /// Whether `r` is what the detection at `i` comes to.
    pub open spec fn gives(self, i: int, r: OcrResult) -> bool {
        match self {
            HttpOcrResponse::Standard { results } => r == results@[i].as_result(),
            HttpOcrResponse::Prod { result } => result@[i].gives(r),
        }
    }

    /// The results of all detections, in the order of the reply.
    pub fn into_results(self) -> (r: Vec<OcrResult>)
        ensures
            r@.len() == self.count(),
            forall|i: int| 0 <= i < r@.len() ==> self.gives(i, #[trigger] r@[i]),
            self matches HttpOcrResponse::Standard { results } ==> r@.len() == results@.len()
                && forall|i: int|
                0 <= i < r@.len() ==> {
                    &&& (#[trigger] r@[i]).text == results@[i].text
                    &&& r@[i].bbox == results@[i].bbox
                    &&& r@[i].confidence == results@[i].confidence
                    &&& r@[i].polygon == results@[i].polygon
                },
            self matches HttpOcrResponse::Prod { result } ==> r@.len() == result@.len()
                && forall|i: int|
                0 <= i < r@.len() ==> {
                    &&& (#[trigger] r@[i]).text == result@[i].1
                    &&& r@[i].confidence == result@[i].2
                    &&& result@[i].0@.len() == 4 ==> r@[i].polygon is Some
                        && r@[i].polygon->0@ == result@[i].0@
                    &&& result@[i].0@.len() != 4 ==> r@[i].polygon is None
                },
    {
        let mut out: Vec<OcrResult> = Vec::new();
        match self {
            HttpOcrResponse::Standard { results } => {
                for item in iter: results
                    invariant
                        out@.len() == iter.index(),
                        iter.seq() == results@,
                        forall|i: int| 0 <= i < out@.len() ==> #[trigger] out@[i]
                            == results@[i].as_result(),
                {
                    out.push(item.into_ocr_result());
                }
            },
            HttpOcrResponse::Prod { result } => {
                for item in iter: result
                    invariant
                        out@.len() == iter.index(),
                        iter.seq() == result@,
                        forall|i: int| 0 <= i < out@.len() ==> result@[i].gives(
                            #[trigger] out@[i],
                        ),
                {
                    out.push(item.into_ocr_result());
                }
            },
        }
        out
    }
}

/// The box around a positional detection holds every point of its polygon: no number
/// among the coordinates lies outside it.
pub proof fn law_box_encloses(item: ProdOcrItem, r: OcrResult, i: int)
    requires
        item.gives(r),
        0 <= i < item.0@.len(),
    ensures
        !item.0@[i]@[0].nan() ==> r.bbox@[0].not_above(item.0@[i]@[0]) && item.0@[i]@[0].not_above(
            r.bbox@[2],
        ),
        !item.0@[i]@[1].nan() ==> r.bbox@[1].not_above(item.0@[i]@[1]) && item.0@[i]@[1].not_above(
            r.bbox@[3],
        ),
{
    let xs = coordinates(item.0@, 0);
    let ys = coordinates(item.0@, 1);
    assert(xs[i] == item.0@[i]@[0]);
    assert(ys[i] == item.0@[i]@[1]);
}

/// A positional detection has one result: its text, box, confidence and corners are all
/// settled by the detection.
pub proof fn law_result_settled(item: ProdOcrItem, r: OcrResult, s: OcrResult)
    requires
        item.gives(r),
        item.gives(s),
    ensures
        r.text == s.text,
        r.confidence == s.confidence,
        r.bbox@ == s.bbox@,
        r.polygon is Some <==> s.polygon is Some,
        r.polygon is Some ==> r.polygon->0@ == s.polygon->0@,
{
    let xs = coordinates(item.0@, 0);
    let ys = coordinates(item.0@, 1);
    lemma_least_unique(xs, r.bbox@[0], s.bbox@[0]);
    lemma_least_unique(ys, r.bbox@[1], s.bbox@[1]);
    lemma_greatest_unique(xs, r.bbox@[2], s.bbox@[2]);
    lemma_greatest_unique(ys, r.bbox@[3], s.bbox@[3]);
    assert(r.bbox@ =~= s.bbox@);
}

proof fn lemma_least_unique(xs: Seq<Scalar>, a: Scalar, b: Scalar)
    requires
        is_least(xs, a),
        is_least(xs, b),
    ensures
        a == b,
{
    if exists|i: int| 0 <= i < xs.len() && !(#[trigger] xs[i]).nan() {
        let i = choose|i: int| is_first_least(xs, i, a);
        let j = choose|j: int| is_first_least(xs, j, b);
        assert(!xs[i].nan() && !xs[j].nan());
        assert(i == j);
    }
}

proof fn lemma_greatest_unique(xs: Seq<Scalar>, a: Scalar, b: Scalar)
    requires
        is_greatest(xs, a),
        is_greatest(xs, b),
    ensures
        a == b,
{
    if exists|i: int| 0 <= i < xs.len() && !(#[trigger] xs[i]).nan() {
        let i = choose|i: int| is_first_greatest(xs, i, a);
        let j = choose|j: int| is_first_greatest(xs, j, b);
        assert(!xs[i].nan() && !xs[j].nan());
        assert(i == j);
    }
}

/// The box around a positional detection is no wider than its points ask for: each side
/// goes through one of the points, and where no point has a number for a side, the box is
/// the empty one there, from positive infinity to negative infinity.
pub proof fn law_box_is_tight(item: ProdOcrItem, r: OcrResult, axis: int)
    requires
        item.gives(r),
        axis == 0 || axis == 1,
    ensures
        (exists|i: int| 0 <= i < item.0@.len() && !(#[trigger] item.0@[i])@[axis].nan()) ==> {
            &&& exists|i: int| 0 <= i < item.0@.len() && (#[trigger] item.0@[i])@[axis]
                == r.bbox@[axis]
            &&& exists|i: int| 0 <= i < item.0@.len() && (#[trigger] item.0@[i])@[axis]
                == r.bbox@[axis + 2]
            &&& r.bbox@[axis].units() <= r.bbox@[axis + 2].units()
        },
        (forall|i: int| 0 <= i < item.0@.len() ==> (#[trigger] item.0@[i])@[axis].nan()) ==> {
            &&& r.bbox@[axis].bits == 0x7f80_0000
            &&& r.bbox@[axis + 2].bits == 0xff80_0000
        },
{
    let xs = coordinates(item.0@, axis);
    let least = r.bbox@[axis];
    let greatest = r.bbox@[axis + 2];
    assert(is_least(xs, least));
    assert(is_greatest(xs, greatest));
    assert forall|i: int| 0 <= i < item.0@.len() implies xs[i]
        == (#[trigger] item.0@[i])@[axis] by {}
    if exists|i: int| 0 <= i < item.0@.len() && !(#[trigger] item.0@[i])@[axis].nan() {
        let i = choose|i: int| 0 <= i < item.0@.len() && !(#[trigger] item.0@[i])@[axis].nan();
        assert(!xs[i].nan());
        let low = choose|i: int| is_first_least(xs, i, least);
        let high = choose|i: int| is_first_greatest(xs, i, greatest);
        assert(item.0@[low]@[axis] == r.bbox@[axis]);
        assert(item.0@[high]@[axis] == r.bbox@[axis + 2]);
    } else {
        assert forall|i: int| 0 <= i < xs.len() implies (#[trigger] xs[i]).nan() by {
            assert(item.0@[i]@[axis].nan());
        }
    }
}

/// Nothing is lost between a detection in the standard shape and its result: each of the
/// four fields comes out as it went in, so that detections with the same result are the
/// same in every field, and a result has corners exactly where its detection has.
pub proof fn law_standard_detections_are_kept(a: HttpOcrResponseItem, b: HttpOcrResponseItem)
    ensures
        a.as_result().text == a.text,
        a.as_result().bbox == a.bbox,
        a.as_result().confidence == a.confidence,
        a.as_result().polygon == a.polygon,
        a.as_result().polygon is Some <==> a.polygon is Some,
        a.as_result() == b.as_result() <==> a == b,
{
}

/// Nothing is lost between a detection in the positional shape and its result: the text
/// and the confidence come out as they went in, and so do the points where they are four.
pub proof fn law_positional_detections_are_kept(item: ProdOcrItem, r: OcrResult)
    requires
        item.gives(r),
    ensures
        r.text == item.1,
        r.confidence == item.2,
        item.0@.len() == 4 ==> r.polygon is Some && r.polygon->0@ == item.0@,
        item.0@.len() != 4 ==> r.polygon is None,
{
}

/// Every detection of a reply gives one result, and the one at its own place.
pub proof fn law_replies_are_kept(response: HttpOcrResponse, i: int, r: OcrResult)
    requires
        0 <= i < response.count(),
        response.gives(i, r),
    ensures
        match response {
            HttpOcrResponse::Standard { results } => {
                &&& response.count() == results@.len()
                &&& r.text == results@[i].text
                &&& r.bbox == results@[i].bbox
                &&& r.confidence == results@[i].confidence
                &&& r.polygon == results@[i].polygon
            },
            HttpOcrResponse::Prod { result } => {
                &&& response.count() == result@.len()
                &&& r.text == result@[i].1
                &&& r.confidence == result@[i].2
                &&& result@[i].0@.len() == 4 ==> r.polygon is Some && r.polygon->0@
                    == result@[i].0@
                &&& result@[i].0@.len() != 4 ==> r.polygon is None
                &&& forall|k: int|
                    0 <= k < result@[i].0@.len() ==> {
                        let x = (#[trigger] result@[i].0@[k])@[0];
                        let y = result@[i].0@[k]@[1];
                        &&& !x.nan() ==> r.bbox@[0].units() <= x.units() <= r.bbox@[2].units()
                        &&& !y.nan() ==> r.bbox@[1].units() <= y.units() <= r.bbox@[3].units()
                    }
            },
        },
{
    if let HttpOcrResponse::Prod { result } = response {
        assert forall|k: int| 0 <= k < result@[i].0@.len() implies {
            let x = (#[trigger] result@[i].0@[k])@[0];
            let y = result@[i].0@[k]@[1];
            &&& !x.nan() ==> r.bbox@[0].units() <= x.units() <= r.bbox@[2].units()
            &&& !y.nan() ==> r.bbox@[1].units() <= y.units() <= r.bbox@[3].units()
        } by {
            law_box_encloses(result@[i], r, k);
        }
    }
}

} // verus!
