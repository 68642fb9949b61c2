//! Choosing the pages to read and merging what was read into their text.
use crate::arithmetic::{
    law_differences_keep_the_order, law_products_keep_the_sign, law_quotients_are_nearest,
    law_quotients_do_not_vanish, law_sums_cross_no_number, law_two_is_felt, lemma_one,
    units_in_one,
};
use crate::ocr::OcrResult;
use crate::scalar::{lemma_magnitude_increases, Scalar, INFINITY_BITS};
use crate::text::{
    clean_ocr_table_artifacts, cleaned, law_cleaned_has_no_outer_space, CharClass,
};
use vstd::arithmetic::power2::{lemma2_to64, lemma_pow2_adds, pow2};
use vstd::math::abs;
use vstd::prelude::*;
use vstd::string::*;

verus! {

/// A page with less native text than this, in characters, is read by OCR.
pub const MIN_NATIVE_CHARS: usize = 100;

/// The bit pattern of 0.1: a result must be more certain than this to be kept.
pub const CONFIDENCE_FLOOR_BITS: u32 = 0x3dcc_cccd;

/// The bit pattern of 72: places on a page are given in points, and this is how many make
/// an inch.
pub const POINTS_PER_INCH_BITS: u32 = 0x4290_0000;

/// The bit pattern of 2: how far apart, in points, two boxes may be and still overlap.
pub const TOLERANCE_BITS: u32 = 0x4000_0000;

/// The bit pattern of 1000: confidences are kept to thousandths.
pub const CONFIDENCE_STEPS_BITS: u32 = 0x447a_0000;

/// The bit pattern of 2 to the power 24, from where on numbers lie more than 1 apart.
pub const ORDINARY_LIMIT_BITS: u32 = 0x4b80_0000;

/// An upright box on a page. The y axis points down.
#[derive(Debug, Clone, Copy, PartialEq, Eq, Structural)]
pub struct Frame {
    pub x: Scalar,
    pub y: Scalar,
    pub width: Scalar,
    pub height: Scalar,
}

impl Frame {
    /// Whether `other` comes closer to this box than `tolerance`, on both axes.
    pub open spec fn near(self, other: Frame, tolerance: Scalar) -> bool {
        &&& other.x.below(self.x.plus(self.width).plus(tolerance))
        &&& self.x.minus(tolerance).below(other.x.plus(other.width))
        &&& other.y.below(self.y.plus(self.height).plus(tolerance))
        &&& self.y.minus(tolerance).below(other.y.plus(other.height))
    }
}

/// How many points a pixel of an image with `dpi` dots per inch measures.
pub open spec fn scale_of(dpi: Scalar) -> Scalar {
    (Scalar { bits: POINTS_PER_INCH_BITS }).over(dpi)
}

/// Where the box of a result, given by two corners in pixels, stands on its page.
pub open spec fn frame_of(bbox: Seq<Scalar>, scale: Scalar) -> Frame {
    Frame {
        x: bbox[0].times(scale),
        y: bbox[1].times(scale),
        width: bbox[2].minus(bbox[0]).times(scale),
        height: bbox[3].minus(bbox[1]).times(scale),
    }
}

/// A confidence to thousandths.
pub open spec fn to_thousandths(confidence: Scalar) -> Scalar {
    confidence.times(Scalar { bits: CONFIDENCE_STEPS_BITS }).whole().over(
        Scalar { bits: CONFIDENCE_STEPS_BITS },
    )
}

/// A piece of text on a page.
#[derive(Debug)]
pub struct TextItem {
    pub text: String,
    pub x: Scalar,
    pub y: Scalar,
    pub width: Scalar,
    pub height: Scalar,
    pub rotation: Scalar,
    pub font_name: Option<String>,
    pub font_size: Option<Scalar>,
    pub font_height: Option<Scalar>,
    pub font_ascent: Option<Scalar>,
    pub font_descent: Option<Scalar>,
    pub font_weight: Option<i32>,
    pub font_flags: Option<i32>,
    pub text_width: Option<Scalar>,
    pub font_is_buggy: bool,
    pub mcid: Option<i32>,
    pub fill_color: Option<u32>,
    pub stroke_color: Option<u32>,
    pub confidence: Option<Scalar>,
}

/// What a text item holds, its strings taken as sequences of characters.
pub struct TextItemView {
    pub text: Seq<char>,
    pub x: Scalar,
    pub y: Scalar,
    pub width: Scalar,
    pub height: Scalar,
    pub rotation: Scalar,
    pub font_name: Option<Seq<char>>,
    pub font_size: Option<Scalar>,
    pub font_height: Option<Scalar>,
    pub font_ascent: Option<Scalar>,
    pub font_descent: Option<Scalar>,
    pub font_weight: Option<i32>,
    pub font_flags: Option<i32>,
    pub text_width: Option<Scalar>,
    pub font_is_buggy: bool,
    pub mcid: Option<i32>,
    pub fill_color: Option<u32>,
    pub stroke_color: Option<u32>,
    pub confidence: Option<Scalar>,
}

impl TextItemView {
    /// The box of the item.
    pub open spec fn frame(self) -> Frame {
        Frame { x: self.x, y: self.y, width: self.width, height: self.height }
    }
}

impl View for TextItem {
    type V = TextItemView;

    open spec fn view(&self) -> TextItemView {
        TextItemView {
            text: self.text@,
            x: self.x,
            y: self.y,
            width: self.width,
            height: self.height,
            rotation: self.rotation,
            font_name: match self.font_name {
                Some(name) => Some(name@),
                None => None,
            },
            font_size: self.font_size,
            font_height: self.font_height,
            font_ascent: self.font_ascent,
            font_descent: self.font_descent,
            font_weight: self.font_weight,
            font_flags: self.font_flags,
            text_width: self.text_width,
            font_is_buggy: self.font_is_buggy,
            mcid: self.mcid,
            fill_color: self.fill_color,
            stroke_color: self.stroke_color,
            confidence: self.confidence,
        }
    }
}

/// The items of a page, each taken by what it holds.
pub open spec fn item_views(items: Seq<TextItem>) -> Seq<TextItemView> {
    Seq::new(items.len(), |i: int| items[i]@)
}

/// A page and the text known to be on it.
#[derive(Debug)]
pub struct Page {
    /// Counted from 1.
    pub page_number: usize,
    pub text_items: Vec<TextItem>,
}

/// What a page holds.
pub struct PageView {
    pub page_number: usize,
    pub items: Seq<TextItemView>,
}

impl View for Page {
    type V = PageView;

    open spec fn view(&self) -> PageView {
        PageView { page_number: self.page_number, items: item_views(self.text_items@) }
    }
}

/// The pages, each taken by what it holds.
pub open spec fn page_views(pages: Seq<Page>) -> Seq<PageView> {
    Seq::new(pages.len(), |i: int| pages[i]@)
}

/// The number of characters in the items together.
pub open spec fn native_chars(items: Seq<TextItemView>) -> nat
    decreases items.len(),
{
    if items.len() == 0 {
        0
    } else {
        native_chars(items.drop_last()) + items.last().text.len()
    }
}

/// The number of characters in the items together, or the greatest `usize` where that is
/// less.
pub fn text_length(items: &[TextItem]) -> (r: usize)
    ensures
        r == if native_chars(item_views(items@)) <= usize::MAX {
            native_chars(item_views(items@))
        } else {
            usize::MAX as nat
        },
        items@.fold_left(0int, |n: int, item: TextItem| n + item.text@.len()) <= usize::MAX ==> r
            == items@.fold_left(0int, |n: int, item: TextItem| n + item.text@.len()),
        items@.fold_left(0int, |n: int, item: TextItem| n + item.text@.len()) > usize::MAX ==> r
            == usize::MAX,
{
    let ghost views = item_views(items@);
    let mut total: usize = 0;
    let mut i: usize = 0;
    while i < items.len()
        invariant
            i <= items@.len(),
            views == item_views(items@),
            total == if native_chars(views.take(i as int)) <= usize::MAX {
                native_chars(views.take(i as int))
            } else {
                usize::MAX as nat
            },
        decreases items.len() - i,
    {
        assert(views.take(i + 1).drop_last() =~= views.take(i as int));
        assert(views.take(i + 1).last() == items@[i as int]@);
        total = total.saturating_add(items[i].text.as_str().unicode_len());
        i = i + 1;
    }
    assert(views.take(i as int) =~= views);
    proof {
        lemma_chars_of_items(items@);
    }
    total
}

/// Whether a page is to be read by OCR: it has little native text, or images.
pub open spec fn wants_ocr(page: PageView, has_images: bool) -> bool {
    native_chars(page.items) < MIN_NATIVE_CHARS || has_images
}

/// Whether a page is to be read by OCR: it has little native text, or images.
pub fn needs_ocr(page: &Page, has_images: bool) -> (r: bool)
    ensures
        r == wants_ocr(page@, has_images),
        has_images ==> r,
        !has_images ==> (r <==> page.text_items@.fold_left(
            0int,
            |n: int, item: TextItem| n + item.text@.len(),
        ) < 100),
{
    proof {
        lemma_chars_of_items(page.text_items@);
    }
    let length = text_length(page.text_items.as_slice());
    length < MIN_NATIVE_CHARS || has_images
}

/// Whether some item comes closer to a box than `tolerance`.
pub open spec fn is_covered(items: Seq<TextItemView>, frame: Frame, tolerance: Scalar) -> bool {
    exists|i: int| 0 <= i < items.len() && (#[trigger] items[i]).frame().near(frame, tolerance)
}

/// Whether a result joins the items of its page: it is certain enough, overlaps none of
/// them, and has text left once it is cleaned.
pub open spec fn is_admitted(items: Seq<TextItemView>, r: OcrResult, scale: Scalar) -> bool {
    &&& !r.confidence.not_above(Scalar { bits: CONFIDENCE_FLOOR_BITS })
    &&& !is_covered(items, frame_of(r.bbox@, scale), Scalar { bits: TOLERANCE_BITS })
    &&& cleaned(r.text@).len() > 0
}

/// The item that a result becomes.
pub open spec fn ocr_item(r: OcrResult, scale: Scalar) -> TextItemView {
    let frame = frame_of(r.bbox@, scale);
    TextItemView {
        text: cleaned(r.text@),
        x: frame.x,
        y: frame.y,
        width: frame.width,
        height: frame.height,
        rotation: Scalar { bits: 0 },
        font_name: Some("OCR"@),
        font_size: Some(frame.height),
        font_height: None,
        font_ascent: None,
        font_descent: None,
        font_weight: None,
        font_flags: None,
        text_width: None,
        font_is_buggy: false,
        mcid: None,
        fill_color: None,
        stroke_color: None,
        confidence: Some(to_thousandths(r.confidence)),
    }
}

/// The items once every result, in order, has joined them or not.
pub open spec fn merged(
    items: Seq<TextItemView>,
    results: Seq<OcrResult>,
    scale: Scalar,
) -> Seq<TextItemView>
    decreases results.len(),
{
    if results.len() == 0 {
        items
    } else {
        let before = merged(items, results.drop_last(), scale);
        if is_admitted(before, results.last(), scale) {
            before.push(ocr_item(results.last(), scale))
        } else {
            before
        }
    }
}

/// Whether the box of a result overlaps some existing item. Boxes count as overlapping
/// where they are less than `tolerance` apart on both axes.
pub fn overlaps_existing_text(
    items: &[TextItem],
    ocr_x: Scalar,
    ocr_y: Scalar,
    ocr_w: Scalar,
    ocr_h: Scalar,
    tolerance: Scalar,
) -> (r: bool)
    ensures
        r == is_covered(
            item_views(items@),
            (Frame { x: ocr_x, y: ocr_y, width: ocr_w, height: ocr_h }),
            tolerance,
        ),
        r <==> exists|i: int|
            0 <= i < items@.len() && {
                let item = #[trigger] items@[i];
                &&& ocr_x.below(item.x.plus(item.width).plus(tolerance))
                &&& item.x.minus(tolerance).below(ocr_x.plus(ocr_w))
                &&& ocr_y.below(item.y.plus(item.height).plus(tolerance))
                &&& item.y.minus(tolerance).below(ocr_y.plus(ocr_h))
            },
{
    let ghost views = item_views(items@);
    let ghost frame = Frame { x: ocr_x, y: ocr_y, width: ocr_w, height: ocr_h };
    let ocr_right = ocr_x.sum(ocr_w);
    let ocr_bottom = ocr_y.sum(ocr_h);
    let mut i: usize = 0;
    while i < items.len()
        invariant
            i <= items@.len(),
            views == item_views(items@),
            frame == (Frame { x: ocr_x, y: ocr_y, width: ocr_w, height: ocr_h }),
            ocr_right == ocr_x.plus(ocr_w),
            ocr_bottom == ocr_y.plus(ocr_h),
            forall|j: int| 0 <= j < i ==> !(#[trigger] views[j]).frame().near(frame, tolerance),
            forall|j: int|
                0 <= j < i ==> !({
                    let item = #[trigger] items@[j];
                    &&& ocr_x.below(item.x.plus(item.width).plus(tolerance))
                    &&& item.x.minus(tolerance).below(ocr_x.plus(ocr_w))
                    &&& ocr_y.below(item.y.plus(item.height).plus(tolerance))
                    &&& item.y.minus(tolerance).below(ocr_y.plus(ocr_h))
                }),
        decreases items.len() - i,
    {
        let item = &items[i];
        let item_right = item.x.sum(item.width);
        let item_bottom = item.y.sum(item.height);
        let overlap_x = ocr_x.less_than(item_right.sum(tolerance)) && item.x.difference(
            tolerance,
        ).less_than(ocr_right);
        let overlap_y = ocr_y.less_than(item_bottom.sum(tolerance)) && item.y.difference(
            tolerance,
        ).less_than(ocr_bottom);
        assert(views[i as int] == item@);
        if overlap_x && overlap_y {
            assert(views[i as int].frame().near(frame, tolerance));
            return true;
        }
        i = i + 1;
    }
    false
}

/// Lets each result, in order, join the items of a page or not, and counts those that do.
/// `scale_factor` is how many points a pixel of the page's image measures.
pub fn merge_results(
    items: &mut Vec<TextItem>,
    results: &[OcrResult],
    scale_factor: Scalar,
) -> (added: usize)
    ensures
        item_views(final(items)@) == merged(item_views(old(items)@), results@, scale_factor),
        final(items)@.len() == old(items)@.len() + added,
        final(items)@.take(old(items)@.len() as int) == old(items)@,
{
    let ghost start = item_views(items@);
    let mut added: usize = 0;
    let mut i: usize = 0;
    proof {
        assert(items@.take(items@.len() as int) =~= items@);
        assert(results@.take(0) =~= Seq::<OcrResult>::empty());
    }
    while i < results.len()
        invariant
            i <= results@.len(),
            added <= i,
            start == item_views(old(items)@),
            item_views(items@) == merged(start, results@.take(i as int), scale_factor),
            items@.len() == old(items)@.len() + added,
            items@.take(old(items)@.len() as int) == old(items)@,
        decreases results.len() - i,
    {
        let r = &results[i];
        let ghost seen = results@.take(i + 1);
        assert(seen.drop_last() =~= results@.take(i as int));
        assert(seen.last() == *r);
        i = i + 1;
        if r.confidence.at_most(Scalar { bits: CONFIDENCE_FLOOR_BITS }) {
            continue ;
        }
        let ocr_x = r.bbox[0].product(scale_factor);
        let ocr_y = r.bbox[1].product(scale_factor);
        let ocr_w = r.bbox[2].difference(r.bbox[0]).product(scale_factor);
        let ocr_h = r.bbox[3].difference(r.bbox[1]).product(scale_factor);
        let tolerance = Scalar { bits: TOLERANCE_BITS };
        if overlaps_existing_text(items.as_slice(), ocr_x, ocr_y, ocr_w, ocr_h, tolerance) {
            continue ;
        }
        let text = clean_ocr_table_artifacts(r.text.as_str());
        if text.as_str().is_empty() {
            continue ;
        }
        let steps = Scalar { bits: CONFIDENCE_STEPS_BITS };
        let ghost before = items@;
        items.push(
            TextItem {
                text,
                x: ocr_x,
                y: ocr_y,
                width: ocr_w,
                height: ocr_h,
                rotation: Scalar { bits: 0 },
                font_name: Some("OCR".to_string()),
                font_size: Some(ocr_h),
                font_height: None,
                font_ascent: None,
                font_descent: None,
                font_weight: None,
                font_flags: None,
                text_width: None,
                font_is_buggy: false,
                mcid: None,
                fill_color: None,
                stroke_color: None,
                confidence: Some(r.confidence.product(steps).round().quotient(steps)),
            },
        );
        assert(items@.last()@ == ocr_item(*r, scale_factor));
        assert(item_views(items@) =~= item_views(before).push(ocr_item(*r, scale_factor)));
        assert(items@.take(old(items)@.len() as int) =~= before.take(old(items)@.len() as int));
        added = added + 1;
    }
    assert(results@.take(i as int) =~= results@);
    added
}

/// What reading one page came to.
#[derive(Debug)]
pub struct PageOutcome {
    pub page_index: usize,
    pub page_number: usize,
    /// The results, or what the engine reported where it failed.
    pub recognized: Result<Vec<OcrResult>, String>,
}

impl PageOutcome {
    /// The results; none where the engine failed.
    pub open spec fn results(self) -> Seq<OcrResult> {
        match self.recognized {
            Ok(results) => results@,
            Err(_) => Seq::empty(),
        }
    }
}

/// Whether every outcome that has results has a page to put them on.
pub open spec fn have_pages(outcomes: Seq<PageOutcome>, page_count: nat) -> bool {
    forall|k: int|
        0 <= k < outcomes.len() && (#[trigger] outcomes[k]).results().len() > 0
            ==> outcomes[k].page_index < page_count
}

/// The pages once the results of every outcome, in order, have been merged into the page
/// they are of.
pub open spec fn merged_pages(
    pages: Seq<PageView>,
    outcomes: Seq<PageOutcome>,
    scale: Scalar,
) -> Seq<PageView>
    decreases outcomes.len(),
{
    if outcomes.len() == 0 {
        pages
    } else {
        let before = merged_pages(pages, outcomes.drop_last(), scale);
        let outcome = outcomes.last();
        if outcome.results().len() == 0 {
            before
        } else {
            let page = before[outcome.page_index as int];
            before.update(
                outcome.page_index as int,
                PageView {
                    page_number: page.page_number,
                    items: merged(page.items, outcome.results(), scale),
                },
            )
        }
    }
}

/// How many items outcome `k` brings to its page.
pub open spec fn added_by(
    pages: Seq<PageView>,
    outcomes: Seq<PageOutcome>,
    k: int,
    scale: Scalar,
) -> int {
    let outcome = outcomes[k];
    if outcome.results().len() == 0 {
        0
    } else {
        let items = merged_pages(pages, outcomes.take(k), scale)[outcome.page_index as int].items;
        merged(items, outcome.results(), scale).len() - items.len()
    }
}

/// Merges the results of each page that was read into that page, where `dpi` is the
/// resolution of the images in dots per inch. A page on which the engine failed, or found
/// nothing, is left as it is. Counts the items that each outcome brings.
pub fn merge_outcomes(pages: &mut [Page], outcomes: &[PageOutcome], dpi: Scalar) -> (added: Vec<
    usize,
>)
    requires
        have_pages(outcomes@, old(pages)@.len()),
    ensures
        page_views(final(pages)@) == merged_pages(
            page_views(old(pages)@),
            outcomes@,
            scale_of(dpi),
        ),
        added@.len() == outcomes@.len(),
        forall|k: int|
            0 <= k < added@.len() ==> #[trigger] added@[k] == added_by(
                page_views(old(pages)@),
                outcomes@,
                k,
                scale_of(dpi),
            ),
{
    let scale_factor = (Scalar { bits: POINTS_PER_INCH_BITS }).quotient(dpi);
    let ghost start = page_views(pages@);
    let mut added: Vec<usize> = Vec::new();
    let mut i: usize = 0;
    assert(outcomes@.take(0) =~= Seq::<PageOutcome>::empty());
    while i < outcomes.len()
        invariant
            i <= outcomes@.len(),
            start == page_views(old(pages)@),
            pages@.len() == old(pages)@.len(),
            have_pages(outcomes@, pages@.len()),
            scale_factor == scale_of(dpi),
            page_views(pages@) == merged_pages(start, outcomes@.take(i as int), scale_factor),
            added@.len() == i,
            forall|k: int|
                0 <= k < added@.len() ==> #[trigger] added@[k] == added_by(
                    start,
                    outcomes@,
                    k,
                    scale_factor,
                ),
        decreases outcomes.len() - i,
    {
        let outcome = &outcomes[i];
        let ghost seen = outcomes@.take(i + 1);
        assert(seen.drop_last() =~= outcomes@.take(i as int));
        assert(seen.last() == *outcome);
        let mut count: usize = 0;
        if let Ok(results) = &outcome.recognized {
            if results.len() > 0 {
                let index = outcome.page_index;
                assert(outcomes@[i as int].results().len() > 0);
                let ghost before = pages@;
                assert(page_views(before)[index as int] == before[index as int]@);
                count = merge_results(
                    &mut pages[index].text_items,
                    results.as_slice(),
                    scale_factor,
                );
                assert(page_views(pages@) =~= page_views(before).update(
                    index as int,
                    pages@[index as int]@,
                ));
            }
        }
        added.push(count);
        i = i + 1;
    }
    assert(outcomes@.take(i as int) =~= outcomes@);
    added
}

/// Merging keeps what was there: the items of before stand first, in their order.
pub proof fn law_existing_items_stay(
    items: Seq<TextItemView>,
    results: Seq<OcrResult>,
    scale: Scalar,
)
    ensures
        items.len() <= merged(items, results, scale).len() <= items.len() + results.len(),
        merged(items, results, scale).take(items.len() as int) == items,
    decreases results.len(),
{
    let now = merged(items, results, scale);
    if results.len() > 0 {
        law_existing_items_stay(items, results.drop_last(), scale);
        let before = merged(items, results.drop_last(), scale);
        assert(now.take(items.len() as int) =~= before.take(items.len() as int));
    } else {
        assert(now.take(items.len() as int) =~= items);
    }
}

/// What merging adds is results and nothing else: behind the items of before stand the
/// items of some of the results, each of them more certain than the floor, at most once
/// and in the order of the results. The positions of those results are returned.
pub proof fn law_added_items_are_results(
    items: Seq<TextItemView>,
    results: Seq<OcrResult>,
    scale: Scalar,
) -> (kept: Seq<int>)
    ensures
        forall|j: int| 0 <= j < kept.len() ==> 0 <= #[trigger] kept[j] < results.len(),
        forall|j: int, k: int| 0 <= j < k < kept.len() ==> kept[j] < kept[k],
        forall|j: int|
            0 <= j < kept.len() ==> !results[#[trigger] kept[j]].confidence.not_above(
                Scalar { bits: CONFIDENCE_FLOOR_BITS },
            ),
        merged(items, results, scale) == items + Seq::new(
            kept.len(),
            |j: int| ocr_item(results[kept[j]], scale),
        ),
    decreases results.len(),
{
    if results.len() == 0 {
        let kept = Seq::<int>::empty();
        assert(items =~= items + Seq::new(kept.len(), |j: int| ocr_item(results[kept[j]], scale)));
        kept
    } else {
        let rest = results.drop_last();
        let before = merged(items, rest, scale);
        let some = law_added_items_are_results(items, rest, scale);
        let old_items = Seq::new(some.len(), |j: int| ocr_item(rest[some[j]], scale));
        if is_admitted(before, results.last(), scale) {
            let kept = some.push(results.len() - 1);
            assert(merged(items, results, scale) =~= items + Seq::new(
                kept.len(),
                |j: int| ocr_item(results[kept[j]], scale),
            )) by {
                let new_items = Seq::new(kept.len(), |j: int| ocr_item(results[kept[j]], scale));
                assert forall|j: int| 0 <= j < some.len() implies new_items[j] == old_items[j] by {
                    assert(kept[j] == some[j]);
                }
                assert(new_items =~= old_items.push(ocr_item(results.last(), scale)));
            }
            kept
        } else {
            let new_items = Seq::new(some.len(), |j: int| ocr_item(results[some[j]], scale));
            assert forall|j: int| 0 <= j < some.len() implies new_items[j] == old_items[j] by {
                assert(0 <= some[j] < rest.len());
            }
            assert(new_items =~= old_items);
            some
        }
    }
}

/// Every item that merging adds has text, and text without outer space.
pub proof fn law_added_items_have_text(
    items: Seq<TextItemView>,
    results: Seq<OcrResult>,
    j: int,
    scale: Scalar,
)
    requires
        items.len() <= j < merged(items, results, scale).len(),
    ensures
        merged(items, results, scale)[j].text.len() > 0,
        !CharClass::Space.holds(merged(items, results, scale)[j].text.first()),
        !CharClass::Space.holds(merged(items, results, scale)[j].text.last()),
    decreases results.len(),
{
    if results.len() > 0 {
        let before = merged(items, results.drop_last(), scale);
        if j < before.len() {
            law_added_items_have_text(items, results.drop_last(), j, scale);
        } else {
            law_cleaned_has_no_outer_space(results.last().text@);
        }
    }
}

/// No item that merging adds overlaps an item that stands before it, whether that was
/// there already or was added earlier.
pub proof fn law_added_items_overlap_nothing(
    items: Seq<TextItemView>,
    results: Seq<OcrResult>,
    i: int,
    j: int,
    scale: Scalar,
)
    requires
        items.len() <= j < merged(items, results, scale).len(),
        0 <= i < j,
    ensures
        !merged(items, results, scale)[i].frame().near(
            merged(items, results, scale)[j].frame(),
            Scalar { bits: TOLERANCE_BITS },
        ),
    decreases results.len(),
{
    if results.len() > 0 {
        let before = merged(items, results.drop_last(), scale);
        if j < before.len() {
            law_added_items_overlap_nothing(items, results.drop_last(), i, j, scale);
        } else {
            let frame = frame_of(results.last().bbox@, scale);
            let tolerance = Scalar { bits: TOLERANCE_BITS };
            assert(!is_covered(before, frame, tolerance));
            assert(!before[i].frame().near(frame, tolerance));
            assert(merged(items, results, scale)[j].frame() == frame);
        }
    }
}

/// No result is lost without a reason: it stands among the items, or it is doubtful, or
/// empty once cleaned, or some item overlaps it.
pub proof fn law_results_are_left_out_for_a_reason(
    items: Seq<TextItemView>,
    results: Seq<OcrResult>,
    k: int,
    scale: Scalar,
)
    requires
        0 <= k < results.len(),
    ensures
        ({
            let c = results[k];
            ||| merged(items, results, scale).contains(ocr_item(c, scale))
            ||| c.confidence.not_above(Scalar { bits: CONFIDENCE_FLOOR_BITS })
            ||| cleaned(c.text@).len() == 0
            ||| is_covered(
                merged(items, results, scale),
                frame_of(c.bbox@, scale),
                Scalar { bits: TOLERANCE_BITS },
            )
        }),
    decreases results.len(),
{
    let rest = results.drop_last();
    let before = merged(items, rest, scale);
    let now = merged(items, results, scale);
    let c = results[k];
    let frame = frame_of(c.bbox@, scale);
    let tolerance = Scalar { bits: TOLERANCE_BITS };
    assert forall|i: int| 0 <= i < before.len() implies now[i] == before[i] by {}
    if k == results.len() - 1 {
        if is_admitted(before, c, scale) {
            assert(now[before.len() as int] == ocr_item(c, scale));
        } else if is_covered(before, frame, tolerance) {
            let i = choose|i: int|
                0 <= i < before.len() && (#[trigger] before[i]).frame().near(frame, tolerance);
            assert(now[i].frame().near(frame, tolerance));
        }
    } else {
        law_results_are_left_out_for_a_reason(items, rest, k, scale);
        assert(rest[k] == c);
        if before.contains(ocr_item(c, scale)) {
            let i = choose|i: int| 0 <= i < before.len() && before[i] == ocr_item(c, scale);
            assert(now[i] == ocr_item(c, scale));
        } else if is_covered(before, frame, tolerance) {
            let i = choose|i: int|
                0 <= i < before.len() && (#[trigger] before[i]).frame().near(frame, tolerance);
            assert(now[i].frame().near(frame, tolerance));
        }
    }
}

/// Results may be merged in two goes: first some, then the others.
pub proof fn law_merging_in_parts(
    items: Seq<TextItemView>,
    first: Seq<OcrResult>,
    second: Seq<OcrResult>,
    scale: Scalar,
)
    ensures
        merged(items, first + second, scale) == merged(merged(items, first, scale), second, scale),
    decreases second.len(),
{
    if second.len() == 0 {
        assert(first + second =~= first);
    } else {
        assert((first + second).drop_last() =~= first + second.drop_last());
        assert((first + second).last() == second.last());
        law_merging_in_parts(items, first, second.drop_last(), scale);
    }
}

/// Merging the same results once more adds nothing, provided that the box of each
/// result overlaps itself.
pub proof fn law_merging_again_adds_nothing(
    items: Seq<TextItemView>,
    results: Seq<OcrResult>,
    scale: Scalar,
)
    requires
        forall|k: int|
            0 <= k < results.len() ==> frame_of((#[trigger] results[k]).bbox@, scale).near(
                frame_of(results[k].bbox@, scale),
                Scalar { bits: TOLERANCE_BITS },
            ),
    ensures
        merged(merged(items, results, scale), results, scale) == merged(items, results, scale),
{
    let now = merged(items, results, scale);
    assert forall|k: int| 0 <= k < results.len() implies !is_admitted(
        now,
        #[trigger] results[k],
        scale,
    ) by {
        law_results_are_left_out_for_a_reason(items, results, k, scale);
        let c = results[k];
        if now.contains(ocr_item(c, scale)) {
            let i = choose|i: int| 0 <= i < now.len() && now[i] == ocr_item(c, scale);
            assert(now[i].frame() == frame_of(c.bbox@, scale));
        }
    }
    lemma_nothing_admitted(now, results, scale);
}

/// Whether a box is of an ordinary kind: its sides are not negative, and its corner lies
/// within 2 to the power 24 points of the origin.
pub open spec fn is_ordinary(frame: Frame) -> bool {
    &&& frame.x.magnitude() < ORDINARY_LIMIT_BITS
    &&& frame.y.magnitude() < ORDINARY_LIMIT_BITS
    &&& !frame.width.nan() && frame.width.units() >= 0
    &&& !frame.height.nan() && frame.height.units() >= 0
}

/// Ordinary boxes overlap themselves, so that results which have them are merged once and
/// not again.
pub proof fn law_ordinary_boxes_overlap_themselves(frame: Frame)
    requires
        is_ordinary(frame),
    ensures
        frame.near(frame, Scalar { bits: TOLERANCE_BITS }),
{
    law_two_is_felt(frame.x, frame.width);
    law_two_is_felt(frame.y, frame.height);
}

/// Whether a box is given by two finite corners, the upper left one first.
pub open spec fn is_upright(bbox: Seq<Scalar>) -> bool {
    &&& forall|i: int| 0 <= i < 4 ==> (#[trigger] bbox[i]).magnitude() < INFINITY_BITS
    &&& bbox[0].not_above(bbox[2])
    &&& bbox[1].not_above(bbox[3])
}

/// Whether the box of a result is upright and its corner, once scaled, lies within 2 to
/// the power 24 points of the origin.
pub open spec fn is_sound(r: OcrResult, scale: Scalar) -> bool {
    &&& is_upright(r.bbox@)
    &&& frame_of(r.bbox@, scale).x.magnitude() < ORDINARY_LIMIT_BITS
    &&& frame_of(r.bbox@, scale).y.magnitude() < ORDINARY_LIMIT_BITS
}

/// A sound box stands on its page as an ordinary one, whatever the resolution, as long as
/// that is positive.
pub proof fn law_sound_boxes_are_ordinary(r: OcrResult, dpi: Scalar)
    requires
        dpi.magnitude() < INFINITY_BITS,
        dpi.units() > 0,
        is_sound(r, scale_of(dpi)),
    ensures
        is_ordinary(frame_of(r.bbox@, scale_of(dpi))),
{
    let scale = scale_of(dpi);
    let bbox = r.bbox@;
    lemma_one();
    lemma_magnitude_increases(0x3f80_0000, POINTS_PER_INCH_BITS as nat);
    law_quotients_do_not_vanish(Scalar { bits: POINTS_PER_INCH_BITS }, dpi);
    assert(bbox[0].magnitude() < INFINITY_BITS);
    assert(bbox[1].magnitude() < INFINITY_BITS);
    assert(bbox[2].magnitude() < INFINITY_BITS);
    assert(bbox[3].magnitude() < INFINITY_BITS);
    assert(!scale.infinite());
    law_differences_keep_the_order(bbox[2], bbox[0]);
    law_differences_keep_the_order(bbox[3], bbox[1]);
    law_products_keep_the_sign(bbox[2].minus(bbox[0]), scale);
    law_products_keep_the_sign(bbox[3].minus(bbox[1]), scale);
}

proof fn lemma_nothing_admitted(items: Seq<TextItemView>, results: Seq<OcrResult>, scale: Scalar)
    requires
        forall|k: int|
            0 <= k < results.len() ==> !is_admitted(items, #[trigger] results[k], scale),
    ensures
        merged(items, results, scale) == items,
    decreases results.len(),
{
    if results.len() > 0 {
        let rest = results.drop_last();
        assert forall|k: int| 0 <= k < rest.len() implies !is_admitted(
            items,
            #[trigger] rest[k],
            scale,
        ) by {
            assert(!is_admitted(items, results[k], scale));
        }
        lemma_nothing_admitted(items, rest, scale);
        assert(!is_admitted(items, results[results.len() - 1], scale));
    }
}

/// Where every outcome has a page, so has every one but the last.
proof fn lemma_have_pages_before_last(outcomes: Seq<PageOutcome>, page_count: nat)
    requires
        have_pages(outcomes, page_count),
        outcomes.len() > 0,
    ensures
        have_pages(outcomes.drop_last(), page_count),
{
    let rest = outcomes.drop_last();
    assert forall|k: int| 0 <= k < rest.len() && (#[trigger] rest[k]).results().len() > 0 implies {
        rest[k].page_index < page_count
    } by {
        assert(outcomes[k].results().len() > 0);
    }
}

/// Merging keeps the pages, their numbers and the items that they had.
pub proof fn law_pages_stay(pages: Seq<PageView>, outcomes: Seq<PageOutcome>, p: int, scale: Scalar)
    requires
        have_pages(outcomes, pages.len()),
        0 <= p < pages.len(),
    ensures
        merged_pages(pages, outcomes, scale).len() == pages.len(),
        merged_pages(pages, outcomes, scale)[p].page_number == pages[p].page_number,
        pages[p].items.len() <= merged_pages(pages, outcomes, scale)[p].items.len(),
        merged_pages(pages, outcomes, scale)[p].items.take(pages[p].items.len() as int)
            == pages[p].items,
    decreases outcomes.len(),
{
    if outcomes.len() == 0 {
        assert(pages[p].items.take(pages[p].items.len() as int) =~= pages[p].items);
    } else {
        let rest = outcomes.drop_last();
        lemma_have_pages_before_last(outcomes, pages.len());
        law_pages_stay(pages, rest, p, scale);
        let before = merged_pages(pages, rest, scale);
        let outcome = outcomes.last();
        assert(outcomes[outcomes.len() - 1] == outcome);
        if outcome.results().len() > 0 && outcome.page_index == p {
            law_existing_items_stay(before[p].items, outcome.results(), scale);
            let now = merged(before[p].items, outcome.results(), scale);
            assert(now.take(pages[p].items.len() as int) =~= now.take(
                before[p].items.len() as int,
            ).take(pages[p].items.len() as int));
        }
    }
}

/// Items hold at least as many characters as the first of them.
proof fn lemma_first_items_hold_no_more(items: Seq<TextItemView>, n: int)
    requires
        0 <= n <= items.len(),
    ensures
        native_chars(items.take(n)) <= native_chars(items),
    decreases items.len(),
{
    if n == items.len() {
        assert(items.take(n) =~= items);
    } else {
        assert(items.drop_last().take(n) =~= items.take(n));
        lemma_first_items_hold_no_more(items.drop_last(), n);
    }
}

/// Merging makes no page need reading that did not need it before.
pub proof fn law_merging_makes_no_page_need_reading(
    pages: Seq<PageView>,
    outcomes: Seq<PageOutcome>,
    p: int,
    has_images: bool,
    scale: Scalar,
)
    requires
        have_pages(outcomes, pages.len()),
        0 <= p < pages.len(),
    ensures
        wants_ocr(merged_pages(pages, outcomes, scale)[p], has_images) ==> wants_ocr(
            pages[p],
            has_images,
        ),
{
    law_pages_stay(pages, outcomes, p, scale);
    lemma_first_items_hold_no_more(
        merged_pages(pages, outcomes, scale)[p].items,
        pages[p].items.len() as int,
    );
}

/// A page that no outcome has results for is left as it is. So are the pages on which
/// the engine failed.
pub proof fn law_pages_without_results_are_untouched(
    pages: Seq<PageView>,
    outcomes: Seq<PageOutcome>,
    p: int,
    scale: Scalar,
)
    requires
        have_pages(outcomes, pages.len()),
        0 <= p < pages.len(),
        forall|k: int|
            0 <= k < outcomes.len() && (#[trigger] outcomes[k]).page_index == p
                ==> outcomes[k].results().len() == 0,
    ensures
        merged_pages(pages, outcomes, scale)[p] == pages[p],
    decreases outcomes.len(),
{
    if outcomes.len() > 0 {
        let rest = outcomes.drop_last();
        lemma_have_pages_before_last(outcomes, pages.len());
        assert forall|k: int|
            0 <= k < rest.len() && (#[trigger] rest[k]).page_index == p implies {
            rest[k].results().len() == 0
        } by {
            assert(outcomes[k].page_index == p);
        }
        law_pages_without_results_are_untouched(pages, rest, p, scale);
        law_pages_stay(pages, rest, p, scale);
        assert(outcomes[outcomes.len() - 1] == outcomes.last());
    }
}

/// A page that one outcome alone has results for gets just those results, whatever the
/// other outcomes are and wherever among them it stands.
pub proof fn law_pages_are_independent(
    pages: Seq<PageView>,
    outcomes: Seq<PageOutcome>,
    k: int,
    scale: Scalar,
)
    requires
        have_pages(outcomes, pages.len()),
        0 <= k < outcomes.len(),
        outcomes[k].page_index < pages.len(),
        forall|j: int|
            0 <= j < outcomes.len() && j != k && (#[trigger] outcomes[j]).page_index
                == outcomes[k].page_index ==> outcomes[j].results().len() == 0,
    ensures
        merged_pages(pages, outcomes, scale)[outcomes[k].page_index as int].items == merged(
            pages[outcomes[k].page_index as int].items,
            outcomes[k].results(),
            scale,
        ),
    decreases outcomes.len(),
{
    let p = outcomes[k].page_index as int;
    let rest = outcomes.drop_last();
    lemma_have_pages_before_last(outcomes, pages.len());
    law_pages_stay(pages, rest, p, scale);
    assert(outcomes[outcomes.len() - 1] == outcomes.last());
    if k == outcomes.len() - 1 {
        assert forall|j: int|
            0 <= j < rest.len() && (#[trigger] rest[j]).page_index == p implies {
            rest[j].results().len() == 0
        } by {
            assert(outcomes[j].page_index == p);
        }
        law_pages_without_results_are_untouched(pages, rest, p, scale);
    } else {
        assert(rest[k] == outcomes[k]);
        assert forall|j: int|
            0 <= j < rest.len() && j != k && (#[trigger] rest[j]).page_index
                == rest[k].page_index implies {
            rest[j].results().len() == 0
        } by {
            assert(outcomes[j].page_index == outcomes[k].page_index);
        }
        law_pages_are_independent(pages, rest, k, scale);
    }
}

/// The characters of the items are the lengths of their texts, added up.
proof fn lemma_chars_are_lengths(items: Seq<TextItemView>)
    ensures
        native_chars(items) == items.fold_left(
            0int,
            |n: int, item: TextItemView| n + item.text.len(),
        ),
    decreases items.len(),
{
    if items.len() > 0 {
        lemma_chars_are_lengths(items.drop_last());
    }
}

proof fn lemma_chars_of_items(items: Seq<TextItem>)
    ensures
        native_chars(item_views(items)) == items.fold_left(
            0int,
            |n: int, item: TextItem| n + item.text@.len(),
        ),
    decreases items.len(),
{
    if items.len() > 0 {
        lemma_chars_of_items(items.drop_last());
        assert(item_views(items).drop_last() =~= item_views(items.drop_last()));
    }
}

/// A page is read if it has images, however much native text it has, and without images
/// exactly if the lengths of its texts add up to less than 100 characters.
pub proof fn law_pages_with_images_or_little_text_are_read(page: PageView)
    ensures
        wants_ocr(page, true),
        wants_ocr(page, false) <==> page.items.fold_left(
            0int,
            |n: int, item: TextItemView| n + item.text.len(),
        ) < 100,
{
    lemma_chars_are_lengths(page.items);
}

/// Whether a page is read does not hang on how its text is cut into items, nor on their
/// order: what counts is how long it all is.
pub proof fn law_only_the_amount_of_text_counts(a: Seq<TextItemView>, b: Seq<TextItemView>)
    ensures
        native_chars(Seq::<TextItemView>::empty()) == 0,
        native_chars(a + b) == native_chars(a) + native_chars(b),
        native_chars(a + b) == native_chars(b + a),
        forall|item: TextItemView| #[trigger]
            native_chars(a.push(item)) == native_chars(a) + item.text.len(),
{
    lemma_chars_of_joined(a, b);
    lemma_chars_of_joined(b, a);
    assert forall|item: TextItemView| #[trigger]
        native_chars(a.push(item)) == native_chars(a) + item.text.len() by {
        assert(a.push(item).drop_last() =~= a);
    }
}

proof fn lemma_chars_of_joined(a: Seq<TextItemView>, b: Seq<TextItemView>)
    ensures
        native_chars(a + b) == native_chars(a) + native_chars(b),
    decreases b.len(),
{
    if b.len() == 0 {
        assert(a + b =~= a);
    } else {
        assert((a + b).drop_last() =~= a + b.drop_last());
        assert((a + b).last() == b.last());
        lemma_chars_of_joined(a, b.drop_last());
    }
}

/// A box overlaps an item exactly where, on each axis, some point of the box lies strictly
/// within the range of the item, widened by the tolerance. Points are counted in half
/// units, so that there is one between any two numbers. The box is not inside out, and
/// the widened item has an extent.
pub proof fn law_overlapping_is_sharing_points(item: Frame, b: Frame, tolerance: Scalar)
    requires
        !b.x.nan() && !b.x.plus(b.width).nan(),
        !b.y.nan() && !b.y.plus(b.height).nan(),
        !item.x.minus(tolerance).nan() && !item.x.plus(item.width).plus(tolerance).nan(),
        !item.y.minus(tolerance).nan() && !item.y.plus(item.height).plus(tolerance).nan(),
        b.x.units() <= b.x.plus(b.width).units(),
        b.y.units() <= b.y.plus(b.height).units(),
        item.x.minus(tolerance).units() < item.x.plus(item.width).plus(tolerance).units(),
        item.y.minus(tolerance).units() < item.y.plus(item.height).plus(tolerance).units(),
    ensures
        ({
            let left = 2 * item.x.minus(tolerance).units();
            let right = 2 * item.x.plus(item.width).plus(tolerance).units();
            let top = 2 * item.y.minus(tolerance).units();
            let bottom = 2 * item.y.plus(item.height).plus(tolerance).units();
            let b_left = 2 * b.x.units();
            let b_right = 2 * b.x.plus(b.width).units();
            let b_top = 2 * b.y.units();
            let b_bottom = 2 * b.y.plus(b.height).units();
            item.near(b, tolerance) <==> exists|p: int, q: int|
                #![trigger is_point(p, q)]
                {
                    &&& left < p < right && b_left <= p <= b_right
                    &&& top < q < bottom && b_top <= q <= b_bottom
                }
        }),
{
    let left = 2 * item.x.minus(tolerance).units();
    let top = 2 * item.y.minus(tolerance).units();
    let b_left = 2 * b.x.units();
    let b_top = 2 * b.y.units();
    let p = if left < b_left {
        b_left
    } else {
        left + 1
    };
    let q = if top < b_top {
        b_top
    } else {
        top + 1
    };
    assert(is_point(p, q));
}

/// Whether `p` and `q` are places on the two axes, which any two integers are.
pub open spec fn is_point(p: int, q: int) -> bool {
    true
}

/// A box that encloses an item overlaps it, strictly or not, whatever tolerance there is,
/// as long as the item has an extent.
pub proof fn law_enclosing_boxes_overlap(item: Frame, b: Frame, tolerance: Scalar)
    requires
        item.x.magnitude() < INFINITY_BITS,
        item.y.magnitude() < INFINITY_BITS,
        item.x.plus(item.width).magnitude() < INFINITY_BITS,
        item.y.plus(item.height).magnitude() < INFINITY_BITS,
        tolerance.magnitude() < INFINITY_BITS,
        tolerance.units() >= 0,
        !b.x.nan() && !b.x.plus(b.width).nan(),
        !b.y.nan() && !b.y.plus(b.height).nan(),
        item.x.units() < item.x.plus(item.width).units(),
        item.y.units() < item.y.plus(item.height).units(),
        b.x.units() <= item.x.units(),
        item.x.plus(item.width).units() <= b.x.plus(b.width).units(),
        b.y.units() <= item.y.units(),
        item.y.plus(item.height).units() <= b.y.plus(b.height).units(),
    ensures
        item.near(b, tolerance),
{
    lemma_widening(item.x, item.x.plus(item.width), tolerance);
    lemma_widening(item.y, item.y.plus(item.height), tolerance);
}

/// A box within an item overlaps it, strictly or not, whatever tolerance there is, as long
/// as the box has an extent.
pub proof fn law_enclosed_boxes_overlap(item: Frame, b: Frame, tolerance: Scalar)
    requires
        item.x.magnitude() < INFINITY_BITS,
        item.y.magnitude() < INFINITY_BITS,
        item.x.plus(item.width).magnitude() < INFINITY_BITS,
        item.y.plus(item.height).magnitude() < INFINITY_BITS,
        tolerance.magnitude() < INFINITY_BITS,
        tolerance.units() >= 0,
        !b.x.nan() && !b.x.plus(b.width).nan(),
        !b.y.nan() && !b.y.plus(b.height).nan(),
        b.x.units() < b.x.plus(b.width).units(),
        b.y.units() < b.y.plus(b.height).units(),
        item.x.units() <= b.x.units(),
        b.x.plus(b.width).units() <= item.x.plus(item.width).units(),
        item.y.units() <= b.y.units(),
        b.y.plus(b.height).units() <= item.y.plus(item.height).units(),
    ensures
        item.near(b, tolerance),
{
    lemma_widening(item.x, item.x.plus(item.width), tolerance);
    lemma_widening(item.y, item.y.plus(item.height), tolerance);
}

/// Widening a range takes nothing off it, and with a tolerance of 0 it adds nothing.
proof fn lemma_widening(from: Scalar, to: Scalar, tolerance: Scalar)
    requires
        from.magnitude() < INFINITY_BITS,
        to.magnitude() < INFINITY_BITS,
        tolerance.magnitude() < INFINITY_BITS,
        tolerance.units() >= 0,
    ensures
        from.minus(tolerance).not_above(from),
        to.not_above(to.plus(tolerance)),
        tolerance.units() == 0 ==> from.minus(tolerance).units() == from.units()
            && to.plus(tolerance).units() == to.units(),
{
    law_sums_cross_no_number(from, tolerance.negated(), from);
    law_sums_cross_no_number(to, tolerance, to);
}

/// The tolerance of 2 points makes up for an item without extent: a box that encloses an
/// ordinary item overlaps it.
pub proof fn law_boxes_around_ordinary_items_overlap(item: Frame, b: Frame)
    requires
        item.x.magnitude() < 0x4b80_0000,
        item.y.magnitude() < 0x4b80_0000,
        !item.width.nan() && item.width.units() >= 0,
        !item.height.nan() && item.height.units() >= 0,
        !b.x.nan() && !b.x.plus(b.width).nan(),
        !b.y.nan() && !b.y.plus(b.height).nan(),
        b.x.units() <= item.x.units(),
        item.x.plus(item.width).units() <= b.x.plus(b.width).units(),
        b.y.units() <= item.y.units(),
        item.y.plus(item.height).units() <= b.y.plus(b.height).units(),
    ensures
        item.near(b, Scalar { bits: 0x4000_0000 }),
{
    law_two_is_felt(item.x, item.width);
    law_two_is_felt(item.y, item.height);
}

/// Without tolerance, overlapping is mutual.
pub proof fn law_overlapping_is_mutual(a: Frame, b: Frame)
    requires
        a.x.magnitude() < INFINITY_BITS && a.x.plus(a.width).magnitude() < INFINITY_BITS,
        a.y.magnitude() < INFINITY_BITS && a.y.plus(a.height).magnitude() < INFINITY_BITS,
        b.x.magnitude() < INFINITY_BITS && b.x.plus(b.width).magnitude() < INFINITY_BITS,
        b.y.magnitude() < INFINITY_BITS && b.y.plus(b.height).magnitude() < INFINITY_BITS,
    ensures
        a.near(b, Scalar { bits: 0 }) <==> b.near(a, Scalar { bits: 0 }),
        a.near(b, Scalar { bits: 0 }) <==> {
            &&& b.x.units() < a.x.plus(a.width).units()
            &&& a.x.units() < b.x.plus(b.width).units()
            &&& b.y.units() < a.y.plus(a.height).units()
            &&& a.y.units() < b.y.plus(b.height).units()
        },
{
    lemma_meeting_on_axis(a.x, a.x.plus(a.width), b.x, b.x.plus(b.width));
    lemma_meeting_on_axis(a.y, a.y.plus(a.height), b.y, b.y.plus(b.height));
    lemma_meeting_on_axis(b.x, b.x.plus(b.width), a.x, a.x.plus(a.width));
    lemma_meeting_on_axis(b.y, b.y.plus(b.height), a.y, a.y.plus(a.height));
}

/// How two ranges meet where neither is widened.
proof fn lemma_meeting_on_axis(from: Scalar, to: Scalar, b_from: Scalar, b_to: Scalar)
    requires
        from.magnitude() < INFINITY_BITS,
        to.magnitude() < INFINITY_BITS,
        !b_from.nan(),
        !b_to.nan(),
    ensures
        b_from.below(to.plus(Scalar { bits: 0 })) <==> b_from.units() < to.units(),
        from.minus(Scalar { bits: 0 }).below(b_to) <==> from.units() < b_to.units(),
{
    lemma_widening(from, to, Scalar { bits: 0 });
}

/// Boxes that are apart by the tolerance or more, on either axis and to either side, do
/// not overlap.
pub proof fn law_boxes_apart_do_not_overlap(item: Frame, b: Frame, tolerance: Scalar)
    requires
        item.x.magnitude() < INFINITY_BITS && item.y.magnitude() < INFINITY_BITS,
        item.x.plus(item.width).magnitude() < INFINITY_BITS,
        item.y.plus(item.height).magnitude() < INFINITY_BITS,
        tolerance.magnitude() < INFINITY_BITS,
        !b.x.nan() && !b.x.plus(b.width).nan(),
        !b.y.nan() && !b.y.plus(b.height).nan(),
        ({
            ||| item.x.plus(item.width).units() + tolerance.units() <= b.x.units()
            ||| b.x.plus(b.width).units() + tolerance.units() <= item.x.units()
            ||| item.y.plus(item.height).units() + tolerance.units() <= b.y.units()
            ||| b.y.plus(b.height).units() + tolerance.units() <= item.y.units()
        }),
    ensures
        !item.near(b, tolerance),
{
    lemma_apart_on_axis(item.x, item.x.plus(item.width), b.x, b.x.plus(b.width), tolerance);
    lemma_apart_on_axis(item.y, item.y.plus(item.height), b.y, b.y.plus(b.height), tolerance);
}

/// How two ranges stay apart where one is widened.
proof fn lemma_apart_on_axis(
    from: Scalar,
    to: Scalar,
    b_from: Scalar,
    b_to: Scalar,
    tolerance: Scalar,
)
    requires
        from.magnitude() < INFINITY_BITS,
        to.magnitude() < INFINITY_BITS,
        tolerance.magnitude() < INFINITY_BITS,
        !b_from.nan(),
        !b_to.nan(),
    ensures
        to.units() + tolerance.units() <= b_from.units() ==> !b_from.below(to.plus(tolerance)),
        b_to.units() + tolerance.units() <= from.units() ==> !from.minus(tolerance).below(b_to),
{
    law_sums_cross_no_number(to, tolerance, b_from);
    law_sums_cross_no_number(from, tolerance.negated(), b_to);
}

/// The two axes count alike: what overlaps still does once the axes are swapped.
pub proof fn law_axes_count_alike(a: Frame, b: Frame, tolerance: Scalar)
    ensures
        a.near(b, tolerance) <==> (Frame { x: a.y, y: a.x, width: a.height, height: a.width }).near(
            Frame { x: b.y, y: b.x, width: b.height, height: b.width },
            tolerance,
        ),
{
}

/// A box is covered by some items exactly where it overlaps one of them, so that further
/// items never uncover it.
pub proof fn law_one_item_covers(
    items: Seq<TextItemView>,
    item: TextItemView,
    frame: Frame,
    tolerance: Scalar,
)
    ensures
        !is_covered(Seq::empty(), frame, tolerance),
        is_covered(items.push(item), frame, tolerance) <==> is_covered(items, frame, tolerance)
            || (Frame { x: item.x, y: item.y, width: item.width, height: item.height }).near(
            frame,
            tolerance,
        ),
{
    let more = items.push(item);
    assert(more[items.len() as int] == item);
    assert forall|i: int| 0 <= i < items.len() implies more[i] == #[trigger] items[i] by {}
    if is_covered(items, frame, tolerance) {
        let i = choose|i: int|
            0 <= i < items.len() && (#[trigger] items[i]).frame().near(frame, tolerance);
        assert(more[i].frame().near(frame, tolerance));
    }
}

/// What is told of pages and items is told of each of them, and of each of their fields.
pub proof fn law_views_keep_every_field(item: TextItem, page: Page, pages: Seq<Page>)
    ensures
        item@.text == item.text@,
        item@.x == item.x,
        item@.y == item.y,
        item@.width == item.width,
        item@.height == item.height,
        item@.rotation == item.rotation,
        item@.font_name is Some <==> item.font_name is Some,
        item.font_name is Some ==> item@.font_name->0 == item.font_name->0@,
        item@.font_size == item.font_size,
        item@.font_height == item.font_height,
        item@.font_ascent == item.font_ascent,
        item@.font_descent == item.font_descent,
        item@.font_weight == item.font_weight,
        item@.font_flags == item.font_flags,
        item@.text_width == item.text_width,
        item@.font_is_buggy == item.font_is_buggy,
        item@.mcid == item.mcid,
        item@.fill_color == item.fill_color,
        item@.stroke_color == item.stroke_color,
        item@.confidence == item.confidence,
        page@.page_number == page.page_number,
        page@.items.len() == page.text_items@.len(),
        forall|i: int|
            0 <= i < page.text_items@.len() ==> page@.items[i] == (#[trigger] page.text_items@[i])@,
        page_views(pages).len() == pages.len(),
        forall|i: int| 0 <= i < pages.len() ==> page_views(pages)[i] == (#[trigger] pages[i])@,
{
}

/// A result joins the items of its page, behind them, unless it is no more certain than
/// 0.1, comes closer than 2 points to an item on both axes, or has no text left once it
/// is cleaned. Its item holds its cleaned text and its scaled box, is as high as its font
/// is large, says that it comes from OCR, and keeps the confidence to thousandths.
pub proof fn law_results_join_on_their_merits(
    items: Seq<TextItemView>,
    r: OcrResult,
    scale: Scalar,
)
    ensures
        ({
            let x = r.bbox@[0].times(scale);
            let y = r.bbox@[1].times(scale);
            let width = r.bbox@[2].minus(r.bbox@[0]).times(scale);
            let height = r.bbox@[3].minus(r.bbox@[1]).times(scale);
            let two = Scalar { bits: 0x4000_0000 };
            let thousand = Scalar { bits: 0x447a_0000 };
            let doubtful = r.confidence.not_above(Scalar { bits: 0x3dcc_cccd });
            let taken = exists|i: int|
                0 <= i < items.len() && {
                    let item = #[trigger] items[i];
                    &&& x.below(item.x.plus(item.width).plus(two))
                    &&& item.x.minus(two).below(x.plus(width))
                    &&& y.below(item.y.plus(item.height).plus(two))
                    &&& item.y.minus(two).below(y.plus(height))
                };
            let now = merged(items, seq![r], scale);
            if doubtful || taken || cleaned(r.text@).len() == 0 {
                now == items
            } else {
                &&& now.len() == items.len() + 1
                &&& now.drop_last() == items
                &&& now.last().text == cleaned(r.text@)
                &&& now.last().x == x
                &&& now.last().y == y
                &&& now.last().width == width
                &&& now.last().height == height
                &&& now.last().rotation.bits == 0
                &&& now.last().font_name == Some("OCR"@)
                &&& now.last().font_size == Some(height)
                &&& now.last().font_height is None
                &&& now.last().font_ascent is None
                &&& now.last().font_descent is None
                &&& now.last().font_weight is None
                &&& now.last().font_flags is None
                &&& now.last().text_width is None
                &&& !now.last().font_is_buggy
                &&& now.last().mcid is None
                &&& now.last().fill_color is None
                &&& now.last().stroke_color is None
                &&& now.last().confidence == Some(
                    r.confidence.times(thousand).whole().over(thousand),
                )
            }
        }),
{
    let frame = frame_of(r.bbox@, scale);
    let two = Scalar { bits: 0x4000_0000 };
    assert(seq![r].drop_last() =~= Seq::<OcrResult>::empty());
    assert(merged(items, seq![r].drop_last(), scale) == items);
    if is_covered(items, frame, two) {
        let i = choose|i: int|
            0 <= i < items.len() && (#[trigger] items[i]).frame().near(frame, two);
        assert(items[i].frame().near(frame, two));
    }
    if is_admitted(items, r, scale) {
        assert(merged(items, seq![r], scale).drop_last() =~= items);
        assert forall|i: int| 0 <= i < items.len() implies !(#[trigger] items[i]).frame().near(
            frame,
            two,
        ) by {}
    }
}

/// Without results the items stay as they are.
pub proof fn law_no_results_change_nothing(items: Seq<TextItemView>, scale: Scalar)
    ensures
        merged(items, Seq::empty(), scale) == items,
{
}

/// Text that is on a page already is not added again: a result whose box encloses an
/// ordinary item is left out.
pub proof fn law_text_already_there_is_not_added(
    items: Seq<TextItemView>,
    r: OcrResult,
    i: int,
    scale: Scalar,
)
    requires
        0 <= i < items.len(),
        items[i].x.magnitude() < 0x4b80_0000,
        items[i].y.magnitude() < 0x4b80_0000,
        !items[i].width.nan() && items[i].width.units() >= 0,
        !items[i].height.nan() && items[i].height.units() >= 0,
        ({
            let x = r.bbox@[0].times(scale);
            let y = r.bbox@[1].times(scale);
            let right = x.plus(r.bbox@[2].minus(r.bbox@[0]).times(scale));
            let bottom = y.plus(r.bbox@[3].minus(r.bbox@[1]).times(scale));
            &&& !x.nan() && !y.nan() && !right.nan() && !bottom.nan()
            &&& x.units() <= items[i].x.units()
            &&& items[i].x.plus(items[i].width).units() <= right.units()
            &&& y.units() <= items[i].y.units()
            &&& items[i].y.plus(items[i].height).units() <= bottom.units()
        }),
    ensures
        merged(items, seq![r], scale) == items,
{
    let frame = frame_of(r.bbox@, scale);
    law_boxes_around_ordinary_items_overlap(items[i].frame(), frame);
    assert(items[i].frame().near(frame, Scalar { bits: 0x4000_0000 }));
    law_results_join_on_their_merits(items, r, scale);
}

/// Text that is new to a page is added: a result that is more certain than 0.1, has text
/// left once it is cleaned, and is 2 points or more away from every item, on one axis at
/// least, becomes the last item.
pub proof fn law_new_text_is_added(items: Seq<TextItemView>, r: OcrResult, scale: Scalar)
    requires
        !r.confidence.nan() && r.confidence.units() > (Scalar { bits: 0x3dcc_cccd }).units(),
        cleaned(r.text@).len() > 0,
        ({
            let x = r.bbox@[0].times(scale);
            let y = r.bbox@[1].times(scale);
            let right = x.plus(r.bbox@[2].minus(r.bbox@[0]).times(scale));
            let bottom = y.plus(r.bbox@[3].minus(r.bbox@[1]).times(scale));
            let two = (Scalar { bits: 0x4000_0000 }).units();
            &&& !x.nan() && !y.nan() && !right.nan() && !bottom.nan()
            &&& forall|i: int|
                0 <= i < items.len() ==> {
                    let item = #[trigger] items[i];
                    &&& item.x.magnitude() < INFINITY_BITS && item.y.magnitude() < INFINITY_BITS
                    &&& item.x.plus(item.width).magnitude() < INFINITY_BITS
                    &&& item.y.plus(item.height).magnitude() < INFINITY_BITS
                    &&& {
                        ||| item.x.plus(item.width).units() + two <= x.units()
                        ||| right.units() + two <= item.x.units()
                        ||| item.y.plus(item.height).units() + two <= y.units()
                        ||| bottom.units() + two <= item.y.units()
                    }
                }
        }),
    ensures
        merged(items, seq![r], scale).len() == items.len() + 1,
        merged(items, seq![r], scale).drop_last() == items,
        merged(items, seq![r], scale).last().text == cleaned(r.text@),
        merged(items, seq![r], scale).last().x == r.bbox@[0].times(scale),
        merged(items, seq![r], scale).last().y == r.bbox@[1].times(scale),
{
    let frame = frame_of(r.bbox@, scale);
    let two = Scalar { bits: 0x4000_0000 };
    assert forall|i: int| 0 <= i < items.len() implies !(#[trigger] items[i]).frame().near(
        frame,
        two,
    ) by {
        law_boxes_apart_do_not_overlap(items[i].frame(), frame, two);
    }
    law_results_join_on_their_merits(items, r, scale);
}

/// At 72 dots per inch a dot is a point, and at other resolutions a pixel measures the
/// number nearest to 72 points over the resolution.
pub proof fn law_scale_is_points_per_pixel(dpi: Scalar, c: Scalar)
    requires
        dpi.magnitude() < INFINITY_BITS,
        dpi.units() != 0,
        !c.nan(),
    ensures
        scale_of(dpi) == (Scalar { bits: 0x4290_0000 }).over(dpi),
        (Scalar { bits: 0x4290_0000 }).units() == 72 * units_in_one(),
        abs(scale_of(dpi).units() * dpi.units() - 72 * units_in_one() * units_in_one()) <= abs(
            c.units() * dpi.units() - 72 * units_in_one() * units_in_one(),
        ),
{
    let points = Scalar { bits: 0x4290_0000 };
    lemma2_to64();
    lemma_pow2_adds(17, 132);
    assert(points.magnitude() / 0x80_0000 == 133 && points.magnitude() % 0x80_0000 == 0x10_0000);
    assert(units_in_one() == 0x2_0000 * pow2(132));
    assert(points.units() == 0x90_0000 * pow2(132));
    law_quotients_are_nearest(points, dpi, c);
}

/// The results of an outcome go to its page and to no other, and where there are none, or
/// the engine failed, nothing changes.
pub proof fn law_outcomes_go_to_their_page(
    pages: Seq<PageView>,
    outcome: PageOutcome,
    p: int,
    scale: Scalar,
)
    requires
        outcome.page_index < pages.len(),
        0 <= p < pages.len(),
    ensures
        merged_pages(pages, Seq::empty(), scale) == pages,
        merged_pages(pages, seq![outcome], scale).len() == pages.len(),
        merged_pages(pages, seq![outcome], scale)[p].page_number == pages[p].page_number,
        p != outcome.page_index ==> merged_pages(pages, seq![outcome], scale)[p] == pages[p],
        match outcome.recognized {
            Ok(results) => merged_pages(
                pages,
                seq![outcome],
                scale,
            )[outcome.page_index as int].items == merged(
                pages[outcome.page_index as int].items,
                results@,
                scale,
            ),
            Err(_) => merged_pages(pages, seq![outcome], scale) == pages,
        },
{
    assert(seq![outcome].drop_last() =~= Seq::<PageOutcome>::empty());
    assert(merged_pages(pages, seq![outcome].drop_last(), scale) == pages);
    assert(seq![outcome].last() == outcome);
}

/// Outcomes may be merged in two goes: first some, then the others.
pub proof fn law_outcomes_in_parts(
    pages: Seq<PageView>,
    first: Seq<PageOutcome>,
    second: Seq<PageOutcome>,
    scale: Scalar,
)
    ensures
        merged_pages(pages, first + second, scale) == merged_pages(
            merged_pages(pages, first, scale),
            second,
            scale,
        ),
    decreases second.len(),
{
    if second.len() == 0 {
        assert(first + second =~= first);
    } else {
        assert((first + second).drop_last() =~= first + second.drop_last());
        assert((first + second).last() == second.last());
        law_outcomes_in_parts(pages, first, second.drop_last(), scale);
    }
}

/// What is counted for an outcome is by how many items its page grows.
pub proof fn law_counts_are_growth(
    pages: Seq<PageView>,
    outcomes: Seq<PageOutcome>,
    k: int,
    scale: Scalar,
)
    requires
        have_pages(outcomes, pages.len()),
        0 <= k < outcomes.len(),
        outcomes[k].page_index < pages.len(),
    ensures
        ({
            let p = outcomes[k].page_index as int;
            let before = merged_pages(pages, outcomes.take(k), scale);
            let after = merged_pages(pages, outcomes.take(k + 1), scale);
            added_by(pages, outcomes, k, scale) == after[p].items.len() - before[p].items.len()
        }),
{
    let some = outcomes.take(k);
    assert(outcomes.take(k + 1).drop_last() =~= some);
    assert(outcomes.take(k + 1).last() == outcomes[k]);
    assert forall|j: int| 0 <= j < some.len() && (#[trigger] some[j]).results().len() > 0 implies {
        some[j].page_index < pages.len()
    } by {
        assert(outcomes[j].results().len() > 0);
    }
    law_pages_stay(pages, some, outcomes[k].page_index as int, scale);
}

} // verus!
