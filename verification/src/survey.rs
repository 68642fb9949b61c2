//! Walking over the pages of a document to gather the images of those to be read.
use crate::merge::{
    frame_of, have_pages, is_sound, law_merging_again_adds_nothing,
    law_merging_makes_no_page_need_reading, law_ordinary_boxes_overlap_themselves,
    law_pages_are_independent, law_pages_stay, law_pages_with_images_or_little_text_are_read,
    law_pages_without_results_are_untouched, law_sound_boxes_are_ordinary, merged, merged_pages,
    needs_ocr, page_views, scale_of, wants_ocr, Page, PageOutcome, PageView, TextItem,
    TextItemView, TOLERANCE_BITS,
};
use crate::ocr::{OcrError, OcrResult};
use crate::raster::{drop_alpha, without_alpha};
use crate::scalar::{Scalar, INFINITY_BITS};
use vstd::prelude::*;

verus! {

/// The bit pattern of 25: the first of the limits that images on a page are looked for
/// with.
pub const MIN_IMAGE_SIZE_BITS: u32 = 0x41c8_0000;

/// The bit pattern of 0.9: the second of the limits that images on a page are looked for
/// with.
pub const MAX_IMAGE_COVER_BITS: u32 = 0x3f66_6666;

/// The index, from 0, by which a document hands out the page with this number.
fn page_object_index(page_number: usize) -> (r: i32)
    requires
        page_number >= 1,
    ensures
        r == (page_number - 1) as i32,
{
    #[verifier::truncate]
    let index = (page_number - 1) as i32;
    index
}

/// A page image ready to be read.
pub struct RenderedPage {
    pub page_index: usize,
    pub page_number: usize,
    /// 8-bit RGB samples, row by row.
    pub rgb_bytes: Vec<u8>,
    pub width: u32,
    pub height: u32,
}

/// A page image ready to be read, from the 8-bit RGBA samples of a rendering; too few
/// samples, or a row longer than memory, are an error.
fn rendered_page(
    page_index: usize,
    page_number: usize,
    rgba: Vec<u8>,
    width: u32,
    height: u32,
) -> (r: Result<RenderedPage, OcrError>)
    ensures
        match r {
            Ok(page) => {
                &&& rgba@.len() >= 4 * width * height && 4 * width <= usize::MAX
                &&& page.page_index == page_index
                &&& page.page_number == page_number
                &&& page.rgb_bytes@ == without_alpha(rgba@, (width * height) as nat)
                &&& page.width == width
                &&& page.height == height
            },
            Err(error) => {
                &&& rgba@.len() < 4 * width * height || 4 * width > usize::MAX
                &&& error matches OcrError::Message(message)
                &&& message@ == "failed to create image buffer"@
            },
        },
{
    match drop_alpha(width, height, rgba) {
        Some(rgb_bytes) => Ok(RenderedPage { page_index, page_number, rgb_bytes, width, height }),
        None => Err(OcrError::Message("failed to create image buffer".to_string())),
    }
}

impl RenderedPage {
    /// What reading this page came to.
    pub fn outcome(&self, recognized: Result<Vec<OcrResult>, String>) -> (r: PageOutcome)
        ensures
            r == (PageOutcome {
                page_index: self.page_index,
                page_number: self.page_number,
                recognized,
            }),
    {
        PageOutcome { page_index: self.page_index, page_number: self.page_number, recognized }
    }
}

/// The indices of the pages to be read, in order, among those whose images have been
/// looked for.
pub open spec fn to_read(pages: Seq<PageView>, has_images: Seq<bool>) -> Seq<int>
    decreases has_images.len(),
{
    if has_images.len() == 0 {
        Seq::empty()
    } else {
        let before = to_read(pages, has_images.drop_last());
        let i = has_images.len() - 1;
        if wants_ocr(pages[i], has_images[i]) {
            before.push(i)
        } else {
            before
        }
    }
}

/// What a survey needs next.
#[derive(Debug, Clone, Copy, PartialEq, Eq, Structural)]
pub enum Step {
    /// Look for images on the page at `page_index`, which the document has at
    /// `object_index`, with these limits on their size.
    Inspect { page_index: usize, object_index: i32, min_size: Scalar, max_cover: Scalar },
    /// Render the page at `page_index`.
    Render { page_index: usize },
    /// Nothing: every page has been dealt with.
    Done,
}

/// A walk over the pages of a document, in order. Each page is inspected, and rendered
/// where it turns out that it is to be read.
pub struct Survey {
    /// Whether each page that has been inspected has images.
    pub has_images: Vec<bool>,
    /// Whether the page that was inspected last is still to be rendered.
    pub awaiting: bool,
    /// The images of the pages to be read.
    pub rendered: Vec<RenderedPage>,
}

impl Survey {
    /// The number of pages that have been dealt with.
    pub open spec fn settled(self) -> int {
        self.has_images@.len() - if self.awaiting {
            1int
        } else {
            0
        }
    }

    /// Whether the survey is one of `pages`: of the pages dealt with, it holds the images
    /// of just those that are to be read, in order and under their numbers.
    pub open spec fn wf(self, pages: Seq<PageView>) -> bool {
        &&& self.has_images@.len() <= pages.len()
        &&& self.awaiting ==> self.has_images@.len() > 0 && wants_ocr(
            pages[self.has_images@.len() - 1],
            self.has_images@.last(),
        )
        &&& Seq::new(self.rendered@.len(), |k: int| self.rendered@[k].page_index as int)
            == to_read(pages, self.has_images@.take(self.settled()))
        &&& forall|k: int|
            0 <= k < self.rendered@.len() ==> (#[trigger] self.rendered@[k]).page_number
                == pages[self.rendered@[k].page_index as int].page_number
    }

    /// What comes next.
    pub open spec fn next_step(self, pages: Seq<PageView>) -> Step {
        if self.awaiting {
            Step::Render { page_index: (self.has_images@.len() - 1) as usize }
        } else if self.has_images@.len() < pages.len() {
            Step::Inspect {
                page_index: self.has_images@.len() as usize,
                object_index: (pages[self.has_images@.len() as int].page_number - 1) as i32,
                min_size: Scalar { bits: MIN_IMAGE_SIZE_BITS },
                max_cover: Scalar { bits: MAX_IMAGE_COVER_BITS },
            }
        } else {
            Step::Done
        }
    }

    /// A survey that has not begun.
    pub fn new(pages: &[Page]) -> (r: Survey)
        ensures
            r.wf(page_views(pages@)),
            r.has_images@.len() == 0,
            r.rendered@.len() == 0,
            !r.awaiting,
    {
        let r = Survey { has_images: Vec::new(), awaiting: false, rendered: Vec::new() };
        assert(Seq::new(r.rendered@.len(), |k: int| r.rendered@[k].page_index as int) =~= Seq::<
            int,
        >::empty());
        r
    }

    /// Says what comes next. The page to be inspected has a number from 1 on.
    pub fn step(&self, pages: &[Page]) -> (r: Step)
        requires
            self.wf(page_views(pages@)),
            self.next_step(page_views(pages@)) is Inspect
                ==> pages@[self.has_images@.len() as int].page_number >= 1,
        ensures
            r == self.next_step(page_views(pages@)),
            self.awaiting ==> r == (Step::Render {
                page_index: (self.has_images@.len() - 1) as usize,
            }),
            !self.awaiting && self.has_images@.len() < pages@.len() ==> r == (Step::Inspect {
                page_index: self.has_images@.len() as usize,
                object_index: (pages@[self.has_images@.len() as int].page_number - 1) as i32,
                min_size: Scalar { bits: 0x41c8_0000 },
                max_cover: Scalar { bits: 0x3f66_6666 },
            }),
            !self.awaiting && self.has_images@.len() == pages@.len() ==> r == Step::Done,
    {
        let inspected = self.has_images.len();
        if self.awaiting {
            Step::Render { page_index: inspected - 1 }
        } else if inspected < pages.len() {
            Step::Inspect {
                page_index: inspected,
                object_index: page_object_index(pages[inspected].page_number),
                min_size: Scalar { bits: MIN_IMAGE_SIZE_BITS },
                max_cover: Scalar { bits: MAX_IMAGE_COVER_BITS },
            }
        } else {
            Step::Done
        }
    }

    /// Takes note of whether the page that is to be inspected has images.
    pub fn inspected(&mut self, pages: &[Page], has_images: bool)
        requires
            old(self).wf(page_views(pages@)),
            old(self).next_step(page_views(pages@)) is Inspect,
        ensures
            final(self).wf(page_views(pages@)),
            final(self).has_images@ == old(self).has_images@.push(has_images),
            final(self).rendered@ == old(self).rendered@,
            final(self).awaiting == wants_ocr(
                page_views(pages@)[old(self).has_images@.len() as int],
                has_images,
            ),
            has_images ==> final(self).awaiting,
            !has_images ==> (final(self).awaiting
                <==> pages@[old(self).has_images@.len() as int].text_items@.fold_left(
                0int,
                |n: int, item: TextItem| n + item.text@.len(),
            ) < 100),
    {
        let index = self.has_images.len();
        let awaiting = needs_ocr(&pages[index], has_images);
        self.has_images.push(has_images);
        self.awaiting = awaiting;
        proof {
            let before = old(self).has_images@;
            assert(self.has_images@.drop_last() =~= before);
            assert(before.take(before.len() as int) =~= before);
            assert(self.has_images@.take(self.settled()) =~= if awaiting {
                before
            } else {
                self.has_images@
            });
        }
    }

    /// Takes in the rendering of the page that is to be rendered, as 8-bit RGBA samples;
    /// too few samples, or a row longer than memory, are an error.
    pub fn take_rendering(
        &mut self,
        pages: &[Page],
        rgba: Vec<u8>,
        width: u32,
        height: u32,
    ) -> (r: Result<(), OcrError>)
        requires
            old(self).wf(page_views(pages@)),
            old(self).next_step(page_views(pages@)) is Render,
        ensures
            final(self).wf(page_views(pages@)),
            final(self).has_images@ == old(self).has_images@,
            match r {
                Ok(_) => {
                    let index = old(self).has_images@.len() - 1;
                    let page = final(self).rendered@.last();
                    &&& rgba@.len() >= 4 * width * height && 4 * width <= usize::MAX
                    &&& !final(self).awaiting
                    &&& final(self).rendered@ == old(self).rendered@.push(page)
                    &&& page.page_index == index
                    &&& page.page_number == pages@[index].page_number
                    &&& page.rgb_bytes@ == without_alpha(rgba@, (width * height) as nat)
                    &&& page.width == width
                    &&& page.height == height
                },
                Err(error) => {
                    &&& rgba@.len() < 4 * width * height || 4 * width > usize::MAX
                    &&& *final(self) == *old(self)
                    &&& error matches OcrError::Message(message)
                    &&& message@ == "failed to create image buffer"@
                },
            },
    {
        let index = self.has_images.len() - 1;
        let page = match rendered_page(index, pages[index].page_number, rgba, width, height) {
            Ok(page) => page,
            Err(error) => {
                return Err(error);
            },
        };
        self.rendered.push(page);
        self.awaiting = false;
        proof {
            let flags = self.has_images@;
            assert(flags.take(flags.len() as int) =~= flags);
            assert(flags.take(flags.len() - 1) =~= flags.drop_last());
            let before = Seq::new(
                old(self).rendered@.len(),
                |k: int| old(self).rendered@[k].page_index as int,
            );
            assert(Seq::new(self.rendered@.len(), |k: int| self.rendered@[k].page_index as int)
                =~= before.push(index as int));
        }
        Ok(())
    }
}

/// The pages to be read are just those that have little native text or images, each of
/// them once and in the order of the document.
pub proof fn law_pages_read_are_those_that_need_it(pages: Seq<PageView>, has_images: Seq<bool>)
    ensures
        forall|i: int|
            #[trigger] to_read(pages, has_images).contains(i) <==> 0 <= i < has_images.len()
                && wants_ocr(pages[i], has_images[i]),
        forall|j: int, k: int|
            0 <= j < k < to_read(pages, has_images).len() ==> to_read(pages, has_images)[j]
                < to_read(pages, has_images)[k],
    decreases has_images.len(),
{
    if has_images.len() > 0 {
        let rest = has_images.drop_last();
        law_pages_read_are_those_that_need_it(pages, rest);
        let before = to_read(pages, rest);
        let now = to_read(pages, has_images);
        let last = has_images.len() - 1;
        assert forall|j: int| 0 <= j < before.len() implies #[trigger] before[j] < last by {
            assert(before.contains(before[j]));
        }
        assert forall|i: int| #[trigger] now.contains(i) <==> 0 <= i < has_images.len()
            && wants_ocr(pages[i], has_images[i]) by {
            if before.contains(i) {
                let j = choose|j: int| 0 <= j < before.len() && before[j] == i;
                assert(now[j] == i);
            }
            if now.contains(i) && i != last {
                let j = choose|j: int| 0 <= j < now.len() && now[j] == i;
                assert(before[j] == i);
            }
            if i == last && wants_ocr(pages[last], has_images[last]) {
                assert(now[before.len() as int] == last);
            }
        }
    }
}

/// Whether `outcomes` are what reading the pages of a survey came to, one for each.
pub open spec fn come_from(outcomes: Seq<PageOutcome>, survey: Survey) -> bool {
    &&& outcomes.len() == survey.rendered@.len()
    &&& forall|k: int|
        0 <= k < outcomes.len() ==> (#[trigger] outcomes[k]).page_index
            == survey.rendered@[k].page_index
}

/// The outcomes of a survey can be merged: each has a page, and no two have the same.
pub proof fn law_outcomes_have_pages(
    pages: Seq<PageView>,
    survey: Survey,
    outcomes: Seq<PageOutcome>,
)
    requires
        survey.wf(pages),
        come_from(outcomes, survey),
    ensures
        have_pages(outcomes, pages.len()),
        forall|j: int, k: int|
            0 <= j < k < outcomes.len() ==> (#[trigger] outcomes[j]).page_index
                < (#[trigger] outcomes[k]).page_index,
{
    let flags = survey.has_images@.take(survey.settled());
    let indices = to_read(pages, flags);
    law_pages_read_are_those_that_need_it(pages, flags);
    assert forall|k: int| 0 <= k < outcomes.len() implies (#[trigger] outcomes[k]).page_index
        == indices[k] && indices[k] < pages.len() by {
        let held = Seq::new(
            survey.rendered@.len(),
            |k: int| survey.rendered@[k].page_index as int,
        );
        assert(held[k] == survey.rendered@[k].page_index);
        assert(indices.contains(indices[k]));
    }
}

/// Each page that is read gets its own results, merged into the items that it had, and
/// every other page stays as it is.
pub proof fn law_pages_get_their_own_results(
    pages: Seq<PageView>,
    survey: Survey,
    outcomes: Seq<PageOutcome>,
    scale: Scalar,
)
    requires
        survey.wf(pages),
        survey.next_step(pages) is Done,
        come_from(outcomes, survey),
    ensures
        forall|k: int|
            0 <= k < outcomes.len() ==> merged_pages(
                pages,
                outcomes,
                scale,
            )[(#[trigger] outcomes[k]).page_index as int].items == merged(
                pages[outcomes[k].page_index as int].items,
                outcomes[k].results(),
                scale,
            ),
        forall|p: int|
            0 <= p < pages.len() && !wants_ocr(#[trigger] pages[p], survey.has_images@[p])
                ==> merged_pages(pages, outcomes, scale)[p] == pages[p],
{
    law_outcomes_have_pages(pages, survey, outcomes);
    let flags = survey.has_images@;
    assert(flags.take(flags.len() as int) =~= flags);
    let indices = to_read(pages, flags);
    law_pages_read_are_those_that_need_it(pages, flags);
    let held = Seq::new(survey.rendered@.len(), |k: int| survey.rendered@[k].page_index as int);
    assert forall|k: int| 0 <= k < outcomes.len() implies (#[trigger] outcomes[k]).page_index
        == indices[k] && 0 <= indices[k] < pages.len() && wants_ocr(
        pages[indices[k]],
        flags[indices[k]],
    ) by {
        assert(held[k] == survey.rendered@[k].page_index);
        assert(indices.contains(indices[k]));
    }
    assert forall|k: int| 0 <= k < outcomes.len() implies merged_pages(
        pages,
        outcomes,
        scale,
    )[(#[trigger] outcomes[k]).page_index as int].items == merged(
        pages[outcomes[k].page_index as int].items,
        outcomes[k].results(),
        scale,
    ) by {
        law_pages_are_independent(pages, outcomes, k, scale);
    }
    assert forall|p: int|
        0 <= p < pages.len() && !wants_ocr(#[trigger] pages[p], flags[p]) implies merged_pages(
        pages,
        outcomes,
        scale,
    )[p] == pages[p] by {
        law_pages_without_results_are_untouched(pages, outcomes, p, scale);
    }
}

/// A second pass over pages that have been merged reads no page that the first did not
/// read.
pub proof fn law_second_pass_reads_no_other_page(
    pages: Seq<PageView>,
    outcomes: Seq<PageOutcome>,
    has_images: Seq<bool>,
    scale: Scalar,
)
    requires
        have_pages(outcomes, pages.len()),
        has_images.len() <= pages.len(),
    ensures
        forall|i: int| #[trigger]
            to_read(merged_pages(pages, outcomes, scale), has_images).contains(i) ==> to_read(
                pages,
                has_images,
            ).contains(i),
{
    let now = merged_pages(pages, outcomes, scale);
    law_pages_read_are_those_that_need_it(pages, has_images);
    law_pages_read_are_those_that_need_it(now, has_images);
    assert forall|i: int| #[trigger] to_read(now, has_images).contains(i) implies to_read(
        pages,
        has_images,
    ).contains(i) by {
        law_merging_makes_no_page_need_reading(pages, outcomes, i, has_images[i], scale);
    }
}

/// Whether a page that both a first and a second pass have read gave the same results both
/// times.
pub open spec fn agree(first: Seq<PageOutcome>, second: Seq<PageOutcome>) -> bool {
    forall|j: int, k: int|
        0 <= j < first.len() && 0 <= k < second.len() && (#[trigger] first[j]).page_index == (
        #[trigger] second[k]).page_index ==> first[j].results() == second[k].results()
}

/// A second pass changes nothing: where the pages that a first survey and its merging left
/// are surveyed again, with the same images on them, and the pages read again give the
/// results that they gave before, merging leaves every page as it was. The boxes of the
/// results have to overlap themselves.
pub proof fn law_second_pass_changes_nothing(
    pages: Seq<PageView>,
    first: Survey,
    outcomes: Seq<PageOutcome>,
    second: Survey,
    again: Seq<PageOutcome>,
    scale: Scalar,
)
    requires
        first.wf(pages),
        first.next_step(pages) is Done,
        come_from(outcomes, first),
        second.wf(merged_pages(pages, outcomes, scale)),
        second.next_step(merged_pages(pages, outcomes, scale)) is Done,
        come_from(again, second),
        second.has_images@ == first.has_images@,
        agree(outcomes, again),
        forall|k: int, i: int|
            0 <= k < outcomes.len() && 0 <= i < outcomes[k].results().len() ==> frame_of(
                (#[trigger] outcomes[k].results()[i]).bbox@,
                scale,
            ).near(
                frame_of(outcomes[k].results()[i].bbox@, scale),
                Scalar { bits: TOLERANCE_BITS },
            ),
    ensures
        merged_pages(merged_pages(pages, outcomes, scale), again, scale) == merged_pages(
            pages,
            outcomes,
            scale,
        ),
{
    let now = merged_pages(pages, outcomes, scale);
    let flags = first.has_images@;
    law_outcomes_have_pages(pages, first, outcomes);
    law_outcomes_have_pages(now, second, again);
    law_pages_get_their_own_results(pages, first, outcomes, scale);
    law_pages_get_their_own_results(now, second, again, scale);
    law_second_pass_reads_no_other_page(pages, outcomes, flags, scale);
    assert(flags.take(flags.len() as int) =~= flags);
    let held = Seq::new(first.rendered@.len(), |k: int| first.rendered@[k].page_index as int);
    let held_again = Seq::new(
        second.rendered@.len(),
        |k: int| second.rendered@[k].page_index as int,
    );
    law_pages_read_are_those_that_need_it(now, flags);
    assert forall|p: int| 0 <= p < now.len() implies merged_pages(now, again, scale)[p]
        == now[p] by {
        law_pages_stay(now, again, p, scale);
        if wants_ocr(now[p], flags[p]) {
            assert(to_read(now, flags).contains(p));
            assert(to_read(pages, flags).contains(p));
            let j = choose|j: int| 0 <= j < held.len() && held[j] == p;
            let k = choose|k: int| 0 <= k < held_again.len() && held_again[k] == p;
            assert(outcomes[j].page_index == p);
            assert(again[k].page_index == p);
            law_merging_again_adds_nothing(pages[p].items, outcomes[j].results(), scale);
        }
    }
    if now.len() > 0 {
        law_pages_stay(now, again, 0, scale);
    }
    assert(merged_pages(now, again, scale) =~= now);
}

/// A second pass changes nothing, in particular, where the boxes that the engine gives are
/// sound and the resolution is positive.
pub proof fn law_second_pass_over_sound_boxes_changes_nothing(
    pages: Seq<PageView>,
    first: Survey,
    outcomes: Seq<PageOutcome>,
    second: Survey,
    again: Seq<PageOutcome>,
    dpi: Scalar,
)
    requires
        dpi.magnitude() < INFINITY_BITS,
        dpi.units() > 0,
        first.wf(pages),
        first.next_step(pages) is Done,
        come_from(outcomes, first),
        second.wf(merged_pages(pages, outcomes, scale_of(dpi))),
        second.next_step(merged_pages(pages, outcomes, scale_of(dpi))) is Done,
        come_from(again, second),
        second.has_images@ == first.has_images@,
        agree(outcomes, again),
        forall|k: int, i: int|
            0 <= k < outcomes.len() && 0 <= i < outcomes[k].results().len() ==> is_sound(
                #[trigger] outcomes[k].results()[i],
                scale_of(dpi),
            ),
    ensures
        merged_pages(merged_pages(pages, outcomes, scale_of(dpi)), again, scale_of(dpi))
            == merged_pages(pages, outcomes, scale_of(dpi)),
{
    let scale = scale_of(dpi);
    assert forall|k: int, i: int|
        0 <= k < outcomes.len() && 0 <= i < outcomes[k].results().len() implies frame_of(
        (#[trigger] outcomes[k].results()[i]).bbox@,
        scale,
    ).near(
        frame_of(outcomes[k].results()[i].bbox@, scale),
        Scalar { bits: TOLERANCE_BITS },
    ) by {
        let r = outcomes[k].results()[i];
        law_sound_boxes_are_ordinary(r, dpi);
        law_ordinary_boxes_overlap_themselves(frame_of(r.bbox@, scale));
    }
    law_second_pass_changes_nothing(pages, first, outcomes, second, again, scale);
}

/// The pages to be read, told by what is on them: those that have images, and those whose
/// texts are shorter than 100 characters in all.
pub proof fn law_pages_read_have_images_or_little_text(
    pages: Seq<PageView>,
    has_images: Seq<bool>,
    i: int,
)
    requires
        0 <= i < has_images.len() <= pages.len(),
    ensures
        to_read(pages, has_images).contains(i) <==> has_images[i] || pages[i].items.fold_left(
            0int,
            |n: int, item: TextItemView| n + item.text.len(),
        ) < 100,
        forall|k: int| #[trigger]
            to_read(pages, has_images).contains(k) ==> 0 <= k < has_images.len(),
        to_read(pages, has_images).no_duplicates(),
{
    law_pages_read_are_those_that_need_it(pages, has_images);
    law_pages_with_images_or_little_text_are_read(pages[i]);
    assert forall|j: int, k: int|
        0 <= j < to_read(pages, has_images).len() && 0 <= k < to_read(pages, has_images).len() && j
            != k implies to_read(pages, has_images)[j] != to_read(pages, has_images)[k] by {
        if j < k {
            assert(to_read(pages, has_images)[j] < to_read(pages, has_images)[k]);
        } else {
            assert(to_read(pages, has_images)[k] < to_read(pages, has_images)[j]);
        }
    }
}

/// A survey goes through the pages one by one: the page after those inspected is inspected
/// next, a page that is awaited is rendered before that, and the survey is done when no
/// page is left.
pub proof fn law_surveys_go_page_by_page(pages: Seq<PageView>, survey: Survey)
    requires
        survey.wf(pages),
        pages.len() <= usize::MAX,
    ensures
        ({
            let n = survey.has_images@.len();
            let step = survey.next_step(pages);
            &&& step is Done <==> !survey.awaiting && n == pages.len()
            &&& step is Render <==> survey.awaiting
            &&& step is Inspect <==> !survey.awaiting && n < pages.len()
            &&& step matches Step::Render { page_index } ==> page_index == n - 1
            &&& step matches Step::Inspect { page_index, object_index, min_size, max_cover } ==> {
                &&& page_index == n
                &&& object_index == (pages[n as int].page_number - 1) as i32
                &&& min_size.bits == 0x41c8_0000
                &&& max_cover.bits == 0x3f66_6666
            }
        }),
{
}

/// A survey that is done holds an image of every page that has images or little text, and
/// of no other page, each under the number of its page.
pub proof fn law_surveys_hold_the_pages_to_read(pages: Seq<PageView>, survey: Survey, i: int)
    requires
        survey.wf(pages),
        survey.next_step(pages) is Done,
        0 <= i < pages.len(),
    ensures
        (exists|k: int|
            0 <= k < survey.rendered@.len() && (#[trigger] survey.rendered@[k]).page_index == i)
            <==> survey.has_images@[i] || pages[i].items.fold_left(
            0int,
            |n: int, item: TextItemView| n + item.text.len(),
        ) < 100,
        forall|k: int|
            0 <= k < survey.rendered@.len() ==> {
                &&& (#[trigger] survey.rendered@[k]).page_index < pages.len()
                &&& survey.rendered@[k].page_number
                    == pages[survey.rendered@[k].page_index as int].page_number
            },
{
    let flags = survey.has_images@;
    assert(flags.take(flags.len() as int) =~= flags);
    law_pages_read_have_images_or_little_text(pages, flags, i);
    let indices = to_read(pages, flags);
    let held = Seq::new(survey.rendered@.len(), |k: int| survey.rendered@[k].page_index as int);
    assert forall|k: int| 0 <= k < survey.rendered@.len() implies {
        (#[trigger] survey.rendered@[k]).page_index < pages.len() && indices[k]
            == survey.rendered@[k].page_index
    } by {
        assert(held[k] == survey.rendered@[k].page_index);
        assert(indices.contains(indices[k]));
    }
    if indices.contains(i) {
        let k = choose|k: int| 0 <= k < indices.len() && indices[k] == i;
        assert(survey.rendered@[k].page_index == i);
    }
    if exists|k: int|
        0 <= k < survey.rendered@.len() && (#[trigger] survey.rendered@[k]).page_index == i {
        let k = choose|k: int|
            0 <= k < survey.rendered@.len() && (#[trigger] survey.rendered@[k]).page_index == i;
        assert(indices[k] == i);
    }
}

} // verus!
