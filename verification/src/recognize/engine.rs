use vstd::prelude::*;
use crate::models::{
    option_count, Contour, Coordinate, Mark, MobileOutput, Point, ProcessedImage, Quad, RecError,
    RecItem, RecResult,
};
use crate::config::AssistLocationConfig;
use crate::myutils::image::{get_points_from_coordinate, spec_merged, Plane};
use crate::recognize::assist_location::{spec_assist_error, AssistLocationModule};
use crate::recognize::fill::{
    all_classified, all_in_plane, all_measured_on, lemma_pooled_take, plane_in_range,
    pooled_rates, same_sheet, spec_threshold, RecFillModule,
};
use crate::recognize::location::{spec_outline, spec_outline_error, LocationModule};

verus! {

/// Whether an output is laid out as the mark definition says: it reports
/// success and has, for each item, the item's type and one measurement and
/// one verdict for each option, at the option's rectangle.
pub open spec fn describes(out: &MobileOutput, mark: &Mark) -> bool {
    &&& out.code == 0
    &&& out.message@ == "success"@
    &&& out.rec_results@.len() == mark.rec_items@.len()
    &&& forall|i: int|
        0 <= i < mark.rec_items@.len() ==> {
            &&& (#[trigger] out.rec_results@[i]).rec_tpye == mark.rec_items@[i].rec_type
            &&& out.rec_results@[i].rec_result@.len() == mark.rec_items@[i].sub_options@.len()
            &&& out.rec_results@[i].fill_items@.len() == mark.rec_items@[i].sub_options@.len()
            &&& forall|j: int|
                0 <= j < mark.rec_items@[i].sub_options@.len() ==> (
                #[trigger] out.rec_results@[i].fill_items@[j]).coordinate
                    == mark.rec_items@[i].sub_options@[j]
        }
}

/// The output before anything was measured is laid out as the definition
/// says.
pub proof fn lemma_blank_describes(out: &MobileOutput, mark: &Mark)
    requires
        out.is_blank_for(mark),
    ensures
        describes(out, mark),
{
    assert forall|i: int| 0 <= i < mark.rec_items@.len() implies {
        &&& (#[trigger] out.rec_results@[i]).rec_tpye == mark.rec_items@[i].rec_type
        &&& out.rec_results@[i].rec_result@.len() == mark.rec_items@[i].sub_options@.len()
        &&& out.rec_results@[i].fill_items@.len() == mark.rec_items@[i].sub_options@.len()
        &&& forall|j: int|
            0 <= j < mark.rec_items@[i].sub_options@.len() ==> (
            #[trigger] out.rec_results@[i].fill_items@[j]).coordinate
                == mark.rec_items@[i].sub_options@[j]
    } by {
        assert(out.rec_results@[i].is_blank_for(&mark.rec_items@[i]));
    }
}

/// An output of the same sheet as one laid out as the definition says is
/// laid out so too.
pub proof fn lemma_same_sheet_describes(a: &MobileOutput, b: &MobileOutput, mark: &Mark)
    requires
        describes(a, mark),
        same_sheet(a, b),
    ensures
        describes(b, mark),
{
    assert forall|i: int| 0 <= i < mark.rec_items@.len() implies {
        &&& (#[trigger] b.rec_results@[i]).rec_tpye == mark.rec_items@[i].rec_type
        &&& b.rec_results@[i].rec_result@.len() == mark.rec_items@[i].sub_options@.len()
        &&& b.rec_results@[i].fill_items@.len() == mark.rec_items@[i].sub_options@.len()
        &&& forall|j: int|
            0 <= j < mark.rec_items@[i].sub_options@.len() ==> (
            #[trigger] b.rec_results@[i].fill_items@[j]).coordinate
                == mark.rec_items@[i].sub_options@[j]
    } by {
        assert(a.rec_results@[i].rec_tpye == mark.rec_items@[i].rec_type);
        assert forall|j: int| 0 <= j < mark.rec_items@[i].sub_options@.len() implies (
        #[trigger] b.rec_results@[i].fill_items@[j]).coordinate
            == mark.rec_items@[i].sub_options@[j] by {
            assert(a.rec_results@[i].fill_items@[j].coordinate
                == mark.rec_items@[i].sub_options@[j]);
        }
    }
}

/// The rectangles of an output laid out as the definition says lie within a
/// plane exactly if the definition's options do.
pub proof fn lemma_in_plane(p: &Plane, out: &MobileOutput, mark: &Mark)
    requires
        describes(out, mark),
    ensures
        all_in_plane(p, out) <==> (forall|i: int, j: int|
            0 <= i < mark.rec_items@.len() && 0 <= j < mark.rec_items@[i].sub_options@.len()
                ==> plane_in_range(
                p,
                #[trigger] mark.rec_items@[i].sub_options@[j],
            )),
{
    if all_in_plane(p, out) {
        assert forall|i: int, j: int|
            0 <= i < mark.rec_items@.len() && 0 <= j
                < mark.rec_items@[i].sub_options@.len() implies plane_in_range(
            p,
            #[trigger] mark.rec_items@[i].sub_options@[j],
        ) by {
            assert(out.rec_results@[i].fill_items@[j].coordinate
                == mark.rec_items@[i].sub_options@[j]);
        }
    }
    if forall|i: int, j: int|
        0 <= i < mark.rec_items@.len() && 0 <= j < mark.rec_items@[i].sub_options@.len()
            ==> plane_in_range(
            p,
            #[trigger] mark.rec_items@[i].sub_options@[j],
        ) {
        assert forall|i: int, j: int|
            0 <= i < out.rec_results@.len() && 0 <= j
                < out.rec_results@[i].fill_items@.len() implies plane_in_range(
            p,
            (#[trigger] out.rec_results@[i].fill_items@[j]).coordinate,
        ) by {
            assert(out.rec_results@[i].rec_tpye == mark.rec_items@[i].rec_type);
            assert(plane_in_range(p, mark.rec_items@[i].sub_options@[j]));
        }
    }
}

/// There are as many fill ratios in the results of the first `n` items as the
/// items have options.
pub proof fn lemma_pool_len(results: Seq<RecResult>, items: Seq<RecItem>, n: int)
    requires
        0 <= n <= results.len(),
        n <= items.len(),
        forall|i: int|
            0 <= i < n ==> (#[trigger] results[i]).fill_items@.len() == items[i].sub_options@.len(),
    ensures
        pooled_rates(results.take(n)).len() == option_count(items, n),
    decreases n,
{
    if n > 0 {
        lemma_pool_len(results, items, n - 1);
        lemma_pooled_take(results, n - 1);
    }
}

/// Reads sheets of one definition.
pub struct RecEngine {
    location_module: LocationModule,
    rec_fill_module: RecFillModule,
    assist_location_module: AssistLocationModule,
    mark: Mark,
}

impl RecEngine {
    /// The definition of the sheets that this engine reads.
    pub closed spec fn spec_mark(&self) -> Mark {
        self.mark
    }

    /// The engine's definition describes a sheet.
    pub open spec fn wf(&self) -> bool {
        self.spec_mark().wf()
    }

    /// An engine for the sheets of a definition. Fails if the definition
    /// does not describe a sheet.
    pub fn new(mark: Mark) -> (r: Result<RecEngine, RecError>)
        ensures
            r.is_ok() <==> mark.wf(),
            r matches Err(e) ==> e == RecError::InputMalformed,
            r matches Ok(engine) ==> engine.wf() && engine.spec_mark() == mark,
    {
        if !mark.is_valid() {
            return Err(RecError::InputMalformed);
        }
        Ok(
            RecEngine {
                location_module: LocationModule::new(),
                assist_location_module: AssistLocationModule::new(),
                rec_fill_module: RecFillModule::new(),
                mark,
            },
        )
    }

    /// The definition of the sheets that this engine reads.
    pub fn mark(&self) -> (r: &Mark)
        ensures
            *r == self.spec_mark(),
    {
        &self.mark
    }

    /// The outline of the sheet among the contours traced on the closed
    /// plane of the photographed page.
    pub fn locate(&self, processed_image: &ProcessedImage, contours: &Vec<Contour>) -> (r: Result<
        Quad,
        RecError,
    >)
        requires
            processed_image.wf(),
        ensures
            r.is_err() <==> spec_outline_error(
                contours@,
                processed_image.closed.spec_width(),
                processed_image.closed.spec_height(),
            ).is_some(),
            r matches Err(e) ==> spec_outline_error(
                contours@,
                processed_image.closed.spec_width(),
                processed_image.closed.spec_height(),
            ) == Some(e),
            r matches Ok(q) ==> q.points@ == spec_outline(
                contours@,
                processed_image.closed.spec_width(),
                processed_image.closed.spec_height(),
            ),
    {
        self.location_module.infer(processed_image, contours)
    }

    /// The corners onto which the outline's corners are mapped, in the
    /// outline's order: those of the definition's boundary rectangle.
    pub fn target_corners(&self) -> (r: [Point; 4])
        requires
            self.wf(),
        ensures
            ({
                let b = self.spec_mark().boundary;
                r@ == seq![
                    Point { x: b.x, y: b.y },
                    Point { x: (b.x + b.w) as i32, y: b.y },
                    Point { x: (b.x + b.w) as i32, y: (b.y + b.h) as i32 },
                    Point { x: b.x, y: (b.y + b.h) as i32 },
                ]
            }),
    {
        get_points_from_coordinate(&self.mark.boundary)
    }

    /// The width and height of the normalised planes: they reach from the
    /// origin to the far corner of the boundary rectangle.
    pub fn target_size(&self) -> (r: (i32, i32))
        requires
            self.wf(),
        ensures
            r.0 == self.spec_mark().boundary.x + self.spec_mark().boundary.w,
            r.1 == self.spec_mark().boundary.y + self.spec_mark().boundary.h,
    {
        (
            self.mark.boundary.x + self.mark.boundary.w,
            self.mark.boundary.y + self.mark.boundary.h,
        )
    }

    /// The regions of the normalised sheet in which the marks of the left
    /// and of the right side are looked for.
    pub fn search_areas(&self) -> (r: (Coordinate, Coordinate))
        requires
            self.wf(),
        ensures
            r.0 == spec_merged(
                self.spec_mark().assist_location.left@,
                AssistLocationConfig::ASSIST_AREA_EXTEND_SIZE as int,
            ),
            r.1 == spec_merged(
                self.spec_mark().assist_location.right@,
                AssistLocationConfig::ASSIST_AREA_EXTEND_SIZE as int,
            ),
    {
        self.assist_location_module.search_areas(&self.mark.assist_location)
    }

    /// Reads a normalised sheet: checks its fiducial marks, measures every
    /// option and marks those whose fill ratio exceeds the threshold derived
    /// from all of them. `left_contours` and `right_contours` are the
    /// contours traced in the search regions of the two sides.
    ///
    /// Fails where the check of the marks fails; else where the binary plane
    /// is empty; else where an option lies partly outside the plane. It
    /// succeeds otherwise.
    pub fn inference(
        &self,
        normalized: &ProcessedImage,
        left_contours: &Vec<Vec<Point>>,
        right_contours: &Vec<Vec<Point>>,
    ) -> (r: Result<MobileOutput, RecError>)
        requires
            self.wf(),
            normalized.wf(),
        ensures
            ({
                let mark = self.spec_mark();
                let assist_error = spec_assist_error(
                    &normalized.closed,
                    &mark.assist_location,
                    left_contours@,
                    right_contours@,
                );
                let empty = normalized.thresh.spec_width() == 0 || normalized.thresh.spec_height()
                    == 0;
                let inside = forall|i: int, j: int|
                    0 <= i < mark.rec_items@.len() && 0 <= j < mark.rec_items@[i].sub_options@.len()
                        ==> plane_in_range(
                        &normalized.thresh,
                        #[trigger] mark.rec_items@[i].sub_options@[j],
                    );
                &&& assist_error matches Some(e) ==> r == Err::<MobileOutput, RecError>(e)
                &&& assist_error.is_none() && empty ==> r == Err::<MobileOutput, RecError>(
                    RecError::ImageInvalid,
                )
                &&& assist_error.is_none() && !empty && !inside ==> r == Err::<
                    MobileOutput,
                    RecError,
                >(RecError::SampleOutOfRange)
                &&& assist_error.is_none() && !empty && inside ==> r.is_ok()
                &&& r matches Ok(out) ==> {
                    &&& out.wf()
                    &&& describes(&out, &mark)
                    &&& all_measured_on(&normalized.thresh, &out)
                    &&& all_classified(&out, spec_threshold(out.rec_results@))
                }
            }),
    {
        let mut mobile_output = MobileOutput::new(&self.mark);
        let ghost blank = mobile_output;
        if let Err(e) = self.assist_location_module.infer(
            normalized,
            &self.mark.assist_location,
            left_contours,
            right_contours,
        ) {
            return Err(e);
        }
        proof {
            lemma_blank_describes(&blank, &self.mark);
            lemma_in_plane(&normalized.thresh, &blank, &self.mark);
        }
        if let Err(e) = self.rec_fill_module.infer(normalized, &mut mobile_output) {
            proof {
                lemma_same_sheet_describes(&blank, &mobile_output, &self.mark);
                let results = mobile_output.rec_results@;
                lemma_pool_len(results, self.mark.rec_items@, results.len() as int);
                assert(results.take(results.len() as int) =~= results);
            }
            return Err(e);
        }
        proof {
            lemma_same_sheet_describes(&blank, &mobile_output, &self.mark);
        }
        Ok(mobile_output)
    }
}

} // verus!
