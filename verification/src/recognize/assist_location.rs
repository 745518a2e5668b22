use vstd::prelude::*;
use crate::config::AssistLocationConfig;
use crate::models::{
    rectangles_on_sheet, AssistLocation, Coordinate, Point, ProcessedImage, RecError,
};
use crate::myutils::image::{
    integral_image, lemma_rect_sum_shifted, merge_coordinates, rect_sum,
    spec_merged, IntegralImage, Plane, MAX_SIDE,
};
use crate::recognize::fill::calculate_fill_rate;
use crate::recognize::location::{
    contour_area2, extremes, greatest_x, greatest_y, least_x, least_y, spec_area2,
};

verus! {

/// Whether mark `j` comes before mark `i` when the marks are sorted from top
/// to bottom, marks of equal height staying in their order.
pub open spec fn comes_first(items: Seq<Coordinate>, j: int, i: int) -> bool {
    items[j].y < items[i].y || (items[j].y == items[i].y && j < i)
}

/// How many of the first `n` marks come before mark `i`.
pub open spec fn count_first(items: Seq<Coordinate>, i: int, n: int) -> int
    decreases n,
{
    if n <= 0 {
        0
    } else {
        count_first(items, i, n - 1) + if comes_first(items, n - 1, i) {
            1int
        } else {
            0int
        }
    }
}

/// The place of mark `i` among the marks sorted from top to bottom.
pub open spec fn top_rank(items: Seq<Coordinate>, i: int) -> int {
    count_first(items, i, items.len() as int)
}

/// Whether `output` holds the marks of `input` sorted from top to bottom,
/// marks of equal height in the order they had: every mark stands at its
/// place.
pub open spec fn is_sorted_by_top(input: Seq<Coordinate>, output: Seq<Coordinate>) -> bool {
    &&& output.len() == input.len()
    &&& forall|i: int|
        0 <= i < input.len() ==> 0 <= #[trigger] top_rank(input, i) < input.len() && output[top_rank(
            input,
            i,
        )] == input[i]
}

/// Of the first `n` marks at most `n` come before mark `i`, and fewer if
/// mark `i` is among them.
pub proof fn lemma_count_first_bounds(items: Seq<Coordinate>, i: int, n: int)
    requires
        0 <= n <= items.len(),
        0 <= i < items.len(),
    ensures
        0 <= count_first(items, i, n) <= n,
        i < n ==> count_first(items, i, n) < n,
    decreases n,
{
    if n > 0 {
        lemma_count_first_bounds(items, i, n - 1);
    }
}

/// A mark that comes before another has fewer marks before it.
pub proof fn lemma_count_first_grows(items: Seq<Coordinate>, a: int, b: int, n: int)
    requires
        0 <= n <= items.len(),
        0 <= a < items.len(),
        0 <= b < items.len(),
        comes_first(items, a, b),
    ensures
        count_first(items, a, n) <= count_first(items, b, n),
        a < n ==> count_first(items, a, n) < count_first(items, b, n),
    decreases n,
{
    if n > 0 {
        lemma_count_first_grows(items, a, b, n - 1);
    }
}

/// No two marks take the same place.
pub proof fn lemma_top_rank_injective(items: Seq<Coordinate>, a: int, b: int)
    requires
        0 <= a < items.len(),
        0 <= b < items.len(),
        a != b,
    ensures
        top_rank(items, a) != top_rank(items, b),
{
    if comes_first(items, a, b) {
        lemma_count_first_grows(items, a, b, items.len() as int);
    } else {
        lemma_count_first_grows(items, b, a, items.len() as int);
    }
}

/// A mark that takes an earlier place than another lies no lower, and of two
/// marks of equal height the one that was first takes the earlier place.
pub proof fn lemma_top_rank_sorts(items: Seq<Coordinate>, a: int, b: int)
    requires
        0 <= a < items.len(),
        0 <= b < items.len(),
    ensures
        top_rank(items, a) < top_rank(items, b) ==> items[a].y <= items[b].y,
        items[a].y == items[b].y && a < b ==> top_rank(items, a) < top_rank(items, b),
        items[a].y < items[b].y ==> top_rank(items, a) < top_rank(items, b),
{
    if comes_first(items, a, b) {
        lemma_count_first_grows(items, a, b, items.len() as int);
    }
    if comes_first(items, b, a) {
        lemma_count_first_grows(items, b, a, items.len() as int);
    }
}

/// The marks sorted from top to bottom, marks of equal height in the order
/// they had.
pub fn sort_by_top(items: &Vec<Coordinate>) -> (r: Vec<Coordinate>)
    ensures
        is_sorted_by_top(items@, r@),
{
    let n: usize = items.len();
    let mut out: Vec<Coordinate> = Vec::new();
    let mut k: usize = 0;
    while k < n
        invariant
            k <= n,
            n == items@.len(),
            out@.len() == k,
        decreases n - k,
    {
        out.push(items[0]);
        k += 1;
    }
    let mut i: usize = 0;
    while i < n
        invariant
            i <= n,
            n == items@.len(),
            out@.len() == n,
            forall|a: int|
                0 <= a < i ==> 0 <= #[trigger] top_rank(items@, a) < n && out@[top_rank(items@, a)]
                    == items@[a],
        decreases n - i,
    {
        let mut rank: usize = 0;
        let mut j: usize = 0;
        while j < n
            invariant
                i < n,
                j <= n,
                n == items@.len(),
                rank == count_first(items@, i as int, j as int),
                rank <= j,
            decreases n - j,
        {
            if items[j].y < items[i].y || (items[j].y == items[i].y && j < i) {
                rank += 1;
            }
            j += 1;
        }
        proof {
            lemma_count_first_bounds(items@, i as int, n as int);
            assert forall|a: int| 0 <= a < i implies top_rank(items@, a) != rank by {
                lemma_top_rank_injective(items@, a, i as int);
            }
        }
        out.set(rank, items[i]);
        i += 1;
    }
    out
}

/// The part of the search region that the plane can hold: the region moved
/// to begin no earlier than the plane, and cut off where the plane ends. Its
/// width or height is negative where the region begins beyond the plane.
pub open spec fn spec_roi(closed: &Plane, c: Coordinate) -> Coordinate {
    let x = if c.x > 0 {
        c.x
    } else {
        0i32
    };
    let y = if c.y > 0 {
        c.y
    } else {
        0i32
    };
    let w = if c.w < closed.spec_width() - x {
        c.w
    } else {
        (closed.spec_width() - x) as i32
    };
    let h = if c.h < closed.spec_height() - y {
        c.h
    } else {
        (closed.spec_height() - y) as i32
    };
    Coordinate { x, y, w, h }
}

/// The width of a contour's bounding rectangle.
pub open spec fn box_w(points: Seq<Point>) -> int {
    greatest_x(points) - least_x(points) + 1
}

/// The height of a contour's bounding rectangle.
pub open spec fn box_h(points: Seq<Point>) -> int {
    greatest_y(points) - least_y(points) + 1
}

/// Whether a contour has the size of a fiducial mark: the sides of its
/// bounding rectangle and its area are within their limits, and the sides
/// differ by no more than allowed.
pub open spec fn has_mark_shape(points: Seq<Point>) -> bool {
    &&& points.len() > 0
    &&& AssistLocationConfig::ASSIST_POINT_MIN_SIZE <= box_w(points)
        <= AssistLocationConfig::ASSIST_POINT_MAX_SIZE
    &&& AssistLocationConfig::ASSIST_POINT_MIN_SIZE <= box_h(points)
        <= AssistLocationConfig::ASSIST_POINT_MAX_SIZE
    &&& -AssistLocationConfig::ASSIST_POINT_WHDIFF_MAX <= box_w(points) - box_h(points)
        <= AssistLocationConfig::ASSIST_POINT_WHDIFF_MAX
    &&& 2 * AssistLocationConfig::ASSIST_POINT_MIN_AREA <= spec_area2(points) <= 2
        * AssistLocationConfig::ASSIST_POINT_MAX_AREA
}

/// Whether the interior of a contour's bounding rectangle, one pixel in from
/// every side, lies within a region of the given size. The contour's
/// positions are counted from the region's corner.
pub open spec fn mark_inside(roi: Coordinate, points: Seq<Point>) -> bool {
    &&& least_x(points) + 1 >= 0
    &&& least_y(points) + 1 >= 0
    &&& greatest_x(points) <= roi.w
    &&& greatest_y(points) <= roi.h
}

/// The sum of the plane's pixels in the interior of a contour's bounding
/// rectangle.
pub open spec fn mark_sum(closed: &Plane, roi: Coordinate, points: Seq<Point>) -> int {
    rect_sum(
        closed,
        roi.x + least_x(points) + 1,
        roi.y + least_y(points) + 1,
        roi.x + greatest_x(points),
        roi.y + greatest_y(points),
    )
}

/// Whether the interior of a contour's bounding rectangle is foreground to
/// the share that a fiducial mark must have.
pub open spec fn mark_filled(closed: &Plane, roi: Coordinate, points: Seq<Point>) -> bool {
    100 * mark_sum(closed, roi, points) >= AssistLocationConfig::ASSIST_POINT_MIN_FILL_PERCENT * (
    255 * ((box_w(points) - 2) * (box_h(points) - 2)))
}

/// The bounding rectangle of a contour on the plane: the contour's
/// positions are counted from the corner of `roi`.
pub open spec fn mark_at(points: Seq<Point>, roi: Coordinate) -> Coordinate {
    Coordinate {
        x: (least_x(points) + roi.x) as i32,
        y: (least_y(points) + roi.y) as i32,
        w: box_w(points) as i32,
        h: box_h(points) as i32,
    }
}

/// The fiducial marks among the contours, in the order of the contours.
pub open spec fn accepted(contours: Seq<Vec<Point>>, closed: &Plane, roi: Coordinate) -> Seq<
    Coordinate,
>
    decreases contours.len(),
{
    if contours.len() == 0 {
        Seq::empty()
    } else {
        let rest = accepted(contours.drop_last(), closed, roi);
        let points = contours.last()@;
        if has_mark_shape(points) && mark_filled(closed, roi, points) {
            rest.push(mark_at(points, roi))
        } else {
            rest
        }
    }
}

/// Whether a contour of the size of a mark reaches beyond the region.
pub open spec fn some_mark_outside(contours: Seq<Vec<Point>>, roi: Coordinate) -> bool {
    exists|i: int|
        0 <= i < contours.len() && has_mark_shape((#[trigger] contours[i])@) && !mark_inside(
            roi,
            contours[i]@,
        )
}

/// Why the search of a region fails, if it does: the region begins beyond
/// the plane, or holds none of it, or a contour of the size of a mark
/// reaches beyond it.
pub open spec fn spec_search_error(closed: &Plane, c: Coordinate, contours: Seq<Vec<Point>>) -> Option<
    RecError,
> {
    let roi = spec_roi(closed, c);
    if roi.w < 0 || roi.h < 0 {
        Some(RecError::SampleOutOfRange)
    } else if roi.w == 0 || roi.h == 0 {
        Some(RecError::ImageInvalid)
    } else if some_mark_outside(contours, roi) {
        Some(RecError::SampleOutOfRange)
    } else {
        None
    }
}

/// The marks that the search of a region finds, in the order of the
/// contours.
pub open spec fn spec_search_marks(closed: &Plane, c: Coordinate, contours: Seq<Vec<Point>>) -> Seq<
    Coordinate,
> {
    accepted(contours, closed, spec_roi(closed, c))
}

/// Why the search for the marks of both sides fails, if it does: the search
/// of the left region fails, or else that of the right region, or else the
/// marks found differ in number between the sides, or on a side from the
/// number expected there.
pub open spec fn spec_assist_error(
    closed: &Plane,
    expected: &AssistLocation,
    left_contours: Seq<Vec<Point>>,
    right_contours: Seq<Vec<Point>>,
) -> Option<RecError> {
    let extend = AssistLocationConfig::ASSIST_AREA_EXTEND_SIZE as int;
    let left_area = spec_merged(expected.left@, extend);
    let right_area = spec_merged(expected.right@, extend);
    let left_error = spec_search_error(closed, left_area, left_contours);
    let right_error = spec_search_error(closed, right_area, right_contours);
    let left_marks = spec_search_marks(closed, left_area, left_contours);
    let right_marks = spec_search_marks(closed, right_area, right_contours);
    if left_error.is_some() {
        left_error
    } else if right_error.is_some() {
        right_error
    } else if left_marks.len() != right_marks.len() || left_marks.len() != expected.left@.len()
        || right_marks.len() != expected.right@.len() {
        Some(RecError::FiducialCountMismatch)
    } else {
        None
    }
}

/// Looks for fiducial marks on the normalised sheet.
pub struct AssistLocationModule;

impl AssistLocationModule {
    pub fn new() -> (r: AssistLocationModule) {
        AssistLocationModule
    }

    /// The regions in which the marks of the left and of the right side are
    /// looked for: the smallest rectangle that holds the marks expected on
    /// that side, enlarged by the configured margin.
    pub fn search_areas(&self, assist_location: &AssistLocation) -> (r: (Coordinate, Coordinate))
        requires
            rectangles_on_sheet(assist_location.left@),
            rectangles_on_sheet(assist_location.right@),
        ensures
            r.0 == spec_merged(
                assist_location.left@,
                AssistLocationConfig::ASSIST_AREA_EXTEND_SIZE as int,
            ),
            r.1 == spec_merged(
                assist_location.right@,
                AssistLocationConfig::ASSIST_AREA_EXTEND_SIZE as int,
            ),
            -MAX_SIDE <= r.0.x <= MAX_SIDE,
            -MAX_SIDE <= r.0.y <= MAX_SIDE,
            -MAX_SIDE <= r.1.x <= MAX_SIDE,
            -MAX_SIDE <= r.1.y <= MAX_SIDE,
    {
        let left = merge_coordinates(
            &assist_location.left,
            AssistLocationConfig::ASSIST_AREA_EXTEND_SIZE,
        );
        let right = merge_coordinates(
            &assist_location.right,
            AssistLocationConfig::ASSIST_AREA_EXTEND_SIZE,
        );
        (left, right)
    }

    /// The fiducial marks found on either side of the normalised sheet, from
    /// top to bottom. `left_contours` and `right_contours` are the contours
    /// traced in the search regions of the two sides.
    ///
    /// Fails where a search fails, the left one first, and with a count
    /// mismatch where the sides differ in the number of marks found or a
    /// side differs from the number expected there.
    pub fn infer(
        &self,
        processed_image: &ProcessedImage,
        assist_location: &AssistLocation,
        left_contours: &Vec<Vec<Point>>,
        right_contours: &Vec<Vec<Point>>,
    ) -> (r: Result<AssistLocation, RecError>)
        requires
            processed_image.wf(),
            rectangles_on_sheet(assist_location.left@),
            rectangles_on_sheet(assist_location.right@),
        ensures
            r.is_err() <==> spec_assist_error(
                &processed_image.closed,
                assist_location,
                left_contours@,
                right_contours@,
            ).is_some(),
            r matches Err(e) ==> spec_assist_error(
                &processed_image.closed,
                assist_location,
                left_contours@,
                right_contours@,
            ) == Some(e),
            r matches Ok(found) ==> ({
                let closed = &processed_image.closed;
                let extend = AssistLocationConfig::ASSIST_AREA_EXTEND_SIZE as int;
                let left_area = spec_merged(assist_location.left@, extend);
                let right_area = spec_merged(assist_location.right@, extend);
                &&& is_sorted_by_top(
                    spec_search_marks(closed, left_area, left_contours@),
                    found.left@,
                )
                &&& is_sorted_by_top(
                    spec_search_marks(closed, right_area, right_contours@),
                    found.right@,
                )
                &&& found.left@.len() == assist_location.left@.len()
                &&& found.right@.len() == assist_location.right@.len()
                &&& found.right@.len() == found.left@.len()
            }),
    {
        let (left_area, right_area) = self.search_areas(assist_location);
        let left = match AssistLocationModule::find_assist_location(
            &processed_image.closed,
            &left_area,
            left_contours,
        ) {
            Ok(v) => v,
            Err(e) => {
                return Err(e);
            },
        };
        let right = match AssistLocationModule::find_assist_location(
            &processed_image.closed,
            &right_area,
            right_contours,
        ) {
            Ok(v) => v,
            Err(e) => {
                return Err(e);
            },
        };
        if left.len() != right.len() {
            return Err(RecError::FiducialCountMismatch);
        }
        if left.len() != assist_location.left.len() || right.len() != assist_location.right.len() {
            return Err(RecError::FiducialCountMismatch);
        }
        Ok(AssistLocation { left, right })
    }

    /// The part of a search region that the plane can hold.
    pub fn search_roi(closed: &Plane, coordinate: &Coordinate) -> (r: Coordinate)
        requires
            closed.wf(),
        ensures
            r == spec_roi(closed, *coordinate),
            r.x >= 0,
            r.y >= 0,
            r.w >= 0 && r.h >= 0 ==> closed.holds(r),
    {
        let x: i32 = if coordinate.x > 0 {
            coordinate.x
        } else {
            0
        };
        let y: i32 = if coordinate.y > 0 {
            coordinate.y
        } else {
            0
        };
        let room_w: i64 = closed.width() as i64 - x as i64;
        let room_h: i64 = closed.height() as i64 - y as i64;
        let w: i32 = if (coordinate.w as i64) < room_w {
            coordinate.w
        } else {
            room_w as i32
        };
        let h: i32 = if (coordinate.h as i64) < room_h {
            coordinate.h
        } else {
            room_h as i32
        };
        Coordinate { x, y, w, h }
    }

    /// The fiducial marks in a search region of the closed plane, from top
    /// to bottom. `contours` are the contours traced in the part of the
    /// region that the plane holds, their positions counted from that
    /// part's corner.
    ///
    /// A contour is a mark if it has the size of one and the interior of
    /// its bounding rectangle is filled. A mark is given by its bounding
    /// rectangle on the plane.
    pub fn find_assist_location(
        closed: &Plane,
        coordinate: &Coordinate,
        contours: &Vec<Vec<Point>>,
    ) -> (r: Result<Vec<Coordinate>, RecError>)
        requires
            closed.wf(),
        ensures
            r.is_err() <==> spec_search_error(closed, *coordinate, contours@).is_some(),
            r matches Err(e) ==> spec_search_error(closed, *coordinate, contours@) == Some(e),
            r matches Ok(v) ==> is_sorted_by_top(
                spec_search_marks(closed, *coordinate, contours@),
                v@,
            ),
    {
        let roi: Coordinate = AssistLocationModule::search_roi(closed, coordinate);
        if roi.w < 0 || roi.h < 0 {
            return Err(RecError::SampleOutOfRange);
        }
        let part: Plane = match closed.crop(&roi) {
            Ok(p) => p,
            Err(e) => {
                return Err(e);
            },
        };
        let table: IntegralImage = match integral_image(&part) {
            Ok(t) => t,
            Err(e) => {
                return Err(e);
            },
        };
        let mut marks: Vec<Coordinate> = Vec::new();
        let mut i: usize = 0;
        while i < contours.len()
            invariant
                i <= contours@.len(),
                closed.wf(),
                roi == spec_roi(closed, *coordinate),
                closed.holds(roi),
                roi.w > 0,
                roi.h > 0,
                closed.is_crop(roi, &part),
                table.wf(),
                table.source() == part,
                marks@ == accepted(contours@.take(i as int), closed, roi),
                forall|k: int|
                    0 <= k < i && has_mark_shape((#[trigger] contours@[k])@) ==> mark_inside(
                        roi,
                        contours@[k]@,
                    ),
            decreases contours@.len() - i,
        {
            let points: &Vec<Point> = &contours[i];
            proof {
                assert(contours@.take(i + 1).drop_last() =~= contours@.take(i as int));
                assert(contours@.take(i + 1).last() == contours@[i as int]);
            }
            let mark: Option<Coordinate> = match AssistLocationModule::measure_mark(
                closed,
                &roi,
                &part,
                &table,
                points,
            ) {
                Ok(m) => m,
                Err(e) => {
                    return Err(e);
                },
            };
            if let Some(m) = mark {
                marks.push(m);
            }
            i += 1;
        }
        assert(contours@.take(contours@.len() as int) =~= contours@);
        Ok(sort_by_top(&marks))
    }

    /// The mark that a contour is, if it is one. Fails if the contour has
    /// the size of a mark and reaches beyond the region.
    fn measure_mark(
        closed: &Plane,
        roi: &Coordinate,
        part: &Plane,
        table: &IntegralImage,
        points: &Vec<Point>,
    ) -> (r: Result<Option<Coordinate>, RecError>)
        requires
            closed.wf(),
            closed.holds(*roi),
            closed.is_crop(*roi, part),
            table.wf(),
            table.source() == *part,
        ensures
            r.is_err() <==> has_mark_shape(points@) && !mark_inside(*roi, points@),
            r matches Err(e) ==> e == RecError::SampleOutOfRange,
            r matches Ok(m) ==> m == (if has_mark_shape(points@) && mark_filled(closed, *roi, points@) {
                Some(mark_at(points@, *roi))
            } else {
                None
            }),
    {
        if points.len() == 0 {
            return Ok(None);
        }
        let area2: u128 = contour_area2(points);
        let (left, top, right, bottom) = extremes(points);
        let width: i64 = right as i64 - left as i64 + 1;
        let height: i64 = bottom as i64 - top as i64 + 1;
        if width < AssistLocationConfig::ASSIST_POINT_MIN_SIZE as i64 {
            return Ok(None);
        }
        if width > AssistLocationConfig::ASSIST_POINT_MAX_SIZE as i64 {
            return Ok(None);
        }
        if height < AssistLocationConfig::ASSIST_POINT_MIN_SIZE as i64 {
            return Ok(None);
        }
        if height > AssistLocationConfig::ASSIST_POINT_MAX_SIZE as i64 {
            return Ok(None);
        }
        let diff: i64 = width - height;
        if diff > AssistLocationConfig::ASSIST_POINT_WHDIFF_MAX as i64 || -diff
            > AssistLocationConfig::ASSIST_POINT_WHDIFF_MAX as i64 {
            return Ok(None);
        }
        if area2 < 2 * (AssistLocationConfig::ASSIST_POINT_MIN_AREA as u128) {
            return Ok(None);
        }
        if area2 > 2 * (AssistLocationConfig::ASSIST_POINT_MAX_AREA as u128) {
            return Ok(None);
        }
        assert(has_mark_shape(points@));
        let inner = Coordinate {
            x: left + 1,
            y: top + 1,
            w: (width - 2) as i32,
            h: (height - 2) as i32,
        };
        let rate = match calculate_fill_rate(table, &inner) {
            Ok(rate) => rate,
            Err(e) => {
                return Err(e);
            },
        };
        proof {
            table.lemma_region_sum(
                inner.x as int,
                inner.y as int,
                inner.x + inner.w,
                inner.y + inner.h,
            );
            lemma_rect_sum_shifted(
                part,
                closed,
                roi.x as int,
                roi.y as int,
                inner.x as int,
                inner.y as int,
                inner.x + inner.w,
                inner.y + inner.h,
            );
            assert(rate.num == mark_sum(closed, *roi, points@));
            assert(rate.den == 255 * ((box_w(points@) - 2) * (box_h(points@) - 2)));
            assert(AssistLocationConfig::ASSIST_POINT_MIN_FILL_PERCENT * rate.den == 90 * rate.den)
                by (nonlinear_arith)
                requires
                    AssistLocationConfig::ASSIST_POINT_MIN_FILL_PERCENT == 90,
            ;
        }
        let enough: bool = 100 * (rate.num as i128) >= 90 * (rate.den as i128);
        if !enough {
            return Ok(None);
        }
        Ok(
            Some(
                Coordinate {
                    x: left + roi.x,
                    y: top + roi.y,
                    w: width as i32,
                    h: height as i32,
                },
            ),
        )
    }
}

} // verus!
