use vstd::prelude::*;
use crate::models::{Coordinate, FillItem, MobileOutput, ProcessedImage, RecError, RecResult, RecType};
use crate::config::FillConfig;
use crate::myutils::image::{
    integral_image, lemma_area_bound, lemma_rect_sum_uniform, rect_sum, IntegralImage, Plane,
    MAX_SIDE,
};
use crate::myutils::math::{
    all_wf, bins_within, lemma_otsu_of_two_bins, spec_bin, first_best_variance, is_first_best_variance, lemma_first_best_variance_unique,
    lemma_fraction_order, otsu_threshold, spec_otsu_threshold, spec_otsu_variance, Ratio,
    Variance, MAX_SAMPLES, MAX_VARIANCE_DEN, MAX_VARIANCE_NUM,
};

verus! {

/// Whether the rectangle at `(x, y)` of width `w` and height `h` lies within
/// the plane that the table sums.
pub open spec fn in_range(t: &IntegralImage, x: int, y: int, w: int, h: int) -> bool {
    &&& x >= 0
    &&& y >= 0
    &&& w >= 0
    &&& h >= 0
    &&& x + w <= t.spec_cols() - 1
    &&& y + h <= t.spec_rows() - 1
}

/// The numerator of a rectangle's fill ratio: the sum of its pixels as the
/// table gives it, or zero for a rectangle without area.
pub open spec fn fill_num(t: &IntegralImage, c: Coordinate) -> int {
    if c.w == 0 || c.h == 0 {
        0
    } else {
        t.region_sum(c.x as int, c.y as int, c.x + c.w, c.y + c.h)
    }
}

/// The denominator of a rectangle's fill ratio: 255 for each of its pixels,
/// or one for a rectangle without area.
pub open spec fn fill_den(c: Coordinate) -> int {
    if c.w == 0 || c.h == 0 {
        1
    } else {
        255 * (c.w * c.h)
    }
}

/// The sum of the pixels of a plane in the rectangle `c`, or zero for a
/// rectangle without area.
pub open spec fn plane_fill_num(p: &Plane, c: Coordinate) -> int {
    if c.w == 0 || c.h == 0 {
        0
    } else {
        rect_sum(p, c.x as int, c.y as int, c.x + c.w, c.y + c.h)
    }
}

/// Whether the rectangle `c` lies within the plane.
pub open spec fn plane_in_range(p: &Plane, c: Coordinate) -> bool {
    p.holds(c)
}

/// In a plane that is all foreground, a rectangle with area that lies within
/// the plane has fill ratio one: numerator and denominator are the same. In
/// a plane that is all background it has fill ratio zero.
pub proof fn lemma_fill_rate_of_uniform_plane(p: &Plane, c: Coordinate)
    requires
        p.wf(),
        plane_in_range(p, c),
        c.w > 0,
        c.h > 0,
    ensures
        (forall|row: int, col: int|
            0 <= row < p.spec_height() && 0 <= col < p.spec_width() ==> #[trigger] p.at(row, col)
                == 255) ==> plane_fill_num(p, c) == fill_den(c),
        (forall|row: int, col: int|
            0 <= row < p.spec_height() && 0 <= col < p.spec_width() ==> #[trigger] p.at(row, col)
                == 0) ==> plane_fill_num(p, c) == 0,
        fill_den(c) > 0,
{
    if forall|row: int, col: int|
        0 <= row < p.spec_height() && 0 <= col < p.spec_width() ==> #[trigger] p.at(row, col)
            == 255 {
        lemma_rect_sum_uniform(p, c.x as int, c.y as int, c.x + c.w, c.y + c.h, 255);
    }
    if forall|row: int, col: int|
        0 <= row < p.spec_height() && 0 <= col < p.spec_width() ==> #[trigger] p.at(row, col)
            == 0 {
        lemma_rect_sum_uniform(p, c.x as int, c.y as int, c.x + c.w, c.y + c.h, 0);
    }
    assert(c.w * c.h > 0) by (nonlinear_arith)
        requires
            c.w > 0,
            c.h > 0,
    ;
}

/// Whether `rate` is the fill ratio of the rectangle `c`.
pub open spec fn is_fill_rate(t: &IntegralImage, c: Coordinate, rate: Ratio) -> bool {
    rate.num == fill_num(t, c) && rate.den == fill_den(c)
}

/// The fill ratio of a rectangle: the share of foreground in it, counting a
/// pixel of value 255 as one. A rectangle without area has fill ratio zero.
/// A rectangle that lies partly outside the plane is refused.
pub fn calculate_fill_rate(integral_image: &IntegralImage, coordinate: &Coordinate) -> (r: Result<
    Ratio,
    RecError,
>)
    requires
        integral_image.wf(),
    ensures
        r.is_ok() <==> in_range(
            integral_image,
            coordinate.x as int,
            coordinate.y as int,
            coordinate.w as int,
            coordinate.h as int,
        ),
        r matches Err(e) ==> e == RecError::SampleOutOfRange,
        r matches Ok(v) ==> is_fill_rate(integral_image, *coordinate, v) && 0 <= v.num <= v.den
            && v.wf() && v.num == plane_fill_num(&integral_image.source(), *coordinate),
{
    let rows: i64 = integral_image.rows() as i64;
    let cols: i64 = integral_image.cols() as i64;
    let x1: i64 = coordinate.x as i64;
    let y1: i64 = coordinate.y as i64;
    let x2: i64 = x1 + coordinate.w as i64;
    let y2: i64 = y1 + coordinate.h as i64;
    if x1 < 0 || y1 < 0 || coordinate.w < 0 || coordinate.h < 0 || x2 > cols - 1 || y2 > rows
        - 1 {
        return Err(RecError::SampleOutOfRange);
    }
    if coordinate.w == 0 || coordinate.h == 0 {
        return Ok(Ratio { num: 0, den: 1 });
    }
    proof {
        integral_image.lemma_region_sum(x1 as int, y1 as int, x2 as int, y2 as int);
        lemma_area_bound(coordinate.w as int, coordinate.h as int, MAX_SIDE as int);
        assert(0 < coordinate.w * coordinate.h) by (nonlinear_arith)
            requires
                coordinate.w > 0,
                coordinate.h > 0,
        ;
    }
    let a: u64 = integral_image.at_2d(y1 as usize, x1 as usize);
    let b: u64 = integral_image.at_2d(y1 as usize, x2 as usize);
    let c: u64 = integral_image.at_2d(y2 as usize, x1 as usize);
    let d: u64 = integral_image.at_2d(y2 as usize, x2 as usize);
    let sum: i128 = d as i128 - b as i128 - c as i128 + a as i128;
    let area: i64 = (coordinate.w as i64) * (coordinate.h as i64);
    Ok(Ratio { num: sum as i64, den: 255 * area })
}

/// Whether a fill ratio lies strictly above a threshold.
pub open spec fn exceeds(rate: Ratio, thresh: Ratio) -> bool {
    thresh.spec_lt(&rate)
}

/// Whether two outputs differ at most in their verdicts: status, message,
/// types and measurements are the same, and there are as many verdicts.
pub open spec fn same_measurements(a: &MobileOutput, b: &MobileOutput) -> bool {
    &&& a.code == b.code
    &&& a.message == b.message
    &&& a.rec_results@.len() == b.rec_results@.len()
    &&& forall|i: int|
        0 <= i < a.rec_results@.len() ==> {
            &&& (#[trigger] a.rec_results@[i]).rec_tpye == b.rec_results@[i].rec_tpye
            &&& a.rec_results@[i].fill_items@ == b.rec_results@[i].fill_items@
            &&& a.rec_results@[i].rec_result@.len() == b.rec_results@[i].rec_result@.len()
        }
}

/// Whether two outputs differ at most in their fill ratios: status, message,
/// types, verdicts and rectangles are the same.
pub open spec fn same_layout(a: &MobileOutput, b: &MobileOutput) -> bool {
    &&& a.code == b.code
    &&& a.message == b.message
    &&& a.rec_results@.len() == b.rec_results@.len()
    &&& forall|i: int|
        0 <= i < a.rec_results@.len() ==> {
            &&& (#[trigger] a.rec_results@[i]).rec_tpye == b.rec_results@[i].rec_tpye
            &&& a.rec_results@[i].rec_result@ == b.rec_results@[i].rec_result@
            &&& a.rec_results@[i].fill_items@.len() == b.rec_results@[i].fill_items@.len()
            &&& forall|j: int|
                0 <= j < a.rec_results@[i].fill_items@.len() ==> (
                #[trigger] a.rec_results@[i].fill_items@[j]).coordinate
                    == b.rec_results@[i].fill_items@[j].coordinate
        }
}

/// Whether every rectangle of the output lies within the plane that the
/// table sums.
pub open spec fn all_in_range(t: &IntegralImage, out: &MobileOutput) -> bool {
    forall|i: int, j: int|
        0 <= i < out.rec_results@.len() && 0 <= j < out.rec_results@[i].fill_items@.len() ==> {
            let c = (#[trigger] out.rec_results@[i].fill_items@[j]).coordinate;
            in_range(t, c.x as int, c.y as int, c.w as int, c.h as int)
        }
}

/// Whether every fill ratio of the output is that of its rectangle.
pub open spec fn all_measured(t: &IntegralImage, out: &MobileOutput) -> bool {
    forall|i: int, j: int|
        0 <= i < out.rec_results@.len() && 0 <= j < out.rec_results@[i].fill_items@.len() ==> {
            let item = #[trigger] out.rec_results@[i].fill_items@[j];
            is_fill_rate(t, item.coordinate, item.fill_rate)
        }
}

/// Whether option `m` has a positive fill ratio that is the greatest of its
/// item, and is the first to have it.
pub open spec fn is_first_max(items: Seq<FillItem>, m: int) -> bool {
    &&& 0 <= m < items.len()
    &&& items[m].fill_rate.num > 0
    &&& forall|k: int| 0 <= k < m ==> (#[trigger] items[k]).fill_rate.spec_lt(&items[m].fill_rate)
    &&& forall|k: int|
        m < k < items.len() ==> (#[trigger] items[k]).fill_rate.spec_le(&items[m].fill_rate)
}

/// The fill ratios of an item's options, in order.
pub open spec fn rates_of(items: Seq<FillItem>) -> Seq<Ratio> {
    Seq::new(items.len(), |j: int| items[j].fill_rate)
}

/// The fill ratios of all options, item after item.
pub open spec fn pooled_rates(results: Seq<RecResult>) -> Seq<Ratio>
    decreases results.len(),
{
    if results.len() == 0 {
        Seq::empty()
    } else {
        pooled_rates(results.drop_last()) + rates_of(results.last().fill_items@)
    }
}

/// The classification threshold in hundredths that belongs to a split
/// threshold: the split threshold, raised to the configured floor and
/// rounded to the nearest hundredth, a half rounding up.
pub open spec fn spec_threshold_percent(t: Ratio) -> int {
    if 100 * t.num <= FillConfig::FILL_RATE_MIN_PERCENT * t.den {
        FillConfig::FILL_RATE_MIN_PERCENT as int
    } else {
        (200 * t.num + t.den) / (2 * t.den)
    }
}

/// The classification threshold that belongs to the fill ratios of an
/// output.
pub open spec fn spec_threshold(results: Seq<RecResult>) -> Ratio {
    Ratio {
        num: spec_threshold_percent(spec_otsu_threshold(pooled_rates(results))) as i64,
        den: 100,
    }
}

/// The pool of one item more is the pool so far and the item's ratios.
pub proof fn lemma_pooled_take(results: Seq<RecResult>, i: int)
    requires
        0 <= i < results.len(),
    ensures
        pooled_rates(results.take(i + 1)) == pooled_rates(results.take(i)) + rates_of(
            results[i].fill_items@,
        ),
{
    assert(results.take(i + 1).drop_last() =~= results.take(i));
}

/// The pool of the first items is no longer than the pool of all.
pub proof fn lemma_pooled_len_monotone(results: Seq<RecResult>, i: int)
    requires
        0 <= i <= results.len(),
    ensures
        pooled_rates(results.take(i)).len() <= pooled_rates(results).len(),
    decreases results.len() - i,
{
    if i < results.len() {
        lemma_pooled_take(results, i);
        lemma_pooled_len_monotone(results, i + 1);
    } else {
        assert(results.take(i) =~= results);
    }
}

/// Whether two outputs describe the same sheet: status, message, types and
/// rectangles are the same, and there are as many verdicts.
pub open spec fn same_sheet(a: &MobileOutput, b: &MobileOutput) -> bool {
    &&& a.code == b.code
    &&& a.message == b.message
    &&& a.rec_results@.len() == b.rec_results@.len()
    &&& forall|i: int|
        0 <= i < a.rec_results@.len() ==> {
            &&& (#[trigger] a.rec_results@[i]).rec_tpye == b.rec_results@[i].rec_tpye
            &&& a.rec_results@[i].rec_result@.len() == b.rec_results@[i].rec_result@.len()
            &&& a.rec_results@[i].fill_items@.len() == b.rec_results@[i].fill_items@.len()
            &&& forall|j: int|
                0 <= j < a.rec_results@[i].fill_items@.len() ==> (
                #[trigger] a.rec_results@[i].fill_items@[j]).coordinate
                    == b.rec_results@[i].fill_items@[j].coordinate
        }
}

/// Whether every rectangle of the output lies within the plane.
pub open spec fn all_in_plane(p: &Plane, out: &MobileOutput) -> bool {
    forall|i: int, j: int|
        0 <= i < out.rec_results@.len() && 0 <= j < out.rec_results@[i].fill_items@.len()
            ==> plane_in_range(p, (#[trigger] out.rec_results@[i].fill_items@[j]).coordinate)
}

/// Whether every fill ratio of the output is the share of foreground that
/// the plane has in the ratio's rectangle.
pub open spec fn all_measured_on(p: &Plane, out: &MobileOutput) -> bool {
    forall|i: int, j: int|
        0 <= i < out.rec_results@.len() && 0 <= j < out.rec_results@[i].fill_items@.len() ==> {
            let item = #[trigger] out.rec_results@[i].fill_items@[j];
            &&& item.fill_rate.num == plane_fill_num(p, item.coordinate)
            &&& item.fill_rate.den == fill_den(item.coordinate)
        }
}

/// Whether an option is marked in the output exactly if its fill ratio
/// exceeds the threshold.
pub open spec fn all_classified(out: &MobileOutput, thresh: Ratio) -> bool {
    forall|i: int, j: int|
        0 <= i < out.rec_results@.len() && 0 <= j < out.rec_results@[i].fill_items@.len()
            ==> #[trigger] out.rec_results@[i].rec_result@[j] == exceeds(
            out.rec_results@[i].fill_items@[j].fill_rate,
            thresh,
        )
}

/// Outputs with the same measurements have the same pool.
pub proof fn lemma_pooled_same(a: Seq<RecResult>, b: Seq<RecResult>)
    requires
        a.len() == b.len(),
        forall|i: int| 0 <= i < a.len() ==> (#[trigger] a[i]).fill_items@ == b[i].fill_items@,
    ensures
        pooled_rates(a) == pooled_rates(b),
    decreases a.len(),
{
    if a.len() > 0 {
        lemma_pooled_same(a.drop_last(), b.drop_last());
    }
}

/// Every fill ratio of the results is in their pool.
pub proof fn lemma_pooled_contains(results: Seq<RecResult>, i: int, j: int)
    requires
        0 <= i < results.len(),
        0 <= j < results[i].fill_items@.len(),
    ensures
        exists|k: int|
            0 <= k < pooled_rates(results).len() && #[trigger] pooled_rates(results)[k]
                == results[i].fill_items@[j].fill_rate,
    decreases results.len(),
{
    let rest = results.drop_last();
    let tail = rates_of(results.last().fill_items@);
    if i == results.len() - 1 {
        let k = pooled_rates(rest).len() + j;
        assert(pooled_rates(results)[k] == tail[j]);
    } else {
        lemma_pooled_contains(rest, i, j);
        let k = choose|k: int|
            0 <= k < pooled_rates(rest).len() && #[trigger] pooled_rates(rest)[k]
                == rest[i].fill_items@[j].fill_rate;
        assert(pooled_rates(results)[k] == pooled_rates(rest)[k]);
    }
}

/// Every fill ratio in the pool of the results is that of one of their
/// options.
pub proof fn lemma_pooled_from(results: Seq<RecResult>, k: int)
    requires
        0 <= k < pooled_rates(results).len(),
    ensures
        exists|i: int, j: int|
            0 <= i < results.len() && 0 <= j < results[i].fill_items@.len() && pooled_rates(
                results,
            )[k] == (#[trigger] results[i].fill_items@[j]).fill_rate,
    decreases results.len(),
{
    let rest = results.drop_last();
    let tail = rates_of(results.last().fill_items@);
    if k < pooled_rates(rest).len() {
        lemma_pooled_from(rest, k);
        let (i, j) = choose|i: int, j: int|
            0 <= i < rest.len() && 0 <= j < rest[i].fill_items@.len() && pooled_rates(rest)[k] == (
            #[trigger] rest[i].fill_items@[j]).fill_rate;
        assert(pooled_rates(results)[k] == pooled_rates(rest)[k]);
        assert(results[i].fill_items@[j] == rest[i].fill_items@[j]);
    } else {
        let i = results.len() - 1;
        let j = k - pooled_rates(rest).len();
        assert(pooled_rates(results)[k] == tail[j]);
        assert(tail[j] == results[i].fill_items@[j].fill_rate);
    }
}

/// On a sheet where one option is filled all through and every other
/// option, of which there is at least one, is not filled at all, the
/// threshold is the configured floor, it lies below the fill ratio of the
/// filled option, and that option alone is marked.
pub proof fn lemma_one_filled_option(out: &MobileOutput, i0: int, j0: int)
    requires
        out.wf(),
        0 <= i0 < out.rec_results@.len(),
        0 <= j0 < out.rec_results@[i0].fill_items@.len(),
        out.rec_results@[i0].fill_items@[j0].fill_rate.num
            == out.rec_results@[i0].fill_items@[j0].fill_rate.den,
        forall|i: int, j: int|
            0 <= i < out.rec_results@.len() && 0 <= j < out.rec_results@[i].fill_items@.len() && !(i
                == i0 && j == j0) ==> (#[trigger] out.rec_results@[i].fill_items@[j]).fill_rate.num
                == 0,
        exists|i: int, j: int|
            0 <= i < out.rec_results@.len() && 0 <= j < out.rec_results@[i].fill_items@.len() && !(i
                == i0 && j == j0) && (#[trigger] out.rec_results@[i].fill_items@[j]).fill_rate.num
                == 0,
        all_classified(out, spec_threshold(out.rec_results@)),
    ensures
        spec_threshold(out.rec_results@) == (Ratio {
            num: FillConfig::FILL_RATE_MIN_PERCENT,
            den: 100,
        }),
        spec_threshold(out.rec_results@).spec_lt(&out.rec_results@[i0].fill_items@[j0].fill_rate),
        forall|i: int, j: int|
            0 <= i < out.rec_results@.len() && 0 <= j < out.rec_results@[i].fill_items@.len()
                ==> #[trigger] out.rec_results@[i].rec_result@[j] == (i == i0 && j == j0),
{
    let results = out.rec_results@;
    let pool = pooled_rates(results);
    let full = results[i0].fill_items@[j0].fill_rate;
    assert(results[i0].wf());
    assert(full.wf());
    assert forall|k: int| 0 <= k < pool.len() implies spec_bin(#[trigger] pool[k]) == 0 || spec_bin(
        pool[k],
    ) == 999 by {
        lemma_pooled_from(results, k);
        let (i, j) = choose|i: int, j: int|
            0 <= i < results.len() && 0 <= j < results[i].fill_items@.len() && pool[k] == (
            #[trigger] results[i].fill_items@[j]).fill_rate;
        assert(results[i].wf());
        assert(results[i].fill_items@[j].fill_rate.wf());
    }
    assert(bins_within(pool, 0, 999));
    lemma_pooled_contains(results, i0, j0);
    let (i1, j1) = choose|i: int, j: int|
        0 <= i < results.len() && 0 <= j < results[i].fill_items@.len() && !(i == i0 && j == j0) && (
        #[trigger] results[i].fill_items@[j]).fill_rate.num == 0;
    assert(results[i1].wf());
    assert(results[i1].fill_items@[j1].fill_rate.wf());
    lemma_pooled_contains(results, i1, j1);
    lemma_otsu_of_two_bins(pool, 0, 999);
    let split = spec_otsu_threshold(pool);
    assert(split == (Ratio { num: 1, den: 999 }));
    assert(FillConfig::FILL_RATE_MIN_PERCENT * split.den == 50 * 999) by (nonlinear_arith)
        requires
            FillConfig::FILL_RATE_MIN_PERCENT == 50,
            split.den == 999,
    ;
    let t = spec_threshold(results);
    assert(t == (Ratio { num: 50, den: 100 }));
    assert forall|i: int, j: int|
        0 <= i < results.len() && 0 <= j < results[i].fill_items@.len() implies #[trigger] results[i].rec_result@[j]
        == (i == i0 && j == j0) by {
        let rate = results[i].fill_items@[j].fill_rate;
        assert(results[i].wf());
        assert(rate.wf());
        assert(results[i].rec_result@[j] == exceeds(rate, t));
        if i == i0 && j == j0 {
            assert(t.num * rate.den < rate.num * t.den) by (nonlinear_arith)
                requires
                    t.num == 50,
                    t.den == 100,
                    rate.num == rate.den,
                    rate.den > 0,
            ;
        } else {
            assert(!(t.num * rate.den < rate.num * t.den)) by (nonlinear_arith)
                requires
                    t.num == 50,
                    t.den == 100,
                    rate.num == 0,
                    rate.den > 0,
            ;
        }
    }
    assert(t.num * full.den < full.num * t.den) by (nonlinear_arith)
        requires
            t.num == 50,
            t.den == 100,
            full.num == full.den,
            full.den > 0,
    ;
}

/// Whether every pixel of a plane in the rectangle `c` has the value `v`.
pub open spec fn is_painted(p: &Plane, c: Coordinate, v: int) -> bool {
    forall|row: int, col: int|
        c.y <= row < c.y + c.h && c.x <= col < c.x + c.w ==> #[trigger] p.at(row, col) == v
}

/// On a sheet whose binary plane is foreground all through the rectangle of
/// one option and background all through the rectangle of every other
/// option, of which there is at least one, a reading marks that option
/// alone, and the threshold is the configured floor, below that option's
/// fill ratio. The rectangles have an area and lie within the plane; the
/// output is one that was measured on the plane and classified.
pub proof fn lemma_one_filled_rectangle(p: &Plane, out: &MobileOutput, i0: int, j0: int)
    requires
        p.wf(),
        out.wf(),
        all_in_plane(p, out),
        all_measured_on(p, out),
        all_classified(out, spec_threshold(out.rec_results@)),
        0 <= i0 < out.rec_results@.len(),
        0 <= j0 < out.rec_results@[i0].fill_items@.len(),
        forall|i: int, j: int|
            0 <= i < out.rec_results@.len() && 0 <= j < out.rec_results@[i].fill_items@.len() ==> {
                let c = (#[trigger] out.rec_results@[i].fill_items@[j]).coordinate;
                &&& c.w > 0
                &&& c.h > 0
                &&& is_painted(
                    p,
                    c,
                    if i == i0 && j == j0 {
                        255
                    } else {
                        0
                    },
                )
            },
        exists|i: int, j: int|
            0 <= i < out.rec_results@.len() && 0 <= j < out.rec_results@[i].fill_items@.len() && !(i
                == i0 && j == j0) && (#[trigger] out.rec_results@[i].fill_items@[j]).coordinate.w
                > 0,
    ensures
        spec_threshold(out.rec_results@) == (Ratio {
            num: FillConfig::FILL_RATE_MIN_PERCENT,
            den: 100,
        }),
        spec_threshold(out.rec_results@).spec_lt(&out.rec_results@[i0].fill_items@[j0].fill_rate),
        out.rec_results@[i0].fill_items@[j0].fill_rate.num
            == out.rec_results@[i0].fill_items@[j0].fill_rate.den,
        forall|i: int, j: int|
            0 <= i < out.rec_results@.len() && 0 <= j < out.rec_results@[i].fill_items@.len()
                ==> #[trigger] out.rec_results@[i].rec_result@[j] == (i == i0 && j == j0),
{
    let results = out.rec_results@;
    assert forall|i: int, j: int|
        0 <= i < results.len() && 0 <= j < results[i].fill_items@.len() implies (
    #[trigger] results[i].fill_items@[j]).fill_rate.num == (if i == i0 && j == j0 {
        results[i].fill_items@[j].fill_rate.den as int
    } else {
        0
    }) by {
        let item = results[i].fill_items@[j];
        let c = item.coordinate;
        let v: int = if i == i0 && j == j0 {
            255
        } else {
            0
        };
        assert(plane_in_range(p, c));
        assert(is_painted(p, c, v));
        lemma_rect_sum_uniform(p, c.x as int, c.y as int, c.x + c.w, c.y + c.h, v);
        assert(item.fill_rate.num == plane_fill_num(p, c));
        assert(item.fill_rate.den == fill_den(c));
    }
    let (i1, j1) = choose|i: int, j: int|
        0 <= i < results.len() && 0 <= j < results[i].fill_items@.len() && !(i == i0 && j == j0) && (
        #[trigger] results[i].fill_items@[j]).coordinate.w > 0;
    assert(results[i1].fill_items@[j1].fill_rate.num == 0);
    assert(results[i0].fill_items@[j0].fill_rate.num == results[i0].fill_items@[j0].fill_rate.den);
    lemma_one_filled_option(out, i0, j0);
}

/// At most one option is the first of greatest fill ratio.
pub proof fn lemma_first_max_unique(items: Seq<FillItem>, a: int, b: int)
    requires
        is_first_max(items, a),
        is_first_max(items, b),
    ensures
        a == b,
{
}

/// A rectangle moved by `dx` across and `dy` down.
pub open spec fn moved(c: Coordinate, dx: int, dy: int) -> Coordinate {
    Coordinate { x: (c.x + dx) as i32, y: (c.y + dy) as i32, w: c.w, h: c.h }
}

/// The nine placements tried for a rectangle, in the order of trial: moved
/// across by -1, 0 and 1, and for each of these down by 0, 1 and 2. Each
/// stands with its fill ratio.
pub open spec fn placements(t: &IntegralImage, c: Coordinate) -> Seq<FillItem> {
    Seq::new(
        9,
        |k: int|
            {
                let m = moved(c, k / 3 - 1, k % 3);
                FillItem {
                    fill_rate: Ratio { num: fill_num(t, m) as i64, den: fill_den(m) as i64 },
                    coordinate: m,
                }
            },
    )
}

/// Whether all nine placements of a rectangle lie within the plane.
pub open spec fn placements_in_range(t: &IntegralImage, c: Coordinate) -> bool {
    forall|k: int|
        0 <= k < 9 ==> in_range(t, c.x + (k / 3 - 1), c.y + #[trigger] (k % 3), c.w as int, c.h as int)
}

/// Whether a rectangle lies within the plane once it is moved by shift `k`
/// of the nine shifts by -1, 0 and 1 across and, for each of these, by -1, 0
/// and 1 down.
pub open spec fn shift_fits(t: &IntegralImage, c: Coordinate, k: int) -> bool {
    in_range(t, c.x + (k / 3 - 1), c.y + (k % 3 - 1), c.w as int, c.h as int)
}

/// Whether every rectangle lies within the plane under every shift.
pub open spec fn shifts_in_range(t: &IntegralImage, items: Seq<FillItem>) -> bool {
    forall|k: int, j: int|
        0 <= k < 9 && 0 <= j < items.len() ==> #[trigger] shift_fits(t, items[j].coordinate, k)
}

/// The fill ratios of the rectangles, all moved by shift `k`.
pub open spec fn shifted_rates(t: &IntegralImage, items: Seq<FillItem>, k: int) -> Seq<Ratio> {
    Seq::new(
        items.len(),
        |j: int|
            {
                let m = moved(items[j].coordinate, k / 3 - 1, k % 3 - 1);
                Ratio { num: fill_num(t, m) as i64, den: fill_den(m) as i64 }
            },
    )
}

/// For each of the nine shifts, the inter-class variance of the best split
/// of the fill ratios of the rectangles moved by it.
pub open spec fn shift_variances(t: &IntegralImage, items: Seq<FillItem>) -> Seq<Variance> {
    Seq::new(9, |k: int| spec_otsu_variance(shifted_rates(t, items, k)))
}

/// The fill ratios of the rectangles, all moved by shift `k`. Fails if one
/// of them then lies partly outside the plane.
fn measure_shifted(t: &IntegralImage, items: &Vec<FillItem>, k: usize) -> (r: Result<
    Vec<Ratio>,
    RecError,
>)
    requires
        t.wf(),
        k < 9,
    ensures
        r.is_ok() <==> forall|j: int|
            0 <= j < items@.len() ==> #[trigger] shift_fits(t, items@[j].coordinate, k as int),
        r matches Err(e) ==> e == RecError::SampleOutOfRange,
        r matches Ok(v) ==> v@ == shifted_rates(t, items@, k as int) && all_wf(v@),
{
    let dx: i64 = (k as i64) / 3 - 1;
    let dy: i64 = (k as i64) % 3 - 1;
    let mut rates: Vec<Ratio> = Vec::new();
    let mut j: usize = 0;
    while j < items.len()
        invariant
            j <= items@.len(),
            t.wf(),
            k < 9,
            dx == k as int / 3 - 1,
            dy == k as int % 3 - 1,
            rates@.len() == j,
            all_wf(rates@),
            forall|c: int| 0 <= c < j ==> #[trigger] rates@[c] == shifted_rates(t, items@, k as int)[c],
            forall|c: int| 0 <= c < j ==> #[trigger] shift_fits(t, items@[c].coordinate, k as int),
        decreases items@.len() - j,
    {
        let c: Coordinate = items[j].coordinate;
        let x: i64 = c.x as i64 + dx;
        let y: i64 = c.y as i64 + dy;
        if x < 0 || y < 0 || x > 0x7FFF_FFFF || y > 0x7FFF_FFFF {
            assert(!shift_fits(t, items@[j as int].coordinate, k as int));
            return Err(RecError::SampleOutOfRange);
        }
        let at = Coordinate { x: x as i32, y: y as i32, w: c.w, h: c.h };
        assert(at == moved(c, k as int / 3 - 1, k as int % 3 - 1));
        let rate: Ratio = match calculate_fill_rate(t, &at) {
            Ok(rate) => rate,
            Err(e) => {
                assert(!shift_fits(t, items@[j as int].coordinate, k as int));
                return Err(e);
            },
        };
        rates.push(rate);
        j += 1;
    }
    assert(rates@ =~= shifted_rates(t, items@, k as int));
    Ok(rates)
}

/// Whether a rectangle lies within the plane that the table sums.
pub open spec fn fits(t: &IntegralImage, c: Coordinate) -> bool {
    in_range(t, c.x as int, c.y as int, c.w as int, c.h as int)
}

/// Whether option `l` of item `k` comes before option `j` of item `i` when
/// the options are gone through item by item.
pub open spec fn option_before(k: int, l: int, i: int, j: int) -> bool {
    k < i || (k == i && l < j)
}

/// Whether option `j` of item `i` is the first, item by item and option by
/// option, whose rectangle lies partly outside the plane.
pub open spec fn is_first_outside(t: &IntegralImage, out: &MobileOutput, i: int, j: int) -> bool {
    &&& 0 <= i < out.rec_results@.len()
    &&& 0 <= j < out.rec_results@[i].fill_items@.len()
    &&& !fits(t, out.rec_results@[i].fill_items@[j].coordinate)
    &&& forall|k: int, l: int|
        0 <= k < out.rec_results@.len() && 0 <= l < out.rec_results@[k].fill_items@.len()
            && option_before(k, l, i, j) ==> fits(
            t,
            (#[trigger] out.rec_results@[k].fill_items@[l]).coordinate,
        )
}

/// Whether the options before option `j` of item `i` hold in `after` the
/// fill ratios of their rectangles, and all others the ratios that they
/// hold in `before`.
pub open spec fn measured_before(
    t: &IntegralImage,
    before: &MobileOutput,
    after: &MobileOutput,
    i: int,
    j: int,
) -> bool {
    forall|k: int, l: int|
        0 <= k < before.rec_results@.len() && 0 <= l < before.rec_results@[k].fill_items@.len()
            ==> {
            let item = #[trigger] after.rec_results@[k].fill_items@[l];
            if option_before(k, l, i, j) {
                is_fill_rate(t, item.coordinate, item.fill_rate)
            } else {
                item.fill_rate == before.rec_results@[k].fill_items@[l].fill_rate
            }
        }
}

/// Where measuring stopped at option `j` of item `i`, that option is the
/// first outside the plane, those before it are measured and the others
/// are as they were.
proof fn lemma_stopped_at(
    t: &IntegralImage,
    before: &MobileOutput,
    after: &MobileOutput,
    i: int,
    j: int,
)
    requires
        same_layout(before, after),
        0 <= i < before.rec_results@.len(),
        0 <= j < before.rec_results@[i].fill_items@.len(),
        !fits(t, after.rec_results@[i].fill_items@[j].coordinate),
        forall|k: int| i < k < before.rec_results@.len() ==> #[trigger] after.rec_results@[k]
            == before.rec_results@[k],
        forall|l: int|
            j <= l < before.rec_results@[i].fill_items@.len()
                ==> #[trigger] after.rec_results@[i].fill_items@[l]
                == before.rec_results@[i].fill_items@[l],
        forall|k: int, l: int|
            0 <= k < i && 0 <= l < after.rec_results@[k].fill_items@.len() ==> {
                let item = #[trigger] after.rec_results@[k].fill_items@[l];
                &&& is_fill_rate(t, item.coordinate, item.fill_rate)
                &&& fits(t, item.coordinate)
            },
        forall|l: int|
            0 <= l < j ==> {
                let item = #[trigger] after.rec_results@[i].fill_items@[l];
                &&& is_fill_rate(t, item.coordinate, item.fill_rate)
                &&& fits(t, item.coordinate)
            },
    ensures
        is_first_outside(t, before, i, j),
        measured_before(t, before, after, i, j),
        !all_in_range(t, before),
{
    assert(before.rec_results@[i].rec_tpye == after.rec_results@[i].rec_tpye);
    assert(after.rec_results@[i].fill_items@[j].coordinate
        == before.rec_results@[i].fill_items@[j].coordinate);
    assert forall|k: int, l: int|
        0 <= k < before.rec_results@.len() && 0 <= l < before.rec_results@[k].fill_items@.len()
            && option_before(k, l, i, j) implies fits(
        t,
        (#[trigger] before.rec_results@[k].fill_items@[l]).coordinate,
    ) by {
        assert(before.rec_results@[k].rec_tpye == after.rec_results@[k].rec_tpye);
        let item = after.rec_results@[k].fill_items@[l];
        assert(item.coordinate == before.rec_results@[k].fill_items@[l].coordinate);
        assert(fits(t, item.coordinate));
    }
    assert forall|k: int, l: int|
        0 <= k < before.rec_results@.len() && 0 <= l
            < before.rec_results@[k].fill_items@.len() implies {
        let item = #[trigger] after.rec_results@[k].fill_items@[l];
        if option_before(k, l, i, j) {
            is_fill_rate(t, item.coordinate, item.fill_rate)
        } else {
            item.fill_rate == before.rec_results@[k].fill_items@[l].fill_rate
        }
    } by {
        assert(before.rec_results@[k].rec_tpye == after.rec_results@[k].rec_tpye);
        if !option_before(k, l, i, j) {
            if k > i {
                assert(after.rec_results@[k] == before.rec_results@[k]);
            } else {
                assert(after.rec_results@[i].fill_items@[l] == before.rec_results@[i].fill_items@[l]);
            }
        }
    }
    let c = before.rec_results@[i].fill_items@[j].coordinate;
    assert(!in_range(t, c.x as int, c.y as int, c.w as int, c.h as int));
}

/// Whether every rectangle of the output lies within the plane that the
/// table sums.
pub fn all_fit(integral_image: &IntegralImage, mobile_output: &MobileOutput) -> (r: bool)
    requires
        integral_image.wf(),
    ensures
        r == all_in_range(integral_image, mobile_output),
{
    let rows: i64 = integral_image.rows() as i64;
    let cols: i64 = integral_image.cols() as i64;
    let mut i: usize = 0;
    while i < mobile_output.rec_results.len()
        invariant
            i <= mobile_output.rec_results@.len(),
            integral_image.wf(),
            rows == integral_image.spec_rows(),
            cols == integral_image.spec_cols(),
            forall|k: int, j: int|
                0 <= k < i && 0 <= j < mobile_output.rec_results@[k].fill_items@.len() ==> {
                    let c = (#[trigger] mobile_output.rec_results@[k].fill_items@[j]).coordinate;
                    in_range(integral_image, c.x as int, c.y as int, c.w as int, c.h as int)
                },
        decreases mobile_output.rec_results@.len() - i,
    {
        let items = &mobile_output.rec_results[i].fill_items;
        let mut j: usize = 0;
        while j < items.len()
            invariant
                i < mobile_output.rec_results@.len(),
                j <= items@.len(),
                items@ == mobile_output.rec_results@[i as int].fill_items@,
                integral_image.wf(),
                rows == integral_image.spec_rows(),
                cols == integral_image.spec_cols(),
                forall|l: int|
                    0 <= l < j ==> {
                        let c = (#[trigger] items@[l]).coordinate;
                        in_range(integral_image, c.x as int, c.y as int, c.w as int, c.h as int)
                    },
            decreases items@.len() - j,
        {
            let c: Coordinate = items[j].coordinate;
            if c.x < 0 || c.y < 0 || c.w < 0 || c.h < 0 || c.x as i64 + c.w as i64 > cols - 1
                || c.y as i64 + c.h as i64 > rows - 1 {
                assert(mobile_output.rec_results@[i as int].fill_items@[j as int].coordinate == c);
                return false;
            }
            j += 1;
        }
        i += 1;
    }
    true
}

/// The first option of greatest fill ratio, if that ratio is positive.
pub fn first_max_item(items: &Vec<FillItem>) -> (r: Option<usize>)
    requires
        forall|k: int| 0 <= k < items@.len() ==> (#[trigger] items@[k]).fill_rate.wf(),
    ensures
        r matches Some(m) ==> is_first_max(items@, m as int),
        r.is_none() ==> forall|m: int| !#[trigger] is_first_max(items@, m),
{
    let n: usize = items.len();
    let mut found: bool = false;
    let mut max_index: usize = 0;
    let mut max_rate: Ratio = Ratio { num: 0, den: 1 };
    let mut j: usize = 0;
    while j < n
        invariant
            j <= n,
            n == items@.len(),
            forall|k: int| 0 <= k < items@.len() ==> (#[trigger] items@[k]).fill_rate.wf(),
            !found ==> max_rate == (Ratio { num: 0, den: 1 }) && forall|k: int|
                0 <= k < j ==> (#[trigger] items@[k]).fill_rate.num <= 0,
            found ==> max_index < j && max_rate == items@[max_index as int].fill_rate
                && is_first_max(items@.take(j as int), max_index as int),
        decreases n - j,
    {
        let rate: Ratio = items[j].fill_rate;
        assert(rate.wf());
        if max_rate.lt(&rate) {
            proof {
                let t = items@.take(j + 1);
                assert(rate.num > 0) by (nonlinear_arith)
                    requires
                        max_rate.num * rate.den < rate.num * max_rate.den,
                        max_rate.num >= 0,
                        max_rate.den > 0,
                        rate.den > 0,
                ;
                assert forall|k: int| 0 <= k < j implies (#[trigger] t[k]).fill_rate.spec_lt(
                    &t[j as int].fill_rate,
                ) by {
                    let a = items@[k].fill_rate;
                    assert(a.wf());
                    if found {
                        assert(items@.take(j as int)[k] == items@[k]);
                        assert(items@.take(j as int)[max_index as int] == items@[max_index as int]);
                        if k != max_index {
                            assert(a.spec_le(&max_rate));
                        }
                        lemma_fraction_order(
                            a.num as int,
                            a.den as int,
                            max_rate.num as int,
                            max_rate.den as int,
                            rate.num as int,
                            rate.den as int,
                        );
                    } else {
                        assert(a.num * rate.den < rate.num * a.den) by (nonlinear_arith)
                            requires
                                a.num <= 0,
                                rate.num > 0,
                                a.den > 0,
                                rate.den > 0,
                        ;
                    }
                }
                assert(is_first_max(t, j as int));
            }
            found = true;
            max_index = j;
            max_rate = rate;
        } else {
            proof {
                let t = items@.take(j + 1);
                if found {
                    assert(items@.take(j as int)[max_index as int] == items@[max_index as int]);
                    assert forall|k: int| 0 <= k < max_index implies (#[trigger] t[k]).fill_rate.spec_lt(
                        &t[max_index as int].fill_rate,
                    ) by {
                        assert(items@.take(j as int)[k] == items@[k]);
                    }
                    assert forall|k: int| max_index < k < t.len() implies (#[trigger] t[k]).fill_rate.spec_le(
                        &t[max_index as int].fill_rate,
                    ) by {
                        if k < j {
                            assert(items@.take(j as int)[k] == items@[k]);
                        }
                    }
                    assert(is_first_max(t, max_index as int));
                } else {
                    assert(rate.num <= 0) by (nonlinear_arith)
                        requires
                            !(0 * rate.den < rate.num * 1),
                    ;
                }
            }
        }
        j += 1;
    }
    assert(items@.take(n as int) =~= items@);
    if found {
        Some(max_index)
    } else {
        assert forall|m: int| !#[trigger] is_first_max(items@, m) by {
            if 0 <= m < items@.len() {
                assert(items@[m].fill_rate.num <= 0);
            }
        }
        None
    }
}

/// Decides from the fill ratios of the options which of them are marked.
pub struct RecFillModule;

impl RecFillModule {
    pub fn new() -> (r: RecFillModule) {
        RecFillModule
    }

    /// Measures every option of the output on the binary plane, derives the
    /// classification threshold from the measurements and marks the options
    /// that exceed it.
    ///
    /// Fails, nothing changed, if the plane is empty, or else if a rectangle
    /// lies partly outside it; fails, the options measured and the verdicts
    /// as they were, if there are more options than `MAX_SAMPLES`.
    pub fn infer(&self, process_image: &ProcessedImage, mobile_output: &mut MobileOutput) -> (r:
        Result<(), RecError>)
        requires
            process_image.wf(),
            old(mobile_output).wf(),
        ensures
            final(mobile_output).wf(),
            same_sheet(old(mobile_output), final(mobile_output)),
            r == Err::<(), RecError>(RecError::ImageInvalid) <==> process_image.thresh.spec_width()
                == 0 || process_image.thresh.spec_height() == 0,
            r == Err::<(), RecError>(RecError::SampleOutOfRange) <==> !(
            process_image.thresh.spec_width() == 0 || process_image.thresh.spec_height() == 0)
                && !all_in_plane(&process_image.thresh, old(mobile_output)),
            r == Err::<(), RecError>(RecError::InputMalformed) <==> !(
            process_image.thresh.spec_width() == 0 || process_image.thresh.spec_height() == 0)
                && all_in_plane(&process_image.thresh, old(mobile_output)) && pooled_rates(
                final(mobile_output).rec_results@,
            ).len() > MAX_SAMPLES,
            r matches Err(e) ==> e == RecError::ImageInvalid || e == RecError::SampleOutOfRange
                || e == RecError::InputMalformed,
            r == Err::<(), RecError>(RecError::ImageInvalid) || r == Err::<(), RecError>(
                RecError::SampleOutOfRange,
            ) ==> *final(mobile_output) == *old(mobile_output),
            r == Err::<(), RecError>(RecError::InputMalformed) ==> same_layout(
                old(mobile_output),
                final(mobile_output),
            ) && all_measured_on(&process_image.thresh, final(mobile_output)),
            r.is_ok() ==> all_measured_on(&process_image.thresh, final(mobile_output))
                && all_classified(
                final(mobile_output),
                spec_threshold(final(mobile_output).rec_results@),
            ),
    {
        let table = match integral_image(&process_image.thresh) {
            Ok(t) => t,
            Err(e) => {
                return Err(e);
            },
        };
        let within: bool = all_fit(&table, mobile_output);
        proof {
            assert(all_in_range(&table, old(mobile_output)) <==> all_in_plane(
                &process_image.thresh,
                old(mobile_output),
            )) by {
                if all_in_range(&table, old(mobile_output)) {
                    assert forall|i: int, j: int|
                        0 <= i < old(mobile_output).rec_results@.len() && 0 <= j < old(
                            mobile_output).rec_results@[i].fill_items@.len() implies plane_in_range(
                        &process_image.thresh,
                        (#[trigger] old(mobile_output).rec_results@[i].fill_items@[j]).coordinate,
                    ) by {}
                }
                if all_in_plane(&process_image.thresh, old(mobile_output)) {
                    assert forall|i: int, j: int|
                        0 <= i < old(mobile_output).rec_results@.len() && 0 <= j < old(
                            mobile_output).rec_results@[i].fill_items@.len() implies {
                        let c = (#[trigger] old(
                            mobile_output).rec_results@[i].fill_items@[j]).coordinate;
                        in_range(&table, c.x as int, c.y as int, c.w as int, c.h as int)
                    } by {}
                }
            }
        }
        if !within {
            return Err(RecError::SampleOutOfRange);
        }
        if let Err(e) = self.calculate_all_fill_rate(&table, mobile_output) {
            return Err(e);
        }
        let ghost after = *mobile_output;
        proof {
            assert forall|i: int, j: int|
                0 <= i < after.rec_results@.len() && 0 <= j
                    < after.rec_results@[i].fill_items@.len() implies {
                let item = #[trigger] after.rec_results@[i].fill_items@[j];
                &&& item.fill_rate.num == plane_fill_num(&process_image.thresh, item.coordinate)
                &&& item.fill_rate.den == fill_den(item.coordinate)
            } by {
                let item = after.rec_results@[i].fill_items@[j];
                let c = item.coordinate;
                assert(c == old(mobile_output).rec_results@[i].fill_items@[j].coordinate);
                assert(in_range(&table, c.x as int, c.y as int, c.w as int, c.h as int));
                if c.w != 0 && c.h != 0 {
                    table.lemma_region_sum(c.x as int, c.y as int, c.x + c.w, c.y + c.h);
                }
            }
        }
        let thresh = match self.threshold(mobile_output) {
            Ok(t) => t,
            Err(e) => {
                return Err(e);
            },
        };
        let _ = self.set_default_fill(mobile_output, &thresh);
        proof {
            assert forall|i: int| 0 <= i < after.rec_results@.len() implies (
            #[trigger] mobile_output.rec_results@[i]).fill_items@
                == after.rec_results@[i].fill_items@ by {}
            lemma_pooled_same(after.rec_results@, mobile_output.rec_results@);
        }
        Ok(())
    }

    /// The classification threshold that belongs to the fill ratios of the
    /// output, unless there are more of them than `MAX_SAMPLES`.
    pub fn threshold(&self, mobile_output: &MobileOutput) -> (r: Result<Ratio, RecError>)
        requires
            mobile_output.wf(),
        ensures
            r.is_ok() <==> pooled_rates(mobile_output.rec_results@).len() <= MAX_SAMPLES,
            r matches Err(e) ==> e == RecError::InputMalformed,
            r matches Ok(t) ==> t == spec_threshold(mobile_output.rec_results@)
                && FillConfig::FILL_RATE_MIN_PERCENT <= t.num <= 100 && t.den == 100,
    {
        let mut pool: Vec<Ratio> = Vec::new();
        let n: usize = mobile_output.rec_results.len();
        let mut i: usize = 0;
        while i < n
            invariant
                i <= n,
                n == mobile_output.rec_results@.len(),
                mobile_output.wf(),
                pool@ == pooled_rates(mobile_output.rec_results@.take(i as int)),
                pool@.len() <= MAX_SAMPLES,
                all_wf(pool@),
            decreases n - i,
        {
            let ghost items = mobile_output.rec_results@[i as int].fill_items@;
            let ghost before = pool@;
            let m: usize = mobile_output.rec_results[i].fill_items.len();
            let mut j: usize = 0;
            while j < m
                invariant
                    i < n,
                    j <= m,
                    n == mobile_output.rec_results@.len(),
                    mobile_output.wf(),
                    items == mobile_output.rec_results@[i as int].fill_items@,
                    m == items.len(),
                    before == pooled_rates(mobile_output.rec_results@.take(i as int)),
                    pool@ == before + rates_of(items).take(j as int),
                    pool@.len() <= MAX_SAMPLES,
                    all_wf(pool@),
                decreases m - j,
            {
                if pool.len() >= MAX_SAMPLES {
                    proof {
                        lemma_pooled_take(mobile_output.rec_results@, i as int);
                        lemma_pooled_len_monotone(mobile_output.rec_results@, i + 1);
                    }
                    return Err(RecError::InputMalformed);
                }
                let rate: Ratio = mobile_output.rec_results[i].fill_items[j].fill_rate;
                pool.push(rate);
                proof {
                    assert(rates_of(items).take(j + 1) =~= rates_of(items).take(j as int).push(
                        rate,
                    ));
                    assert(pool@ =~= before + rates_of(items).take(j + 1));
                }
                j += 1;
            }
            proof {
                assert(rates_of(items).take(m as int) =~= rates_of(items));
                lemma_pooled_take(mobile_output.rec_results@, i as int);
            }
            i += 1;
        }
        assert(mobile_output.rec_results@.take(n as int) =~= mobile_output.rec_results@);
        let (split, _) = otsu_threshold(&pool);
        let floor: i64 = FillConfig::FILL_RATE_MIN_PERCENT;
        let num: i128 = split.num as i128;
        let den: i128 = split.den as i128;
        if 100 * num <= (floor as i128) * den {
            Ok(Ratio { num: floor, den: 100 })
        } else {
            proof {
                assert(50 <= (200 * num + den) / (2 * den) <= 100) by (nonlinear_arith)
                    requires
                        0 <= num <= den,
                        den > 0,
                        100 * num > 50 * den,
                ;
            }
            let percent: i128 = (200 * num + den) / (2 * den);
            Ok(Ratio { num: percent as i64, den: 100 })
        }
    }

    /// Marks every option whose fill ratio exceeds the threshold and clears
    /// every other, whatever the type of its item.
    pub fn set_default_fill(&self, mobile_output: &mut MobileOutput, thresh: &Ratio) -> (r: Result<
        (),
        RecError,
    >)
        requires
            old(mobile_output).wf(),
        ensures
            r.is_ok(),
            final(mobile_output).wf(),
            same_measurements(old(mobile_output), final(mobile_output)),
            forall|i: int, j: int|
                0 <= i < old(mobile_output).rec_results@.len() && 0 <= j < old(mobile_output).rec_results@[i].fill_items@.len() ==> #[trigger] final(mobile_output).rec_results@[i].rec_result@[j] == exceeds(
                    old(mobile_output).rec_results@[i].fill_items@[j].fill_rate,
                    *thresh,
                ),
    {
        let n: usize = mobile_output.rec_results.len();
        let mut i: usize = 0;
        while i < n
            invariant
                i <= n,
                n == old(mobile_output).rec_results@.len(),
                old(mobile_output).wf(),
                mobile_output.wf(),
                same_measurements(old(mobile_output), mobile_output),
                forall|k: int|
                    i <= k < n ==> #[trigger] mobile_output.rec_results@[k] == old(mobile_output).rec_results@[k],
                forall|k: int, j: int|
                    0 <= k < i && 0 <= j < old(mobile_output).rec_results@[k].fill_items@.len()
                        ==> #[trigger] mobile_output.rec_results@[k].rec_result@[j] == exceeds(
                        old(mobile_output).rec_results@[k].fill_items@[j].fill_rate,
                        *thresh,
                    ),
            decreases n - i,
        {
            let m: usize = mobile_output.rec_results[i].fill_items.len();
            let mut j: usize = 0;
            while j < m
                invariant
                    i < n,
                    j <= m,
                    n == old(mobile_output).rec_results@.len(),
                    m == old(mobile_output).rec_results@[i as int].fill_items@.len(),
                    old(mobile_output).wf(),
                    mobile_output.wf(),
                    same_measurements(old(mobile_output), mobile_output),
                    forall|k: int|
                        i < k < n ==> #[trigger] mobile_output.rec_results@[k] == old(mobile_output).rec_results@[k],
                    forall|k: int, l: int|
                        0 <= k < i && 0 <= l < old(mobile_output).rec_results@[k].fill_items@.len()
                            ==> #[trigger] mobile_output.rec_results@[k].rec_result@[l]
                            == exceeds(
                            old(mobile_output).rec_results@[k].fill_items@[l].fill_rate,
                            *thresh,
                        ),
                    forall|l: int|
                        0 <= l < j ==> #[trigger] mobile_output.rec_results@[i as int].rec_result@[l]
                            == exceeds(
                            old(mobile_output).rec_results@[i as int].fill_items@[l].fill_rate,
                            *thresh,
                        ),
                decreases m - j,
            {
                let rate: Ratio = mobile_output.rec_results[i].fill_items[j].fill_rate;
                let marked: bool = thresh.lt(&rate);
                mobile_output.rec_results[i].rec_result[j] = marked;
                j += 1;
            }
            i += 1;
        }
        Ok(())
    }

    /// In every item of multiple choice, marks the options whose fill ratio
    /// exceeds the threshold and clears the others. Other items are left as
    /// they are.
    pub fn set_multi_fill(&self, mobile_output: &mut MobileOutput, thresh: &Ratio) -> (r: Result<
        (),
        RecError,
    >)
        requires
            old(mobile_output).wf(),
        ensures
            r.is_ok(),
            final(mobile_output).wf(),
            same_measurements(old(mobile_output), final(mobile_output)),
            forall|i: int|
                0 <= i < old(mobile_output).rec_results@.len() && old(
                    mobile_output).rec_results@[i].rec_tpye != RecType::MultipleChoice
                    ==> #[trigger] final(mobile_output).rec_results@[i] == old(
                    mobile_output).rec_results@[i],
            forall|i: int, j: int|
                0 <= i < old(mobile_output).rec_results@.len() && old(
                    mobile_output).rec_results@[i].rec_tpye == RecType::MultipleChoice && 0 <= j
                    < old(mobile_output).rec_results@[i].fill_items@.len() ==> #[trigger] final(
                    mobile_output).rec_results@[i].rec_result@[j] == exceeds(
                    old(mobile_output).rec_results@[i].fill_items@[j].fill_rate,
                    *thresh,
                ),
    {
        let n: usize = mobile_output.rec_results.len();
        let mut i: usize = 0;
        while i < n
            invariant
                i <= n,
                n == old(mobile_output).rec_results@.len(),
                old(mobile_output).wf(),
                mobile_output.wf(),
                same_measurements(old(mobile_output), mobile_output),
                forall|k: int|
                    i <= k < n ==> #[trigger] mobile_output.rec_results@[k] == old(
                        mobile_output).rec_results@[k],
                forall|k: int|
                    0 <= k < i && old(mobile_output).rec_results@[k].rec_tpye
                        != RecType::MultipleChoice ==> #[trigger] mobile_output.rec_results@[k]
                        == old(mobile_output).rec_results@[k],
                forall|k: int, j: int|
                    0 <= k < i && old(mobile_output).rec_results@[k].rec_tpye
                        == RecType::MultipleChoice && 0 <= j < old(
                        mobile_output).rec_results@[k].fill_items@.len()
                        ==> #[trigger] mobile_output.rec_results@[k].rec_result@[j] == exceeds(
                        old(mobile_output).rec_results@[k].fill_items@[j].fill_rate,
                        *thresh,
                    ),
            decreases n - i,
        {
            if mobile_output.rec_results[i].rec_tpye == RecType::MultipleChoice {
                let m: usize = mobile_output.rec_results[i].fill_items.len();
                let mut j: usize = 0;
                while j < m
                    invariant
                        i < n,
                        j <= m,
                        n == old(mobile_output).rec_results@.len(),
                        m == old(mobile_output).rec_results@[i as int].fill_items@.len(),
                        old(mobile_output).rec_results@[i as int].rec_tpye
                            == RecType::MultipleChoice,
                        old(mobile_output).wf(),
                        mobile_output.wf(),
                        same_measurements(old(mobile_output), mobile_output),
                        forall|k: int|
                            i < k < n ==> #[trigger] mobile_output.rec_results@[k] == old(
                                mobile_output).rec_results@[k],
                        forall|k: int|
                            0 <= k < i && old(mobile_output).rec_results@[k].rec_tpye
                                != RecType::MultipleChoice
                                ==> #[trigger] mobile_output.rec_results@[k] == old(
                                mobile_output).rec_results@[k],
                        forall|k: int, l: int|
                            0 <= k < i && old(mobile_output).rec_results@[k].rec_tpye
                                == RecType::MultipleChoice && 0 <= l < old(
                                mobile_output).rec_results@[k].fill_items@.len()
                                ==> #[trigger] mobile_output.rec_results@[k].rec_result@[l]
                                == exceeds(
                                old(mobile_output).rec_results@[k].fill_items@[l].fill_rate,
                                *thresh,
                            ),
                        forall|l: int|
                            0 <= l < j
                                ==> #[trigger] mobile_output.rec_results@[i as int].rec_result@[l]
                                == exceeds(
                                old(mobile_output).rec_results@[i as int].fill_items@[l].fill_rate,
                                *thresh,
                            ),
                    decreases m - j,
                {
                    let rate: Ratio = mobile_output.rec_results[i].fill_items[j].fill_rate;
                    let marked: bool = thresh.lt(&rate);
                    mobile_output.rec_results[i].rec_result[j] = marked;
                    j += 1;
                }
            }
            i += 1;
        }
        Ok(())
    }

    /// In every item of single choice, marks the first option of greatest
    /// fill ratio if that ratio is positive and exceeds the threshold. All
    /// other verdicts are left as they are.
    pub fn set_single_fill(&self, mobile_output: &mut MobileOutput, thresh: &Ratio) -> (r: Result<
        (),
        RecError,
    >)
        requires
            old(mobile_output).wf(),
        ensures
            r.is_ok(),
            final(mobile_output).wf(),
            same_measurements(old(mobile_output), final(mobile_output)),
            forall|i: int|
                0 <= i < old(mobile_output).rec_results@.len() && old(
                    mobile_output).rec_results@[i].rec_tpye != RecType::SingleChoice
                    ==> #[trigger] final(mobile_output).rec_results@[i] == old(
                    mobile_output).rec_results@[i],
            forall|i: int, m: int|
                0 <= i < old(mobile_output).rec_results@.len() && old(
                    mobile_output).rec_results@[i].rec_tpye == RecType::SingleChoice
                    && #[trigger] is_first_max(old(mobile_output).rec_results@[i].fill_items@, m)
                    && exceeds(
                    old(mobile_output).rec_results@[i].fill_items@[m].fill_rate,
                    *thresh,
                ) ==> final(mobile_output).rec_results@[i].rec_result@ == old(
                    mobile_output).rec_results@[i].rec_result@.update(m, true),
            forall|i: int|
                0 <= i < old(mobile_output).rec_results@.len() && (forall|m: int|
                    !(#[trigger] is_first_max(old(mobile_output).rec_results@[i].fill_items@, m)
                        && exceeds(
                        old(mobile_output).rec_results@[i].fill_items@[m].fill_rate,
                        *thresh,
                    ))) ==> (#[trigger] final(mobile_output).rec_results@[i]).rec_result@ == old(
                    mobile_output).rec_results@[i].rec_result@,
    {
        let n: usize = mobile_output.rec_results.len();
        let mut i: usize = 0;
        while i < n
            invariant
                i <= n,
                n == old(mobile_output).rec_results@.len(),
                old(mobile_output).wf(),
                mobile_output.wf(),
                same_measurements(old(mobile_output), mobile_output),
                forall|k: int|
                    i <= k < n ==> #[trigger] mobile_output.rec_results@[k] == old(
                        mobile_output).rec_results@[k],
                forall|k: int|
                    0 <= k < i && old(mobile_output).rec_results@[k].rec_tpye
                        != RecType::SingleChoice ==> #[trigger] mobile_output.rec_results@[k]
                        == old(mobile_output).rec_results@[k],
                forall|k: int, m: int|
                    0 <= k < i && old(mobile_output).rec_results@[k].rec_tpye
                        == RecType::SingleChoice && #[trigger] is_first_max(
                        old(mobile_output).rec_results@[k].fill_items@,
                        m,
                    ) && exceeds(
                        old(mobile_output).rec_results@[k].fill_items@[m].fill_rate,
                        *thresh,
                    ) ==> mobile_output.rec_results@[k].rec_result@ == old(
                        mobile_output).rec_results@[k].rec_result@.update(m, true),
                forall|k: int|
                    0 <= k < i && (forall|m: int|
                        !(#[trigger] is_first_max(
                            old(mobile_output).rec_results@[k].fill_items@,
                            m,
                        ) && exceeds(
                            old(mobile_output).rec_results@[k].fill_items@[m].fill_rate,
                            *thresh,
                        ))) ==> (#[trigger] mobile_output.rec_results@[k]).rec_result@ == old(
                        mobile_output).rec_results@[k].rec_result@,
            decreases n - i,
        {
            if mobile_output.rec_results[i].rec_tpye == RecType::SingleChoice {
                let ghost items = mobile_output.rec_results@[i as int].fill_items@;
                let best: Option<usize> = first_max_item(&mobile_output.rec_results[i].fill_items);
                if let Some(m) = best {
                    let rate: Ratio = mobile_output.rec_results[i].fill_items[m].fill_rate;
                    if thresh.lt(&rate) {
                        mobile_output.rec_results[i].rec_result[m] = true;
                    }
                    proof {
                        assert forall|m2: int| #[trigger] is_first_max(items, m2) implies m2 == m by {
                            lemma_first_max_unique(items, m2, m as int);
                        }
                    }
                }
                proof {
                    assert(old(mobile_output).rec_results@[i as int].fill_items@ == items);
                }
            }
            i += 1;
        }
        Ok(())
    }

    /// Moves a rectangle to the first of its nine placements that has the
    /// greatest fill ratio, and gives that ratio. Where no placement has a
    /// positive fill ratio the rectangle stays and the ratio is zero. Fails,
    /// the rectangle unchanged, if a placement lies partly outside the plane.
    pub fn _calculate_max_fill_rate(
        &self,
        integral_image: &IntegralImage,
        coordinate: &mut Coordinate,
    ) -> (r: Result<Ratio, RecError>)
        requires
            integral_image.wf(),
        ensures
            r.is_ok() <==> placements_in_range(integral_image, *old(coordinate)),
            r matches Err(e) ==> e == RecError::SampleOutOfRange && *final(coordinate) == *old(
                coordinate),
            r matches Ok(rate) ==> ({
                let p = placements(integral_image, *old(coordinate));
                &&& forall|m: int| #[trigger]
                    is_first_max(p, m) ==> *final(coordinate) == p[m].coordinate && rate
                        == p[m].fill_rate
                &&& (forall|m: int| !#[trigger] is_first_max(p, m)) ==> *final(coordinate) == *old(
                    coordinate) && rate == (Ratio { num: 0, den: 1 })
            }),
    {
        let start: Coordinate = *coordinate;
        let mut tried: Vec<FillItem> = Vec::new();
        let mut k: usize = 0;
        while k < 9
            invariant
                k <= 9,
                integral_image.wf(),
                start == *old(coordinate),
                *coordinate == start,
                tried@.len() == k,
                forall|c: int| 0 <= c < k ==> #[trigger] tried@[c] == placements(
                    integral_image,
                    start,
                )[c],
                forall|c: int| 0 <= c < k ==> (#[trigger] tried@[c]).fill_rate.wf(),
                forall|c: int|
                    0 <= c < k ==> in_range(
                        integral_image,
                        start.x + (c / 3 - 1),
                        start.y + #[trigger] (c % 3),
                        start.w as int,
                        start.h as int,
                    ),
            decreases 9 - k,
        {
            let x: i64 = start.x as i64 + (k as i64) / 3 - 1;
            let y: i64 = start.y as i64 + (k as i64) % 3;
            if x < 0 || y < 0 || x > 0x7FFF_FFFF || y > 0x7FFF_FFFF {
                proof {
                    let kk = k as int;
                    assert(!in_range(
                        integral_image,
                        start.x + (kk / 3 - 1),
                        start.y + (kk % 3),
                        start.w as int,
                        start.h as int,
                    ));
                }
                return Err(RecError::SampleOutOfRange);
            }
            let at = Coordinate { x: x as i32, y: y as i32, w: start.w, h: start.h };
            assert(at == moved(start, k as int / 3 - 1, k as int % 3));
            let rate: Ratio = match calculate_fill_rate(integral_image, &at) {
                Ok(rate) => rate,
                Err(e) => {
                    proof {
                        let kk = k as int;
                        assert(!in_range(
                            integral_image,
                            start.x + (kk / 3 - 1),
                            start.y + (kk % 3),
                            start.w as int,
                            start.h as int,
                        ));
                    }
                    return Err(e);
                },
            };
            tried.push(FillItem { fill_rate: rate, coordinate: at });
            k += 1;
        }
        assert(tried@ =~= placements(integral_image, start));
        match first_max_item(&tried) {
            Some(m) => {
                proof {
                    assert forall|m2: int| #[trigger] is_first_max(tried@, m2) implies m2 == m by {
                        lemma_first_max_unique(tried@, m2, m as int);
                    }
                }
                *coordinate = tried[m].coordinate;
                Ok(tried[m].fill_rate)
            },
            None => Ok(Ratio { num: 0, den: 1 }),
        }
    }

    /// Moves all rectangles of an item by one shift: the first of the nine
    /// shifts for which the best split of the fill ratios has the greatest
    /// inter-class variance. Where no shift gives a positive variance the
    /// rectangles stay. The fill ratios on record are left as they are.
    /// Fails, nothing changed, if a rectangle lies partly outside the plane
    /// under one of the shifts.
    pub fn _fix_fill_coordinates_with_otsu(
        &self,
        integral_image: &IntegralImage,
        fill_items: &mut Vec<FillItem>,
    ) -> (r: Result<(), RecError>)
        requires
            integral_image.wf(),
            old(fill_items)@.len() <= MAX_SAMPLES,
        ensures
            r.is_ok() <==> shifts_in_range(integral_image, old(fill_items)@),
            r matches Err(e) ==> e == RecError::SampleOutOfRange && final(fill_items)@ == old(
                fill_items)@,
            final(fill_items)@.len() == old(fill_items)@.len(),
            forall|j: int|
                0 <= j < old(fill_items)@.len() ==> (#[trigger] final(fill_items)@[j]).fill_rate
                    == old(fill_items)@[j].fill_rate,
            r.is_ok() ==> ({
                let vars = shift_variances(integral_image, old(fill_items)@);
                &&& forall|m: int, j: int| #[trigger]
                    is_first_best_variance(vars, m) && 0 <= j < old(fill_items)@.len() ==> (
                    #[trigger] final(fill_items)@[j]).coordinate == moved(
                        old(fill_items)@[j].coordinate,
                        m / 3 - 1,
                        m % 3 - 1,
                    )
                &&& (forall|m: int| !#[trigger] is_first_best_variance(vars, m)) ==> final(
                    fill_items)@ == old(fill_items)@
            }),
    {
        let mut variances: Vec<Variance> = Vec::new();
        let mut k: usize = 0;
        while k < 9
            invariant
                k <= 9,
                integral_image.wf(),
                fill_items@ == old(fill_items)@,
                fill_items@.len() <= MAX_SAMPLES,
                variances@.len() == k,
                forall|c: int|
                    0 <= c < k ==> #[trigger] variances@[c] == shift_variances(
                        integral_image,
                        fill_items@,
                    )[c],
                forall|c: int|
                    0 <= c < k ==> (#[trigger] variances@[c]).num <= MAX_VARIANCE_NUM && 0
                        < variances@[c].den <= MAX_VARIANCE_DEN,
                forall|c: int, j: int|
                    0 <= c < k && 0 <= j < fill_items@.len() ==> #[trigger] shift_fits(
                        integral_image,
                        fill_items@[j].coordinate,
                        c,
                    ),
            decreases 9 - k,
        {
            let rates: Vec<Ratio> = match measure_shifted(integral_image, fill_items, k) {
                Ok(rates) => rates,
                Err(e) => {
                    return Err(e);
                },
            };
            let (_, variance) = otsu_threshold(&rates);
            variances.push(variance);
            k += 1;
        }
        assert(variances@ =~= shift_variances(integral_image, fill_items@));
        if let Some(m) = first_best_variance(&variances) {
            proof {
                assert forall|m2: int| #[trigger] is_first_best_variance(variances@, m2) implies m2
                    == m by {
                    lemma_first_best_variance_unique(variances@, m2, m as int);
                }
            }
            let dx: i32 = (m as i32) / 3 - 1;
            let dy: i32 = (m as i32) % 3 - 1;
            let n: usize = fill_items.len();
            let mut j: usize = 0;
            while j < n
                invariant
                    j <= n,
                    m < 9,
                    dx == m as int / 3 - 1,
                    dy == m as int % 3 - 1,
                    integral_image.wf(),
                    n == old(fill_items)@.len(),
                    fill_items@.len() == n,
                    forall|c: int|
                        0 <= c < n ==> #[trigger] shift_fits(
                            integral_image,
                            old(fill_items)@[c].coordinate,
                            m as int,
                        ),
                    forall|c: int|
                        0 <= c < n ==> (#[trigger] fill_items@[c]).fill_rate == old(
                            fill_items)@[c].fill_rate,
                    forall|c: int|
                        0 <= c < j ==> (#[trigger] fill_items@[c]).coordinate == moved(
                            old(fill_items)@[c].coordinate,
                            m as int / 3 - 1,
                            m as int % 3 - 1,
                        ),
                    forall|c: int| j <= c < n ==> #[trigger] fill_items@[c] == old(fill_items)@[c],
                decreases n - j,
            {
                let c: Coordinate = fill_items[j].coordinate;
                assert(shift_fits(integral_image, old(fill_items)@[j as int].coordinate, m as int));
                fill_items[j].coordinate = Coordinate { x: c.x + dx, y: c.y + dy, w: c.w, h: c.h };
                j += 1;
            }
        }
        Ok(())
    }

    /// Measures the fill ratio of every rectangle of the output, item by
    /// item and option by option. Fails at the first rectangle that lies
    /// partly outside the plane: the options before it are measured then,
    /// and the others are as they were.
    pub fn calculate_all_fill_rate(
        &self,
        integral_image: &IntegralImage,
        mobile_output: &mut MobileOutput,
    ) -> (r: Result<(), RecError>)
        requires
            integral_image.wf(),
            old(mobile_output).wf(),
        ensures
            final(mobile_output).wf(),
            same_layout(old(mobile_output), final(mobile_output)),
            r.is_ok() <==> all_in_range(integral_image, old(mobile_output)),
            r matches Err(e) ==> e == RecError::SampleOutOfRange,
            r.is_ok() ==> all_measured(integral_image, final(mobile_output)),
            r.is_err() ==> exists|i: int, j: int| #[trigger]
                is_first_outside(integral_image, old(mobile_output), i, j) && measured_before(
                    integral_image,
                    old(mobile_output),
                    final(mobile_output),
                    i,
                    j,
                ),
    {
        let n: usize = mobile_output.rec_results.len();
        let mut i: usize = 0;
        while i < n
            invariant
                i <= n,
                n == old(mobile_output).rec_results@.len(),
                integral_image.wf(),
                old(mobile_output).wf(),
                mobile_output.wf(),
                same_layout(old(mobile_output), mobile_output),
                forall|k: int|
                    i <= k < n ==> #[trigger] mobile_output.rec_results@[k] == old(
                        mobile_output).rec_results@[k],
                forall|k: int, j: int|
                    0 <= k < i && 0 <= j < mobile_output.rec_results@[k].fill_items@.len() ==> {
                        let item = #[trigger] mobile_output.rec_results@[k].fill_items@[j];
                        &&& is_fill_rate(integral_image, item.coordinate, item.fill_rate)
                        &&& fits(integral_image, item.coordinate)
                    },
            decreases n - i,
        {
            let m: usize = mobile_output.rec_results[i].fill_items.len();
            let mut j: usize = 0;
            while j < m
                invariant
                    i < n,
                    j <= m,
                    n == old(mobile_output).rec_results@.len(),
                    m == old(mobile_output).rec_results@[i as int].fill_items@.len(),
                    integral_image.wf(),
                    old(mobile_output).wf(),
                    mobile_output.wf(),
                    same_layout(old(mobile_output), mobile_output),
                    forall|k: int|
                        i < k < n ==> #[trigger] mobile_output.rec_results@[k] == old(
                            mobile_output).rec_results@[k],
                    forall|l: int|
                        j <= l < m ==> #[trigger] mobile_output.rec_results@[i as int].fill_items@[l]
                            == old(mobile_output).rec_results@[i as int].fill_items@[l],
                    forall|k: int, l: int|
                        0 <= k < i && 0 <= l < mobile_output.rec_results@[k].fill_items@.len()
                            ==> {
                            let item = #[trigger] mobile_output.rec_results@[k].fill_items@[l];
                            &&& is_fill_rate(integral_image, item.coordinate, item.fill_rate)
                            &&& fits(integral_image, item.coordinate)
                        },
                    forall|l: int|
                        0 <= l < j ==> {
                            let item = #[trigger] mobile_output.rec_results@[i as int].fill_items@[l];
                            &&& is_fill_rate(integral_image, item.coordinate, item.fill_rate)
                            &&& fits(integral_image, item.coordinate)
                        },
                decreases m - j,
            {
                let coordinate: Coordinate = mobile_output.rec_results[i].fill_items[j].coordinate;
                match calculate_fill_rate(integral_image, &coordinate) {
                    Ok(rate) => {
                        mobile_output.rec_results[i].fill_items[j].fill_rate = rate;
                    },
                    Err(e) => {
                        proof {
                            lemma_stopped_at(
                                integral_image,
                                old(mobile_output),
                                mobile_output,
                                i as int,
                                j as int,
                            );
                        }
                        return Err(e);
                    },
                }
                j += 1;
            }
            i += 1;
        }
        assert forall|i: int, j: int|
            0 <= i < old(mobile_output).rec_results@.len() && 0 <= j < old(
                mobile_output).rec_results@[i].fill_items@.len() implies {
            let c = (#[trigger] old(mobile_output).rec_results@[i].fill_items@[j]).coordinate;
            in_range(integral_image, c.x as int, c.y as int, c.w as int, c.h as int)
        } by {
            let item = mobile_output.rec_results@[i].fill_items@[j];
            assert(item.coordinate == old(mobile_output).rec_results@[i].fill_items@[j].coordinate);
        }
        Ok(())
    }
}

} // verus!
