use answer_sheet::models::{
    AssistLocation, Coordinate, FillItem, Mark, MobileOutput, ProcessedImage, RecError, RecItem,
    RecResult, RecType,
};
use answer_sheet::myutils::image::{integral_image, IntegralImage, Plane};
use answer_sheet::myutils::math::Ratio;
use answer_sheet::recognize::fill::{all_fit, calculate_fill_rate, first_max_item, RecFillModule};

fn ratio(num: i64, den: i64) -> Ratio {
    Ratio { num, den }
}

fn rect(x: i32, y: i32, w: i32, h: i32) -> Coordinate {
    Coordinate { x, y, w, h }
}

fn plane_of(width: usize, height: usize, value: u8) -> Plane {
    Plane::new(width, height, vec![value; width * height]).unwrap()
}

/// A dark plane on which the given rectangles are bright.
fn plane_with(width: usize, height: usize, bright: &[Coordinate]) -> Plane {
    let mut data = vec![0u8; width * height];
    for c in bright {
        for row in c.y..c.y + c.h {
            for col in c.x..c.x + c.w {
                data[row as usize * width + col as usize] = 255;
            }
        }
    }
    Plane::new(width, height, data).unwrap()
}

fn table_of(plane: &Plane) -> IntegralImage {
    integral_image(plane).unwrap()
}

fn same_planes(plane: Plane) -> ProcessedImage {
    ProcessedImage::new(plane.clone(), plane.clone(), plane).unwrap()
}

fn item(rec_type: RecType, rates: &[Ratio]) -> RecResult {
    RecResult {
        rec_result: vec![false; rates.len()],
        fill_items: rates
            .iter()
            .map(|r| FillItem { fill_rate: *r, coordinate: rect(0, 0, 1, 1) })
            .collect(),
        rec_tpye: rec_type,
    }
}

fn output_of(results: Vec<RecResult>) -> MobileOutput {
    MobileOutput { code: 0, message: String::from("success"), rec_results: results }
}

fn mark_of(items: Vec<RecItem>) -> Mark {
    Mark {
        boundary: rect(0, 0, 100, 60),
        rec_items: items,
        assist_location: AssistLocation { left: vec![], right: vec![] },
    }
}

#[test]
fn fill_rate_of_foreground_is_one() {
    let table = table_of(&plane_of(12, 9, 255));
    for c in [rect(0, 0, 12, 9), rect(3, 2, 5, 4), rect(11, 8, 1, 1), rect(0, 4, 12, 1)] {
        let rate = calculate_fill_rate(&table, &c).unwrap();
        assert_eq!(rate.num, rate.den);
        assert_eq!(rate.den, 255 * (c.w as i64) * (c.h as i64));
    }
}

#[test]
fn fill_rate_of_background_is_zero() {
    let table = table_of(&plane_of(12, 9, 0));
    for c in [rect(0, 0, 12, 9), rect(3, 2, 5, 4), rect(11, 8, 1, 1)] {
        let rate = calculate_fill_rate(&table, &c).unwrap();
        assert_eq!(rate.num, 0);
        assert_eq!(rate.den, 255 * (c.w as i64) * (c.h as i64));
    }
}

#[test]
fn fill_rate_is_the_share_of_foreground() {
    let plane = plane_with(20, 10, &[rect(4, 2, 3, 2)]);
    let table = table_of(&plane);
    // Six bright pixels of twenty.
    assert_eq!(calculate_fill_rate(&table, &rect(3, 1, 5, 4)).unwrap(), ratio(6 * 255, 20 * 255));
    // Two bright pixels of four.
    assert_eq!(calculate_fill_rate(&table, &rect(6, 3, 2, 2)).unwrap(), ratio(255, 4 * 255));
    assert_eq!(calculate_fill_rate(&table, &rect(6, 2, 2, 2)).unwrap(), ratio(2 * 255, 4 * 255));
}

#[test]
fn fill_rate_counts_grey_levels_by_their_value() {
    let plane = Plane::new(2, 2, vec![255, 128, 0, 127]).unwrap();
    let table = table_of(&plane);
    assert_eq!(calculate_fill_rate(&table, &rect(0, 0, 2, 2)).unwrap(), ratio(510, 4 * 255));
}

#[test]
fn fill_rate_of_a_rectangle_without_area_is_zero() {
    let table = table_of(&plane_of(12, 9, 255));
    assert_eq!(calculate_fill_rate(&table, &rect(3, 2, 0, 4)).unwrap(), ratio(0, 1));
    assert_eq!(calculate_fill_rate(&table, &rect(3, 2, 5, 0)).unwrap(), ratio(0, 1));
    assert_eq!(calculate_fill_rate(&table, &rect(12, 9, 0, 0)).unwrap(), ratio(0, 1));
}

#[test]
fn fill_rate_outside_the_plane_fails() {
    let table = table_of(&plane_of(12, 9, 255));
    for c in [
        rect(-1, 0, 3, 3),
        rect(0, -1, 3, 3),
        rect(10, 0, 3, 3),
        rect(0, 7, 3, 3),
        rect(0, 0, 13, 9),
        rect(0, 0, 12, 10),
        rect(2, 2, -1, 3),
        rect(2, 2, 3, -1),
        rect(i32::MAX, 0, 1, 1),
        rect(0, 0, i32::MAX, i32::MAX),
        rect(i32::MAX, i32::MAX, i32::MAX, i32::MAX),
    ] {
        assert_eq!(calculate_fill_rate(&table, &c).err(), Some(RecError::SampleOutOfRange));
    }
}

#[test]
fn fill_rate_at_the_edge_of_the_plane_is_measured() {
    let table = table_of(&plane_of(12, 9, 255));
    assert_eq!(calculate_fill_rate(&table, &rect(9, 6, 3, 3)).unwrap(), ratio(9 * 255, 9 * 255));
}

#[test]
fn new_output_is_blank() {
    let mark = mark_of(vec![
        RecItem { rec_type: RecType::SingleChoice, sub_options: vec![rect(1, 2, 3, 4), rect(5, 6, 7, 8)] },
        RecItem { rec_type: RecType::MultipleChoice, sub_options: vec![] },
        RecItem { rec_type: RecType::MultipleChoice, sub_options: vec![rect(9, 9, 2, 2)] },
    ]);
    let out = MobileOutput::new(&mark);
    assert_eq!(out.code, 0);
    assert_eq!(out.message, "success");
    assert_eq!(out.rec_results.len(), 3);
    assert_eq!(out.rec_results[0].rec_tpye, RecType::SingleChoice);
    assert_eq!(out.rec_results[0].rec_result, vec![false, false]);
    assert_eq!(
        out.rec_results[0].fill_items,
        vec![
            FillItem { fill_rate: ratio(0, 1), coordinate: rect(1, 2, 3, 4) },
            FillItem { fill_rate: ratio(0, 1), coordinate: rect(5, 6, 7, 8) },
        ]
    );
    assert_eq!(out.rec_results[1].rec_tpye, RecType::MultipleChoice);
    assert!(out.rec_results[1].rec_result.is_empty());
    assert!(out.rec_results[1].fill_items.is_empty());
    assert_eq!(out.rec_results[2].rec_result, vec![false]);
    assert_eq!(out.rec_results[2].fill_items[0].coordinate, rect(9, 9, 2, 2));
}

#[test]
fn calculate_all_fill_rate_measures_every_option() {
    let plane = plane_with(40, 20, &[rect(10, 5, 4, 4), rect(20, 5, 2, 4)]);
    let table = table_of(&plane);
    let mark = mark_of(vec![
        RecItem {
            rec_type: RecType::SingleChoice,
            sub_options: vec![rect(0, 5, 4, 4), rect(10, 5, 4, 4), rect(20, 5, 4, 4)],
        },
        RecItem { rec_type: RecType::MultipleChoice, sub_options: vec![rect(9, 5, 4, 4)] },
    ]);
    let mut out = MobileOutput::new(&mark);
    let module = RecFillModule::new();
    assert!(module.calculate_all_fill_rate(&table, &mut out).is_ok());
    let den = 16 * 255;
    assert_eq!(out.rec_results[0].fill_items[0].fill_rate, ratio(0, den));
    assert_eq!(out.rec_results[0].fill_items[1].fill_rate, ratio(16 * 255, den));
    assert_eq!(out.rec_results[0].fill_items[2].fill_rate, ratio(8 * 255, den));
    assert_eq!(out.rec_results[1].fill_items[0].fill_rate, ratio(12 * 255, den));
    assert_eq!(out.rec_results[0].fill_items[2].coordinate, rect(20, 5, 4, 4));
    assert_eq!(out.rec_results[0].rec_result, vec![false, false, false]);
}

#[test]
fn calculate_all_fill_rate_stops_at_the_first_rectangle_outside() {
    let table = table_of(&plane_of(40, 20, 255));
    let mark = mark_of(vec![
        RecItem { rec_type: RecType::SingleChoice, sub_options: vec![rect(0, 5, 4, 4), rect(8, 5, 4, 4)] },
        RecItem {
            rec_type: RecType::SingleChoice,
            sub_options: vec![rect(16, 5, 4, 4), rect(38, 5, 4, 4), rect(24, 5, 4, 4)],
        },
        RecItem { rec_type: RecType::MultipleChoice, sub_options: vec![rect(30, 5, 4, 4)] },
    ]);
    let mut out = MobileOutput::new(&mark);
    out.rec_results[1].rec_result[2] = true;
    let r = RecFillModule::new().calculate_all_fill_rate(&table, &mut out);
    assert_eq!(r.err(), Some(RecError::SampleOutOfRange));
    // The options before the one outside are measured.
    let full = ratio(16 * 255, 16 * 255);
    assert_eq!(out.rec_results[0].fill_items[0].fill_rate, full);
    assert_eq!(out.rec_results[0].fill_items[1].fill_rate, full);
    assert_eq!(out.rec_results[1].fill_items[0].fill_rate, full);
    // That one and those after it are as they were.
    assert_eq!(out.rec_results[1].fill_items[1].fill_rate, ratio(0, 1));
    assert_eq!(out.rec_results[1].fill_items[2].fill_rate, ratio(0, 1));
    assert_eq!(out.rec_results[2].fill_items[0].fill_rate, ratio(0, 1));
    // Rectangles and verdicts are as they were.
    assert_eq!(out.rec_results[1].fill_items[1].coordinate, rect(38, 5, 4, 4));
    assert_eq!(out.rec_results[0].rec_result, vec![false, false]);
    assert_eq!(out.rec_results[1].rec_result, vec![false, false, true]);
}

#[test]
fn calculate_all_fill_rate_stops_at_once_where_the_first_is_outside() {
    let table = table_of(&plane_of(40, 20, 255));
    let mark = mark_of(vec![RecItem {
        rec_type: RecType::SingleChoice,
        sub_options: vec![rect(-1, 5, 4, 4), rect(8, 5, 4, 4)],
    }]);
    let mut out = MobileOutput::new(&mark);
    let r = RecFillModule::new().calculate_all_fill_rate(&table, &mut out);
    assert_eq!(r.err(), Some(RecError::SampleOutOfRange));
    assert_eq!(out.rec_results[0].fill_items[0].fill_rate, ratio(0, 1));
    assert_eq!(out.rec_results[0].fill_items[1].fill_rate, ratio(0, 1));
}

#[test]
fn set_default_fill_marks_what_exceeds_the_threshold() {
    let mut out = output_of(vec![
        item(RecType::SingleChoice, &[ratio(1, 2), ratio(51, 100), ratio(9, 10), ratio(0, 1)]),
        item(RecType::MultipleChoice, &[ratio(2, 3), ratio(1, 3)]),
    ]);
    out.rec_results[0].rec_result[0] = true;
    assert!(RecFillModule::new().set_default_fill(&mut out, &ratio(50, 100)).is_ok());
    assert_eq!(out.rec_results[0].rec_result, vec![false, true, true, false]);
    assert_eq!(out.rec_results[1].rec_result, vec![true, false]);
}

#[test]
fn set_default_fill_may_mark_several_options_of_a_single_choice() {
    let mut out = output_of(vec![item(RecType::SingleChoice, &[ratio(8, 10), ratio(9, 10)])]);
    assert!(RecFillModule::new().set_default_fill(&mut out, &ratio(1, 2)).is_ok());
    assert_eq!(out.rec_results[0].rec_result, vec![true, true]);
}

#[test]
fn set_multi_fill_leaves_single_choice_alone() {
    let mut out = output_of(vec![
        item(RecType::SingleChoice, &[ratio(9, 10), ratio(0, 1)]),
        item(RecType::MultipleChoice, &[ratio(9, 10), ratio(1, 2), ratio(6, 10)]),
    ]);
    out.rec_results[0].rec_result[1] = true;
    out.rec_results[1].rec_result[1] = true;
    assert!(RecFillModule::new().set_multi_fill(&mut out, &ratio(1, 2)).is_ok());
    assert_eq!(out.rec_results[0].rec_result, vec![false, true]);
    assert_eq!(out.rec_results[1].rec_result, vec![true, false, true]);
}

#[test]
fn set_single_fill_marks_the_first_greatest_option() {
    let mut out = output_of(vec![
        item(RecType::SingleChoice, &[ratio(6, 10), ratio(9, 10), ratio(18, 20), ratio(7, 10)]),
        item(RecType::MultipleChoice, &[ratio(9, 10), ratio(8, 10)]),
        item(RecType::SingleChoice, &[ratio(4, 10), ratio(3, 10)]),
        item(RecType::SingleChoice, &[ratio(0, 1), ratio(0, 5)]),
        item(RecType::SingleChoice, &[]),
    ]);
    out.rec_results[2].rec_result[1] = true;
    assert!(RecFillModule::new().set_single_fill(&mut out, &ratio(1, 2)).is_ok());
    assert_eq!(out.rec_results[0].rec_result, vec![false, true, false, false]);
    assert_eq!(out.rec_results[1].rec_result, vec![false, false]);
    assert_eq!(out.rec_results[2].rec_result, vec![false, true]);
    assert_eq!(out.rec_results[3].rec_result, vec![false, false]);
    assert!(out.rec_results[4].rec_result.is_empty());
}

#[test]
fn first_max_item_is_the_first_greatest_positive() {
    let items = item(RecType::SingleChoice, &[ratio(1, 4), ratio(2, 4), ratio(1, 2), ratio(1, 3)]);
    assert_eq!(first_max_item(&items.fill_items), Some(1));
    let none = item(RecType::SingleChoice, &[ratio(0, 4), ratio(-1, 4)]);
    assert_eq!(first_max_item(&none.fill_items), None);
    assert_eq!(first_max_item(&vec![]), None);
}

#[test]
fn threshold_has_a_floor() {
    let module = RecFillModule::new();
    // All options empty: the split threshold is zero.
    let out = output_of(vec![item(RecType::SingleChoice, &[ratio(0, 255), ratio(0, 255)])]);
    assert_eq!(module.threshold(&out).unwrap(), ratio(50, 100));
    // Empty and full: the split falls right above zero.
    let out = output_of(vec![item(RecType::SingleChoice, &[ratio(0, 1), ratio(1, 1)])]);
    assert_eq!(module.threshold(&out).unwrap(), ratio(50, 100));
    // No option at all.
    assert_eq!(module.threshold(&output_of(vec![])).unwrap(), ratio(50, 100));
}

#[test]
fn threshold_is_rounded_to_hundredths() {
    let module = RecFillModule::new();
    // Bins 699 and 899: the split threshold is 700/999 = 0.7007.
    let out = output_of(vec![
        item(RecType::SingleChoice, &[ratio(7, 10), ratio(9, 10)]),
        item(RecType::MultipleChoice, &[ratio(7, 10)]),
    ]);
    assert_eq!(module.threshold(&out).unwrap(), ratio(70, 100));
    // Bins 754 and 999: 755/999 = 0.7558 rounds up.
    let out = output_of(vec![item(RecType::SingleChoice, &[ratio(755, 1000), ratio(1, 1)])]);
    assert_eq!(module.threshold(&out).unwrap(), ratio(76, 100));
    // All options full: the split threshold is one.
    let out = output_of(vec![item(RecType::SingleChoice, &[ratio(5, 5), ratio(5, 5)])]);
    assert_eq!(module.threshold(&out).unwrap(), ratio(100, 100));
}

#[test]
fn threshold_pools_the_ratios_of_all_items() {
    let module = RecFillModule::new();
    let pooled = output_of(vec![
        item(RecType::SingleChoice, &[ratio(6, 10)]),
        item(RecType::SingleChoice, &[ratio(8, 10)]),
    ]);
    // Bins 599 and 799: 600/999 = 0.6006.
    assert_eq!(module.threshold(&pooled).unwrap(), ratio(60, 100));
}

#[test]
fn infer_marks_the_one_filled_option() {
    let options = vec![rect(10, 10, 8, 6), rect(30, 10, 8, 6), rect(50, 10, 8, 6), rect(70, 10, 8, 6)];
    let image = same_planes(plane_with(100, 60, &[options[2]]));
    let mark = mark_of(vec![RecItem { rec_type: RecType::SingleChoice, sub_options: options }]);
    let mut out = MobileOutput::new(&mark);
    let module = RecFillModule::new();
    assert!(module.infer(&image, &mut out).is_ok());
    assert_eq!(out.rec_results[0].rec_result, vec![false, false, true, false]);
    let filled = out.rec_results[0].fill_items[2].fill_rate;
    assert_eq!(filled, ratio(48 * 255, 48 * 255));
    let threshold = module.threshold(&out).unwrap();
    assert_eq!(threshold, ratio(50, 100));
    assert!(threshold.lt(&filled));
    assert_eq!(out.code, 0);
    assert_eq!(out.message, "success");
}

#[test]
fn infer_marks_nothing_on_a_blank_sheet() {
    let options = vec![rect(10, 10, 8, 6), rect(30, 10, 8, 6)];
    let image = same_planes(plane_of(100, 60, 0));
    let mark = mark_of(vec![RecItem { rec_type: RecType::MultipleChoice, sub_options: options }]);
    let mut out = MobileOutput::new(&mark);
    assert!(RecFillModule::new().infer(&image, &mut out).is_ok());
    assert_eq!(out.rec_results[0].rec_result, vec![false, false]);
}

#[test]
fn infer_applies_one_threshold_to_every_type() {
    // Fill ratios 1, 0.75 and 0.25: the threshold is 0.5 for all items.
    let full = rect(10, 10, 8, 8);
    let most = rect(30, 10, 8, 8);
    let some = rect(50, 10, 8, 8);
    let plane = plane_with(100, 60, &[full, rect(30, 10, 8, 6), rect(50, 10, 8, 2)]);
    let image = same_planes(plane);
    let mark = mark_of(vec![
        RecItem { rec_type: RecType::SingleChoice, sub_options: vec![full, most, some] },
        RecItem { rec_type: RecType::MultipleChoice, sub_options: vec![some, most, full] },
    ]);
    let mut out = MobileOutput::new(&mark);
    assert!(RecFillModule::new().infer(&image, &mut out).is_ok());
    assert_eq!(out.rec_results[0].rec_result, vec![true, true, false]);
    assert_eq!(out.rec_results[1].rec_result, vec![false, true, true]);
    assert_eq!(out.rec_results[0].fill_items[1].fill_rate, ratio(48 * 255, 64 * 255));
}

#[test]
fn infer_reads_the_binary_plane() {
    let option = rect(10, 10, 8, 6);
    let gray = plane_of(100, 60, 255);
    let thresh = plane_with(100, 60, &[option]);
    let closed = plane_of(100, 60, 0);
    let image = ProcessedImage::new(gray, thresh, closed).unwrap();
    let mark = mark_of(vec![RecItem {
        rec_type: RecType::SingleChoice,
        sub_options: vec![option, rect(30, 10, 8, 6)],
    }]);
    let mut out = MobileOutput::new(&mark);
    assert!(RecFillModule::new().infer(&image, &mut out).is_ok());
    assert_eq!(out.rec_results[0].rec_result, vec![true, false]);
}

#[test]
fn infer_fails_on_an_empty_plane() {
    let image = same_planes(Plane::new(0, 0, vec![]).unwrap());
    let mark = mark_of(vec![RecItem { rec_type: RecType::SingleChoice, sub_options: vec![] }]);
    let mut out = MobileOutput::new(&mark);
    assert_eq!(RecFillModule::new().infer(&image, &mut out).err(), Some(RecError::ImageInvalid));
}

#[test]
fn infer_fails_on_an_option_outside_the_plane() {
    let image = same_planes(plane_of(100, 60, 255));
    let mark = mark_of(vec![RecItem {
        rec_type: RecType::SingleChoice,
        sub_options: vec![rect(10, 10, 8, 6), rect(95, 10, 8, 6)],
    }]);
    let mut out = MobileOutput::new(&mark);
    assert_eq!(
        RecFillModule::new().infer(&image, &mut out).err(),
        Some(RecError::SampleOutOfRange)
    );
    assert_eq!(out.rec_results[0].fill_items[0].fill_rate, ratio(0, 1));
    assert_eq!(out.rec_results[0].rec_result, vec![false, false]);
}

#[test]
fn max_fill_rate_moves_to_the_best_placement() {
    // The blob lies one to the right and two below the declared rectangle.
    let plane = plane_with(40, 30, &[rect(11, 12, 4, 4)]);
    let table = table_of(&plane);
    let mut c = rect(10, 10, 4, 4);
    let rate = RecFillModule::new()._calculate_max_fill_rate(&table, &mut c).unwrap();
    assert_eq!(c, rect(11, 12, 4, 4));
    assert_eq!(rate, ratio(16 * 255, 16 * 255));
}

#[test]
fn max_fill_rate_takes_the_first_of_equal_placements() {
    let table = table_of(&plane_of(40, 30, 255));
    let mut c = rect(10, 10, 4, 4);
    let rate = RecFillModule::new()._calculate_max_fill_rate(&table, &mut c).unwrap();
    assert_eq!(c, rect(9, 10, 4, 4));
    assert_eq!(rate, ratio(16 * 255, 16 * 255));
}

#[test]
fn max_fill_rate_stays_where_nothing_is_filled() {
    let table = table_of(&plane_of(40, 30, 0));
    let mut c = rect(10, 10, 4, 4);
    let rate = RecFillModule::new()._calculate_max_fill_rate(&table, &mut c).unwrap();
    assert_eq!(c, rect(10, 10, 4, 4));
    assert_eq!(rate, ratio(0, 1));
}

#[test]
fn max_fill_rate_fails_where_a_placement_leaves_the_plane() {
    let table = table_of(&plane_of(40, 30, 255));
    let module = RecFillModule::new();
    for start in [rect(0, 10, 4, 4), rect(36, 10, 4, 4), rect(10, 25, 4, 4), rect(i32::MAX, 0, 1, 1)] {
        let mut c = start;
        assert_eq!(
            module._calculate_max_fill_rate(&table, &mut c).err(),
            Some(RecError::SampleOutOfRange)
        );
        assert_eq!(c, start);
    }
}

#[test]
fn fix_coordinates_moves_all_by_the_shift_of_greatest_variance() {
    // Two blobs, each one to the left of and one above one declared
    // rectangle; a third rectangle is declared on background.
    let plane = plane_with(60, 30, &[rect(9, 9, 4, 4), rect(29, 9, 4, 4)]);
    let table = table_of(&plane);
    let mut items = vec![
        FillItem { fill_rate: ratio(1, 7), coordinate: rect(10, 10, 4, 4) },
        FillItem { fill_rate: ratio(2, 7), coordinate: rect(30, 10, 4, 4) },
        FillItem { fill_rate: ratio(3, 7), coordinate: rect(50, 10, 4, 4) },
    ];
    assert!(RecFillModule::new()._fix_fill_coordinates_with_otsu(&table, &mut items).is_ok());
    assert_eq!(items[0].coordinate, rect(9, 9, 4, 4));
    assert_eq!(items[1].coordinate, rect(29, 9, 4, 4));
    assert_eq!(items[2].coordinate, rect(49, 9, 4, 4));
    assert_eq!(items[0].fill_rate, ratio(1, 7));
    assert_eq!(items[2].fill_rate, ratio(3, 7));
}

#[test]
fn fix_coordinates_leaves_all_where_no_shift_separates() {
    let table = table_of(&plane_of(60, 30, 255));
    let mut items = vec![
        FillItem { fill_rate: ratio(0, 1), coordinate: rect(10, 10, 4, 4) },
        FillItem { fill_rate: ratio(0, 1), coordinate: rect(30, 10, 4, 4) },
    ];
    assert!(RecFillModule::new()._fix_fill_coordinates_with_otsu(&table, &mut items).is_ok());
    assert_eq!(items[0].coordinate, rect(10, 10, 4, 4));
    assert_eq!(items[1].coordinate, rect(30, 10, 4, 4));
}

#[test]
fn fix_coordinates_fails_where_a_shift_leaves_the_plane() {
    let table = table_of(&plane_of(60, 30, 255));
    let mut items = vec![
        FillItem { fill_rate: ratio(0, 1), coordinate: rect(10, 10, 4, 4) },
        FillItem { fill_rate: ratio(0, 1), coordinate: rect(0, 10, 4, 4) },
    ];
    assert_eq!(
        RecFillModule::new()._fix_fill_coordinates_with_otsu(&table, &mut items).err(),
        Some(RecError::SampleOutOfRange)
    );
    assert_eq!(items[0].coordinate, rect(10, 10, 4, 4));
    assert_eq!(items[1].coordinate, rect(0, 10, 4, 4));
}

#[test]
fn all_fit_tells_whether_every_option_lies_within_the_plane() {
    let table = table_of(&plane_of(40, 20, 0));
    let inside = mark_of(vec![
        RecItem { rec_type: RecType::SingleChoice, sub_options: vec![rect(0, 0, 40, 20)] },
        RecItem { rec_type: RecType::SingleChoice, sub_options: vec![rect(36, 16, 4, 4), rect(1, 1, 0, 0)] },
    ]);
    assert!(all_fit(&table, &MobileOutput::new(&inside)));
    let outside = mark_of(vec![
        RecItem { rec_type: RecType::SingleChoice, sub_options: vec![rect(0, 0, 40, 20)] },
        RecItem { rec_type: RecType::SingleChoice, sub_options: vec![rect(36, 16, 4, 5)] },
    ]);
    assert!(!all_fit(&table, &MobileOutput::new(&outside)));
    assert!(all_fit(&table, &MobileOutput::new(&mark_of(vec![]))));
}
