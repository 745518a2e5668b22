use answer_sheet::models::{AssistLocation, Coordinate, Point, ProcessedImage, RecError};
use answer_sheet::myutils::image::Plane;
use answer_sheet::recognize::assist_location::{sort_by_top, AssistLocationModule};

fn pt(x: i32, y: i32) -> Point {
    Point { x, y }
}

fn rect(x: i32, y: i32, w: i32, h: i32) -> Coordinate {
    Coordinate { x, y, w, h }
}

/// A dark plane on which the given rectangles are bright.
fn plane_with(width: usize, height: usize, bright: &[Coordinate]) -> Plane {
    let mut data = vec![0u8; width * height];
    for c in bright {
        for row in c.y..c.y + c.h {
            for col in c.x..c.x + c.w {
                data[row as usize * width + col as usize] = 255;
            }
        }
    }
    Plane::new(width, height, data).unwrap()
}

fn image_with(width: usize, height: usize, bright: &[Coordinate]) -> ProcessedImage {
    let dark = Plane::new(width, height, vec![0; width * height]).unwrap();
    ProcessedImage::new(dark.clone(), dark, plane_with(width, height, bright)).unwrap()
}

/// The contour of a bright rectangle as it is traced in a region that begins
/// at `origin`: the centres of the rectangle's corner pixels.
fn traced(mark: &Coordinate, origin: (i32, i32)) -> Vec<Point> {
    let left = mark.x - origin.0;
    let top = mark.y - origin.1;
    let right = left + mark.w - 1;
    let bottom = top + mark.h - 1;
    vec![pt(left, top), pt(left, bottom), pt(right, bottom), pt(right, top)]
}

fn traced_all(marks: &[Coordinate], origin: (i32, i32)) -> Vec<Vec<Point>> {
    marks.iter().map(|m| traced(m, origin)).collect()
}

const LEFT: [Coordinate; 3] = [
    Coordinate { x: 20, y: 40, w: 6, h: 6 },
    Coordinate { x: 20, y: 100, w: 6, h: 6 },
    Coordinate { x: 20, y: 160, w: 6, h: 6 },
];

const RIGHT: [Coordinate; 3] = [
    Coordinate { x: 270, y: 40, w: 6, h: 6 },
    Coordinate { x: 270, y: 100, w: 6, h: 6 },
    Coordinate { x: 270, y: 160, w: 6, h: 6 },
];

fn expected() -> AssistLocation {
    AssistLocation { left: LEFT.to_vec(), right: RIGHT.to_vec() }
}

fn all_marks() -> Vec<Coordinate> {
    let mut all = LEFT.to_vec();
    all.extend(RIGHT);
    all
}

#[test]
fn sort_by_top_sorts_by_y() {
    let marks = vec![rect(1, 30, 5, 5), rect(2, 10, 5, 5), rect(3, 20, 5, 5), rect(4, -5, 5, 5)];
    assert_eq!(
        sort_by_top(&marks),
        vec![rect(4, -5, 5, 5), rect(2, 10, 5, 5), rect(3, 20, 5, 5), rect(1, 30, 5, 5)]
    );
}

#[test]
fn sort_by_top_keeps_equal_heights_in_order() {
    let marks = vec![
        rect(9, 20, 1, 1),
        rect(8, 10, 2, 2),
        rect(7, 20, 3, 3),
        rect(6, 10, 4, 4),
        rect(5, 20, 5, 5),
    ];
    assert_eq!(
        sort_by_top(&marks),
        vec![
            rect(8, 10, 2, 2),
            rect(6, 10, 4, 4),
            rect(9, 20, 1, 1),
            rect(7, 20, 3, 3),
            rect(5, 20, 5, 5),
        ]
    );
}

#[test]
fn sort_by_top_of_few() {
    assert_eq!(sort_by_top(&vec![]), vec![]);
    assert_eq!(sort_by_top(&vec![rect(1, 2, 3, 4)]), vec![rect(1, 2, 3, 4)]);
}

#[test]
fn search_areas_enclose_the_expected_marks() {
    let (left, right) = AssistLocationModule::new().search_areas(&expected());
    assert_eq!(left, rect(14, 34, 18, 138));
    assert_eq!(right, rect(264, 34, 18, 138));
}

#[test]
fn search_roi_is_cut_to_the_plane() {
    let plane = plane_with(300, 200, &[]);
    assert_eq!(AssistLocationModule::search_roi(&plane, &rect(14, 34, 18, 138)), rect(14, 34, 18, 138));
    assert_eq!(AssistLocationModule::search_roi(&plane, &rect(-4, -6, 18, 18)), rect(0, 0, 18, 18));
    assert_eq!(AssistLocationModule::search_roi(&plane, &rect(290, 190, 18, 18)), rect(290, 190, 10, 10));
    assert_eq!(AssistLocationModule::search_roi(&plane, &rect(310, 50, 18, 18)), rect(310, 50, -10, 18));
}

#[test]
fn find_assist_location_finds_the_marks_top_to_bottom() {
    let plane = plane_with(300, 200, &LEFT);
    let area = rect(14, 34, 18, 138);
    let mut contours = traced_all(&LEFT, (14, 34));
    contours.reverse();
    let found = AssistLocationModule::find_assist_location(&plane, &area, &contours).unwrap();
    assert_eq!(found, LEFT.to_vec());
}

#[test]
fn find_assist_location_wants_the_size_of_a_mark() {
    let marks = [
        rect(20, 10, 3, 6),
        rect(20, 30, 10, 8),
        rect(20, 50, 6, 3),
        rect(20, 70, 8, 10),
        rect(20, 90, 9, 6),
        rect(20, 110, 5, 8),
        rect(20, 130, 4, 4),
        rect(20, 150, 9, 9),
        rect(20, 170, 6, 8),
    ];
    let plane = plane_with(300, 200, &marks);
    let area = rect(10, 0, 30, 200);
    let contours = traced_all(&marks, (10, 0));
    let found = AssistLocationModule::find_assist_location(&plane, &area, &contours).unwrap();
    // 4 by 4 encloses an area of 9 and 5 by 8 differs by 3: too small, too
    // oblong. 9 by 9 encloses 64 and 6 by 8 encloses 35.
    assert_eq!(found, vec![rect(20, 150, 9, 9), rect(20, 170, 6, 8)]);
}

#[test]
fn find_assist_location_wants_the_area_of_a_mark() {
    // A diamond in a bounding rectangle of 7 by 7 encloses an area of 18.
    let plane = plane_with(100, 100, &[rect(20, 20, 7, 7)]);
    let diamond = vec![pt(13, 10), pt(10, 13), pt(13, 16), pt(16, 13)];
    let square = vec![pt(10, 10), pt(10, 16), pt(16, 16), pt(16, 10)];
    let area = rect(10, 10, 40, 40);
    let found =
        AssistLocationModule::find_assist_location(&plane, &area, &vec![diamond, square]).unwrap();
    assert_eq!(found, vec![rect(20, 20, 7, 7)]);
}

#[test]
fn find_assist_location_wants_a_filled_interior() {
    // Interiors of 16 pixels with 14 and with 15 bright ones: 0.875 and
    // 0.9375 against the least ratio of 0.9.
    let mut data = vec![0u8; 100 * 100];
    for mark_y in [20usize, 40] {
        for row in mark_y..mark_y + 6 {
            for col in 20..26 {
                data[row * 100 + col] = 255;
            }
        }
    }
    data[22 * 100 + 22] = 0;
    data[23 * 100 + 23] = 0;
    data[42 * 100 + 22] = 0;
    let plane = Plane::new(100, 100, data).unwrap();
    let marks = [rect(20, 20, 6, 6), rect(20, 40, 6, 6)];
    let contours = traced_all(&marks, (10, 10));
    let found =
        AssistLocationModule::find_assist_location(&plane, &rect(10, 10, 40, 60), &contours).unwrap();
    assert_eq!(found, vec![rect(20, 40, 6, 6)]);
}

#[test]
fn find_assist_location_ignores_the_rim_of_a_mark() {
    // Only the interior, one pixel in from every side, is bright.
    let plane = plane_with(100, 100, &[rect(21, 21, 4, 4)]);
    let contours = traced_all(&[rect(20, 20, 6, 6)], (10, 10));
    let found =
        AssistLocationModule::find_assist_location(&plane, &rect(10, 10, 40, 40), &contours).unwrap();
    assert_eq!(found, vec![rect(20, 20, 6, 6)]);
}

#[test]
fn find_assist_location_gives_marks_by_their_place_on_the_plane() {
    // The region begins before the plane: contours are traced from the
    // plane's corner.
    let plane = plane_with(100, 100, &[rect(2, 3, 6, 6)]);
    let contours = traced_all(&[rect(2, 3, 6, 6)], (0, 0));
    let found =
        AssistLocationModule::find_assist_location(&plane, &rect(-4, -3, 18, 18), &contours).unwrap();
    assert_eq!(found, vec![rect(2, 3, 6, 6)]);
}

#[test]
fn find_assist_location_in_a_region_cut_by_the_plane() {
    // The region reaches beyond the plane and holds the mark where the
    // plane ends.
    let plane = plane_with(100, 100, &[rect(94, 50, 6, 6)]);
    let contours = traced_all(&[rect(94, 50, 6, 6)], (88, 44));
    let found =
        AssistLocationModule::find_assist_location(&plane, &rect(88, 44, 18, 18), &contours).unwrap();
    assert_eq!(found, vec![rect(94, 50, 6, 6)]);
}

#[test]
fn find_assist_location_without_contours_finds_nothing() {
    let plane = plane_with(100, 100, &[]);
    let found =
        AssistLocationModule::find_assist_location(&plane, &rect(10, 10, 40, 40), &vec![vec![]]).unwrap();
    assert!(found.is_empty());
}

#[test]
fn find_assist_location_fails_beyond_the_plane() {
    let plane = plane_with(100, 100, &[]);
    assert_eq!(
        AssistLocationModule::find_assist_location(&plane, &rect(120, 10, 40, 40), &vec![]).err(),
        Some(RecError::SampleOutOfRange)
    );
    assert_eq!(
        AssistLocationModule::find_assist_location(&plane, &rect(10, 10, -1, 40), &vec![]).err(),
        Some(RecError::SampleOutOfRange)
    );
}

#[test]
fn find_assist_location_fails_on_an_empty_region() {
    let plane = plane_with(100, 100, &[]);
    assert_eq!(
        AssistLocationModule::find_assist_location(&plane, &rect(100, 10, 40, 40), &vec![]).err(),
        Some(RecError::ImageInvalid)
    );
    assert_eq!(
        AssistLocationModule::find_assist_location(&plane, &rect(0, 0, 0, 0), &vec![]).err(),
        Some(RecError::ImageInvalid)
    );
}

#[test]
fn find_assist_location_fails_on_a_mark_beyond_the_region() {
    let plane = plane_with(100, 100, &[]);
    let contours = vec![vec![pt(36, 10), pt(36, 15), pt(41, 15), pt(41, 10)]];
    assert_eq!(
        AssistLocationModule::find_assist_location(&plane, &rect(10, 10, 40, 40), &contours).err(),
        Some(RecError::SampleOutOfRange)
    );
}

#[test]
fn infer_finds_all_marks_of_both_sides() {
    let image = image_with(300, 200, &all_marks());
    let left_contours = traced_all(&LEFT, (14, 34));
    let right_contours = traced_all(&RIGHT, (264, 34));
    let found = AssistLocationModule::new()
        .infer(&image, &expected(), &left_contours, &right_contours)
        .unwrap();
    assert_eq!(found.left, LEFT.to_vec());
    assert_eq!(found.right, RIGHT.to_vec());
}

#[test]
fn infer_finds_marks_off_their_expected_places() {
    let left_seen = [rect(18, 38, 7, 6), rect(22, 103, 6, 7), rect(21, 158, 6, 6)];
    let mut bright = left_seen.to_vec();
    bright.extend(RIGHT);
    let image = image_with(300, 200, &bright);
    let found = AssistLocationModule::new()
        .infer(&image, &expected(), &traced_all(&left_seen, (14, 34)), &traced_all(&RIGHT, (264, 34)))
        .unwrap();
    assert_eq!(found.left, left_seen.to_vec());
    assert_eq!(found.right, RIGHT.to_vec());
}

#[test]
fn infer_with_a_mark_missing_on_one_side_fails() {
    let mut bright = LEFT.to_vec();
    bright.extend([RIGHT[0], RIGHT[2]]);
    let image = image_with(300, 200, &bright);
    let r = AssistLocationModule::new().infer(
        &image,
        &expected(),
        &traced_all(&LEFT, (14, 34)),
        &traced_all(&[RIGHT[0], RIGHT[2]], (264, 34)),
    );
    assert_eq!(r.err(), Some(RecError::FiducialCountMismatch));
}

#[test]
fn infer_with_a_mark_missing_on_both_sides_fails() {
    let bright = [LEFT[0], LEFT[1], RIGHT[0], RIGHT[1]];
    let image = image_with(300, 200, &bright);
    let r = AssistLocationModule::new().infer(
        &image,
        &expected(),
        &traced_all(&[LEFT[0], LEFT[1]], (14, 34)),
        &traced_all(&[RIGHT[0], RIGHT[1]], (264, 34)),
    );
    assert_eq!(r.err(), Some(RecError::FiducialCountMismatch));
}

#[test]
fn infer_with_an_unfilled_mark_fails() {
    // The contour is there, the pixels are not.
    let mut bright = LEFT.to_vec();
    bright.extend([RIGHT[0], RIGHT[1]]);
    let image = image_with(300, 200, &bright);
    let r = AssistLocationModule::new().infer(
        &image,
        &expected(),
        &traced_all(&LEFT, (14, 34)),
        &traced_all(&RIGHT, (264, 34)),
    );
    assert_eq!(r.err(), Some(RecError::FiducialCountMismatch));
}

#[test]
fn infer_without_any_mark_reports_a_mismatch() {
    let image = image_with(300, 200, &[]);
    let r = AssistLocationModule::new().infer(&image, &expected(), &vec![], &vec![]);
    assert_eq!(r.err(), Some(RecError::FiducialCountMismatch));
}

#[test]
fn infer_expecting_no_marks_fails_on_the_empty_region() {
    let image = image_with(300, 200, &[]);
    let nothing = AssistLocation { left: vec![], right: vec![] };
    let r = AssistLocationModule::new().infer(&image, &nothing, &vec![], &vec![]);
    assert_eq!(r.err(), Some(RecError::ImageInvalid));
}

#[test]
fn infer_reads_the_closed_plane() {
    let dark = Plane::new(300, 200, vec![0; 300 * 200]).unwrap();
    let bright = plane_with(300, 200, &all_marks());
    let image = ProcessedImage::new(bright.clone(), bright, dark).unwrap();
    let r = AssistLocationModule::new().infer(
        &image,
        &expected(),
        &traced_all(&LEFT, (14, 34)),
        &traced_all(&RIGHT, (264, 34)),
    );
    assert_eq!(r.err(), Some(RecError::FiducialCountMismatch));
}

#[test]
fn infer_with_fewer_marks_expected_on_one_side_fails() {
    // Three marks are found on either side, but only two are expected on
    // the right.
    let image = image_with(300, 200, &all_marks());
    let uneven = AssistLocation { left: LEFT.to_vec(), right: vec![RIGHT[0], RIGHT[2]] };
    let r = AssistLocationModule::new().infer(
        &image,
        &uneven,
        &traced_all(&LEFT, (14, 34)),
        &traced_all(&RIGHT, (264, 34)),
    );
    assert_eq!(r.err(), Some(RecError::FiducialCountMismatch));
}
