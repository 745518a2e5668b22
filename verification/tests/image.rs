use answer_sheet::models::{Coordinate, Point, Quad, RecError};
use answer_sheet::myutils::image::{
    are_collinear, check_perspective_transform, decode_image_input, get_points_from_coordinate,
    get_points_from_quad, image_bytes, integral_image, is_encoded_input, merge_coordinates, Plane,
    MAX_SIDE,
};

fn plane_of(width: usize, height: usize, value: u8) -> Plane {
    Plane::new(width, height, vec![value; width * height]).unwrap()
}

#[test]
fn plane_new_keeps_size_and_pixels() {
    let plane = Plane::new(3, 2, vec![1, 2, 3, 4, 5, 6]).unwrap();
    assert_eq!(plane.width(), 3);
    assert_eq!(plane.height(), 2);
    assert_eq!(plane.get(0, 0), 1);
    assert_eq!(plane.get(0, 2), 3);
    assert_eq!(plane.get(1, 0), 4);
    assert_eq!(plane.get(1, 2), 6);
    assert!(!plane.is_empty());
}

#[test]
fn plane_new_refuses_wrong_pixel_count() {
    assert!(Plane::new(3, 2, vec![0; 5]).is_none());
    assert!(Plane::new(3, 2, vec![0; 7]).is_none());
}

#[test]
fn plane_new_refuses_oversized_side() {
    assert!(Plane::new(MAX_SIDE + 1, 0, vec![]).is_none());
    assert!(Plane::new(0, MAX_SIDE + 1, vec![]).is_none());
    assert!(Plane::new(MAX_SIDE, 0, vec![]).is_some());
}

#[test]
fn plane_without_pixels_is_empty() {
    assert!(Plane::new(0, 4, vec![]).unwrap().is_empty());
    assert!(Plane::new(4, 0, vec![]).unwrap().is_empty());
}

#[test]
fn integral_image_is_one_larger_each_way() {
    let table = integral_image(&plane_of(5, 3, 255)).unwrap();
    assert_eq!(table.rows(), 4);
    assert_eq!(table.cols(), 6);
}

#[test]
fn integral_image_cells_are_prefix_sums() {
    // 1 2 3
    // 4 5 6
    let plane = Plane::new(3, 2, vec![1, 2, 3, 4, 5, 6]).unwrap();
    let table = integral_image(&plane).unwrap();
    let expected: [[u64; 4]; 3] = [[0, 0, 0, 0], [0, 1, 3, 6], [0, 5, 12, 21]];
    for row in 0..3 {
        for col in 0..4 {
            assert_eq!(table.at_2d(row, col), expected[row][col]);
        }
    }
}

#[test]
fn integral_image_region_sum_by_four_lookups() {
    let plane = Plane::new(3, 2, vec![1, 2, 3, 4, 5, 6]).unwrap();
    let table = integral_image(&plane).unwrap();
    // Columns 1..3 of rows 0..2: 2 + 3 + 5 + 6.
    let sum = table.at_2d(2, 3) + table.at_2d(0, 1) - table.at_2d(0, 3) - table.at_2d(2, 1);
    assert_eq!(sum, 16);
}

#[test]
fn integral_image_of_empty_plane_fails() {
    let empty = Plane::new(0, 0, vec![]).unwrap();
    assert_eq!(integral_image(&empty).err(), Some(RecError::ImageInvalid));
    let no_rows = Plane::new(7, 0, vec![]).unwrap();
    assert_eq!(integral_image(&no_rows).err(), Some(RecError::ImageInvalid));
}

#[test]
fn integral_image_sums_a_large_bright_plane() {
    let table = integral_image(&plane_of(300, 200, 255)).unwrap();
    assert_eq!(table.at_2d(200, 300), 255 * 300 * 200);
}

#[test]
fn crop_takes_the_pixels_of_the_region() {
    let data: Vec<u8> = (0..20).collect();
    let plane = Plane::new(5, 4, data).unwrap();
    let part = plane.crop(&Coordinate { x: 1, y: 2, w: 3, h: 2 }).unwrap();
    assert_eq!(part.width(), 3);
    assert_eq!(part.height(), 2);
    assert_eq!(part.get(0, 0), 11);
    assert_eq!(part.get(0, 2), 13);
    assert_eq!(part.get(1, 0), 16);
    assert_eq!(part.get(1, 2), 18);
}

#[test]
fn crop_of_the_whole_plane_is_the_plane() {
    let data: Vec<u8> = (0..12).collect();
    let plane = Plane::new(4, 3, data).unwrap();
    let part = plane.crop(&Coordinate { x: 0, y: 0, w: 4, h: 3 }).unwrap();
    for row in 0..3 {
        for col in 0..4 {
            assert_eq!(part.get(row, col), plane.get(row, col));
        }
    }
}

#[test]
fn crop_beyond_the_plane_fails() {
    let plane = plane_of(5, 4, 0);
    for roi in [
        Coordinate { x: -1, y: 0, w: 2, h: 2 },
        Coordinate { x: 0, y: -1, w: 2, h: 2 },
        Coordinate { x: 0, y: 0, w: -1, h: 2 },
        Coordinate { x: 0, y: 0, w: 2, h: -1 },
        Coordinate { x: 3, y: 0, w: 3, h: 2 },
        Coordinate { x: 0, y: 3, w: 2, h: 2 },
    ] {
        assert_eq!(plane.crop(&roi).err(), Some(RecError::SampleOutOfRange));
    }
}

#[test]
fn merge_coordinates_encloses_all_and_extends() {
    let marks = vec![
        Coordinate { x: 20, y: 100, w: 6, h: 6 },
        Coordinate { x: 22, y: 40, w: 6, h: 7 },
        Coordinate { x: 18, y: 160, w: 5, h: 6 },
    ];
    let merged = merge_coordinates(&marks, 6);
    assert_eq!(merged, Coordinate { x: 12, y: 34, w: 22, h: 138 });
}

#[test]
fn merge_coordinates_of_one_rectangle() {
    let merged = merge_coordinates(&vec![Coordinate { x: 3, y: 4, w: 10, h: 20 }], 2);
    assert_eq!(merged, Coordinate { x: 1, y: 2, w: 14, h: 24 });
}

#[test]
fn merge_coordinates_may_begin_before_the_plane() {
    let merged = merge_coordinates(&vec![Coordinate { x: 2, y: 0, w: 6, h: 6 }], 6);
    assert_eq!(merged, Coordinate { x: -4, y: -6, w: 18, h: 18 });
}

#[test]
fn merge_coordinates_of_nothing_is_empty() {
    assert_eq!(merge_coordinates(&vec![], 6), Coordinate { x: 0, y: 0, w: 0, h: 0 });
}

#[test]
fn corners_of_a_rectangle_run_clockwise_from_top_left() {
    let corners = get_points_from_coordinate(&Coordinate { x: 5, y: 7, w: 100, h: 40 });
    assert_eq!(
        corners,
        [
            Point { x: 5, y: 7 },
            Point { x: 105, y: 7 },
            Point { x: 105, y: 47 },
            Point { x: 5, y: 47 },
        ]
    );
}

#[test]
fn corners_of_a_quad_keep_their_order() {
    let points = [
        Point { x: 1, y: 2 },
        Point { x: 30, y: 4 },
        Point { x: 29, y: 50 },
        Point { x: 0, y: 48 },
    ];
    assert_eq!(get_points_from_quad(&Quad { points }), points);
}

fn pt(x: i32, y: i32) -> Point {
    Point { x, y }
}

#[test]
fn collinear_positions() {
    assert!(are_collinear(&pt(0, 0), &pt(5, 5), &pt(-3, -3)));
    assert!(are_collinear(&pt(1, 7), &pt(1, 9), &pt(1, -4)));
    assert!(are_collinear(&pt(2, 2), &pt(2, 2), &pt(9, 1)));
    assert!(!are_collinear(&pt(0, 0), &pt(5, 5), &pt(5, 6)));
    assert!(!are_collinear(&pt(i32::MIN, i32::MIN), &pt(i32::MAX, i32::MAX), &pt(i32::MAX, i32::MIN)));
    assert!(are_collinear(&pt(i32::MIN, i32::MIN), &pt(i32::MAX, i32::MAX), &pt(0, 0)));
}

#[test]
fn perspective_transform_of_an_outline_in_general_position() {
    let quad = Quad { points: [pt(12, 8), pt(285, 10), pt(280, 190), pt(15, 185)] };
    let target = Coordinate { x: 0, y: 0, w: 300, h: 200 };
    assert!(check_perspective_transform(&quad, &target).is_ok());
}

#[test]
fn perspective_transform_of_a_degenerate_outline_fails() {
    let target = Coordinate { x: 0, y: 0, w: 300, h: 200 };
    for points in [
        [pt(0, 0), pt(100, 0), pt(200, 0), pt(50, 80)],
        [pt(0, 0), pt(100, 0), pt(50, 80), pt(200, 0)],
        [pt(0, 0), pt(50, 80), pt(10, 10), pt(20, 20)],
        [pt(50, 80), pt(0, 0), pt(10, 10), pt(30, 30)],
        [pt(5, 5), pt(5, 5), pt(100, 0), pt(0, 100)],
        [pt(0, 0), pt(0, 0), pt(0, 0), pt(0, 0)],
    ] {
        assert_eq!(
            check_perspective_transform(&Quad { points }, &target).err(),
            Some(RecError::TransformDegenerate)
        );
    }
}

#[test]
fn perspective_transform_to_a_rectangle_without_area_fails() {
    let quad = Quad { points: [pt(12, 8), pt(285, 10), pt(280, 190), pt(15, 185)] };
    for target in [
        Coordinate { x: 0, y: 0, w: 0, h: 200 },
        Coordinate { x: 0, y: 0, w: 300, h: 0 },
        Coordinate { x: 0, y: 0, w: -300, h: 200 },
    ] {
        assert_eq!(
            check_perspective_transform(&quad, &target).err(),
            Some(RecError::TransformDegenerate)
        );
    }
}

#[test]
fn long_inputs_are_taken_for_encoded_images() {
    assert!(!is_encoded_input(0));
    assert!(!is_encoded_input(200));
    assert!(is_encoded_input(201));
    assert!(is_encoded_input(usize::MAX));
}

#[test]
fn long_input_is_decoded_from_base64() {
    // "QUJD" stands for "ABC".
    let input = "QUJD".repeat(68);
    assert_eq!(input.len(), 272);
    let bytes = decode_image_input(input.as_bytes()).unwrap().unwrap();
    assert_eq!(bytes, "ABC".repeat(68).into_bytes());
    assert_ne!(bytes, input.as_bytes());
}

#[test]
fn long_input_with_padding_is_decoded() {
    // "TWE=" stands for "Ma" and "TQ==" for "M".
    let two = format!("{}TWE=", "QUJD".repeat(60));
    let mut expected = "ABC".repeat(60).into_bytes();
    expected.extend(b"Ma");
    assert_eq!(decode_image_input(two.as_bytes()).unwrap(), Some(expected));
    let one = format!("{}TQ==", "QUJD".repeat(60));
    let mut expected = "ABC".repeat(60).into_bytes();
    expected.push(b'M');
    assert_eq!(decode_image_input(one.as_bytes()).unwrap(), Some(expected));
}

#[test]
fn long_input_decodes_every_byte_value() {
    // The 256 byte values in order, encoded by hand: three bytes make four
    // symbols of six bits each.
    let alphabet = b"ABCDEFGHIJKLMNOPQRSTUVWXYZabcdefghijklmnopqrstuvwxyz0123456789+/";
    let bytes: Vec<u8> = (0..=255u8).collect();
    let mut encoded = Vec::new();
    for chunk in bytes.chunks(3) {
        let b = [chunk[0], *chunk.get(1).unwrap_or(&0), *chunk.get(2).unwrap_or(&0)];
        let n = ((b[0] as u32) << 16) | ((b[1] as u32) << 8) | b[2] as u32;
        let symbols = [
            alphabet[(n >> 18) as usize & 63],
            alphabet[(n >> 12) as usize & 63],
            alphabet[(n >> 6) as usize & 63],
            alphabet[n as usize & 63],
        ];
        for (i, symbol) in symbols.iter().enumerate() {
            encoded.push(if i <= chunk.len() { *symbol } else { b'=' });
        }
    }
    assert_eq!(encoded.len(), 344);
    assert_eq!(decode_image_input(&encoded).unwrap(), Some(bytes));
}

#[test]
fn short_input_names_a_file() {
    assert_eq!(decode_image_input(b"dev/test_data/cards/2/test.jpg").unwrap(), None);
    assert_eq!(decode_image_input(b"").unwrap(), None);
    let valid_but_short = "QUJD".repeat(50);
    assert_eq!(valid_but_short.len(), 200);
    assert_eq!(decode_image_input(valid_but_short.as_bytes()).unwrap(), None);
    let just_longer = "QUJD".repeat(51);
    assert!(decode_image_input(just_longer.as_bytes()).unwrap().is_some());
}

#[test]
fn long_input_that_is_not_base64_fails() {
    for input in [
        "!".repeat(204),
        "QUJD".repeat(60) + "QUJ",
        "QUJD".repeat(60) + "QU=D",
        "QUJD".repeat(60) + "TWE",
        "QUJD".repeat(60) + "TWF=",
        "QUJD".repeat(60) + " QUJD",
        "/".repeat(150) + "/not a name of a file, and not an image either/" + &"/".repeat(60),
    ] {
        assert!(input.len() > 200);
        assert_eq!(decode_image_input(input.as_bytes()).err(), Some(RecError::ImageInvalid));
    }
}

#[test]
fn image_bytes_keeps_the_bytes_or_reports_an_invalid_image() {
    assert_eq!(image_bytes(Ok(vec![1, 2, 3])), Ok(vec![1, 2, 3]));
    assert_eq!(image_bytes(Ok(vec![])), Ok(vec![]));
    for error in [
        base64::DecodeError::InvalidByte(3, b'!'),
        base64::DecodeError::InvalidLength(5),
        base64::DecodeError::InvalidLastSymbol(2, b'F'),
        base64::DecodeError::InvalidPadding,
    ] {
        assert_eq!(image_bytes(Err(error)), Err(RecError::ImageInvalid));
    }
}
