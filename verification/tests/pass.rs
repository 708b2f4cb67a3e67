use blud::{box_blur, box_blur_horz, box_blur_vert};

const SAMPLE: [[u8; 3]; 20] = [
    [0, 7, 255],
    [53, 24, 215],
    [106, 75, 175],
    [159, 160, 135],
    [212, 23, 95],
    [91, 36, 242],
    [144, 53, 202],
    [197, 104, 162],
    [250, 189, 122],
    [47, 52, 82],
    [182, 65, 229],
    [235, 82, 189],
    [32, 133, 149],
    [85, 218, 109],
    [138, 81, 69],
    [17, 94, 216],
    [70, 111, 176],
    [123, 162, 136],
    [176, 247, 96],
    [229, 110, 56],
];

const ROWS_RADIUS_TWO: [[u8; 3]; 20] = [
    [32, 24, 231],
    [64, 55, 207],
    [106, 58, 175],
    [148, 61, 143],
    [180, 61, 119],
    [123, 53, 218],
    [155, 84, 194],
    [146, 87, 162],
    [137, 90, 130],
    [118, 90, 106],
    [163, 82, 205],
    [143, 113, 181],
    [134, 116, 149],
    [126, 119, 117],
    [106, 119, 93],
    [49, 111, 192],
    [81, 142, 168],
    [123, 145, 136],
    [165, 148, 104],
    [197, 148, 80],
];

const COLUMNS_RADIUS_ONE: [[u8; 3]; 20] = [
    [30, 17, 251],
    [83, 34, 211],
    [136, 85, 171],
    [189, 170, 131],
    [157, 33, 91],
    [91, 36, 242],
    [144, 53, 202],
    [112, 104, 162],
    [165, 189, 122],
    [132, 52, 82],
    [97, 65, 229],
    [150, 82, 189],
    [117, 133, 149],
    [170, 218, 109],
    [138, 81, 69],
    [72, 84, 220],
    [125, 101, 180],
    [93, 152, 140],
    [146, 237, 100],
    [199, 100, 60],
];

const ROWS_TWO_COLUMNS_ONE: [[u8; 3]; 20] = [
    [62, 34, 227],
    [94, 65, 203],
    [119, 68, 171],
    [144, 71, 139],
    [159, 71, 115],
    [106, 53, 218],
    [121, 84, 194],
    [129, 87, 162],
    [137, 90, 130],
    [135, 90, 106],
    [112, 82, 205],
    [126, 113, 181],
    [134, 116, 149],
    [143, 119, 117],
    [140, 119, 93],
    [87, 101, 196],
    [102, 132, 172],
    [127, 135, 140],
    [152, 138, 108],
    [167, 138, 84],
];

fn row_filter(line: &[u8], radius: usize) -> Vec<u8> {
    let src: Vec<[u8; 1]> = line.iter().map(|&v| [v]).collect();
    let mut dst = vec![[0u8; 1]; src.len()];
    box_blur_horz(&src, &mut dst, line.len(), 1, radius);
    dst.iter().map(|p| p[0]).collect()
}

fn column_filter(line: &[u8], radius: usize) -> Vec<u8> {
    let src: Vec<[u8; 1]> = line.iter().map(|&v| [v]).collect();
    let mut dst = vec![[0u8; 1]; src.len()];
    box_blur_vert(&src, &mut dst, 1, line.len(), radius);
    dst.iter().map(|p| p[0]).collect()
}

#[test]
fn three_pixel_row_under_a_box_of_width_three() {
    // every window holds the 255 once: 255 / 3 = 85
    assert_eq!(row_filter(&[0, 255, 0], 1), vec![85, 85, 85]);
    assert_eq!(row_filter(&[255, 0, 255], 1), vec![170, 170, 170]);
}

#[test]
fn three_pixel_image_under_one_pass_of_radius_one() {
    let mut front = [[0u8], [255], [0]];
    let mut back = [[9u8]; 3];
    box_blur(&mut back, &mut front, 3, 1, 1, 1);
    assert_eq!(front, [[85], [85], [85]]);
    assert_eq!(back, [[85], [85], [85]]);
}

#[test]
fn row_ends_are_repeated_beyond_the_row() {
    assert_eq!(row_filter(&[10, 20, 30, 40, 50], 1), vec![13, 20, 30, 40, 47]);
    assert_eq!(row_filter(&[0, 0, 0, 0, 255], 2), vec![0, 0, 51, 102, 153]);
    assert_eq!(row_filter(&[255, 0, 0, 0, 0], 2), vec![153, 102, 51, 0, 0]);
}

#[test]
fn column_ends_are_repeated_beyond_the_column() {
    assert_eq!(column_filter(&[10, 20, 30, 40, 50], 1), vec![13, 20, 30, 40, 47]);
    assert_eq!(column_filter(&[0, 0, 0, 0, 255], 2), vec![0, 0, 51, 102, 153]);
}

#[test]
fn radius_beyond_the_line_length() {
    assert_eq!(row_filter(&[0, 255], 5), vec![116, 139]);
    assert_eq!(column_filter(&[0, 255], 5), vec![116, 139]);
    assert_eq!(row_filter(&[0, 255], 2), vec![102, 153]);
    assert_eq!(row_filter(&[0, 255, 0], 3), vec![36, 36, 36]);
    assert_eq!(row_filter(&[7], 3), vec![7]);
    assert_eq!(column_filter(&[7], 1_000_000), vec![7]);
}

#[test]
fn radius_equal_to_the_line_length() {
    assert_eq!(row_filter(&[0, 255], 2), vec![102, 153]);
    assert_eq!(row_filter(&[30, 60, 90], 3), vec![51, 60, 69]);
}

#[test]
fn largest_radius_on_a_short_line() {
    assert_eq!(row_filter(&[0, 255], 0x3fff_ffff), vec![127, 128]);
    assert_eq!(row_filter(&[200, 200, 200], 0x3fff_ffff), vec![200, 200, 200]);
}

#[test]
fn radius_zero_copies() {
    let mut dst = [[0u8; 3]; 20];
    box_blur_horz(&SAMPLE, &mut dst, 5, 4, 0);
    assert_eq!(dst, SAMPLE);
    let mut dst = [[0u8; 3]; 20];
    box_blur_vert(&SAMPLE, &mut dst, 5, 4, 0);
    assert_eq!(dst, SAMPLE);
}

#[test]
fn rows_of_a_colour_image() {
    let mut dst = [[0u8; 3]; 20];
    box_blur_horz(&SAMPLE, &mut dst, 5, 4, 2);
    assert_eq!(dst, ROWS_RADIUS_TWO);
}

#[test]
fn columns_of_a_colour_image() {
    let mut dst = [[0u8; 3]; 20];
    box_blur_vert(&SAMPLE, &mut dst, 5, 4, 1);
    assert_eq!(dst, COLUMNS_RADIUS_ONE);
}

#[test]
fn one_pass_with_two_radii() {
    let mut front = SAMPLE;
    let mut back = [[0u8; 3]; 20];
    box_blur(&mut back, &mut front, 5, 4, 2, 1);
    assert_eq!(front, ROWS_TWO_COLUMNS_ONE);
    assert_eq!(back, ROWS_RADIUS_TWO);
}

#[test]
fn one_pass_over_two_by_two() {
    let mut front = [[0u8], [255], [255], [0]];
    let mut back = [[0u8]; 4];
    box_blur(&mut back, &mut front, 2, 2, 1, 1);
    assert_eq!(back, [[85], [170], [170], [85]]);
    assert_eq!(front, [[113], [142], [142], [113]]);
}

#[test]
fn rows_do_not_mix() {
    let src = [[0u8], [0], [0], [255], [255], [255]];
    let mut dst = [[7u8]; 6];
    box_blur_horz(&src, &mut dst, 3, 2, 2);
    assert_eq!(dst, src);
}

#[test]
fn columns_do_not_mix() {
    let src = [[0u8], [255], [0], [255], [0], [255]];
    let mut dst = [[7u8]; 6];
    box_blur_vert(&src, &mut dst, 2, 3, 2);
    assert_eq!(dst, src);
}

#[test]
fn each_channel_is_filtered_alone() {
    for k in 0..3 {
        let mut lone = [[0u8; 3]; 20];
        let mut single = [[0u8; 1]; 20];
        for i in 0..20 {
            lone[i][k] = SAMPLE[i][1];
            single[i][0] = SAMPLE[i][1];
        }
        let mut back = [[0u8; 3]; 20];
        box_blur(&mut back, &mut lone, 5, 4, 2, 1);
        let mut single_back = [[0u8; 1]; 20];
        box_blur(&mut single_back, &mut single, 5, 4, 2, 1);
        for i in 0..20 {
            for c in 0..3 {
                let expected = if c == k { single[i][0] } else { 0 };
                assert_eq!(lone[i][c], expected);
            }
            assert_eq!(single[i][0], ROWS_TWO_COLUMNS_ONE[i][1]);
        }
    }
}

#[test]
fn one_colour_stays_under_every_radius() {
    for radius in [0usize, 1, 2, 3, 4, 5, 6, 50, 1000, 0x3fff_ffff] {
        let mut front = [[12u8, 200, 255, 0]; 12];
        let mut back = [[0u8; 4]; 12];
        box_blur(&mut back, &mut front, 4, 3, radius, radius);
        assert_eq!(front, [[12u8, 200, 255, 0]; 12]);
        assert_eq!(back, [[12u8, 200, 255, 0]; 12]);
    }
}

#[test]
fn empty_images_stay_empty() {
    let src: [[u8; 3]; 0] = [];
    let mut dst: [[u8; 3]; 0] = [];
    box_blur_horz(&src, &mut dst, 0, 7, 3);
    box_blur_horz(&src, &mut dst, 7, 0, 3);
    box_blur_vert(&src, &mut dst, 0, 7, 3);
    box_blur_vert(&src, &mut dst, 7, 0, 3);
    assert_eq!(dst, src);
}

#[test]
fn pixels_without_channels() {
    let src = [[0u8; 0]; 6];
    let mut dst = [[0u8; 0]; 6];
    box_blur_horz(&src, &mut dst, 3, 2, 1);
    box_blur_vert(&src, &mut dst, 3, 2, 1);
    assert_eq!(dst.len(), 6);
}
