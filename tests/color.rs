use color_smash::bits::{convert_3_bits_to_8, convert_4_bits_to_8, convert_5_bits_to_8};
use color_smash::color::{as_output, mean_of_colors, ColorType, Rgb5a3, Rgba8, DISTANCE_SCALE};
use color_smash::grouping::Grouped;

fn px(data: [u8; 4]) -> Rgba8 {
    Rgba8 { r: data[0], g: data[1], b: data[2], a: data[3] }
}

fn check_rgba8_to_rgb5a3() {
    let test_data: [([u8; 4], u16); 3] = [
        ([0xFF, 0x00, 0x08, 0xFF], (1 << 15) | (0x1F << 10) | (0 << 5) | 1),
        ([0xED, 0x04, 0x05, 0xED], (1 << 15) | (0x1D << 10) | (0 << 5) | 1),
        ([0xEC, 0x08, 0x09, 0xEC], (6 << 12) | (0x0E << 8) | (0 << 4) | 1),
    ];
    for &(test_data, expected_data) in &test_data {
        let expected = Rgb5a3 { data: expected_data };
        let result = Rgb5a3::new(px(test_data));
        assert_eq!(expected, result);
    }
}

#[test]
fn rgba8_to_rgb5a3_test() {
    check_rgba8_to_rgb5a3();
}

#[test]
fn tests_rgba8_to_rgb5a3_test() {
    check_rgba8_to_rgb5a3();
}

fn check_rgb5a3_as_pixel() {
    let test_data: [(u16, [u8; 4]); 3] = [
        ((1 << 15) | (0x1F << 10) | (0 << 5) | 1, [0xFF, 0x00, 0x08, 0xFF]),
        ((1 << 15) | (0x1D << 10) | (0 << 5) | 1, [0xEF, 0x00, 0x08, 0xFF]),
        ((0x6 << 12) | (0x0E << 8) | (0 << 4) | 1, [0xEE, 0x00, 0x11, 0xDB]),
    ];
    for &(test_data, expected_data) in &test_data {
        let test_color = Rgb5a3 { data: test_data };
        let expected = px(expected_data);
        let result = test_color.as_pixel();
        assert_eq!(expected, result);
    }
}

#[test]
fn rgb5a3_as_pixel_test() {
    check_rgb5a3_as_pixel();
}

#[test]
fn tests_rgb5a3_as_pixel_test() {
    check_rgb5a3_as_pixel();
}

fn check_rgb5_accessors() {
    let test_data: [(u16, (u16, u16, u16)); 2] = [
        ((1 << 15) | (0x1F << 10) | (0 << 5) | 1, (0x1F, 0, 1)),
        ((1 << 15) | (0x1D << 10) | (0 << 5) | 1, (0x1D, 0, 1)),
    ];
    for &(test_data, (expected_r, expected_g, expected_b)) in &test_data {
        let test_color = Rgb5a3 { data: test_data };
        let r = test_color.r5();
        let g = test_color.g5();
        let b = test_color.b5();
        assert_eq!(expected_r, r);
        assert_eq!(expected_g, g);
        assert_eq!(expected_b, b);
    }
}

#[test]
fn rgb5a3_rgb5_accessors_test() {
    check_rgb5_accessors();
}

#[test]
fn tests_rgb5a3_rgb5_accessors_test() {
    check_rgb5_accessors();
}

fn check_convert_5_bits_to_8() {
    let test_data: [(u16, u8); 3] = [(0, 0), (1, 8), (0x1F, 0xFF)];
    for &(test_data, expected_result) in &test_data {
        let actual_result = convert_5_bits_to_8(test_data);
        assert_eq!(expected_result, actual_result);
    }
}

#[test]
fn convert_5_bits_to_8_test() {
    check_convert_5_bits_to_8();
}

#[test]
fn tests_convert_5_bits_to_8_test() {
    check_convert_5_bits_to_8();
}

fn check_color_distance() {
    let test_data: [([u8; 4], [u8; 4], f64); 2] = [
        ([0xFF, 0xFF, 0xFF, 0xFF], [0x00, 0x00, 0x00, 0xFF], 3.0),
        ([0xFF, 0xFF, 0xFF, 0xFF], [0x00, 0x00, 0x00, 0x00], 3.0),
    ];
    for &(first_color, second_color, expected_distance) in &test_data {
        let first = px(first_color);
        let second = px(second_color);
        let result = first.simple_distance_to(&second) as f64 / DISTANCE_SCALE as f64;
        assert_eq!(expected_distance, result);
    }
}

#[test]
fn color_distance_test() {
    check_color_distance();
}

#[test]
fn tests_color_distance_test() {
    check_color_distance();
}

fn check_color_mean() {
    let test_data: [([([u8; 4], u32); 2], [u8; 4]); 3] = [
        ([([0xFF, 0x80, 0x00, 0xFF], 1), ([0x00, 0x00, 0x00, 0xFF], 1)], [0x80, 0x40, 0x00, 0xFF]),
        ([([0xFF, 0xFF, 0xFF, 0x00], 1), ([0x80, 0x80, 0x80, 0x00], 1)], [0x00, 0x00, 0x00, 0x00]),
        ([([0xFF, 0x80, 0x00, 0x80], 2), ([0x00, 0x00, 0x00, 0xFF], 1)], [0x80, 0x40, 0x00, 0xAA]),
    ];
    for &(colors, expected_data) in &test_data {
        let nodes: Vec<Grouped<Rgba8>> =
            colors.iter().map(|&(color_data, count)| Grouped { data: px(color_data), count }).collect();
        let expected_mean = px(expected_data);
        let result = mean_of_colors(&nodes);
        assert_eq!(expected_mean, result);
    }
}

#[test]
fn color_mean_test() {
    check_color_mean();
}

#[test]
fn tests_color_mean_test() {
    check_color_mean();
}

#[test]
fn widening_of_reduced_channels() {
    assert_eq!(convert_4_bits_to_8(0), 0);
    assert_eq!(convert_4_bits_to_8(9), 153);
    assert_eq!(convert_4_bits_to_8(15), 255);
    assert_eq!(convert_3_bits_to_8(1), 36);
    assert_eq!(convert_3_bits_to_8(6), 219);
    assert_eq!(convert_3_bits_to_8(7), 255);
    assert_eq!(convert_5_bits_to_8(29), 239);
}

#[test]
fn distance_is_symmetric_and_zero_on_itself() {
    let a = px([10, 200, 30, 128]);
    let b = px([250, 0, 99, 7]);
    assert_eq!(a.simple_distance_to(&b), b.simple_distance_to(&a));
    assert_eq!(a.simple_distance_to(&a), 0);
    // (240² + 200² + 69²) * 128 * 7 + 3 * 121² * 65025
    assert_eq!(a.simple_distance_to(&b), 102_361 * 896 + 3 * 14_641 * 65_025);
}

#[test]
fn transparent_colors_collapse() {
    assert_eq!(Rgba8::new(12, 34, 56, 0), Rgba8 { r: 0, g: 0, b: 0, a: 0 });
    assert_eq!(Rgba8::new(12, 34, 56, 1), Rgba8 { r: 12, g: 34, b: 56, a: 1 });
    assert_eq!(as_output(ColorType::Rgba8, px([9, 9, 9, 0])), px([0, 0, 0, 0]));
    assert_eq!(Rgb5a3::new(px([200, 100, 50, 18])), Rgb5a3 { data: 0 });
}

#[test]
fn rgb5a3_round_trip_is_idempotent() {
    for a in [0u8, 17, 18, 37, 100, 127, 128, 200, 236, 237, 255] {
        for v in [0u8, 1, 8, 9, 100, 128, 200, 254, 255] {
            let c = px([v, 255 - v, v / 2, a]);
            let packed = Rgb5a3::new(c);
            assert_eq!(Rgb5a3::new(packed.as_pixel()), packed);
            let out = as_output(ColorType::Rgb5a3, c);
            assert_eq!(as_output(ColorType::Rgb5a3, out), out);
        }
    }
}

#[test]
fn rgb4a3_accessors() {
    let c = Rgb5a3 { data: (6 << 12) | (0x0E << 8) | (0x3 << 4) | 1 };
    assert!(!c.is_rgb5());
    assert_eq!((c.a3(), c.r4(), c.g4(), c.b4()), (6, 14, 3, 1));
}

#[test]
fn normalized_distance_subtracts_the_format_floor() {
    let c = px([0xED, 0x04, 0x05, 0xED]);
    let out = as_output(ColorType::Rgb5a3, c);
    assert_eq!(out, px([0xEF, 0x00, 0x08, 0xFF]));
    assert_eq!(c.normalized_distance(ColorType::Rgb5a3, &out), 0);
    let far = px([0, 0, 0, 0xFF]);
    let expected = c.simple_distance_to(&far) - c.simple_distance_to(&out);
    assert_eq!(c.normalized_distance(ColorType::Rgb5a3, &far), expected);
    // In RGBA8 an opaque color is its own output, so nothing is subtracted.
    assert_eq!(far.normalized_distance(ColorType::Rgba8, &c), far.simple_distance_to(&c));
    // A candidate nearer than the format's own rounding clamps to zero.
    let exact = px([0xED, 0x04, 0x05, 0xED]);
    assert_eq!(c.normalized_distance(ColorType::Rgb5a3, &exact), 0);
}
