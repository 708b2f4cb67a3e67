use blud::plan::{create_box_gauss, isqrt};
use blud::BlurRadius;

fn sigma(value: f32) -> BlurRadius {
    BlurRadius::from_bits(value.to_bits()).unwrap()
}

#[test]
fn isqrt_rounds_down() {
    assert_eq!(isqrt(0), 0);
    assert_eq!(isqrt(1), 1);
    assert_eq!(isqrt(3), 1);
    assert_eq!(isqrt(4), 2);
    assert_eq!(isqrt(8), 2);
    assert_eq!(isqrt(9), 3);
    assert_eq!(isqrt(900), 30);
    assert_eq!(isqrt(901), 30);
    assert_eq!(isqrt(960), 30);
    assert_eq!(isqrt(961), 31);
    assert_eq!(isqrt(0xffff_fffe_0000_0000), 0xffff_fffe);
    assert_eq!(isqrt(0xffff_fffe_0000_0001), 0xffff_ffff);
    assert_eq!(isqrt(u64::MAX), 0xffff_ffff);
}

#[test]
fn isqrt_brackets_every_small_number() {
    for x in 0u64..5000 {
        let root = isqrt(x);
        assert!(root * root <= x && x < (root + 1) * (root + 1));
    }
}

#[test]
fn zero_deviation_plans_boxes_of_width_one() {
    assert_eq!(create_box_gauss::<3>(sigma(0.0)), [1, 1, 1]);
    assert_eq!(create_box_gauss::<1>(sigma(0.0)), [1]);
    assert_eq!(create_box_gauss::<4>(sigma(-0.0)), [1, 1, 1, 1]);
}

#[test]
fn no_passes_need_no_widths() {
    assert_eq!(create_box_gauss::<0>(sigma(15.0)), [0i32; 0]);
    assert_eq!(create_box_gauss::<0>(sigma(0.0)), [0i32; 0]);
}

#[test]
fn three_passes_for_deviation_fifteen() {
    // ideal width sqrt(901), lower width 29, exact count 1.5
    assert_eq!(create_box_gauss::<3>(sigma(15.0)), [29, 29, 31]);
}

#[test]
fn widths_for_other_pass_counts() {
    assert_eq!(create_box_gauss::<1>(sigma(15.0)), [51]);
    assert_eq!(create_box_gauss::<4>(sigma(15.0)), [25, 25, 27, 27]);
    assert_eq!(create_box_gauss::<2>(sigma(0.7)), [1, 3]);
    assert_eq!(create_box_gauss::<4>(sigma(100.0)), [173, 173, 173, 173]);
    assert_eq!(create_box_gauss::<1>(sigma(1.0)), [3]);
    assert_eq!(create_box_gauss::<1>(sigma(2.0)), [7]);
}

#[test]
fn widths_for_small_deviations() {
    assert_eq!(create_box_gauss::<3>(sigma(0.5)), [1, 1, 1]);
    assert_eq!(create_box_gauss::<3>(sigma(1e-30)), [1, 1, 1]);
    assert_eq!(create_box_gauss::<3>(sigma(f32::MIN_POSITIVE)), [1, 1, 1]);
    // the plan leaves the identity where sigma^2 passes one third
    assert_eq!(create_box_gauss::<3>(sigma(0.57735)), [1, 1, 1]);
    assert_eq!(create_box_gauss::<3>(sigma(0.5774)), [1, 1, 3]);
    assert_eq!(create_box_gauss::<3>(sigma(1.0)), [1, 1, 3]);
    assert_eq!(create_box_gauss::<3>(sigma(2.0)), [3, 3, 5]);
    assert_eq!(create_box_gauss::<3>(sigma(3.0)), [5, 5, 7]);
}

#[test]
fn widths_for_large_deviations() {
    assert_eq!(create_box_gauss::<3>(sigma(50.0)), [99, 99, 101]);
    assert_eq!(create_box_gauss::<1>(sigma(16_777_215.0)), [58_117_977]);
    assert_eq!(
        create_box_gauss::<3>(sigma(16_777_215.0)),
        [33_554_429, 33_554_429, 33_554_431]
    );
}

#[test]
fn every_width_is_odd_and_positive() {
    let mut bits = 1u32;
    while bits < 0x4b80_0000 {
        let radius = BlurRadius::from_bits(bits).unwrap();
        for width in create_box_gauss::<1>(radius) {
            assert!(width >= 1 && width % 2 == 1, "{bits:#x}");
        }
        for width in create_box_gauss::<3>(radius) {
            assert!(width >= 1 && width % 2 == 1, "{bits:#x}");
        }
        for width in create_box_gauss::<4>(radius) {
            assert!(width >= 1 && width % 2 == 1, "{bits:#x}");
        }
        bits += 0x0003_1417;
    }
}

#[test]
fn widths_never_decrease_and_differ_by_at_most_two() {
    for tenth in 1..=600 {
        let widths = create_box_gauss::<4>(sigma(tenth as f32 / 10.0));
        for pair in widths.windows(2) {
            assert!(pair[0] == pair[1] || pair[0] + 2 == pair[1]);
        }
        assert!(widths[3] - widths[0] <= 2);
    }
}

fn variance(widths: &[i32]) -> f64 {
    widths.iter().map(|&w| f64::from(w * w - 1) / 12.0).sum()
}

#[test]
fn summed_variance_is_within_the_rounding_of_the_count() {
    for tenth in 5..=500 {
        let value = tenth as f32 / 10.0;
        let target = f64::from(value) * f64::from(value);
        let three = create_box_gauss::<3>(sigma(value));
        assert!((variance(&three) - target).abs() <= f64::from(three[0] + 1) / 6.0 + 1e-9);
        let one = create_box_gauss::<1>(sigma(value));
        assert!((variance(&one) - target).abs() <= f64::from(one[0] + 1) / 6.0 + 1e-9);
        let four = create_box_gauss::<4>(sigma(value));
        assert!((variance(&four) - target).abs() <= f64::from(four[0] + 1) / 6.0 + 1e-9);
    }
}

#[test]
fn summed_variance_is_within_five_percent_from_deviation_six_on() {
    for tenth in 61..=500 {
        let value = tenth as f32 / 10.0;
        let target = f64::from(value) * f64::from(value);
        let widths = create_box_gauss::<3>(sigma(value));
        let relative = (variance(&widths) - target).abs() / target;
        assert!(relative < 0.05, "sigma {value}: {relative}");
    }
}

#[test]
fn summed_variance_of_an_identity_plan_is_zero() {
    // below a deviation of about 0.577 the nearest plan is the identity
    assert_eq!(variance(&create_box_gauss::<3>(sigma(0.5))), 0.0);
}

#[test]
fn summed_variance_is_within_five_percent_from_deviation_twelve_on() {
    for tenth in 120..=2000 {
        let value = tenth as f32 / 10.0;
        let target = f64::from(value) * f64::from(value);
        let one = create_box_gauss::<1>(sigma(value));
        assert!((variance(&one) - target).abs() <= 0.05 * target, "sigma {value}");
        let two = create_box_gauss::<2>(sigma(value));
        assert!((variance(&two) - target).abs() <= 0.05 * target, "sigma {value}");
        let seven = create_box_gauss::<7>(sigma(value));
        assert!((variance(&seven) - target).abs() <= 0.05 * target, "sigma {value}");
    }
}
