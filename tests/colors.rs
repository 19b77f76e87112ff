use rwal::color::{hex_to_rgb, mix_colors, rgb_to_hex};
use rwal::hsv::{to_hsv, to_rgb, Ratio};
use rwal::order::sort_by_hue;

#[test]
fn blend_truncates_halfway() {
    assert_eq!(mix_colors((0, 0, 0), (255, 255, 255), 50), (127, 127, 127));
}

#[test]
fn blend_exact_values() {
    assert_eq!(mix_colors((10, 20, 30), (110, 120, 130), 0), (10, 20, 30));
    assert_eq!(mix_colors((10, 20, 30), (110, 120, 130), 100), (110, 120, 130));
    assert_eq!(mix_colors((0, 100, 200), (255, 255, 255), 30), (76, 146, 216));
    assert_eq!(mix_colors((0, 0, 0), (255, 255, 255), 200), (255, 255, 255));
}

#[test]
fn hex_encodes_lower_case() {
    assert_eq!(rgb_to_hex((255, 0, 16)), "#ff0010");
    assert_eq!(rgb_to_hex((0, 0, 0)), "#000000");
}

#[test]
fn hex_decodes_either_case() {
    assert_eq!(hex_to_rgb("#FF0010"), Ok((255, 0, 16)));
    assert_eq!(hex_to_rgb("#a0b1c2"), Ok((160, 177, 194)));
}

#[test]
fn hex_rejects_malformed_text() {
    assert!(hex_to_rgb("ff0010").is_err());
    assert!(hex_to_rgb("#ff001").is_err());
    assert!(hex_to_rgb("#gg0010").is_err());
    assert!(hex_to_rgb("#ff00zz").is_err());
    assert!(hex_to_rgb("#ff0010 ").is_err());
}

#[test]
fn hex_round_trip_on_samples() {
    for c in [(0, 0, 0), (255, 255, 255), (1, 128, 254), (17, 34, 51)] {
        assert_eq!(hex_to_rgb(&rgb_to_hex(c)), Ok(c));
    }
}

#[test]
fn hsv_round_trip_is_exact() {
    for r in (0..=255u32).step_by(15) {
        for g in (0..=255u32).step_by(17) {
            for b in (0..=255u32).step_by(51) {
                let c = (r as u8, g as u8, b as u8);
                assert_eq!(to_rgb(&to_hsv(c)), c);
            }
        }
    }
}

#[test]
fn hsv_of_pure_red() {
    let h = to_hsv((255, 0, 0));
    assert_eq!(h.saturation, Ratio { num: 255, den: 255 });
    assert_eq!(h.value, Ratio { num: 255, den: 255 });
    assert_eq!(h.weights, (255, 0, 0));
}

#[test]
fn hsv_with_new_saturation_and_value() {
    let mut h = to_hsv((255, 0, 0));
    h.saturation = Ratio { num: 500, den: 1000 };
    h.value = Ratio { num: 400, den: 1000 };
    assert_eq!(to_rgb(&h), (102, 51, 51));
    let mut g = to_hsv((128, 128, 128));
    g.saturation = Ratio { num: 400, den: 1000 };
    assert_eq!(to_rgb(&g), (128, 77, 77));
}

#[test]
fn clamp_replaces_out_of_range_values() {
    let low = Ratio { num: 1, den: 10 };
    assert_eq!(low.clamp(400, 410), Ratio { num: 400, den: 1000 });
    let high = Ratio { num: 9, den: 10 };
    assert_eq!(high.clamp(400, 410), Ratio { num: 410, den: 1000 });
    let inside = Ratio { num: 81, den: 200 };
    assert_eq!(inside.clamp(400, 410), inside);
    let edge = Ratio { num: 2, den: 5 };
    assert_eq!(edge.clamp(400, 410), edge);
}

#[test]
fn strictly_between_excludes_bounds() {
    assert!(!Ratio { num: 3, den: 10 }.strictly_between(300, 700));
    assert!(!Ratio { num: 7, den: 10 }.strictly_between(300, 700));
    assert!(Ratio { num: 5, den: 10 }.strictly_between(300, 700));
    assert!(!Ratio { num: 1, den: 10 }.strictly_between(300, 700));
}

#[test]
fn sort_orders_by_hue() {
    let p = vec![(0, 0, 255), (255, 0, 0), (0, 255, 0), (255, 255, 0)];
    assert_eq!(sort_by_hue(&p), vec![(255, 0, 0), (255, 255, 0), (0, 255, 0), (0, 0, 255)]);
}

#[test]
fn sort_keeps_order_of_equal_hues() {
    let p = vec![(255, 0, 0), (0, 0, 0), (128, 128, 128), (100, 0, 0)];
    assert_eq!(sort_by_hue(&p), p);
    let q = vec![(0, 0, 0), (255, 0, 0)];
    assert_eq!(sort_by_hue(&q), q);
}

#[test]
fn sort_is_deterministic_and_keeps_sorted_input() {
    let p = vec![(10, 200, 30), (200, 10, 30), (30, 10, 200), (200, 200, 10), (5, 5, 5)];
    assert_eq!(sort_by_hue(&p), sort_by_hue(&p));
    let sorted = sort_by_hue(&p);
    assert_eq!(sort_by_hue(&sorted), sorted);
    let ascending = vec![(255, 0, 0), (255, 128, 0), (0, 255, 0), (0, 0, 255)];
    assert_eq!(sort_by_hue(&ascending), ascending);
}
