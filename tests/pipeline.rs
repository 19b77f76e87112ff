use rwal::backends::{Backend, ColorThief, ColorZ};
use rwal::color::mix_colors;
use rwal::config::Config;
use rwal::order::sort_by_hue;
use rwal::rwal::{Colorscheme, Rwal, RwalError};

fn plain_settings() -> Config {
    Config {
        clamp_saturation: false,
        clamp_value: false,
        skip_saturation: false,
        skip_value: false,
        ..Config::default()
    }
}

fn eight() -> Vec<(u8, u8, u8)> {
    vec![
        (0, 0, 255),
        (255, 0, 0),
        (0, 255, 0),
        (255, 255, 0),
        (0, 255, 255),
        (255, 0, 255),
        (255, 128, 0),
        (128, 0, 255),
    ]
}

#[test]
fn skip_filter_drops_bounds_and_outside() {
    let cfg = Config { skip_saturation: true, skip_value: true, ..plain_settings() };
    let rwal = Rwal::from_config(&cfg);
    // saturation 0.3, 0.4, 0.5, 0.7 and 1.0 at value 200/255
    let samples = vec![(200, 140, 140), (200, 120, 120), (200, 100, 100), (200, 60, 60), (200, 0, 0)];
    assert_eq!(rwal.prepare_colors(&samples), vec![(200, 120, 120), (200, 100, 100)]);
    // values just below and above 0.1, at and just below 0.9
    let dark = vec![(20, 12, 12), (26, 15, 15), (230, 138, 138), (229, 137, 137)];
    assert_eq!(rwal.prepare_colors(&dark), vec![(26, 15, 15), (229, 137, 137)]);
}

#[test]
fn filters_off_keep_every_sample() {
    let rwal = Rwal::from_config(&plain_settings());
    let samples = vec![(0, 0, 0), (255, 255, 255), (12, 200, 99)];
    assert_eq!(rwal.prepare_colors(&samples), samples);
}

#[test]
fn clamps_pin_saturation_and_value() {
    let cfg = Config { clamp_saturation: true, clamp_value: true, ..plain_settings() };
    let rwal = Rwal::from_config(&cfg);
    // red: saturation 1 -> 0.41, value 1 -> 0.5
    assert_eq!(rwal.prepare_colors(&vec![(255, 0, 0)]), vec![(128, 75, 75)]);
}

#[test]
fn default_settings_drop_saturated_red() {
    let rwal = Rwal::from_config(&Config::default());
    let red = vec![(255, 0, 0); 4];
    assert_eq!(rwal.prepare_colors(&red), vec![]);
}

#[test]
fn light_mode_swaps_background_and_foreground() {
    let cfg = Config { light: true, ..Config::default() };
    let rwal = Rwal::from_config(&cfg);
    assert_eq!(rwal.bg_color, (255, 255, 255));
    assert_eq!(rwal.fg_color, (0, 0, 0));
}

#[test]
fn solid_red_end_to_end() {
    let cfg = Config::default();
    let rwal = Rwal::from_config(&cfg);
    let padded = ColorZ.pad_palette(vec![(255, 0, 0)], 8);
    assert_eq!(padded.len(), 8);
    let ordered = sort_by_hue(&padded);
    assert_eq!(ordered[0], (255, 0, 0));
    assert!(ordered[1..].iter().all(|c| *c == (0, 0, 0)));
    let scheme = rwal.generate_colorscheme(Some(padded)).unwrap();
    assert_eq!(scheme.t0, mix_colors(cfg.bg_color, ordered[0], cfg.bg_strength));
    assert_eq!(scheme.t0, (25, 0, 0));
    assert_eq!(scheme.t7, (255, 229, 229));
    assert_eq!(scheme.t1, (0, 0, 0));
    assert_eq!(scheme.t8, mix_colors((25, 0, 0), (255, 255, 255), 10));
    assert_eq!(scheme.t15, mix_colors((255, 229, 229), (255, 255, 255), 10));
}

#[test]
fn scheme_slots_follow_ordered_palette() {
    let cfg = Config { bg_idx: 2, fg_idx: 5, bg_strength: 50, fg_strength: 0, ..Config::default() };
    let rwal = Rwal::from_config(&cfg);
    let ordered = sort_by_hue(&eight());
    let s = rwal.generate_colorscheme(Some(eight())).unwrap();
    let arr = s.into_array();
    for i in 1..7 {
        assert_eq!(arr[i], ordered[i]);
        assert_eq!(arr[i + 8], mix_colors(ordered[i], (255, 255, 255), 30));
    }
    assert_eq!(s.t0, mix_colors((0, 0, 0), ordered[2], 50));
    assert_eq!(s.t7, (255, 255, 255));
}

#[test]
fn missing_palette_is_an_error() {
    let rwal = Rwal::from_config(&Config::default());
    assert_eq!(rwal.generate_colorscheme(None), Err(RwalError::QuantizationFailure));
}

#[test]
fn short_palette_is_an_error() {
    let rwal = Rwal::from_config(&Config::default());
    let seven = eight()[..7].to_vec();
    assert_eq!(rwal.generate_colorscheme(Some(seven)), Err(RwalError::InsufficientPalette));
}

#[test]
fn cache_text_round_trip() {
    let rwal = Rwal::from_config(&Config::default());
    let s = rwal.generate_colorscheme(Some(eight())).unwrap();
    let text = s.to_cache_text();
    assert_eq!(text.lines().count(), 16);
    assert_eq!(&text[..7], &rwal::color::rgb_to_hex(s.t0));
    assert_eq!(Colorscheme::from_cache_text(&text), Some(s));
}

#[test]
fn cache_text_rejects_damaged_text() {
    let rwal = Rwal::from_config(&Config::default());
    let s = rwal.generate_colorscheme(Some(eight())).unwrap();
    let text = s.to_cache_text();
    assert_eq!(Colorscheme::from_cache_text(&text[..120]), None);
    let broken = text.replacen("\n", " ", 1);
    assert_eq!(Colorscheme::from_cache_text(&broken), None);
    let bad_digit = format!("#zz{}", &text[3..]);
    assert_eq!(Colorscheme::from_cache_text(&bad_digit), None);
}

#[test]
fn default_fingerprint_text() {
    assert_eq!(
        Config::default().cache_string(),
        "colorz_100_100_#000000_0_10_#ffffff_0_10_false_true_true_true_false_0.4_0.5_0.4_0.41_0.1_0.9_0.3_0.7"
    );
}

#[test]
fn fingerprint_tracks_thumb_width() {
    let a = Config::default();
    let b = Config { thumb_w: 101, ..a };
    let c = Config { thumb_w: 100, ..a };
    assert_ne!(a.cache_string(), b.cache_string());
    assert_eq!(a.cache_string(), c.cache_string());
    let d = Config { skip_value_max: 1000, skip_value_min: 0, backend: Backend::Colorthief, ..a };
    assert!(d.cache_string().starts_with("colorthief_100_100_"));
    assert!(d.cache_string().ends_with("_0.41_0_1_0.3_0.7"));
}

#[test]
fn fingerprint_separates_neighbouring_fields() {
    let a = Config { thumb_w: 1, thumb_h: 23, ..Config::default() };
    let b = Config { thumb_w: 12, thumb_h: 3, ..Config::default() };
    assert_ne!(a.cache_string(), b.cache_string());
    let c = Config { skip_saturation_max: 700, ..Config::default() };
    let d = Config { skip_saturation_max: 750, ..Config::default() };
    assert_ne!(c.cache_name("5x.png"), d.cache_name("x.png"));
}

#[test]
fn cache_name_uses_last_path_segment() {
    let a = Config::default();
    assert_eq!(a.cache_name("/home/me/pics/sea.png"), format!("{}_sea.png", a.cache_string()));
    assert_eq!(a.cache_name("sea.png"), format!("{}_sea.png", a.cache_string()));
    assert_eq!(a.cache_name("dir/"), format!("{}_", a.cache_string()));
}

#[test]
fn validate_reports_broken_invariants() {
    assert!(Config::default().validate().is_ok());
    assert!(Config { bg_idx: 8, ..Config::default() }.validate().is_err());
    assert!(Config { thumb_w: 0, ..Config::default() }.validate().is_err());
    assert!(Config { fg_strength: 101, ..Config::default() }.validate().is_err());
    assert!(Config { clamp_value_min: 600, ..Config::default() }.validate().is_err());
    assert!(Config { skip_saturation_max: 1001, ..Config::default() }.validate().is_err());
}

#[test]
fn backend_names() {
    assert_eq!(Backend::from_name("colorthief"), Backend::Colorthief);
    assert_eq!(Backend::from_name("ColorThief"), Backend::Colorthief);
    assert_eq!(Backend::from_name("colorz"), Backend::ColorZ);
    assert_eq!(Backend::from_name("anything"), Backend::ColorZ);
    assert_eq!(Backend::Colorthief.to_string(), "colorthief");
    assert_eq!(Backend::ColorZ.to_string(), "colorz");
    assert_eq!(Backend::default(), Backend::ColorZ);
}

#[test]
fn colorz_pads_with_black_and_keeps_long_lists() {
    assert_eq!(ColorZ.pad_palette(vec![(1, 2, 3)], 3), vec![(1, 2, 3), (0, 0, 0), (0, 0, 0)]);
    assert_eq!(ColorZ.pad_palette(eight(), 4), eight());
    assert_eq!(ColorZ.seeds(), [64, 65, 66]);
}

#[test]
fn colorz_picks_lowest_score_first_on_ties() {
    assert_eq!(ColorZ.best_run(&vec![5, 3, 3]), 1);
    assert_eq!(ColorZ.best_run(&vec![2, 3, 4]), 0);
    assert_eq!(ColorZ.best_run(&vec![9, 8, 1]), 2);
}

#[test]
fn colorthief_empty_input_fails() {
    assert_eq!(ColorThief.generate_palette(&vec![], 8), None);
}

#[test]
fn colorthief_count_range() {
    let colors: Vec<(u8, u8, u8)> =
        (0..200u32).map(|i| (i as u8, (255 - i) as u8, ((i * 37) % 256) as u8)).collect();
    assert_eq!(ColorThief.generate_palette(&colors, 0), None);
    assert_eq!(ColorThief.generate_palette(&colors, 1), None);
    let p = ColorThief.generate_palette(&colors, 1000).unwrap();
    assert!(!p.is_empty() && p.len() <= 255);
    assert_eq!(Some(p), ColorThief.generate_palette(&colors, 255));
}

#[test]
fn colorthief_reduces_a_gradient() {
    let colors: Vec<(u8, u8, u8)> =
        (0..200u32).map(|i| (i as u8, (255 - i) as u8, ((i * 37) % 256) as u8)).collect();
    let p = ColorThief.generate_palette(&colors, 8).unwrap();
    assert!(!p.is_empty());
    assert!(p.len() <= 8);
    assert_ne!(p, colors);
}

#[test]
fn html_preview_shows_every_slot() {
    let rwal = Rwal::from_config(&Config::default());
    let s = rwal.generate_colorscheme(Some(eight())).unwrap();
    let html = s.html_preview();
    assert!(html.starts_with("<html><body style=\"background: rgb(25, 0, 0); color: rgb("));
    assert_eq!(html.matches("<div style=").count(), 16);
    for c in s.into_array() {
        assert!(html.contains(&format!("rgb({}, {}, {})", c.0, c.1, c.2)));
    }
}
