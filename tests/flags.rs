use rwal::flag::{parse_i32_text, parse_u32_text, Flag};

fn args(v: &[&str]) -> Vec<String> {
    v.iter().map(|s| s.to_string()).collect()
}

#[test]
fn flag_values_and_switches() {
    let mut f = Flag::new(args(&["rwal", "-i", "img.png", "--thumb-w=50", "-c", "--bg", "#102030"]));
    assert_eq!(f.get_str("-i"), Some("img.png".to_string()));
    assert_eq!(f.get_u32("--thumb-w"), Some(50));
    assert_eq!(f.get_str("--bg"), Some("#102030".to_string()));
    assert!(f.get_bool("-c"));
    assert!(!f.get_bool("-l"));
    assert_eq!(f.get_str("-c"), None);
}

#[test]
fn later_value_replaces_earlier() {
    let mut f = Flag::new(args(&["rwal", "-k", "1", "-k=2"]));
    assert_eq!(f.get_u32("-k"), Some(2));
}

#[test]
fn split_at_first_equals() {
    let mut f = Flag::new(args(&["rwal", "--opt=a=b"]));
    assert_eq!(f.get_str("--opt"), Some("a=b".to_string()));
}

#[test]
fn fallbacks_apply_when_missing_or_unreadable() {
    let mut f = Flag::new(args(&["rwal", "--n", "x"]));
    assert_eq!(f.fget_u32("--n", 7, "a number"), 7);
    assert_eq!(f.fget_u32("--m", 9, "another"), 9);
    assert_eq!(f.fget_str("--n", "d", "text"), "x");
    assert_eq!(f.fget_str("--z", "d", "text"), "d");
    f.set_help_message_prefix("usage");
    assert_eq!(f.get_str("--n"), Some("x".to_string()));
}

#[test]
fn u32_parse_matches_std() {
    for s in ["0", "+7", "42", "4294967295", "4294967296", "", "+", "-1", "1a", " 1", "007"] {
        assert_eq!(parse_u32_text(s), s.parse::<u32>().ok(), "{s}");
    }
}

#[test]
fn i32_values_and_fallbacks() {
    let mut f = Flag::new(args(&["rwal", "--a", "-12", "--b=+34", "--c", "2147483648"]));
    assert_eq!(f.get_i32("--a"), None);
    assert_eq!(f.get_i32("--b"), Some(34));
    assert_eq!(f.get_i32("--c"), None);
    assert_eq!(f.fget_i32("--c", 5, "c"), 5);
    assert_eq!(f.fget_i32("--d", -5, "d"), -5);
}

#[test]
fn i32_parse_matches_std() {
    for s in ["0", "-0", "+7", "-2147483648", "2147483647", "2147483648", "-2147483649", "-", "", "1-", "--1"] {
        assert_eq!(parse_i32_text(s), s.parse::<i32>().ok(), "{s}");
    }
}

#[test]
fn help_lists_sorted_usage_and_options() {
    let mut f = Flag::new(args(&["rwal"]));
    assert_eq!(f.fget_str("-i", "", "image path"), "");
    assert_eq!(f.fget_u32("--thumb-w", 100, "thumb width"), 100);
    let expected = format!(
        "usage: rwal [--thumb-w, unsigned]\n[-i, string]\noptions:\n  -i{} image path\n  --thumb-w{} thumb width",
        " ".repeat(10),
        " ".repeat(3)
    );
    assert_eq!(f.help("rwal", 12), expected);
}

#[test]
fn help_breaks_long_names_and_keeps_one_entry_per_flag() {
    let mut f = Flag::new(args(&["rwal"]));
    f.fget_u32("--thumb-w", 1, "old text");
    f.fget_u32("--thumb-w", 1, "thumb width");
    assert_eq!(
        f.help("rwal", 2),
        "usage: rwal [--thumb-w, unsigned]\noptions:\n  --thumb-w    \n thumb width"
    );
}

#[test]
fn help_pads_by_bytes() {
    let mut f = Flag::new(args(&["rwal"]));
    f.fget_str("-\u{e9}", "", "accent");
    assert_eq!(f.help("rwal", 6), format!("usage: rwal [-\u{e9}, string]\noptions:\n  -\u{e9}{} accent", " ".repeat(3)));
}
