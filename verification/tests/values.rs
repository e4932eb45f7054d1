use nvram_editor::change_format::{change_summary, split_change_summary};
use nvram_editor::nvram::BiosSetting;
use nvram_editor::validation::{extract_angle_value, setting_value_changed, validate_all_settings};

fn setting(width: &str, value: Option<&str>) -> BiosSetting {
    BiosSetting {
        setup_question: " Limit ".into(),
        help_string: String::new(),
        token: "1".into(),
        offset: "2".into(),
        width: width.into(),
        bios_default: None,
        options: vec![],
        active_option: None,
        value: value.map(|v| v.to_string()),
        content: vec![],
    }
}

fn check(width: &str, original: Option<&str>, current: &str) -> Result<(), String> {
    validate_all_settings(&[setting(width, Some(current))], &[setting(width, original)])
}

#[test]
fn extract_angle() {
    assert_eq!(extract_angle_value("<deadbeef>"), Some("deadbeef"));
    assert_eq!(extract_angle_value("nope"), None);
}

#[test]
fn angle_brackets_need_two_characters() {
    assert_eq!(extract_angle_value("<>"), Some(""));
    assert_eq!(extract_angle_value("<"), None);
    assert_eq!(extract_angle_value(">"), None);
    assert_eq!(extract_angle_value("<a"), None);
    assert_eq!(extract_angle_value(""), None);
    assert_eq!(extract_angle_value("<\u{e9}\u{20ac}>"), Some("\u{e9}\u{20ac}"));
}

#[test]
fn changes_are_seen() {
    let a = setting("01", Some("1"));
    let mut b = setting("01", Some("1"));
    assert!(!setting_value_changed(&a, &b));
    b.value = Some("2".into());
    assert!(setting_value_changed(&a, &b));
    b.value = None;
    assert!(setting_value_changed(&a, &b));
    b.value = Some("1".into());
    b.active_option = Some(0);
    assert!(setting_value_changed(&a, &b));
    b.active_option = None;
    b.help_string = "other".into();
    assert!(!setting_value_changed(&a, &b));
}

#[test]
fn empty_values_are_refused() {
    assert_eq!(
        check("01", Some("1"), "  "),
        Err("Invalid value in 'Limit': value cannot be empty.".to_string())
    );
}

#[test]
fn angle_brackets_have_to_stay() {
    let message = "Invalid format in 'Limit': expected angle-bracket format like <...>.";
    assert_eq!(check("01", Some("<1>"), "2"), Err(message.to_string()));
    assert_eq!(check("01", Some("1"), "<2>"), Err(message.to_string()));
    assert_eq!(check("01", None, "<2>"), Err(message.to_string()));
    assert_eq!(check("01", Some("<1>"), " <2> "), Ok(()));
}

#[test]
fn hexadecimal_stays_hexadecimal() {
    let message = "Invalid value in 'Limit': expected hexadecimal format.";
    for original in ["0x10", "0X10", "10h", "FF", "<0x1>"] {
        let bad = if original.starts_with('<') { "<xyz>" } else { "xyz" };
        assert_eq!(check("02", Some(original), bad), Err(message.to_string()), "{original}");
        let good = if original.starts_with('<') { "<0x2>" } else { "20h" };
        assert_eq!(check("02", Some(original), good), Ok(()), "{original}");
    }
    assert_eq!(check("02", Some("0x10"), "0x"), Err(message.to_string()));
    assert_eq!(check("02", Some("0x10"), "+1"), Err(message.to_string()));
}

#[test]
fn decimal_stays_decimal() {
    let message = "Invalid value in 'Limit': expected decimal digits.";
    assert_eq!(check("02", Some("10"), "0x2"), Err(message.to_string()));
    assert_eq!(check("02", Some("<10>"), "<1 2>"), Err(message.to_string()));
    assert_eq!(check("02", Some("10"), "65535"), Ok(()));
}

#[test]
fn values_have_to_fit_their_width() {
    assert_eq!(
        check("01", Some("1"), "256"),
        Err("Value out of range in 'Limit': max for Width=01 is 0xFF (255).".to_string())
    );
    assert_eq!(check("01", Some("1"), "255"), Ok(()));
    assert_eq!(
        check(" 0x2 ", Some("<0x1>"), "<10000>"),
        Err("Value out of range in 'Limit': max for Width=0x2 is 0xFFFF (65535).".to_string())
    );
    assert_eq!(check("4", Some("0x0"), "FFFFFFFF"), Ok(()));
    assert_eq!(
        check("7", Some("0x0"), "100000000000000"),
        Err(
            "Value out of range in 'Limit': max for Width=7 is 0xFFFFFFFFFFFFFF (72057594037927935)."
                .to_string()
        )
    );
    assert_eq!(check("8", Some("0x0"), "FFFFFFFFFFFFFFFF"), Ok(()));
    assert_eq!(check("8", Some("0x0"), "10000000000000000"), Ok(()));
    assert_eq!(check("9", Some("1"), "99999"), Ok(()));
    assert_eq!(check("00", Some("1"), "99999"), Ok(()));
    assert_eq!(check("zz", Some("1"), "99999"), Ok(()));
    assert_eq!(check("0x0X0x1", Some("1"), "256"), Ok(()));
    assert!(check("0x0x0X01", Some("1"), "256").is_err());
}

#[test]
fn free_text_is_not_checked() {
    // Without a letter from a to f and without digits alone, the original sets no base.
    assert_eq!(check("01", Some("on/ok!"), "anything goes"), Ok(()));
    assert_eq!(check("01", Some("on/ok!"), "255"), Ok(()));
    assert!(check("01", Some("on/ok!"), "256").is_err());
}

#[test]
fn unchanged_settings_and_options_are_valid() {
    assert_eq!(check("01", Some("999999"), "999999"), Ok(()));
    let mut s = setting("01", Some("999999"));
    s.options = vec!["[00]A".into()];
    assert_eq!(validate_all_settings(&[s], &[setting("01", Some("1"))]), Ok(()));
    let none = setting("01", None);
    assert_eq!(validate_all_settings(&[none], &[setting("01", Some("1"))]), Ok(()));
    assert_eq!(validate_all_settings(&[setting("01", Some(""))], &[]), Ok(()));
}

#[test]
fn the_first_fault_is_reported() {
    let originals = [setting("01", Some("1")), setting("01", Some("1")), setting("01", Some("1"))];
    let current = [setting("01", Some("2")), setting("01", Some("")), setting("01", Some("x"))];
    assert_eq!(
        validate_all_settings(&current, &originals),
        Err("Invalid value in 'Limit': value cannot be empty.".to_string())
    );
}

#[test]
fn changes_come_apart_at_the_arrow() {
    let pair = |a: &str, b: &str| Some((a.to_string(), b.to_string()));
    assert_eq!(change_summary("old", "new"), "old → new");
    assert_eq!(split_change_summary("old → new"), pair("old", "new"));
    assert_eq!(split_change_summary(&change_summary(" a ", "b → c")), pair("a", "b → c"));
    assert_eq!(split_change_summary("→"), pair("", ""));
    assert_eq!(split_change_summary("old -> new"), None);
}
