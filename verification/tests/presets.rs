use nvram_editor::nvram::{BiosSetting, LoadedNvram};
use nvram_editor::presets::{
    apply_presets_to_settings, duplicate_name_option_sync_plan, names_match_lowered,
    option_value_matches, parse_preset_input_lines, parse_preset_line, setting_name_matches,
    show_choice,
};

fn strings(v: &[&str]) -> Vec<String> {
    v.iter().map(|s| s.to_string()).collect()
}

fn setting(question: &str, options: &[&str], active: Option<usize>) -> BiosSetting {
    BiosSetting {
        setup_question: question.into(),
        help_string: String::new(),
        token: "7".into(),
        offset: "1A".into(),
        width: "01".into(),
        bios_default: None,
        options: strings(options),
        active_option: active,
        value: None,
        content: vec![],
    }
}

fn dump(settings: Vec<BiosSetting>) -> LoadedNvram {
    LoadedNvram { settings, original_lines: vec![], path: None }
}

fn preset(line: usize, name: &str, option: &str) -> (usize, String, String) {
    (line, name.to_string(), option.to_string())
}

#[test]
fn parse_bracket_form() {
    let r = parse_preset_line("Global C-state Control [Disabled]").unwrap();
    assert_eq!(r.0, "Global C-state Control");
    assert_eq!(r.1, "Disabled");
}

#[test]
fn parse_equals_form() {
    let r = parse_preset_line("Cstates = Disable").unwrap();
    assert_eq!(r.0, "Cstates");
    assert_eq!(r.1, "Disable");
}

#[test]
fn setting_name_fuzzy() {
    assert!(setting_name_matches(
        "Cstate Control",
        "Global C-State Control"
    ));
}

#[test]
fn lines_in_every_form_are_parsed() {
    let pair = |a: &str, b: &str| Some((a.to_string(), b.to_string()));
    assert_eq!(parse_preset_line("a: b"), pair("a", "b"));
    assert_eq!(parse_preset_line("a = [ b ]"), pair("a", "b"));
    assert_eq!(parse_preset_line("a\u{ff1d}b"), pair("a", "b"));
    assert_eq!(parse_preset_line("a\u{ff1a}b"), pair("a", "b"));
    assert_eq!(parse_preset_line("\u{feff}a\u{a0}[b]"), pair("a", "b"));
    assert_eq!(parse_preset_line("x [y] [z]"), pair("x [y]", "z"));
    assert_eq!(parse_preset_line("a=b=c"), pair("a", "b=c"));
    assert_eq!(parse_preset_line("a:b=c"), pair("a:b", "c"));
    assert_eq!(parse_preset_line("a = [x [y]"), pair("a", "x [y"));
    assert_eq!(parse_preset_line("= x [y]"), pair("= x", "y"));
}

#[test]
fn other_lines_are_no_presets() {
    for line in ["", "  ", "# a = b", "// a = b", "just words", "a =", "= b", "[b]", "a []", "]"] {
        assert_eq!(parse_preset_line(line), None, "{line:?}");
    }
}

#[test]
fn presets_are_numbered_by_line() {
    let found = parse_preset_input_lines("\u{feff}# head\r\nA = B\r\n\nC [D]");
    assert_eq!(found, vec![preset(2, "A", "B"), preset(4, "C", "D")]);
    assert!(parse_preset_input_lines("nothing here").is_empty());
}

#[test]
fn names_match_loosely() {
    assert!(setting_name_matches("C-States", "Global C State Control"));
    assert!(setting_name_matches("global c-state control!", "cstate"));
    assert!(setting_name_matches("PSS SUPPORT", "pss_support"));
    assert!(setting_name_matches("Timers", "timer list"));
    assert!(setting_name_matches("", ""));
    assert!(setting_name_matches("anything", " "));
    assert!(!setting_name_matches("", "something"));
    assert!(!setting_name_matches("Fan", "Memory Clock"));
    assert!(!setting_name_matches("SVM Mode", "IOMMU"));
}

#[test]
fn a_part_of_a_name_matches_the_name() {
    assert!(setting_name_matches("State", "Global C-State Control"));
    assert!(setting_name_matches("CLOCK", "Memory Clock"));
}

#[test]
fn lower_case_goes_beyond_ascii() {
    // The Kelvin sign is no ASCII letter, but its lower case is.
    assert!(setting_name_matches("Mar\u{212a}er", "Timer Marker"));
    assert!(!setting_name_matches("A\u{212a}B", "xakb"));
    assert!(names_match_lowered("Mar\u{212a}er", "Timer Marker", "marker", "timer marker"));
    assert!(!names_match_lowered("Mar\u{212a}er", "Timer Marker", "maker", "timer marker"));
    assert!(!names_match_lowered("zz", "yy", "abc", "abcd"));
}

#[test]
fn options_match_loosely() {
    assert!(option_value_matches("disable", "Disabled"));
    assert!(option_value_matches("Disabled", "[00] Disabled") == false);
    assert!(option_value_matches("off", "Disabled"));
    assert!(option_value_matches("On", "Enable"));
    assert!(option_value_matches("auto", "Auto"));
    assert!(option_value_matches("3200", "3200 MHz"));
    assert!(!option_value_matches("on", "Off"));
    assert!(!option_value_matches("enable", "Disabled"));
    assert!(!option_value_matches("", "Auto"));
    assert!(option_value_matches("", "..."));
}

#[test]
fn choices_are_shown() {
    let mut s = setting("Q", &["[00]Off", "[01]On"], Some(1));
    assert_eq!(show_choice(&s), "[01] On");
    s.active_option = Some(5);
    assert_eq!(show_choice(&s), "(unset)");
    s.active_option = None;
    assert_eq!(show_choice(&s), "(unset)");
}

#[test]
fn presets_select_options() {
    let mut settings = vec![
        setting("Global C-State Control", &["[00]Enabled", "[01]Disabled"], Some(0)),
        setting("Fan", &["[00]Slow", "[01]Fast"], None),
    ];
    let out = apply_presets_to_settings(
        &mut settings,
        &[preset(1, "C-State", "off"), preset(3, "fan", "fast")],
    );
    assert_eq!((out.applied, out.unchanged, out.errors.len()), (2, 0, 0));
    assert_eq!(settings[0].active_option, Some(1));
    assert_eq!(settings[1].active_option, Some(1));
    assert_eq!(out.logs[0].0, "Global C-State Control");
    assert_eq!(out.logs[0].1, "7");
    assert_eq!(out.logs[0].2, "1A");
    assert_eq!(out.logs[0].3, "[00] Enabled → [01] Disabled");
    assert_eq!(out.logs[1].3, "(unset) → [01] Fast");
}

#[test]
fn a_preset_applied_again_changes_nothing() {
    let mut settings = vec![setting("Fan", &["[00]Slow", "[01]Fast"], Some(0))];
    let presets = [preset(1, "Fan", "Fast")];
    apply_presets_to_settings(&mut settings, &presets);
    let again = apply_presets_to_settings(&mut settings, &presets);
    assert_eq!((again.applied, again.unchanged), (0, 1));
    assert_eq!(again.logs[0].3, "[01] Fast → [01] Fast (preset)");
    assert_eq!(settings[0].active_option, Some(1));
}

#[test]
fn presets_that_do_not_fit_are_errors() {
    let mut settings = vec![
        setting(" Fan ", &["[00]Slow", "[01]Fast"], Some(0)),
        setting("Limit", &[], None),
    ];
    let out = apply_presets_to_settings(
        &mut settings,
        &[
            preset(2, "Nothing", "Fast"),
            preset(5, "Fan", "Medium"),
            preset(12, "Limit", "9"),
        ],
    );
    assert_eq!((out.applied, out.unchanged, out.logs.len()), (0, 0, 0));
    assert_eq!(
        out.errors,
        strings(&[
            "Line 2: setting not found: Nothing",
            "Line 5: option 'Medium' not found for 'Fan' (token 7 / offset 1A).",
            "Line 12: 'Limit' (token 7 / offset 1A) does not have selectable options.",
        ])
    );
    assert_eq!(settings[0].active_option, Some(0));
}

#[test]
fn settings_of_one_name_are_kept_in_step() {
    let mut data = dump(vec![
        setting("SVM", &["[00]Off", "[01]On"], Some(0)),
        setting("Other", &["[00]Off", "[01]On"], Some(0)),
        setting(" SVM ", &["[01]On", "[00]Off"], Some(1)),
        setting("SVM", &[], None),
        setting("SVM", &["[05]Never"], None),
        setting("SVM", &["[00]Off", "[01]On"], Some(1)),
    ]);
    let source = strings(&["[00]Off", "[01]On"]);
    let plan = duplicate_name_option_sync_plan(&data, "SVM", 1, &source);
    assert_eq!(plan, vec![(0, 1), (2, 0)]);
    for (j, t) in plan {
        data.settings[j].active_option = Some(t);
    }
    assert!(duplicate_name_option_sync_plan(&data, "SVM", 1, &source).is_empty());
    assert!(duplicate_name_option_sync_plan(&data, "SVM", 2, &source).is_empty());
}

#[test]
fn presets_are_accounted_for() {
    let mut settings = vec![
        setting("Fan A", &["[00]Slow", "[01]Fast"], Some(1)),
        setting("Fan B", &["[00]Slow", "[01]Fast"], Some(0)),
        setting("Fan C", &[], None),
    ];
    let presets = [preset(1, "Fan", "Fast"), preset(2, "Nothing", "x"), preset(3, "Fan A", "Slow")];
    let out = apply_presets_to_settings(&mut settings, &presets);
    assert_eq!((out.applied, out.unchanged), (2, 1));
    assert_eq!(out.applied + out.unchanged, out.logs.len());
    assert_eq!(out.errors.len(), 2);
    assert_eq!(settings[0].active_option, Some(0));
    assert_eq!(settings[1].active_option, Some(1));
    assert_eq!(settings[2].active_option, None);
    assert_eq!(settings[0].options, strings(&["[00]Slow", "[01]Fast"]));
}

#[test]
fn names_and_options_match_themselves() {
    for s in ["", "Fan", "C-States", "\u{c4}rger", "***"] {
        assert!(setting_name_matches(s, s), "{s}");
        assert!(option_value_matches(s, s), "{s}");
    }
}

fn choices(settings: &[BiosSetting]) -> Vec<Option<usize>> {
    settings.iter().map(|s| s.active_option).collect()
}

fn some_settings() -> Vec<BiosSetting> {
    vec![
        setting("Fast Boot", &["[00]Disabled", "[01]Enabled"], Some(0)),
        setting("Above 4G Decoding", &["[00]Disabled", "[01]Enabled"], Some(0)),
        setting("Fast Boot", &["[00]Enabled", "[01]Disabled"], None),
    ]
}

#[test]
fn a_list_of_presets_applied_again_changes_nothing() {
    let mut settings = some_settings();
    let presets = [
        preset(1, "Fast Boot", "Disabled"),
        preset(2, "Above 4G Decoding", "Enabled"),
        preset(3, "Fast Boot", "Enabled"),
        preset(4, "Fast Boot", "Sometimes"),
    ];
    let first = apply_presets_to_settings(&mut settings, &presets);
    let once = choices(&settings);
    assert_eq!(once, vec![Some(1), Some(1), Some(0)]);
    assert_eq!(first.errors.len() + first.logs.len(), 2 + 1 + 2 + 2);
    let again = apply_presets_to_settings(&mut settings, &presets);
    assert_eq!(choices(&settings), once);
    assert_eq!(again.errors, first.errors);
}

#[test]
fn two_lists_of_presets_apply_in_turn() {
    let first = [preset(1, "Fast Boot", "Enabled"), preset(2, "Nothing", "On")];
    let second = [preset(1, "Fast Boot", "Disabled"), preset(2, "Above 4G Decoding", "Enabled")];
    let mut joined = first.to_vec();
    joined.extend(second.to_vec());
    let mut in_turn = some_settings();
    let a = apply_presets_to_settings(&mut in_turn, &first);
    let b = apply_presets_to_settings(&mut in_turn, &second);
    let mut at_once = some_settings();
    let both = apply_presets_to_settings(&mut at_once, &joined);
    assert_eq!(choices(&at_once), choices(&in_turn));
    assert_eq!(choices(&at_once), vec![Some(0), Some(1), Some(1)]);
    assert_eq!(both.applied, a.applied + b.applied);
    assert_eq!(both.unchanged, a.unchanged + b.unchanged);
    assert_eq!(both.errors, [a.errors, b.errors].concat());
    assert_eq!(both.logs, [a.logs, b.logs].concat());
}
