use nvram_editor::nvram::{
    duplicate_settings, load_nvram, option_pretty, parse_nvram_text, parse_settings, patch_lines,
    save_nvram, BiosSetting, LoadedNvram,
};

fn strings(v: &[&str]) -> Vec<String> {
    v.iter().map(|s| s.to_string()).collect()
}

fn setting(question: &str, token: &str, offset: &str) -> BiosSetting {
    BiosSetting {
        setup_question: question.into(),
        help_string: String::new(),
        token: token.into(),
        offset: offset.into(),
        width: "01".into(),
        bios_default: None,
        options: vec![],
        active_option: None,
        value: None,
        content: vec![],
    }
}

fn load(text: &str) -> LoadedNvram {
    load_nvram(&strings(&["C:", "nvram.txt"]), text.as_bytes())
}

const MINIMAL: &str = "Setup Question = S1\n\
Token = 1\n\
Offset = 1\n\
Width = 01\n\
Options = *[00]Off  [01]On\n";

#[test]
fn bios_setting_display_current_selected_option() {
    let s = BiosSetting {
        setup_question: "Q".into(),
        help_string: String::new(),
        token: "t".into(),
        offset: "o".into(),
        width: "1".into(),
        bios_default: None,
        options: vec!["[00]A".into(), "[01]B".into()],
        active_option: Some(1),
        value: None,
        content: vec![],
    };
    let d = s.display_current();
    assert!(d.contains('B'), "display_current: {d}");
}

#[test]
fn load_minimal_nvram_with_options() {
    let loaded = load(MINIMAL);
    assert_eq!(loaded.settings.len(), 1);
    assert_eq!(loaded.settings[0].setup_question, "S1");
    assert_eq!(loaded.settings[0].active_option, Some(0));
}

#[test]
fn save_nvram_roundtrip_switch_active_option() {
    let mut loaded = load(MINIMAL);
    loaded.settings[0].active_option = Some(1);
    let bytes = save_nvram(&loaded.original_lines, &loaded.settings);
    let again = load_nvram(&strings(&["nvram.txt"]), &bytes);
    assert_eq!(again.settings[0].active_option, Some(1));
}

#[test]
fn loading_keeps_the_path() {
    assert_eq!(load(MINIMAL).path, Some(strings(&["C:", "nvram.txt"])));
    assert_eq!(parse_nvram_text(MINIMAL).path, None);
}

#[test]
fn every_key_of_a_block_is_read() {
    let loaded = load(
        "// HIICrc32 = 1\r\n\
         \r\n\
         setup  question\t= Power Limit // first\r\n\
         Help String = how much\r\n\
         Token\t=2A\t// Do NOT change this line\r\n\
         Offset =10\r\n\
         Width =02\r\n\
         BIOS Default =<5>\r\n\
         Unknown = kept\r\n\
         Value\t=<7>\r\n",
    );
    let s = &loaded.settings[0];
    assert_eq!(s.setup_question, "Power Limit");
    assert_eq!(s.help_string, "how much");
    assert_eq!(s.token, "2A");
    assert_eq!(s.offset, "10");
    assert_eq!(s.width, "02");
    assert_eq!(s.bios_default, Some("<5>".to_string()));
    assert_eq!(s.value, Some("<7>".to_string()));
    assert_eq!(s.content, strings(&["Unknown = kept"]));
    assert_eq!(loaded.original_lines.len(), 10);
}

#[test]
fn options_continue_on_lines_with_brackets() {
    let loaded = load(
        "Setup Question = Mode\n\
         Token = 1\n\
         Offset = 2\n\
         Options = [00]Off // comment\n\
         \t *[01]On // another\n\
         \t  [FF]Auto\n",
    );
    let s = &loaded.settings[0];
    assert_eq!(s.options, strings(&["[00]Off", "[01]On", "[FF]Auto"]));
    assert_eq!(s.active_option, Some(1));
}

#[test]
fn one_unmarked_option_is_a_value() {
    let loaded = load("Setup Question = Q\nOptions = <12>\n");
    assert_eq!(loaded.settings[0].value, Some("<12>".to_string()));
    assert!(loaded.settings[0].options.is_empty());
    let starred = load("Setup Question = Q\nOptions = *<12>\n");
    assert_eq!(starred.settings[0].options, strings(&["<12>"]));
    assert_eq!(starred.settings[0].active_option, Some(0));
}

#[test]
fn lines_before_the_first_question_are_no_settings() {
    assert!(load("Token = 1\nValue = 2\n").settings.is_empty());
    assert!(load("").settings.is_empty());
    assert_eq!(load("Setup Question =\n").settings.len(), 1);
}

#[test]
fn keys_need_all_three_parts() {
    assert_eq!(
        setting(" Q ", " 1", "2 ").key(),
        Some(("Q".to_string(), "1".to_string(), "2".to_string()))
    );
    assert!(setting(" ", "1", "2").key().is_none());
    assert!(setting("Q", "", "2").key().is_none());
    assert!(setting("Q", "1", "\t").key().is_none());
}

#[test]
fn display_current_falls_back() {
    let mut s = setting("Q", "1", "2");
    assert_eq!(s.display_current(), "");
    s.options = strings(&["[00]A"]);
    assert_eq!(s.display_current(), "[00]A");
    s.options = strings(&["[00]A", "[01]B"]);
    assert_eq!(s.display_current(), "[00]A, [01]B");
    s.active_option = Some(9);
    assert_eq!(s.display_current(), "[00]A, [01]B");
    s.value = Some("5".into());
    assert_eq!(s.display_current(), "5");
    s.active_option = Some(0);
    assert_eq!(s.display_current(), "[00]A");
}

#[test]
fn pretty_options_set_the_number_off() {
    assert_eq!(option_pretty("[00]Foo"), "[00] Foo");
    assert_eq!(option_pretty("[00]   Foo"), "[00] Foo");
    assert_eq!(option_pretty("[00]"), "[00]");
    assert_eq!(option_pretty("Foo]x"), "Foo]x");
    assert_eq!(option_pretty(""), "");
}

#[test]
fn a_star_in_front_of_a_later_option_is_read() {
    let loaded = load("Setup Question = S1\nToken = 1\nOffset = 1\nOptions = [00]Off  *[01]On\n");
    assert_eq!(loaded.settings[0].options, strings(&["[00]Off", "[01]On"]));
    assert_eq!(loaded.settings[0].active_option, Some(1));
}

#[test]
fn saving_without_edits_keeps_the_file() {
    let text = "Setup Question = A // note\r\nToken = 1\r\nOffset = 2\r\nOptions = *[00]X\t// c\r\n  [01]Y\r\n\r\nSetup Question = B\r\nToken = 3\r\nOffset = 4\r\n  Value = <1> // v\r\n";
    let loaded = load(text);
    let bytes = save_nvram(&loaded.original_lines, &loaded.settings);
    assert_eq!(String::from_utf8(bytes).unwrap(), text);
    let loaded = load(LAID_OUT);
    let bytes = save_nvram(&loaded.original_lines, &loaded.settings);
    assert_eq!(String::from_utf8(bytes).unwrap(), LAID_OUT);
}

#[test]
fn stars_and_values_are_patched_in_place() {
    let mut loaded = load(
        "Setup Question = A\nToken = 1\nOffset = 2\n  Options = *[00]X // c\n    [01]Y  // d\nSetup Question = B\nToken = 3\nOffset = 4\nValue = <1> // v\n",
    );
    loaded.settings[0].active_option = Some(1);
    loaded.settings[1].value = Some("0x20".into());
    let lines = patch_lines(&loaded.original_lines, &loaded.settings);
    assert_eq!(lines[3], "  Options = [00]X // c");
    assert_eq!(lines[4], "    *[01]Y  // d");
    assert_eq!(lines[8], "Value = 0x20 // v");
    assert_eq!(lines.len(), 9);
}

#[test]
fn options_on_one_line_stay_on_it() {
    let mut loaded = load(MINIMAL);
    loaded.settings[0].active_option = Some(1);
    assert_eq!(
        patch_lines(&loaded.original_lines, &loaded.settings),
        strings(&[
            "Setup Question = S1",
            "Token = 1",
            "Offset = 1",
            "Width = 01",
            "Options = [00]Off  *[01]On",
        ])
    );
    let mut loaded = load(
        "Setup Question = A\nToken = 1\nOffset = 2\nOptions = [00]W *[01]X // c\n\t[02]Y   [03]Z\n",
    );
    loaded.settings[0].active_option = Some(3);
    assert_eq!(
        patch_lines(&loaded.original_lines, &loaded.settings)[3..],
        strings(&["Options = [00]W [01]X // c", "\t[02]Y   *[03]Z"])
    );
}

#[test]
fn values_keep_clear_of_comments() {
    let lines = strings(&["Setup Question = A", "Token = 1", "Offset = 2", "Value =5//c"]);
    let mut s = setting("A", "1", "2");
    s.value = Some("a/".into());
    let written = patch_lines(&lines, &[s.duplicate()]);
    assert_eq!(written[3], "Value =a/\t//c");
    assert_eq!(patch_lines(&written, &[s.duplicate()]), written);
    assert_eq!(parse_settings(&written)[0].value, Some("a/".to_string()));
    s.value = Some("7".into());
    assert_eq!(patch_lines(&lines, &[s.duplicate()])[3], "Value =7//c");
    s.value = Some(String::new());
    let lines = strings(&["Setup Question = A", "Token = 1", "Offset = 2", "Value = 5 // c"]);
    let written = patch_lines(&lines, &[s.duplicate()]);
    assert_eq!(written[3], "Value =  // c");
    assert_eq!(patch_lines(&written, &[s]), written);
}

#[test]
fn values_are_written_as_they_are() {
    let lines = strings(&["Setup Question = A", "Token = 1", "Offset = 2", "Value = 5 // c"]);
    let mut s = setting("A", "1", "2");
    for (value, line) in [
        (" a ", "Value =  a  // c"),
        ("\ta b", "Value = \ta b // c"),
        ("a/ ", "Value = a/  // c"),
        ("  ", "Value =    // c"),
        (" 5 ", "Value = 5 // c"),
        ("5", "Value = 5 // c"),
        ("5\t", "Value = 5\t // c"),
    ] {
        s.value = Some(value.into());
        let written = patch_lines(&lines, &[s.duplicate()]);
        assert_eq!(written[3], line);
        assert_eq!(patch_lines(&written, &[s.duplicate()]), written, "{value:?}");
        assert_eq!(parse_settings(&written)[0].value.as_deref(), Some(value.trim()));
    }
    let glued = strings(&["Setup Question = A", "Token = 1", "Offset = 2", "Value =5//c"]);
    s.value = Some(" a/ ".into());
    assert_eq!(patch_lines(&glued, &[s])[3], "Value = a/ //c");
}

#[test]
fn a_second_list_of_options_counts_on() {
    let text = "Setup Question = A\nToken = 1\nOffset = 2\nOptions = *[00]X\nOptions = [01]Y\n";
    let mut loaded = load(text);
    assert_eq!(loaded.settings[0].options, strings(&["[00]X", "[01]Y"]));
    assert_eq!(patch_lines(&loaded.original_lines, &loaded.settings), loaded.original_lines);
    loaded.settings[0].active_option = Some(1);
    let lines = patch_lines(&loaded.original_lines, &loaded.settings);
    assert_eq!(lines[3..], strings(&["Options = [00]X", "Options = *[01]Y"]));
    assert_eq!(parse_settings(&lines)[0].active_option, Some(1));
}

#[test]
fn a_list_goes_on_behind_other_lines() {
    let text = "Setup Question = A\nToken = 1\nOffset = 2\nOptions = *[00]X\n\n [01]Y\nWidth = 1\n [02]Z\nSetup Question = B\n [03]W\n";
    let mut loaded = load(text);
    loaded.settings[0].active_option = Some(2);
    let lines = patch_lines(&loaded.original_lines, &loaded.settings);
    assert_eq!(
        lines[3..],
        strings(&[
            "Options = [00]X",
            "",
            " [01]Y",
            "Width = 1",
            " *[02]Z",
            "Setup Question = B",
            " [03]W",
        ])
    );
    assert_eq!(parse_settings(&lines)[0].active_option, Some(2));
    assert_eq!(patch_lines(&lines, &loaded.settings), lines);
}

#[test]
fn options_without_a_number_lose_their_mark() {
    let text = "Setup Question = A\nToken = 1\nOffset = 2\nOptions = * *Foo // c\n [01]Y\n";
    let mut loaded = load(text);
    assert_eq!(loaded.settings[0].options, strings(&["*Foo", "[01]Y"]));
    assert_eq!(loaded.settings[0].active_option, Some(0));
    assert_eq!(
        patch_lines(&loaded.original_lines, &loaded.settings)[3..],
        strings(&["Options = * Foo // c", " [01]Y"])
    );
    loaded.settings[0].active_option = Some(1);
    let lines = patch_lines(&loaded.original_lines, &loaded.settings);
    assert_eq!(lines[3..], strings(&["Options =  Foo // c", " *[01]Y"]));
    assert_eq!(parse_settings(&lines)[0].active_option, Some(1));
    assert_eq!(patch_lines(&lines, &loaded.settings), lines);
}

#[test]
fn lists_without_a_first_line_are_left_alone() {
    let text = "Setup Question = A\nToken = 1\nOffset = 2\n *[00]X\n [01]Y\n";
    let mut loaded = load(text);
    loaded.settings[0].active_option = Some(1);
    assert_eq!(patch_lines(&loaded.original_lines, &loaded.settings), loaded.original_lines);
}

#[test]
fn a_value_in_front_of_the_token_is_kept() {
    let mut loaded = load(
        "Setup Question = A\nValue = 9\nToken = 1\nOffset = 2\nOptions = *[00]X\n    [01]Y\n",
    );
    assert_eq!(loaded.settings[0].value, Some("9".to_string()));
    loaded.settings[0].active_option = Some(1);
    let bytes = save_nvram(&loaded.original_lines, &loaded.settings);
    let again = load_nvram(&[], &bytes);
    assert_eq!(again.settings[0].value, Some("9".to_string()));
    assert_eq!(again.settings[0].options, loaded.settings[0].options);
    assert_eq!(again.settings[0].active_option, Some(1));
}

#[test]
fn settings_without_content_change_nothing() {
    let lines = strings(&["Setup Question = A", "Token = 1", "Offset = 2", "Options = *[00]X"]);
    assert_eq!(patch_lines(&lines, &[setting("A", "1", "2")]), lines);
    assert_eq!(patch_lines(&lines, &[]), lines);
}

#[test]
fn the_last_setting_with_a_key_is_written() {
    let lines = strings(&["Setup Question = A", "Token = 1", "Offset = 2", "Value = 0"]);
    let mut first = setting("A", "1", "2");
    first.value = Some("7".into());
    let mut second = setting("A", "1", "2");
    second.value = Some("8".into());
    assert_eq!(patch_lines(&lines, &[first, second])[3], "Value = 8");
}

#[test]
fn edits_of_a_regular_dump_are_read_back() {
    let mut loaded = load(
        "Setup Question = A\nToken = 1\nOffset = 2\nOptions = *[00]X // c\n    [01]Y\nSetup Question = B\nToken = 3\nOffset = 4\nValue = <1>\n",
    );
    loaded.settings[0].active_option = Some(1);
    loaded.settings[1].value = Some("<FF>".into());
    let lines = patch_lines(&loaded.original_lines, &loaded.settings);
    let again = parse_settings(&lines);
    assert_eq!(again.len(), 2);
    assert_eq!(again[0].options, strings(&["[00]X", "[01]Y"]));
    assert_eq!(again[0].active_option, Some(1));
    assert_eq!(again[1].value, Some("<FF>".to_string()));
    let bytes = save_nvram(&loaded.original_lines, &loaded.settings);
    let reloaded = load_nvram(&[], &bytes);
    assert_eq!(reloaded.original_lines, lines);
    assert_eq!(reloaded.settings[1].value, Some("<FF>".to_string()));
}

#[test]
fn copies_hold_the_same_settings() {
    let loaded = load(MINIMAL);
    let copy = duplicate_settings(&loaded.settings);
    assert_eq!(copy.len(), 1);
    assert_eq!(copy[0].options, loaded.settings[0].options);
    assert_eq!(copy[0].display_current(), "[00]Off");
}

const LAID_OUT: &str = "// Script File Name : nvram.txt\r\n\
Setup Question\t= A // note\r\n\
Token\t=1\t// Do NOT change this line\r\n\
Offset\t=2\r\n\
Width\t=01\r\n\
Options\t=*[00]X\t// Move \"*\" to the desired Option\r\n\
\x20        [01]Y\r\n\
\x20        [02]Z\r\n\
\r\n\
Setup Question\t= B\r\n\
Token\t=3\r\n\
Offset\t=4\r\n\
\x20 Value\t=<1>   // v\r\n";

#[test]
fn lines_of_other_kinds_stay() {
    let mut loaded = load(LAID_OUT);
    loaded.settings[0].active_option = Some(2);
    loaded.settings[1].value = Some("<9>".into());
    let lines = patch_lines(&loaded.original_lines, &loaded.settings);
    assert_eq!(lines.len(), loaded.original_lines.len());
    for i in [0, 1, 2, 3, 4, 8, 9, 10, 11] {
        assert_eq!(lines[i], loaded.original_lines[i]);
    }
}

#[test]
fn comments_of_options_and_values_stay() {
    let mut loaded = load(LAID_OUT);
    loaded.settings[0].active_option = Some(2);
    loaded.settings[1].value = Some("<9>".into());
    let lines = patch_lines(&loaded.original_lines, &loaded.settings);
    assert_eq!(lines[5], "Options\t=[00]X\t// Move \"*\" to the desired Option");
    assert_eq!(lines[6], "         [01]Y");
    assert_eq!(lines[7], "         *[02]Z");
    assert_eq!(lines[12], "  Value\t=<9>   // v");
}

#[test]
fn writing_twice_is_writing_once() {
    let mut loaded = load(LAID_OUT);
    loaded.settings[0].active_option = Some(1);
    loaded.settings[1].value = Some("<9>".into());
    let once = patch_lines(&loaded.original_lines, &loaded.settings);
    assert_eq!(patch_lines(&once, &loaded.settings), once);
    let bytes = save_nvram(&loaded.original_lines, &loaded.settings);
    let saved = load_nvram(&[], &bytes);
    assert_eq!(save_nvram(&saved.original_lines, &loaded.settings), bytes);
    let crowded = load("Setup Question = A\nToken = 1\nOffset = 2\nOptions = *[00]X [01]Y // c\n");
    let once = patch_lines(&crowded.original_lines, &crowded.settings);
    assert_eq!(once, crowded.original_lines);
    assert_eq!(patch_lines(&once, &crowded.settings), once);
}

#[test]
fn blocks_that_are_not_identified_are_left_alone() {
    let text = "Setup Question = No Token\nOffset = 2\nOptions = *[00]X\n [01]Y\nSetup Question = B\nToken = 3\nOffset = 4\nValue = 5\n";
    let mut loaded = load(text);
    loaded.settings[1].value = Some("6".into());
    let lines = patch_lines(&loaded.original_lines, &loaded.settings);
    assert_eq!(lines[..7], loaded.original_lines[..7]);
    let again = parse_settings(&lines);
    assert_eq!(again[0].options, loaded.settings[0].options);
    assert_eq!(again[0].active_option, Some(0));
    assert_eq!(again[1].value, Some("6".to_string()));
}

#[test]
fn blocks_that_share_a_key_are_written_alike() {
    let text = "Setup Question = A\nToken = 1\nOffset = 2\nOptions = *[00]X\n [01]Y\nSetup Question = A\nToken = 1\nOffset = 2\nOptions = *[00]X\n [01]Y\n";
    let mut loaded = load(text);
    loaded.settings[0].active_option = Some(1);
    loaded.settings[1].active_option = Some(1);
    let again = parse_settings(&patch_lines(&loaded.original_lines, &loaded.settings));
    assert_eq!(again[0].active_option, Some(1));
    assert_eq!(again[1].active_option, Some(1));
}
