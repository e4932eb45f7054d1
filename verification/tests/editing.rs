use nvram_editor::editor::{
    current_value_label, is_txt_file, shown_selection, Editor, FileRead, ListFilterKind,
};
use nvram_editor::nvram::load_nvram;
use nvram_editor::search::{all_words_in, filter_matches, lowered_filter_matches, words_found};

const DUMP: &str = "Setup Question = Fan Mode\n\
Help String = cooling\n\
Token = 1\n\
Offset = 10\n\
Width = 01\n\
Options = *[00]Slow\n\
  [01]Fast\n\
Setup Question = Power Limit\n\
Token = 2\n\
Offset = 20\n\
Width = 01\n\
Value = <5>\n\
Setup Question = Fan Mode\n\
Token = 3\n\
Offset = 30\n\
Width = 01\n\
Options = *[00]Slow\n\
  [01]Fast\n";

fn strings(v: &[&str]) -> Vec<String> {
    v.iter().map(|s| s.to_string()).collect()
}

fn file(content: Result<Vec<u8>, String>) -> FileRead {
    FileRead { path: strings(&["C:", "n.txt"]), path_text: "C:\\n.txt".into(), content }
}

fn open() -> Editor {
    let mut e = Editor::new(Some(strings(&["C:", "S"])));
    e.open_file(file(Ok(DUMP.as_bytes().to_vec())));
    e
}

fn status(e: &Editor) -> (bool, &str) {
    let (ok, m) = e.status.as_ref().unwrap();
    (*ok, m.as_str())
}

#[test]
fn a_new_editor_is_empty() {
    let e = Editor::new(None);
    assert!(e.data.is_none() && e.selected.is_none() && e.status.is_none());
    assert!(!e.is_busy() && !e.dirty);
    assert_eq!(e.startup_maximize_attempts_left, 3);
    assert_eq!(e.changed_count(), 0);
    assert!(e.collect_changed_rows().is_empty());
    assert_eq!(e.find_setting_index("1", "10", "Fan Mode"), None);
}

#[test]
fn opening_replaces_everything() {
    let mut e = open();
    assert_eq!(status(&e), (true, "Loaded: C:\\n.txt"));
    assert_eq!(e.selected, Some(0));
    assert_eq!(e.original_settings.len(), 3);
    e.choose_option(0, 1);
    assert!(e.dirty && e.change_seq == 2);
    e.open_file(file(Ok(DUMP.as_bytes().to_vec())));
    assert!(!e.dirty && e.change_log.is_empty() && e.change_seq == 0);
    assert_eq!(e.changed_count(), 0);
    e.open_file(file(Err("denied".into())));
    assert_eq!(status(&e), (false, "Failed to open: denied"));
    assert!(e.data.is_some());
    e.open_file(file(Ok(vec![])));
    assert_eq!(e.selected, None);
}

#[test]
fn choosing_an_option_moves_every_setting_of_the_name() {
    let mut e = open();
    e.choose_option(2, 1);
    let settings = &e.data.as_ref().unwrap().settings;
    assert_eq!(settings[0].active_option, Some(1));
    assert_eq!(settings[2].active_option, Some(1));
    assert_eq!(e.changed_count(), 2);
    assert_eq!(e.change_log.len(), 2);
    assert_eq!(e.change_log[0].seq, 2);
    assert_eq!(e.change_log[0].token, "3");
    assert_eq!(e.change_log[1].summary, "[00] Slow → [01] Fast");
    e.choose_option(0, 1);
    assert_eq!(e.change_log.len(), 2);
}

#[test]
fn the_value_field_leaves_brackets_out() {
    let mut e = open();
    e.select(1);
    assert_eq!(e.value_edit_buffer, "5");
    assert_eq!((e.value_outer_prefix.as_str(), e.value_outer_suffix.as_str()), ("<", ">"));
    e.leave_value(1);
    assert!(e.change_log.is_empty());
    e.value_edit_buffer = "7".into();
    e.edit_value(1);
    assert_eq!(e.data.as_ref().unwrap().settings[1].value, Some("<7>".to_string()));
    assert!(e.dirty);
    e.leave_value(1);
    assert_eq!(e.change_log[0].summary, "<5> → <7>");
    assert_eq!(e.change_log[0].setting, "Power Limit");
    assert_eq!(e.value_edit_baseline, "7");
    e.select(0);
    assert_eq!(e.value_edit_buffer, "");
}

#[test]
fn the_history_keeps_the_latest_changes() {
    let mut e = Editor::new(None);
    for i in 0..405 {
        e.push_change_log(" S ", " t ", " o ", format!("{i}"));
    }
    assert_eq!(e.change_log.len(), 400);
    assert_eq!(e.change_log[0].summary, "404");
    assert_eq!(e.change_log[399].summary, "5");
    assert_eq!((e.change_log[0].seq, e.change_log[0].setting.as_str()), (405, "S"));
    assert_eq!((e.change_log[0].token.as_str(), e.change_log[0].offset.as_str()), ("t", "o"));
    e.change_seq = u32::MAX;
    e.push_change_log("S", "t", "o", "x".into());
    assert_eq!(e.change_log[0].seq, 0);
    assert_eq!(e.history_indices("S 404"), vec![1]);
    assert_eq!(e.history_indices("").len(), 400);
    e.clear_history();
    assert!(e.change_log.is_empty() && e.change_seq == 0);
}

#[test]
fn the_list_is_filtered() {
    let mut e = open();
    let data = load_nvram(&[], DUMP.as_bytes());
    assert_eq!(e.filtered_indices(&data, ""), vec![0, 1, 2]);
    assert_eq!(e.filtered_indices(&data, "FAN cool"), vec![0]);
    assert_eq!(e.filtered_indices(&data, "<5>"), vec![1]);
    assert_eq!(e.filter_stats(&data, "fan"), (2, 3));
    e.list_filter_kind = ListFilterKind::Values;
    assert_eq!(e.filtered_indices(&data, " "), vec![1]);
    e.list_filter_kind = ListFilterKind::Options;
    assert_eq!(e.filtered_indices(&data, " "), vec![0, 2]);
    e.show_only_changed = true;
    assert!(e.filtered_indices(&data, "").is_empty());
    e.choose_option(0, 1);
    assert!(e.is_setting_changed_at(0) && !e.is_setting_changed_at(1));
    assert!(!e.is_setting_changed_at(99));
    assert_eq!(e.filtered_indices(&data, ""), vec![0, 2]);
    e.reset_filters();
    assert_eq!(e.filtered_indices(&data, ""), vec![0, 1, 2]);
}

#[test]
fn searches_ignore_letter_case() {
    assert!(words_found("Global C-State", "STATE global"));
    assert!(!words_found("Global C-State", "state fan"));
    assert!(words_found("\u{c4}rger", "\u{e4}RG"));
    assert!(words_found("", "  "));
    assert!(filter_matches("Fan old new", " NEW fan "));
    assert!(!filter_matches("Fan old new", "newer"));
    assert!(lowered_filter_matches("fan old", "old fan"));
    assert!(!lowered_filter_matches("fan old", "OLD"));
    assert!(all_words_in("abc", &strings(&["a", "bc"])));
    assert!(!all_words_in("abc", &strings(&["a", "cb"])));
}

#[test]
fn more_words_find_less() {
    assert!(words_found("Fan Mode Slow", "fan slow"));
    assert!(words_found("Fan Mode Slow", "fan"));
}

#[test]
fn the_preview_lists_changes() {
    let mut e = open();
    assert!(!e.can_import(&e.collect_changed_rows()));
    e.choose_option(0, 1);
    let rows = e.collect_changed_rows();
    assert_eq!(rows.len(), e.changed_count());
    assert_eq!((rows[0].index, rows[1].index), (0, 2));
    assert_eq!(rows[0].name, "Fan Mode");
    assert_eq!((rows[0].before.as_str(), rows[0].after.as_str()), ("[00]Slow", "[01]Fast"));
    assert!(Editor::row_matches(&rows[0], "mode SLOW"));
    assert!(!Editor::row_matches(&rows[0], "power"));
    assert!(e.can_import(&rows));
    e.busy = true;
    assert!(!e.can_import(&rows));
}

#[test]
fn entries_lead_to_their_settings() {
    let mut e = open();
    assert_eq!(e.find_setting_index(" 3 ", "30", "Power Limit"), Some(2));
    assert_eq!(e.find_setting_index("3", "31", " Power Limit "), Some(1));
    assert_eq!(e.find_setting_index("", "30", "Fan Mode"), Some(0));
    assert_eq!(e.find_setting_index("9", "9", "Nothing"), None);
    assert!(e.jump_to("Power Limit", "2", "20"));
    assert_eq!(e.selected, Some(1));
    assert_eq!(e.value_edit_buffer, "5");
    assert!(!e.jump_to("Nothing", "", ""));
    assert_eq!(e.selected, Some(1));
}

#[test]
fn presets_are_reported() {
    let mut e = Editor::new(None);
    e.apply_presets_from_input();
    assert_eq!(
        status(&e),
        (false, "No valid preset lines. Use: Setting [Option] or Setting = Option")
    );
    e.preset_input = "Fan Mode [Fast]".into();
    e.apply_presets_from_input();
    assert_eq!(status(&e), (false, "Load nvram.txt before applying presets."));
    let mut e = open();
    e.preset_input = "Fan Mode [Fast]".into();
    e.apply_presets_from_input();
    assert_eq!(status(&e), (true, "Presets applied: 2, unchanged: 0."));
    assert!(e.dirty);
    assert_eq!(e.change_log.len(), 2);
    e.apply_presets_from_input();
    assert_eq!(
        status(&e),
        (
            true,
            "Presets applied: 0, unchanged: 2. All matching settings were already at that option."
        )
    );
    e.preset_input = "A1 = x\nB2 = y\nC3 = z".into();
    e.apply_presets_from_input();
    assert_eq!(
        status(&e),
        (
            false,
            "Presets applied: 0, unchanged: 0. Errors: Line 1: setting not found: A1 | Line 2: setting not found: B2"
        )
    );
}

#[test]
fn saving_asks_for_valid_values() {
    let mut e = Editor::new(None);
    assert!(e.save_as().is_none());
    assert_eq!(status(&e), (false, "No file loaded."));
    assert!(e.save_to_scewin_folder().is_none());
    assert_eq!(status(&e), (false, "Nothing to save."));
    let mut e = open();
    e.select(1);
    e.value_edit_buffer = "999".into();
    e.edit_value(1);
    assert!(e.save_as().is_none());
    assert_eq!(
        status(&e),
        (false, "Value out of range in 'Power Limit': max for Width=01 is 0xFF (255).")
    );
    e.value_edit_buffer = "9".into();
    e.edit_value(1);
    let bytes = e.save_as().unwrap();
    let again = load_nvram(&[], &bytes);
    assert_eq!(again.settings[1].value, Some("<9>".to_string()));
    e.save_as_done(strings(&["D:", "x.txt"]), "D:\\x.txt", Err("full".into()));
    assert_eq!(status(&e), (false, "Failed to save: full"));
    assert!(e.dirty);
    e.save_as_done(strings(&["D:", "x.txt"]), "D:\\x.txt", Ok(()));
    assert_eq!(status(&e), (true, "Saved: D:\\x.txt"));
    assert!(!e.dirty);
    assert_eq!(e.data.as_ref().unwrap().path, Some(strings(&["D:", "x.txt"])));
}

#[test]
fn saving_for_scewin_needs_its_directory() {
    let mut e = open();
    let request = e.save_to_scewin_folder().unwrap();
    assert_eq!(request.path, strings(&["C:", "S", "nvram.txt"]));
    assert!(!e.is_loaded_from_scewin_nvram());
    assert!(e.scewin_save_done(request.path, "C:\\S\\nvram.txt", Ok(())));
    assert_eq!(status(&e), (true, "Saved to C:\\S\\nvram.txt"));
    assert!(e.is_loaded_from_scewin_nvram());
    assert!(!e.scewin_save_done(strings(&["x"]), "x", Err("full".into())));
    assert_eq!(status(&e), (false, "Failed to save to SCEWIN folder: full"));
    e.scewin_work = None;
    assert!(e.save_to_scewin_folder().is_none());
    assert_eq!(status(&e), (false, "SCEWIN folder not found next to the application."));
}

#[test]
fn exports_run_once_and_load_the_dump() {
    let mut e = Editor::new(None);
    assert!(e.run_export().is_none());
    assert_eq!(
        status(&e),
        (
            false,
            "SCEWIN not available: add the SCEWIN folder next to nvram_editor.exe, or use a build compiled with SCEWIN/ embedded."
        )
    );
    e.scewin_work = Some(strings(&["C:", "S"]));
    assert_eq!(e.run_export(), Some(strings(&["C:", "S"])));
    assert_eq!(status(&e), (true, "Export in progress... approve UAC if prompted."));
    assert!(e.is_busy());
    assert!(e.run_export().is_none());
    assert!(e.run_import().is_none());
    e.finish_export(Ok(Some(0)), Some(file(Ok(DUMP.as_bytes().to_vec()))));
    assert!(!e.is_busy() && e.data.is_some());
    let done = "Export finished. BIOS settings saved to nvram.txt in the SCEWIN folder.";
    assert_eq!(status(&e), (true, done));
    assert_eq!(e.center_toast, Some((true, done.to_string())));
    e.finish_export(Ok(Some(-5)), None);
    assert_eq!(status(&e), (false, "Export failed (code -5). Approve UAC if nothing changed."));
    e.finish_export(Ok(None), None);
    assert_eq!(status(&e), (false, "Export failed (code -1). Approve UAC if nothing changed."));
    e.finish_export(Err("no".into()), None);
    assert_eq!(status(&e), (false, "Failed to start SCEWIN: no"));
    e.dismiss_toast();
    assert!(e.center_toast.is_none());
    e.task_lost();
    assert_eq!(status(&e), (false, "Background task failed unexpectedly."));
}

#[test]
fn imports_save_first() {
    let mut e = Editor::new(None);
    assert!(e.run_import().is_none());
    assert_eq!(status(&e), (false, "SCEWIN folder not found next to the application."));
    e.scewin_work = Some(strings(&["S"]));
    assert!(e.run_import().is_none());
    assert_eq!(
        status(&e),
        (false, "Open or create nvram.txt before Import (or run Export first).")
    );
    let mut e = open();
    let request = e.run_import().unwrap();
    assert!(!e.is_busy());
    assert!(e.import_saved(strings(&["x"]), "x", Err("full".into())).is_none());
    assert!(!e.is_busy());
    assert_eq!(e.import_saved(request.path, "p", Ok(())), Some(strings(&["C:", "S"])));
    assert!(e.is_busy());
    assert_eq!(status(&e), (true, "Import in progress... approve UAC if prompted."));
    e.finish_import(Ok(Some(0)));
    assert!(!e.is_busy());
    assert_eq!(
        status(&e),
        (true, "Settings imported successfully. Check BIOS / reboot if required.")
    );
    assert_eq!(
        e.center_toast,
        Some((true, "Settings imported successfully.\nCheck BIOS / reboot if required.".to_string()))
    );
    e.finish_import(Ok(Some(13)));
    assert_eq!(
        status(&e),
        (
            false,
            "Import failed (code 13): access/driver issue. Check amifldrv64.sys + amigendrv64.sys and Windows security."
        )
    );
    e.finish_import(Ok(Some(i32::MIN)));
    assert_eq!(
        status(&e),
        (false, "Import failed (code -2147483648). See log-file.txt in the SCEWIN folder.")
    );
    e.finish_import(Err("no".into()));
    assert_eq!(status(&e), (false, "Failed to start Import: no"));
}

#[test]
fn the_dump_of_scewin_can_be_loaded() {
    let mut e = Editor::new(None);
    assert!(e.open_bundled_nvram().is_none());
    assert_eq!(status(&e), (false, "SCEWIN not found."));
    assert_eq!(e.reload_state(), (false, "SCEWIN folder not found.".to_string()));
    assert!(e.autostart().is_none());
    let mut e = Editor::new(Some(strings(&["S"])));
    let path = strings(&["S", "nvram.txt"]);
    assert_eq!(e.autostart(), Some(path.clone()));
    assert_eq!(e.autostart(), None);
    assert_eq!(e.open_bundled_nvram(), Some(path.clone()));
    e.bundled_nvram_missing();
    assert_eq!(
        status(&e),
        (false, "nvram.txt is not in the SCEWIN folder yet. Run Export first.")
    );
    assert_eq!(
        e.reload_state(),
        (
            true,
            "Load nvram.txt from the SCEWIN folder (drops unsaved edits in the editor).".to_string()
        )
    );
    e.busy = true;
    assert_eq!(e.reload_state(), (false, "Wait for SCEWIN to finish.".to_string()));
    e.open_file(FileRead { path, path_text: "S".into(), content: Ok(DUMP.as_bytes().to_vec()) });
    assert_eq!(e.reload_state(), (false, "Already using SCEWIN nvram.txt.".to_string()));
}

#[test]
fn the_window_is_maximized_three_times() {
    let mut e = Editor::new(None);
    assert!(e.take_maximize_attempt() && e.take_maximize_attempt() && e.take_maximize_attempt());
    assert!(!e.take_maximize_attempt());
    assert_eq!(e.startup_maximize_attempts_left, 0);
}

#[test]
fn values_and_selections_are_shown() {
    let e = open();
    let settings = &e.data.as_ref().unwrap().settings;
    assert_eq!(current_value_label(&settings[0]), "[00] Slow");
    assert_eq!(current_value_label(&settings[1]), "<5>");
    assert_eq!(shown_selection(&settings[0]), 0);
    let mut s = settings[0].duplicate();
    s.active_option = None;
    assert_eq!(current_value_label(&s), "[00]Slow, [01]Fast");
    assert_eq!(shown_selection(&s), 0);
    s.active_option = Some(7);
    assert_eq!(shown_selection(&s), 1);
}

#[test]
fn dropped_files_end_in_txt() {
    for name in ["a.txt", "A.TXT", "x.y.tXt"] {
        assert!(is_txt_file(name), "{name}");
    }
    for name in ["", "txt", ".txt", "a.txt.bak", "a.", "a.tx", "a.txtx", "..", "a.t\u{e9}t"] {
        assert!(!is_txt_file(name), "{name}");
    }
}

#[test]
fn states_stay_consistent() {
    let mut e = open();
    e.preset_input = "Fan = Fast\nPower = 3".into();
    e.apply_presets_from_input();
    e.select(1);
    e.value_edit_buffer = "12".into();
    e.edit_value(1);
    e.leave_value(1);
    e.choose_option(2, 0);
    e.save_as_done(strings(&["x"]), "x", Ok(()));
    let data = e.data.as_ref().unwrap();
    assert_eq!(data.settings.len(), e.original_settings.len());
    for (s, o) in data.settings.iter().zip(&e.original_settings) {
        assert_eq!(s.setup_question, o.setup_question);
        assert_eq!(s.options, o.options);
        assert!(s.active_option.is_none_or(|i| i < s.options.len()));
    }
    assert!(e.selected.unwrap() < data.settings.len());
}
