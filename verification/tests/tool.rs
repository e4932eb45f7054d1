use nvram_editor::scewin::{
    embedded_bundle_is_current, export_nvram, find_scewin_dir_recursive, has_embedded_scewin,
    import_nvram, nvram_path_in_work, resolve_scewin_work_dir, run_scewin_elevated,
    runtime_embed_root, scewin_search_roots, to_wide, work_dir_in_bundle, BundleRoot, DirNode,
    RunAction, RunEnd, RunEvent,
};

fn strings(v: &[&str]) -> Vec<String> {
    v.iter().map(|s| s.to_string()).collect()
}

fn dir(name: &str, has_exe: bool, children: Vec<DirNode>) -> DirNode {
    DirNode { name: name.into(), has_exe, children: Some(children) }
}

fn root(path: &[&str], tree: Option<DirNode>) -> BundleRoot {
    BundleRoot { path: strings(path), tree }
}

#[test]
fn paths_are_built_from_names() {
    assert_eq!(nvram_path_in_work(&strings(&["C:", "S"])), strings(&["C:", "S", "nvram.txt"]));
    assert_eq!(
        runtime_embed_root(Some(&strings(&["L"]))),
        Some(strings(&["L", "nvram_editor", "scewin_embedded"]))
    );
    assert_eq!(runtime_embed_root(None), None);
    assert!(!has_embedded_scewin());
}

#[test]
fn places_are_searched_in_order() {
    let exe = strings(&["E"]);
    let cwd = strings(&["W"]);
    let src = strings(&["D"]);
    assert_eq!(
        scewin_search_roots(Some(&exe), Some(&cwd), Some(&src)),
        vec![
            strings(&["E"]),
            strings(&["E", "SCEWIN"]),
            strings(&["W"]),
            strings(&["W", "SCEWIN"]),
            strings(&["D", "SCEWIN"]),
        ]
    );
    assert!(scewin_search_roots(None, None, None).is_empty());
}

#[test]
fn the_first_name_wins() {
    let tree = dir(
        "r",
        false,
        vec![
            dir("b", true, vec![]),
            dir("a", false, vec![dir("z", true, vec![]), dir("y", true, vec![])]),
            dir("B", false, vec![dir("x", false, vec![])]),
        ],
    );
    assert_eq!(find_scewin_dir_recursive(&tree, 2), Some(vec![1, 1]));
    assert_eq!(find_scewin_dir_recursive(&tree, 1), Some(vec![0]));
    assert_eq!(find_scewin_dir_recursive(&tree, 0), None);
    let found = work_dir_in_bundle(&root(&["C:", "r"], Some(tree)));
    assert_eq!(found, Some(strings(&["C:", "r", "a", "y"])));
}

#[test]
fn names_are_ordered_by_character() {
    let names = ["10", "9", "A", "Z", "a", "ab", "\u{e9}", "\u{1f600}"];
    for (i, x) in names.iter().enumerate() {
        for (j, y) in names.iter().enumerate() {
            let tree = dir("r", false, vec![dir(x, true, vec![]), dir(y, true, vec![])]);
            let want = if y < x { 1 } else { 0 };
            assert_eq!(find_scewin_dir_recursive(&tree, 1), Some(vec![want]), "{i} {j}");
        }
    }
}

#[test]
fn the_search_goes_two_levels_down() {
    let deep = dir("r", false, vec![dir("a", false, vec![dir("b", false, vec![dir("c", true, vec![])])])]);
    assert_eq!(work_dir_in_bundle(&root(&["r"], Some(deep))), None);
    let here = DirNode { name: "r".into(), has_exe: true, children: None };
    assert_eq!(work_dir_in_bundle(&root(&["r"], Some(here))), Some(strings(&["r"])));
    let unreadable = DirNode { name: "r".into(), has_exe: false, children: None };
    assert_eq!(work_dir_in_bundle(&root(&["r"], Some(unreadable))), None);
    assert_eq!(work_dir_in_bundle(&root(&["r"], None)), None);
}

#[test]
fn the_first_place_with_scewin_is_taken() {
    let with = || Some(dir("x", true, vec![]));
    let roots = [root(&["a"], None), root(&["b"], with()), root(&["c"], with())];
    let embedded = root(&["e"], with());
    assert_eq!(resolve_scewin_work_dir(&roots, Some(&embedded)), Some(strings(&["b"])));
    assert_eq!(resolve_scewin_work_dir(&roots[..1], Some(&embedded)), Some(strings(&["e"])));
    assert_eq!(resolve_scewin_work_dir(&roots[..1], None), None);
}

#[test]
fn unpacked_copies_are_kept_if_current() {
    assert!(embedded_bundle_is_current(Some(" 1.2 \n"), "1.2", true));
    assert!(!embedded_bundle_is_current(Some("1.1"), "1.2", true));
    assert!(!embedded_bundle_is_current(Some("1.2"), "1.2", false));
    assert!(!embedded_bundle_is_current(None, "1.2", true));
}

#[test]
fn export_and_import_have_their_arguments() {
    let look = RunEvent::Looked { exe_present: true };
    let work = strings(&["C:\\", "S"]);
    match export_nvram(&work, "C:\\S", look) {
        RunAction::Launch(q) => {
            assert_eq!(q.verb, "runas");
            assert_eq!(q.file, strings(&["C:\\", "S", "SCEWIN_64.exe"]));
            assert_eq!(q.parameters, Some("/o /s nvram.txt".to_string()));
            assert_eq!(q.directory, work);
        }
        _ => panic!("no launch"),
    }
    match import_nvram(&work, "w", RunEvent::Looked { exe_present: true }) {
        RunAction::Launch(q) => assert_eq!(q.parameters, Some("/i /s nvram.txt".to_string())),
        _ => panic!("no launch"),
    }
    match run_scewin_elevated(&work, "w", &[], RunEvent::Looked { exe_present: true }) {
        RunAction::Launch(q) => assert_eq!(q.parameters, None),
        _ => panic!("no launch"),
    }
}

#[test]
fn a_missing_program_is_reported() {
    match export_nvram(&strings(&["S"]), "C:\\S", RunEvent::Looked { exe_present: false }) {
        RunAction::Stop { close_handle, end: RunEnd::NotFound(m) } => {
            assert!(!close_handle);
            assert_eq!(
                m,
                "SCEWIN_64.exe not found in C:\\S. Copy SCEWIN (exe + .sys), e.g. from SCEHUB."
            );
        }
        _ => panic!("not refused"),
    }
}

#[test]
fn a_run_goes_step_by_step() {
    let step = |event: RunEvent| import_nvram(&strings(&["w"]), "w", event);
    assert!(matches!(
        step(RunEvent::Launched { started: false, has_handle: false }),
        RunAction::Stop { close_handle: false, end: RunEnd::SystemError }
    ));
    match step(RunEvent::Launched { started: true, has_handle: false }) {
        RunAction::Stop { close_handle: false, end: RunEnd::NoHandle(m) } => {
            assert_eq!(m, "Elevated process started without process handle.")
        }
        _ => panic!("not refused"),
    }
    assert!(matches!(
        step(RunEvent::Launched { started: true, has_handle: true }),
        RunAction::Wait
    ));
    assert!(matches!(
        step(RunEvent::Waited { result: 0xffff_ffff }),
        RunAction::Stop { close_handle: true, end: RunEnd::SystemError }
    ));
    assert!(matches!(step(RunEvent::Waited { result: 0 }), RunAction::ReadCode));
    assert!(matches!(
        step(RunEvent::CodeRead { read: false, code: 0 }),
        RunAction::Stop { close_handle: true, end: RunEnd::SystemError }
    ));
    assert!(matches!(
        step(RunEvent::CodeRead { read: true, code: 13 }),
        RunAction::Stop { close_handle: true, end: RunEnd::Exited(13) }
    ));
}

#[test]
fn wide_strings_are_utf_16_with_a_zero() {
    for s in ["", "runas", "\u{e9}\u{20ac}", "a\u{1f600}b", "\u{10ffff}\u{ffff}\u{10000}"] {
        let mut want: Vec<u16> = s.encode_utf16().collect();
        want.push(0);
        assert_eq!(to_wide(s), want);
    }
}
