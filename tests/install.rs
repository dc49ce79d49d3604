use sketch_installer::archive::{normalize_name, plan_entries, ArchiveEntry, ExtractOp};
use sketch_installer::bundle::{plan_extraction, plan_install_bundle, read_bundle};
use sketch_installer::copy::{base_name, plan_copy, SourceItem, SourceKind};
use sketch_installer::error::InstallError;
use sketch_installer::layout::{
    archive_folder, canonical_folder, direct_candidate, fallback_candidate, nested_candidate,
    select_executable, should_rename, LayoutProbe, SubfolderProbe,
};
use sketch_installer::paths::get_install_path;
use sketch_installer::shell::{
    assoc_args, association_outcome, create_shortcuts_script, ftype_args, parent_dir, quote,
    shortcut_outcome, shortcut_script, shortcut_specs, Advisory,
};
use std::io::Write;
use zip::write::SimpleFileOptions;

const ROOT: &str = "C:\\Sketch";

enum Rec<'a> {
    Dir(&'a str),
    File(&'a str, &'a [u8]),
}

fn make_zip(recs: &[Rec]) -> Vec<u8> {
    let mut w = zip::ZipWriter::new(std::io::Cursor::new(Vec::new()));
    let opts = SimpleFileOptions::default().compression_method(zip::CompressionMethod::Stored);
    for r in recs {
        match r {
            Rec::Dir(n) => w.add_directory(*n, opts).unwrap(),
            Rec::File(n, data) => {
                w.start_file(*n, opts).unwrap();
                w.write_all(data).unwrap();
            }
        }
    }
    w.finish().unwrap().into_inner()
}

fn entry(name: &str, is_dir: bool, data: &[u8]) -> ArchiveEntry {
    ArchiveEntry { name: name.to_string(), is_dir, enclosed: true, mode: None, data: data.to_vec() }
}

fn paths(ops: &[ExtractOp]) -> Vec<String> {
    ops.iter().map(|o| o.path.clone()).collect()
}

#[test]
fn install_path_for_valid_name() {
    assert_eq!(get_install_path("Sketch").unwrap(), "C:\\Sketch");
}

#[test]
fn install_path_rejects_bad_names() {
    for bad in ["", ".", "..", "a/b", "a\\b", "..\\Windows", "C:x", "a\0b"] {
        assert_eq!(get_install_path(bad), Err(InstallError::InvalidName), "{:?}", bad);
    }
}

#[test]
fn normalize_resolves_dots() {
    assert_eq!(normalize_name("a/./b/../c").unwrap(), vec!["a".to_string(), "c".to_string()]);
    assert_eq!(normalize_name("a\\b\\").unwrap(), vec!["a".to_string(), "b".to_string()]);
    assert_eq!(normalize_name("a/..").unwrap(), Vec::<String>::new());
}

#[test]
fn normalize_refuses_escapes() {
    assert!(normalize_name("../x").is_none());
    assert!(normalize_name("a/../../x").is_none());
    assert!(normalize_name("/etc/passwd").is_none());
    assert!(normalize_name("\\Windows").is_none());
    assert!(normalize_name("C:/x").is_none());
}

#[test]
fn plan_skips_traversal_entries() {
    let es = vec![
        entry("../../evil", true, b""),
        entry("safe/", true, b""),
        entry("safe/a.txt", false, b"hello"),
        entry("x/../../evil.txt", false, b"bad"),
    ];
    let ops = plan_entries(ROOT, &es);
    assert_eq!(paths(&ops), vec!["C:\\Sketch\\safe".to_string(), "C:\\Sketch\\safe\\a.txt".to_string()]);
    assert!(ops[0].is_dir);
    assert!(!ops[1].is_dir);
    assert_eq!(ops[1].data, b"hello".to_vec());
}

#[test]
fn backslash_names_are_planned_when_safe() {
    let es = vec![
        entry("dir\\file.txt", false, b"data"),
        entry("a\\b/../../c", false, b"x"),
        entry("..\\evil", true, b""),
    ];
    let ops = plan_entries(ROOT, &es);
    assert_eq!(paths(&ops), vec!["C:\\Sketch\\dir\\file.txt".to_string()]);
    assert_eq!(ops[0].data, b"data".to_vec());
}

#[test]
fn plan_skips_entries_the_reader_refused() {
    let mut e = entry("ok.txt", false, b"1");
    e.enclosed = false;
    assert!(plan_entries(ROOT, &vec![e]).is_empty());
}

#[test]
fn planned_paths_stay_below_root() {
    let names = ["a", "a/b/c.txt", "./d", "e/../f", "/abs", "..", "g\\h", "C:\\x", "..\\..\\z"];
    let es: Vec<ArchiveEntry> = names.iter().map(|n| entry(n, false, b"")).collect();
    let prefix = format!("{}\\", ROOT);
    for op in plan_entries(ROOT, &es) {
        assert!(op.path.starts_with(&prefix), "{}", op.path);
        assert!(!op.path[prefix.len()..].split('\\').any(|c| c == ".." || c.is_empty()));
    }
}

#[test]
fn read_bundle_reports_records_in_order() {
    let bytes = make_zip(&[Rec::Dir("top"), Rec::File("top/a.txt", b"alpha"), Rec::File("top/b.bin", b"\x00\x01")]);
    let es = read_bundle(&bytes).unwrap();
    let names: Vec<&str> = es.iter().map(|e| e.name.as_str()).collect();
    assert_eq!(names, vec!["top/", "top/a.txt", "top/b.bin"]);
    assert!(es[0].is_dir);
    assert!(!es[1].is_dir);
    assert_eq!(es[1].data, b"alpha".to_vec());
    assert_eq!(es[2].data, vec![0u8, 1u8]);
    assert!(es.iter().all(|e| e.enclosed));
}

#[test]
fn unreadable_bundle_is_open_failed() {
    assert_eq!(plan_extraction(b"not an archive", ROOT).err(), Some(InstallError::OpenFailed));
    assert_eq!(read_bundle(&[]).err(), Some(InstallError::OpenFailed));
}

#[test]
fn extraction_skips_evil_directory_and_keeps_the_rest() {
    let bytes = make_zip(&[
        Rec::Dir("../../evil"),
        Rec::File("app/readme.txt", b"hi"),
        Rec::Dir("app/lib"),
        Rec::File("app\\win.txt", b"w"),
    ]);
    let ops = plan_extraction(&bytes, ROOT).unwrap();
    assert_eq!(
        paths(&ops),
        vec![
            "C:\\Sketch\\app\\readme.txt".to_string(),
            "C:\\Sketch\\app\\lib".to_string(),
            "C:\\Sketch\\app\\win.txt".to_string(),
        ]
    );
    assert_eq!(ops[0].data, b"hi".to_vec());
    assert!(ops.iter().all(|o| o.path.starts_with("C:\\Sketch\\")));
}

#[test]
fn extraction_plan_is_the_same_on_rerun() {
    let bytes = make_zip(&[Rec::Dir("d"), Rec::File("d/f", b"x"), Rec::File("d/g", b"y")]);
    let a = plan_extraction(&bytes, ROOT).unwrap();
    let b = plan_extraction(&bytes, ROOT).unwrap();
    assert_eq!(paths(&a), paths(&b));
    assert_eq!(a.iter().map(|o| o.data.clone()).collect::<Vec<_>>(), b.iter().map(|o| o.data.clone()).collect::<Vec<_>>());
}

#[test]
fn install_bundle_checks_the_name_first() {
    let bytes = make_zip(&[Rec::File("x.txt", b"1")]);
    assert_eq!(plan_install_bundle("..", &bytes).err(), Some(InstallError::InvalidName));
    assert_eq!(plan_install_bundle("Sketch", b"junk").err(), Some(InstallError::OpenFailed));
    let ops = plan_install_bundle("Sketch", &bytes).unwrap();
    assert_eq!(paths(&ops), vec!["C:\\Sketch\\x.txt".to_string()]);
}

#[test]
fn layout_paths() {
    assert_eq!(canonical_folder(ROOT), "C:\\Sketch\\Processing");
    assert_eq!(archive_folder(ROOT), "C:\\Sketch\\processing-3.5.4");
    assert_eq!(direct_candidate(ROOT), "C:\\Sketch\\Processing\\processing.exe");
    assert_eq!(nested_candidate(ROOT, "v2"), "C:\\Sketch\\Processing\\v2\\processing.exe");
    assert_eq!(fallback_candidate(ROOT), "C:\\Sketch\\processing-3.5.4\\processing.exe");
}

#[test]
fn rename_only_when_target_absent() {
    assert!(should_rename(true, false));
    assert!(!should_rename(true, true));
    assert!(!should_rename(false, false));
    assert!(!should_rename(false, true));
}

fn sub(name: &str, has_exe: bool) -> SubfolderProbe {
    SubfolderProbe { name: name.to_string(), has_exe }
}

#[test]
fn locate_prefers_direct_candidate() {
    let p = LayoutProbe { direct_exists: true, subfolders: vec![sub("a", true)], fallback_exists: true };
    assert_eq!(select_executable(ROOT, &p).unwrap(), "C:\\Sketch\\Processing\\processing.exe");
}

#[test]
fn locate_takes_first_subfolder_hit() {
    let p = LayoutProbe {
        direct_exists: false,
        subfolders: vec![sub("a", false), sub("b", true), sub("c", true)],
        fallback_exists: true,
    };
    assert_eq!(select_executable(ROOT, &p).unwrap(), "C:\\Sketch\\Processing\\b\\processing.exe");
}

#[test]
fn locate_uses_fallback_alone() {
    let p = LayoutProbe { direct_exists: false, subfolders: vec![sub("a", false)], fallback_exists: true };
    assert_eq!(select_executable(ROOT, &p).unwrap(), "C:\\Sketch\\processing-3.5.4\\processing.exe");
}

#[test]
fn locate_reports_not_found() {
    let p = LayoutProbe { direct_exists: false, subfolders: vec![], fallback_exists: false };
    assert_eq!(select_executable(ROOT, &p), Err(InstallError::NotFound));
}

#[test]
fn nested_archive_folder_is_found_after_rename() {
    let bytes = make_zip(&[
        Rec::Dir("processing-3.5.4"),
        Rec::Dir("processing-3.5.4/processing-3.5.4"),
        Rec::File("processing-3.5.4/processing-3.5.4/processing.exe", b"MZ"),
    ]);
    let ops = plan_extraction(&bytes, ROOT).unwrap();
    assert_eq!(ops[2].path, "C:\\Sketch\\processing-3.5.4\\processing-3.5.4\\processing.exe");
    // After the rename the outer folder is the canonical one; the executable
    // then sits one folder down.
    assert!(should_rename(true, false));
    let renamed = LayoutProbe { direct_exists: false, subfolders: vec![sub("processing-3.5.4", true)], fallback_exists: false };
    assert_eq!(
        select_executable(ROOT, &renamed).unwrap(),
        "C:\\Sketch\\Processing\\processing-3.5.4\\processing.exe"
    );
    // Rename skipped because the canonical folder already held the layout.
    assert!(!should_rename(true, true));
    let kept = LayoutProbe { direct_exists: false, subfolders: vec![sub("other", false), sub("processing-3.5.4", true)], fallback_exists: false };
    assert_eq!(select_executable(ROOT, &kept).unwrap(), "C:\\Sketch\\Processing\\processing-3.5.4\\processing.exe");
}

#[test]
fn base_names() {
    assert_eq!(base_name("D:\\data\\extra").unwrap(), "extra");
    assert_eq!(base_name("/home/u/notes.txt").unwrap(), "notes.txt");
    assert_eq!(base_name("D:\\data\\dir\\\\").unwrap(), "dir");
    assert!(base_name("").is_none());
    assert!(base_name("a/..").is_none());
    assert!(base_name("\\").is_none());
    assert_eq!(base_name("D:\\data\\dir\\.").unwrap(), "dir");
    assert_eq!(base_name("a/./.").unwrap(), "a");
    assert!(base_name(".").is_none());
    assert!(base_name("C:").is_none());
}

#[test]
fn copy_refuses_items_that_climb_out() {
    let items = vec![
        SourceItem { rel: vec!["ok.txt".to_string()], is_dir: false },
        SourceItem { rel: vec!["..".to_string(), "evil.txt".to_string()], is_dir: false },
    ];
    assert_eq!(
        plan_copy(ROOT, "D:\\in\\libs", SourceKind::Dir, &items).err(),
        Some(InstallError::IoFailure("D:\\in\\libs\\..\\evil.txt".to_string()))
    );
}

#[test]
fn copy_of_missing_source_does_nothing() {
    assert!(plan_copy(ROOT, "D:\\nowhere\\x", SourceKind::Missing, &vec![]).unwrap().is_empty());
    assert!(plan_copy(ROOT, "..", SourceKind::Missing, &vec![]).unwrap().is_empty());
}

#[test]
fn copy_of_file_goes_under_its_base_name() {
    let ops = plan_copy(ROOT, "D:\\in\\lib.jar", SourceKind::File, &vec![]).unwrap();
    assert_eq!(ops.len(), 1);
    assert_eq!(ops[0].from, "D:\\in\\lib.jar");
    assert_eq!(ops[0].to, "C:\\Sketch\\lib.jar");
    assert!(!ops[0].is_dir);
}

#[test]
fn copy_of_directory_mirrors_subtree() {
    let items = vec![
        SourceItem { rel: vec!["a".to_string()], is_dir: true },
        SourceItem { rel: vec!["a".to_string(), "f.txt".to_string()], is_dir: false },
        SourceItem { rel: vec!["g.txt".to_string()], is_dir: false },
    ];
    let ops = plan_copy(ROOT, "D:\\in\\libs", SourceKind::Dir, &items).unwrap();
    let got: Vec<(String, String, bool)> = ops.iter().map(|o| (o.from.clone(), o.to.clone(), o.is_dir)).collect();
    assert_eq!(
        got,
        vec![
            ("D:\\in\\libs".to_string(), "C:\\Sketch\\libs".to_string(), true),
            ("D:\\in\\libs\\a".to_string(), "C:\\Sketch\\libs\\a".to_string(), true),
            ("D:\\in\\libs\\a\\f.txt".to_string(), "C:\\Sketch\\libs\\a\\f.txt".to_string(), false),
            ("D:\\in\\libs\\g.txt".to_string(), "C:\\Sketch\\libs\\g.txt".to_string(), false),
        ]
    );
}

#[test]
fn copy_without_base_name_fails() {
    assert_eq!(plan_copy(ROOT, "D:\\..", SourceKind::Dir, &vec![]).err(), Some(InstallError::IoFailure("D:\\..".to_string())));
}

#[test]
fn parent_of_paths() {
    assert_eq!(parent_dir("C:\\Sketch\\Processing\\processing.exe").unwrap(), "C:\\Sketch\\Processing");
    assert!(parent_dir("processing.exe").is_none());
}

#[test]
fn quoting_doubles_single_quotes() {
    assert_eq!(quote("O'Brien's"), "O''Brien''s");
    assert_eq!(quote("plain"), "plain");
}

#[test]
fn shortcut_specs_and_script() {
    let exe = "C:\\Sketch\\Processing\\processing.exe";
    let specs = shortcut_specs(ROOT, exe);
    assert_eq!(specs.len(), 3);
    assert_eq!(specs[0].name, "Processing");
    assert_eq!(specs[0].working_dir.as_deref(), Some("C:\\Sketch\\Processing"));
    assert_eq!(specs[1].target, "C:\\Sketch\\startech");
    assert_eq!(specs[2].target, "C:\\Sketch\\Template");
    let script = shortcut_script("D:\\Desk", &specs);
    let expected = "$ws = New-Object -ComObject WScript.Shell\n\
        $s = $ws.CreateShortcut('D:\\Desk\\Processing.lnk')\n\
        $s.TargetPath = 'C:\\Sketch\\Processing\\processing.exe'\n\
        $s.WorkingDirectory = 'C:\\Sketch\\Processing'\n\
        $s.Save()\n\
        $s = $ws.CreateShortcut('D:\\Desk\\Startech.lnk')\n\
        $s.TargetPath = 'C:\\Sketch\\startech'\n\
        $s.Save()\n\
        $s = $ws.CreateShortcut('D:\\Desk\\Template.lnk')\n\
        $s.TargetPath = 'C:\\Sketch\\Template'\n\
        $s.Save()\n";
    assert_eq!(script, expected);
}

#[test]
fn shortcut_script_needs_a_desktop() {
    let exe = "C:\\Sketch\\Processing\\processing.exe";
    assert_eq!(create_shortcuts_script(None, ROOT, exe), Err(InstallError::DesktopUnavailable));
    let s = create_shortcuts_script(Some("D:\\Desk".to_string()), ROOT, exe).unwrap();
    assert_eq!(s, shortcut_script("D:\\Desk", &shortcut_specs(ROOT, exe)));
    assert!(s.contains("'D:\\Desk\\Template.lnk'"));
}

#[test]
fn shortcut_outcomes() {
    assert_eq!(shortcut_outcome(true, "ignored"), Ok(()));
    assert_eq!(
        shortcut_outcome(false, "access denied"),
        Err(InstallError::ShortcutError("Failed to create shortcuts: access denied".to_string()))
    );
}

#[test]
fn association_commands() {
    assert_eq!(assoc_args(), vec!["/c", "assoc", ".pde=ProcessingSketch"]);
    assert_eq!(ftype_args("C:\\S\\p.exe"), vec!["/c", "ftype", "ProcessingSketch=\"C:\\S\\p.exe\" \"%1\""]);
}

#[test]
fn association_never_fails_on_shell_status() {
    for (a, f) in [(true, true), (true, false), (false, true), (false, false)] {
        let r = association_outcome(Ok("C:\\x.exe".to_string()), a, f);
        assert!(r.is_ok());
        assert_eq!(matches!(r, Ok(Advisory::Applied)), a && f);
    }
    assert_eq!(association_outcome(Err(InstallError::NotFound), true, true).err(), Some(InstallError::NotFound));
    assert_eq!(
        association_outcome(Err(InstallError::InvalidName), false, false).err(),
        Some(InstallError::InvalidName)
    );
}
