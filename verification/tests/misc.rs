use rnr::cli::{is_integer, Cli, Color, ReplaceTransform, SubCommands};
use rnr::config::{dump_flag, replace_limit_of, run_mode_of, RunMode};
use rnr::error::{Error, ErrorKind};
use rnr::fileutils::{cleanup_paths, same_entry_decision, unique_name_candidate, MetaFacts, PathEntry};
use rnr::paths::{file_name_of, path_depth, with_file_name};
use rnr::renamer::TextTransformation;

fn entry(path: &str, exists: bool, is_dir: bool, has_file_name: bool) -> PathEntry {
    PathEntry { path: path.to_string(), exists, is_dir, has_file_name }
}

#[test]
fn cleanup_filters_and_dedups() {
    let entries = vec![
        entry("/t/file.txt", true, false, true),
        entry("/t/missing.txt", false, false, true),
        entry("/t/dir", true, true, true),
        entry("/t/file.txt", true, false, true),
        entry("/t/link", true, false, true),
    ];
    let out = cleanup_paths(entries, false);
    let names: Vec<String> = out.iter().map(|e| e.path.clone()).collect();
    assert_eq!(names, vec!["/t/file.txt".to_string(), "/t/link".to_string()]);
}

#[test]
fn cleanup_keeps_dirs_when_asked() {
    let entries = vec![entry("/t/dir", true, true, true), entry("/t/noname", true, true, false)];
    let kept = cleanup_paths(entries, true);
    assert_eq!(kept.len(), 1);
    assert_eq!(kept[0].path, "/t/dir".to_string());
}

/// Idempotent hygiene: a second pass over the cleaned list changes
/// nothing.
#[test]
fn cleanup_idempotent() {
    let entries = vec![
        entry("b", true, false, true),
        entry("a", true, false, true),
        entry("b", true, false, true),
        entry("gone", false, false, true),
    ];
    let once = cleanup_paths(entries, false);
    let twice = cleanup_paths(once.clone(), false);
    assert_eq!(once.len(), twice.len());
    for i in 0..once.len() {
        assert_eq!(once[i].path, twice[i].path);
    }
    let names: Vec<String> = once.iter().map(|e| e.path.clone()).collect();
    assert_eq!(names, vec!["a".to_string(), "b".to_string()]);
}

/// The cleaned list comes back sorted ascending by path.
#[test]
fn cleanup_sorts_ascending() {
    let entries = vec![
        entry("/t/c.txt", true, false, true),
        entry("/t/a.txt", true, false, true),
        entry("/t/b.txt", true, false, true),
    ];
    let out = cleanup_paths(entries, false);
    let names: Vec<String> = out.iter().map(|e| e.path.clone()).collect();
    assert_eq!(
        names,
        vec!["/t/a.txt".to_string(), "/t/b.txt".to_string(), "/t/c.txt".to_string()]
    );
}

fn facts(kind: u8, size: u64, secs: u64) -> MetaFacts {
    MetaFacts {
        kind,
        size,
        has_created: true,
        created_secs: secs,
        created_nanos: 0,
        has_modified: true,
        modified_secs: secs,
        modified_nanos: 0,
    }
}

/// Same entry: the paths agree up to case and the metadata agree exactly.
#[test]
fn same_entry_cases() {
    let a = facts(0, 13, 100);
    assert!(same_entry_decision(
        &"/t/File.txt".to_string(),
        &"/t/file.txt".to_string(),
        &a,
        &a.clone()
    ));
    // Different metadata: a different entry, case-equal names or not.
    let b = facts(0, 14, 100);
    assert!(!same_entry_decision(
        &"/t/File.txt".to_string(),
        &"/t/file.txt".to_string(),
        &a,
        &b
    ));
    // Names that differ beyond case are different entries.
    assert!(!same_entry_decision(
        &"/t/File.txt".to_string(),
        &"/t/other.txt".to_string(),
        &a,
        &a.clone()
    ));
}

#[test]
fn unique_name_candidates() {
    let path = "/t/test_file_1".to_string();
    assert_eq!(unique_name_candidate(&path, &"".to_string(), 0), "/t/test_file_1".to_string());
    assert_eq!(unique_name_candidate(&path, &"".to_string(), 5), "/t/test_file_1.5".to_string());
    assert_eq!(
        unique_name_candidate(&path, &".bk".to_string(), 0),
        "/t/test_file_1.bk".to_string()
    );
    assert_eq!(
        unique_name_candidate(&path, &".bk".to_string(), 2),
        "/t/test_file_1.bk.2".to_string()
    );
}

#[test]
fn path_helpers() {
    assert_eq!(file_name_of(&"/a/b/c.txt".to_string()), "c.txt".to_string());
    assert_eq!(file_name_of(&"plain".to_string()), "plain".to_string());
    assert_eq!(
        with_file_name(&"/a/b/c.txt".to_string(), &"d.txt".to_string()),
        "/a/b/d.txt".to_string()
    );
    assert_eq!(with_file_name(&"plain".to_string(), &"new".to_string()), "new".to_string());
    assert_eq!(path_depth(&"/a/b/c".to_string()), 3);
    assert_eq!(path_depth(&"rel.txt".to_string()), 0);
}

#[test]
fn is_integer_accepts_numbers() {
    assert!(is_integer("42".to_string()).is_ok());
    assert!(is_integer("+7".to_string()).is_ok());
    assert!(is_integer("0".to_string()).is_ok());
}

#[test]
fn is_integer_rejects_other_text() {
    assert_eq!(
        is_integer("abc".to_string()).unwrap_err(),
        "Value provided is not an integer".to_string()
    );
    assert!(is_integer("".to_string()).is_err());
    assert!(is_integer("-3".to_string()).is_err());
    assert!(is_integer("1.5".to_string()).is_err());
    // One more than usize::MAX on a 64-bit machine.
    assert!(is_integer("18446744073709551616".to_string()).is_err());
    assert!(is_integer("18446744073709551615".to_string()).is_ok());
}

fn base_cli() -> Cli {
    Cli {
        command: None,
        expression: "a".to_string(),
        replacement: "b".to_string(),
        dry_run: false,
        force: false,
        backup: false,
        silent: false,
        color: Color::Auto,
        dump: false,
        no_dump: false,
        paths: vec!["x".to_string(), "y".to_string()],
        include_dirs: false,
        recursive: false,
        max_depth: None,
        hidden: false,
        replace_limit: None,
        replace_transform: None,
    }
}

#[test]
fn run_mode_simple() {
    let cli = base_cli();
    match run_mode_of(&cli) {
        RunMode::Simple(paths) => assert_eq!(paths, vec!["x".to_string(), "y".to_string()]),
        _ => panic!("expected the simple mode"),
    }
}

#[test]
fn run_mode_recursive() {
    let mut cli = base_cli();
    cli.recursive = true;
    cli.max_depth = Some(2);
    cli.hidden = true;
    match run_mode_of(&cli) {
        RunMode::Recursive { paths, max_depth, hidden } => {
            assert_eq!(paths, vec!["x".to_string(), "y".to_string()]);
            assert_eq!(max_depth, Some(2));
            assert!(hidden);
        },
        _ => panic!("expected the recursive mode"),
    }
}

#[test]
fn run_mode_from_file() {
    let mut cli = base_cli();
    cli.command = Some(SubCommands::FromFile { dumpfile: "rnr-x.json".to_string(), undo: None });
    match run_mode_of(&cli) {
        RunMode::FromFile { path, undo } => {
            assert_eq!(path, "rnr-x.json".to_string());
            assert!(!undo);
        },
        _ => panic!("expected the from-file mode"),
    }
}

#[test]
fn dump_defaults() {
    // Forced runs dump unless suppressed.
    assert!(dump_flag(true, false, false));
    assert!(!dump_flag(true, false, true));
    // Dry runs dump only when asked.
    assert!(!dump_flag(false, false, false));
    assert!(dump_flag(false, true, false));
}

#[test]
fn replace_limit_default() {
    let mut cli = base_cli();
    assert_eq!(replace_limit_of(&cli), 1);
    cli.replace_limit = Some(0);
    assert_eq!(replace_limit_of(&cli), 0);
}

#[test]
fn transform_from_flag() {
    assert!(matches!(
        TextTransformation::from(Some(ReplaceTransform::Upper)),
        TextTransformation::Upper
    ));
    assert!(matches!(
        TextTransformation::from(Some(ReplaceTransform::Lower)),
        TextTransformation::Lower
    ));
    assert!(matches!(
        TextTransformation::from(Some(ReplaceTransform::ASCII)),
        TextTransformation::ASCII
    ));
    assert!(matches!(TextTransformation::from(None), TextTransformation::Unchanged));
}

#[test]
fn error_descriptions() {
    let e = Error { kind: ErrorKind::ExistingPath, value: None };
    assert_eq!(e.description(), "Conflict with existing path ");
    let e = Error { kind: ErrorKind::SameFilename, value: None };
    assert_eq!(e.description(), "Files will have the same name\n");
    let e = Error { kind: ErrorKind::SolveOrder, value: None };
    assert_eq!(e.description(), "Cannot solve sorting problem.");
    let e = Error { kind: ErrorKind::Rename, value: None };
    assert_eq!(e.description(), "Cannot rename ");
    let e = Error { kind: ErrorKind::CreateBackup, value: None };
    assert_eq!(e.description(), "Cannot create a backup of ");
    let e = Error { kind: ErrorKind::CreateFile, value: None };
    assert_eq!(e.description(), "Cannot create file ");
    let e = Error { kind: ErrorKind::CreateSymlink, value: None };
    assert_eq!(e.description(), "Cannot create symlink ");
    let e = Error { kind: ErrorKind::JsonParse, value: None };
    assert_eq!(e.description(), "Cannot parse JSON file ");
    let e = Error { kind: ErrorKind::ReadFile, value: None };
    assert_eq!(e.description(), "Cannot open/read file ");
    let e = Error { kind: ErrorKind::EditorCommand, value: None };
    assert_eq!(e.description(), "Cannot run editor command ");
    let e = Error { kind: ErrorKind::EditorLineCount, value: None };
    assert_eq!(e.description(), "Cannot parse edited line ");
}
