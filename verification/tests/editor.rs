use rnr::editor::{parse_with_delete, parse_without_delete};
use rnr::error::ErrorKind;

fn paths(names: &[&str]) -> Vec<String> {
    names.iter().map(|n| n.to_string()).collect()
}

fn lines(ls: &[&str]) -> Vec<String> {
    ls.iter().map(|l| l.to_string()).collect()
}

// --- parse_without_delete ---

#[test]
fn no_delete_unchanged() {
    let p = paths(&["/tmp/a.txt", "/tmp/b.txt"]);
    let ls = lines(&["/tmp/a.txt", "/tmp/b.txt"]);
    let result = parse_without_delete(&p, &ls).unwrap();
    assert!(result.operations.is_empty());
    assert!(result.deletions.is_empty());
}

#[test]
fn no_delete_rename() {
    let p = paths(&["/tmp/a.txt", "/tmp/b.txt"]);
    let ls = lines(&["/tmp/a_new.txt", "/tmp/b.txt"]);
    let result = parse_without_delete(&p, &ls).unwrap();
    assert_eq!(result.operations.len(), 1);
    assert_eq!(result.operations[0].source, "/tmp/a.txt".to_string());
    assert_eq!(result.operations[0].target, "/tmp/a_new.txt".to_string());
    assert!(result.deletions.is_empty());
}

#[test]
fn no_delete_wrong_line_count_error() {
    let p = paths(&["/tmp/a.txt", "/tmp/b.txt"]);
    let ls = lines(&["/tmp/a.txt"]); // one line missing
    let err = parse_without_delete(&p, &ls).unwrap_err();
    assert_eq!(err.kind, ErrorKind::EditorLineCount);
}

// --- parse_with_delete ---

#[test]
fn with_delete_unchanged() {
    let p = paths(&["/tmp/a.txt", "/tmp/b.txt"]);
    let ls = lines(&["1\t/tmp/a.txt", "2\t/tmp/b.txt"]);
    let result = parse_with_delete(&p, &ls).unwrap();
    assert!(result.operations.is_empty());
    assert!(result.deletions.is_empty());
}

#[test]
fn with_delete_rename() {
    let p = paths(&["/tmp/a.txt", "/tmp/b.txt"]);
    let ls = lines(&["1\t/tmp/a_new.txt", "2\t/tmp/b.txt"]);
    let result = parse_with_delete(&p, &ls).unwrap();
    assert_eq!(result.operations.len(), 1);
    assert_eq!(result.operations[0].source, "/tmp/a.txt".to_string());
    assert_eq!(result.operations[0].target, "/tmp/a_new.txt".to_string());
    assert!(result.deletions.is_empty());
}

#[test]
fn with_delete_delete_file() {
    let p = paths(&["/tmp/a.txt", "/tmp/b.txt"]);
    let ls = lines(&["1\t/tmp/a.txt"]); // b.txt line removed
    let result = parse_with_delete(&p, &ls).unwrap();
    assert!(result.operations.is_empty());
    assert_eq!(result.deletions, vec!["/tmp/b.txt".to_string()]);
}

#[test]
fn with_delete_invalid_index_error() {
    let p = paths(&["/tmp/a.txt"]);
    let ls = lines(&["99\t/tmp/a.txt"]); // index out of range
    let err = parse_with_delete(&p, &ls).unwrap_err();
    assert_eq!(err.kind, ErrorKind::EditorLineCount);
}

#[test]
fn with_delete_missing_tab_error() {
    let p = paths(&["/tmp/a.txt"]);
    let ls = lines(&["/tmp/a.txt"]); // no tab separator
    let err = parse_with_delete(&p, &ls).unwrap_err();
    assert_eq!(err.kind, ErrorKind::EditorLineCount);
}

#[test]
fn with_delete_duplicate_index_error() {
    let p = paths(&["/tmp/a.txt", "/tmp/b.txt"]);
    let ls = lines(&["1\t/tmp/a.txt", "1\t/tmp/b_new.txt"]); // duplicate index 1
    let err = parse_with_delete(&p, &ls).unwrap_err();
    assert_eq!(err.kind, ErrorKind::EditorLineCount);
}

// --- further editor-output cases ---

#[test]
fn with_delete_blank_lines_ignored() {
    let p = paths(&["/tmp/a.txt", "/tmp/b.txt"]);
    let ls = lines(&["  ", "1\t/tmp/a.txt", "", "2\t/tmp/b_new.txt"]);
    let result = parse_with_delete(&p, &ls).unwrap();
    assert_eq!(result.operations.len(), 1);
    assert_eq!(result.operations[0].source, "/tmp/b.txt".to_string());
    assert_eq!(result.operations[0].target, "/tmp/b_new.txt".to_string());
    assert!(result.deletions.is_empty());
}

#[test]
fn with_delete_trims_path() {
    let p = paths(&["/tmp/a.txt"]);
    let ls = lines(&[" 1 \t  /tmp/a_new.txt  "]);
    let result = parse_with_delete(&p, &ls).unwrap();
    assert_eq!(result.operations.len(), 1);
    assert_eq!(result.operations[0].target, "/tmp/a_new.txt".to_string());
}

#[test]
fn with_delete_non_numeric_index_error() {
    let p = paths(&["/tmp/a.txt"]);
    let ls = lines(&["x\t/tmp/a.txt"]);
    let err = parse_with_delete(&p, &ls).unwrap_err();
    assert_eq!(err.kind, ErrorKind::EditorLineCount);
    assert_eq!(err.value, Some("invalid index 'x' in line 'x\t/tmp/a.txt'".to_string()));
}

#[test]
fn no_delete_trims_lines() {
    let p = paths(&["/tmp/a.txt"]);
    let ls = lines(&["  /tmp/a.txt  "]);
    let result = parse_without_delete(&p, &ls).unwrap();
    assert!(result.operations.is_empty());
}
