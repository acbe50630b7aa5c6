use rnr::error::ErrorKind;
use rnr::solver::{revert_operations, solve_rename_order, Operation, RenameMap};

fn map_of(pairs: &[(&str, &str)]) -> RenameMap {
    RenameMap {
        entries: pairs
            .iter()
            .map(|(t, s)| Operation { source: s.to_string(), target: t.to_string() })
            .collect(),
    }
}

fn strings(v: &[&str]) -> Vec<String> {
    v.iter().map(|s| s.to_string()).collect()
}

/// Chain solvability: each file gains one leading `a`; the deepest
/// dependency is resolved first and nothing is lost.
#[test]
fn solve_chain_order() {
    // target -> source, in map order
    let map = map_of(&[
        ("aa.txt", "a.txt"),
        ("aaa.txt", "aa.txt"),
        ("aaaa.txt", "aaa.txt"),
        ("aaaaa.txt", "aaaa.txt"),
        ("aaaaaa.txt", "aaaaa.txt"),
    ]);
    // Every target but the last one is occupied by a source of the batch.
    let existing = strings(&["aa.txt", "aaa.txt", "aaaa.txt", "aaaaa.txt"]);
    let same = strings(&[]);
    let ops = solve_rename_order(&map, &existing, &same).expect("Failed to solve rename order.");
    assert_eq!(ops.len(), 5);
    assert_eq!(ops[0].target, "aaaaaa.txt".to_string());
    assert_eq!(ops[0].source, "aaaaa.txt".to_string());
    assert_eq!(ops[1].target, "aaaaa.txt".to_string());
    assert_eq!(ops[2].target, "aaaa.txt".to_string());
    assert_eq!(ops[3].target, "aaa.txt".to_string());
    assert_eq!(ops[4].target, "aa.txt".to_string());
    assert_eq!(ops[4].source, "a.txt".to_string());
}

/// Cycle detection: `a` and `b` renamed into each other, both present.
#[test]
fn cycle_detected() {
    let map = map_of(&[("b", "a"), ("a", "b")]);
    let existing = strings(&["a", "b"]);
    let same = strings(&[]);
    let err = solve_rename_order(&map, &existing, &same).unwrap_err();
    assert_eq!(err.kind, ErrorKind::SolveOrder);
    assert!(err.value.is_none());
}

/// A target occupied by an entry that is not renamed in the batch is a
/// foreign collision.
#[test]
fn foreign_collision_error() {
    let map = map_of(&[("b", "a")]);
    let existing = strings(&["b"]);
    let same = strings(&[]);
    let err = solve_rename_order(&map, &existing, &same).unwrap_err();
    assert_eq!(err.kind, ErrorKind::ExistingPath);
    assert_eq!(err.value, Some("a -> b".to_string()));
}

/// Case-identity no-op: on a case-insensitive, case-preserving
/// filesystem the occupant of the target is the source itself, and the
/// rename goes through without `ExistingPath`.
#[test]
fn case_identity_rename() {
    let map = map_of(&[("file.txt", "File.txt")]);
    let existing = strings(&["file.txt"]);
    let same = strings(&["file.txt"]);
    let ops = solve_rename_order(&map, &existing, &same).expect("same-entry rename must solve");
    assert_eq!(ops.len(), 1);
    assert_eq!(ops[0].source, "File.txt".to_string());
    assert_eq!(ops[0].target, "file.txt".to_string());
}

/// Free targets come first, in map order, then the blocked ones.
#[test]
fn free_targets_first() {
    let map = map_of(&[("bb", "b"), ("cc", "c"), ("b", "x")]);
    // "b" exists (it is the source of the first entry); "bb" and "cc" do not.
    let existing = strings(&["b"]);
    let same = strings(&[]);
    let ops = solve_rename_order(&map, &existing, &same).unwrap();
    assert_eq!(ops.len(), 3);
    assert_eq!(ops[0].target, "bb".to_string());
    assert_eq!(ops[1].target, "cc".to_string());
    assert_eq!(ops[2].target, "b".to_string());
}

/// Deeper paths are bucketed separately from shallow ones; levels are
/// processed deepest first.
#[test]
fn levels_deepest_first() {
    let map = map_of(&[("bb", "b"), ("/d/bb", "/d/b")]);
    let existing = strings(&[]);
    let same = strings(&[]);
    let ops = solve_rename_order(&map, &existing, &same).unwrap();
    assert_eq!(ops.len(), 2);
    assert_eq!(ops[0].target, "/d/bb".to_string());
    assert_eq!(ops[1].target, "bb".to_string());
}

/// Revert reverses the order and swaps source and target.
#[test]
fn revert_swaps_and_reverses() {
    let ops = vec![
        Operation { source: "a".to_string(), target: "b".to_string() },
        Operation { source: "c".to_string(), target: "d".to_string() },
    ];
    let rev = revert_operations(&ops).unwrap();
    assert_eq!(rev.len(), 2);
    assert_eq!(rev[0].source, "d".to_string());
    assert_eq!(rev[0].target, "c".to_string());
    assert_eq!(rev[1].source, "b".to_string());
    assert_eq!(rev[1].target, "a".to_string());
}

/// Reverting twice gives the original list back.
#[test]
fn double_revert_identity() {
    let ops = vec![
        Operation { source: "a".to_string(), target: "b".to_string() },
        Operation { source: "c".to_string(), target: "d".to_string() },
        Operation { source: "e".to_string(), target: "f".to_string() },
    ];
    let back = revert_operations(&revert_operations(&ops).unwrap()).unwrap();
    assert_eq!(back.len(), ops.len());
    for i in 0..ops.len() {
        assert_eq!(back[i].source, ops[i].source);
        assert_eq!(back[i].target, ops[i].target);
    }
}

/// An empty map solves to an empty operation list.
#[test]
fn empty_map_solves_empty() {
    let map = map_of(&[]);
    let ops = solve_rename_order(&map, &strings(&[]), &strings(&[])).unwrap();
    assert!(ops.is_empty());
}
