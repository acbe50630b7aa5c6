use rnr::error::ErrorKind;
use rnr::renamer::{get_rename_map, to_ascii_target, TextTransformation};
use rnr::solver::Operation;

fn pairs_of(ps: &[(&str, &str)]) -> Vec<Operation> {
    ps.iter().map(|(s, t)| Operation { source: s.to_string(), target: t.to_string() }).collect()
}

/// Collision detection: two sources proposing one target fail the batch,
/// and the report mentions both.
#[test]
fn collision_same_filename() {
    let pairs = pairs_of(&[("a", "c"), ("b", "c")]);
    let err = get_rename_map(&pairs).unwrap_err();
    assert_eq!(err.kind, ErrorKind::SameFilename);
    assert_eq!(err.value, Some("\na->c\nb->c\n".to_string()));
}

/// Collision detection with unrelated proposals around the colliding
/// pair: the batch still fails, still naming both lines.
#[test]
fn collision_among_other_paths() {
    let pairs = pairs_of(&[("x", "xx"), ("a", "c"), ("y", "yy"), ("b", "c")]);
    let err = get_rename_map(&pairs).unwrap_err();
    assert_eq!(err.kind, ErrorKind::SameFilename);
    assert_eq!(err.value, Some("\na->c\nb->c\n".to_string()));
}

/// Proposals whose target equals their source are dropped as no-ops.
#[test]
fn builder_discards_noops() {
    let pairs = pairs_of(&[("a", "a"), ("b", "bb")]);
    let map = get_rename_map(&pairs).unwrap();
    assert_eq!(map.entries.len(), 1);
    assert_eq!(map.entries[0].source, "b".to_string());
    assert_eq!(map.entries[0].target, "bb".to_string());
}

/// The map keeps target-to-source pairs in proposal order.
#[test]
fn builder_keeps_order() {
    let pairs = pairs_of(&[("x", "xx"), ("y", "yy"), ("z", "zz")]);
    let map = get_rename_map(&pairs).unwrap();
    assert_eq!(map.entries.len(), 3);
    assert_eq!(map.entries[0].target, "xx".to_string());
    assert_eq!(map.entries[1].target, "yy".to_string());
    assert_eq!(map.entries[2].target, "zz".to_string());
}

#[test]
fn transform_upper() {
    let t = TextTransformation::Upper;
    assert_eq!(t.transform("passed_file.txt".to_string()), "PASSED_FILE.TXT".to_string());
}

#[test]
fn transform_lower() {
    let t = TextTransformation::Lower;
    assert_eq!(t.transform("PASSED_File.TXT".to_string()), "passed_file.txt".to_string());
}

#[test]
fn transform_ascii() {
    let t = TextTransformation::ASCII;
    assert_eq!(t.transform("ǹön-âścîı".to_string()), "non-ascii".to_string());
}

#[test]
fn transform_unchanged() {
    let t = TextTransformation::Unchanged;
    assert_eq!(t.transform("Thïs-Îs".to_string()), "Thïs-Îs".to_string());
}

/// The transliteration mode replaces only the file name.
#[test]
fn to_ascii_target_keeps_parent() {
    let path = "/tmp/ǹön-âścîı-lower.txt".to_string();
    assert_eq!(to_ascii_target(&path), "/tmp/non-ascii-lower.txt".to_string());
    let upper = "/tmp/ǸÖN-ÂŚCÎI-UPPER.txt".to_string();
    assert_eq!(to_ascii_target(&upper), "/tmp/NON-ASCII-UPPER.txt".to_string());
}
