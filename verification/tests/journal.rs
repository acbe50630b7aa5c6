use rnr::dumpfile::{journal_filename, journal_json, parse_journal};
use rnr::solver::Operation;

fn ops_of(ps: &[(&str, &str)]) -> Vec<Operation> {
    ps.iter().map(|(s, t)| Operation { source: s.to_string(), target: t.to_string() }).collect()
}

#[test]
fn journal_exact_text() {
    let ops = ops_of(&[("/tmp/a.txt", "/tmp/b.txt")]);
    let text = journal_json(&"2024-01-02 03:04:05".to_string(), &ops);
    assert_eq!(
        text,
        "{\"date\":\"2024-01-02 03:04:05\",\"operations\":[{\"source\":\"/tmp/a.txt\",\"target\":\"/tmp/b.txt\"}]}"
    );
}

#[test]
fn journal_empty_operations() {
    let ops = ops_of(&[]);
    let text = journal_json(&"2024-01-02 03:04:05".to_string(), &ops);
    assert_eq!(text, "{\"date\":\"2024-01-02 03:04:05\",\"operations\":[]}");
    let parsed = parse_journal(&text).unwrap();
    assert!(parsed.is_empty());
}

#[test]
fn journal_round_trip() {
    let ops = ops_of(&[("a", "b"), ("c d", "e\tf"), ("g\"h", "i\\j")]);
    let text = journal_json(&"2024-12-31 23:59:59".to_string(), &ops);
    let parsed = parse_journal(&text).unwrap();
    assert_eq!(parsed.len(), ops.len());
    for i in 0..ops.len() {
        assert_eq!(parsed[i].source, ops[i].source);
        assert_eq!(parsed[i].target, ops[i].target);
    }
}

#[test]
fn journal_escapes_control_chars() {
    let ops = ops_of(&[("a\nb", "c")]);
    let text = journal_json(&"d".to_string(), &ops);
    assert_eq!(
        text,
        "{\"date\":\"d\",\"operations\":[{\"source\":\"a\\nb\",\"target\":\"c\"}]}"
    );
}

#[test]
fn parse_accepts_whitespace_and_key_order() {
    let text = "  {  \"operations\" : [ { \"target\" : \"b\" , \"source\" : \"a\" } ] , \"date\" : \"x\" }  ";
    let parsed = parse_journal(&text.to_string()).unwrap();
    assert_eq!(parsed.len(), 1);
    assert_eq!(parsed[0].source, "a".to_string());
    assert_eq!(parsed[0].target, "b".to_string());
}

#[test]
fn parse_accepts_pretty_output() {
    let text = "{\n  \"date\": \"2019-04-10 21:07:23\",\n  \"operations\": [\n    {\n      \"source\": \"./a.txt\",\n      \"target\": \"./aa.txt\"\n    },\n    {\n      \"source\": \"./b.txt\",\n      \"target\": \"./bb.txt\"\n    }\n  ]\n}";
    let parsed = parse_journal(&text.to_string()).unwrap();
    assert_eq!(parsed.len(), 2);
    assert_eq!(parsed[0].source, "./a.txt".to_string());
    assert_eq!(parsed[1].target, "./bb.txt".to_string());
}

#[test]
fn parse_decodes_unicode_escapes() {
    let text = "{\"date\":\"x\",\"operations\":[{\"source\":\"\\u0041\\n\",\"target\":\"\\u00e9\"}]}";
    let parsed = parse_journal(&text.to_string()).unwrap();
    assert_eq!(parsed[0].source, "A\n".to_string());
    assert_eq!(parsed[0].target, "é".to_string());
}

#[test]
fn parse_rejects_malformed_documents() {
    assert!(parse_journal(&"".to_string()).is_none());
    assert!(parse_journal(&"{}".to_string()).is_none());
    assert!(parse_journal(&"{\"date\":\"x\"}".to_string()).is_none());
    assert!(parse_journal(&"{\"date\":\"x\",\"operations\":[}".to_string()).is_none());
    assert!(parse_journal(&"{\"date\":\"x\",\"operations\":[]} trailing".to_string()).is_none());
    assert!(parse_journal(
        &"{\"date\":\"x\",\"operations\":[{\"source\":\"a\"}]}".to_string()
    )
        .is_none());
    // A lone surrogate escape is not a scalar value.
    assert!(parse_journal(
        &"{\"date\":\"x\",\"operations\":[{\"source\":\"\\ud800\",\"target\":\"b\"}]}".to_string()
    )
        .is_none());
}

#[test]
fn filename_has_prefix_and_extension() {
    let name = journal_filename(&"2019-04-10_210723".to_string());
    assert_eq!(name, "rnr-2019-04-10_210723.json".to_string());
}
