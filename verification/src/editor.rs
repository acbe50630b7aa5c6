//! Parsing of editor output into rename and delete operations.
//!
//! The interactive part — writing the path list to a temporary file,
//! launching the editor and reading the file back — happens outside the
//! library. What the user typed comes back as plain lines, and the two
//! parsers here turn those lines into an [`EditorResult`].

use vstd::prelude::*;
use crate::error::{Error, ErrorKind};
use crate::solver::{op_pairs, Operation, Operations};
use crate::strutil::{
    seq_views, trim_spec, trim_string, find_tab_spec, find_tab, is_usize_string,
    usize_string_value, parse_usize, dec_digits, fmt_usize,
};

verus! {

/// Result of the editor interaction: rename operations and paths to
/// delete.
#[derive(Debug)]
pub struct EditorResult {
    pub operations: Operations,
    pub deletions: Vec<String>,
}

/// The rename pairs read off positionally matched lines: one pair per line
/// whose trimmed content differs from its path.
pub open spec fn without_delete_ops(ps: Seq<Seq<char>>, ls: Seq<Seq<char>>) -> Seq<
    (Seq<char>, Seq<char>),
>
    recommends
        ps.len() == ls.len(),
    decreases ps.len(),
{
    if ps.len() == 0 {
        Seq::empty()
    } else {
        without_delete_ops(ps.drop_last(), ls.drop_last()) + (if trim_spec(ls.last())
            == ps.last() {
            Seq::empty()
        } else {
            seq![(ps.last(), trim_spec(ls.last()))]
        })
    }
}

/// The error reported when the edited line count differs from the path
/// count.
pub open spec fn line_count_msg(expected: nat, got: nat) -> Seq<char> {
    "expected "@ + dec_digits(expected) + " lines but got "@ + dec_digits(got)
        + ". Use --delete to enable deletion."@
}

/// Parse editor output when deletion is NOT allowed. Each line must
/// correspond positionally to the original path list; a changed line
/// renames its path, and a changed line count is an error.
#[verifier::loop_isolation(false)]
pub fn parse_without_delete(paths: &Vec<String>, edited_lines: &Vec<String>) -> (r: Result<
    EditorResult,
    Error,
>)
    ensures
        match r {
            Ok(res) => {
                &&& paths@.len() == edited_lines@.len()
                &&& op_pairs(res.operations@) == without_delete_ops(
                    seq_views(paths@),
                    seq_views(edited_lines@),
                )
                &&& res.deletions@ == Seq::<String>::empty()
            },
            Err(e) => {
                &&& paths@.len() != edited_lines@.len()
                &&& e.kind == ErrorKind::EditorLineCount
                &&& e.value matches Some(v) && v@ == line_count_msg(
                    paths@.len(),
                    edited_lines@.len(),
                )
            },
        },
{
    let ghost psv = seq_views(paths@);
    let ghost lsv = seq_views(edited_lines@);
    if paths.len() != edited_lines.len() {
        let mut msg = String::new();
        msg.append("expected ");
        let expected = fmt_usize(paths.len());
        msg.append(expected.as_str());
        msg.append(" lines but got ");
        let got = fmt_usize(edited_lines.len());
        msg.append(got.as_str());
        msg.append(". Use --delete to enable deletion.");
        return Err(Error { kind: ErrorKind::EditorLineCount, value: Some(msg) });
    }
    let mut operations: Vec<Operation> = Vec::new();
    let mut i: usize = 0;
    proof {
        assert(psv.take(0) =~= Seq::<Seq<char>>::empty());
        assert(lsv.take(0) =~= Seq::<Seq<char>>::empty());
        assert(op_pairs(operations@) =~= without_delete_ops(psv.take(0), lsv.take(0)));
    }
    while i < paths.len()
        invariant
            i <= paths@.len(),
            paths@.len() == edited_lines@.len(),
            op_pairs(operations@) == without_delete_ops(psv.take(i as int), lsv.take(i as int)),
        decreases paths@.len() - i,
    {
        proof {
            assert(psv.take(i + 1).drop_last() =~= psv.take(i as int));
            assert(lsv.take(i + 1).drop_last() =~= lsv.take(i as int));
            assert(psv.take(i + 1).last() == paths@[i as int]@);
            assert(lsv.take(i + 1).last() == edited_lines@[i as int]@);
        }
        let target = trim_string(&edited_lines[i]);
        if !(paths[i] == target) {
            let ghost pre = op_pairs(operations@);
            operations.push(Operation { source: paths[i].clone(), target });
            proof {
                assert(op_pairs(operations@) =~= pre.push(
                    (psv[i as int], trim_spec(lsv[i as int])),
                ));
                assert(pre + seq![(psv[i as int], trim_spec(lsv[i as int]))] =~= op_pairs(
                    operations@,
                ));
            }
        }
        i = i + 1;
    }
    proof {
        assert(psv.take(paths@.len() as int) =~= psv);
        assert(lsv.take(edited_lines@.len() as int) =~= lsv);
    }
    Ok(EditorResult { operations, deletions: Vec::new() })
}

/// The views of a slot list.
pub open spec fn slot_views(sl: Seq<Option<String>>) -> Seq<Option<Seq<char>>> {
    sl.map(
        |i: int, o: Option<String>|
            match o {
                Some(s) => Some(s@),
                None => None,
            },
    )
}

/// The error reported for a line without the tab-separated index prefix.
pub open spec fn missing_tab_msg(line: Seq<char>) -> Seq<char> {
    "line '"@ + line + "' is missing the index prefix (expected 'INDEX<TAB>PATH')"@
}

/// The error reported for an index that is not a number.
pub open spec fn invalid_index_msg(index_str: Seq<char>, line: Seq<char>) -> Seq<char> {
    "invalid index '"@ + index_str + "' in line '"@ + line + "'"@
}

/// The error reported for an index outside `1..=n`.
pub open spec fn range_index_msg(index: nat, n: nat) -> Seq<char> {
    "index "@ + dec_digits(index) + " is out of range (1-"@ + dec_digits(n) + ")"@
}

/// The error reported for an index used twice.
pub open spec fn duplicate_index_msg(index: nat) -> Seq<char> {
    "duplicate index "@ + dec_digits(index) + " in editor output"@
}

/// One edited line applied to the index slots: an empty line changes
/// nothing; a line `INDEX<TAB>PATH` fills the slot of its index, and a
/// malformed, out-of-range or repeated index is an error.
pub open spec fn slot_step(sl: Seq<Option<Seq<char>>>, raw: Seq<char>, n: nat) -> Result<
    Seq<Option<Seq<char>>>,
    (ErrorKind, Option<Seq<char>>),
> {
    let line = trim_spec(raw);
    if line.len() == 0 {
        Ok(sl)
    } else {
        match find_tab_spec(line) {
            None => Err((ErrorKind::EditorLineCount, Some(missing_tab_msg(line)))),
            Some(tp) => {
                let index_str = trim_spec(line.take(tp));
                let path_str = trim_spec(line.skip(tp + 1));
                if !is_usize_string(index_str) {
                    Err((ErrorKind::EditorLineCount, Some(invalid_index_msg(index_str, line))))
                } else {
                    let index = usize_string_value(index_str);
                    if index < 1 || index > n {
                        Err(
                            (
                                ErrorKind::EditorLineCount,
                                Some(range_index_msg(index as nat, n)),
                            ),
                        )
                    } else if sl[index - 1] is Some {
                        Err(
                            (
                                ErrorKind::EditorLineCount,
                                Some(duplicate_index_msg(index as nat)),
                            ),
                        )
                    } else {
                        Ok(sl.update(index - 1, Some(path_str)))
                    }
                }
            },
        }
    }
}

/// The slots after all edited lines, starting from `n` empty slots.
pub open spec fn slots_after(ls: Seq<Seq<char>>, n: nat) -> Result<
    Seq<Option<Seq<char>>>,
    (ErrorKind, Option<Seq<char>>),
>
    decreases ls.len(),
{
    if ls.len() == 0 {
        Ok(Seq::new(n, |i: int| None))
    } else {
        match slots_after(ls.drop_last(), n) {
            Err(e) => Err(e),
            Ok(sl) => slot_step(sl, ls.last(), n),
        }
    }
}

/// Once a line has failed, the whole slot-filling pass fails with that
/// error.
proof fn lemma_slots_after_err(ls: Seq<Seq<char>>, n: nat, j: int)
    requires
        0 <= j <= ls.len(),
        slots_after(ls.take(j), n) is Err,
    ensures
        slots_after(ls, n) == slots_after(ls.take(j), n),
    decreases ls.len() - j,
{
    if j < ls.len() {
        assert(ls.take(j + 1).drop_last() =~= ls.take(j));
        lemma_slots_after_err(ls, n, j + 1);
    } else {
        assert(ls.take(j) =~= ls);
    }
}

/// The rename pairs read off the filled slots: one pair per path whose
/// slot holds a different path.
pub open spec fn with_delete_ops(ps: Seq<Seq<char>>, sl: Seq<Option<Seq<char>>>) -> Seq<
    (Seq<char>, Seq<char>),
>
    recommends
        ps.len() == sl.len(),
    decreases ps.len(),
{
    if ps.len() == 0 {
        Seq::empty()
    } else {
        with_delete_ops(ps.drop_last(), sl.drop_last()) + (match sl.last() {
            Some(t) => if t == ps.last() {
                Seq::empty()
            } else {
                seq![(ps.last(), t)]
            },
            None => Seq::empty(),
        })
    }
}

/// The deletions read off the slots: one per path whose slot stayed empty.
pub open spec fn with_delete_dels(ps: Seq<Seq<char>>, sl: Seq<Option<Seq<char>>>) -> Seq<
    Seq<char>,
>
    recommends
        ps.len() == sl.len(),
    decreases ps.len(),
{
    if ps.len() == 0 {
        Seq::empty()
    } else {
        with_delete_dels(ps.drop_last(), sl.drop_last()) + (match sl.last() {
            Some(_) => Seq::empty(),
            None => seq![ps.last()],
        })
    }
}

/// Parse editor output when deletion IS allowed. Lines have the format
/// `INDEX<TAB>PATH`; a missing index means deletion, a changed path means
/// renaming.
#[verifier::loop_isolation(false)]
pub fn parse_with_delete(paths: &Vec<String>, edited_lines: &Vec<String>) -> (r: Result<
    EditorResult,
    Error,
>)
    ensures
        match r {
            Ok(res) => slots_after(seq_views(edited_lines@), paths@.len()) matches Ok(sl) && {
                &&& op_pairs(res.operations@) == with_delete_ops(seq_views(paths@), sl)
                &&& seq_views(res.deletions@) == with_delete_dels(seq_views(paths@), sl)
            },
            Err(e) => slots_after(seq_views(edited_lines@), paths@.len()) matches Err(se) && {
                &&& e.kind == se.0
                &&& match (e.value, se.1) {
                    (Some(v), Some(sv)) => v@ == sv,
                    (None, None) => true,
                    _ => false,
                }
            },
        },
{
    let ghost psv = seq_views(paths@);
    let ghost lsv = seq_views(edited_lines@);
    let n = paths.len();

    // Fill the slots from the edited lines.
    let mut slots: Vec<Option<String>> = Vec::new();
    let mut f: usize = 0;
    while f < n
        invariant
            f <= n,
            slots@.len() == f,
            forall|k: int| 0 <= k < f ==> slots@[k] is None,
        decreases n - f,
    {
        slots.push(None);
        f = f + 1;
    }
    proof {
        assert(slot_views(slots@) =~= Seq::new(n as nat, |i: int| None::<Seq<char>>));
        assert(lsv.take(0) =~= Seq::<Seq<char>>::empty());
    }
    let mut li: usize = 0;
    while li < edited_lines.len()
        invariant
            li <= edited_lines@.len(),
            n == paths@.len(),
            slots@.len() == n,
            slots_after(lsv.take(li as int), n as nat) == Ok::<
                Seq<Option<Seq<char>>>,
                (ErrorKind, Option<Seq<char>>),
            >(slot_views(slots@)),
        decreases edited_lines@.len() - li,
    {
        proof {
            assert(lsv.take(li + 1).drop_last() =~= lsv.take(li as int));
            assert(lsv.take(li + 1).last() == lsv[li as int]);
        }
        let line = trim_string(&edited_lines[li]);
        if !line.as_str().is_empty() {
            match find_tab(&line) {
                None => {
                    let mut msg = String::new();
                    msg.append("line '");
                    msg.append(line.as_str());
                    msg.append("' is missing the index prefix (expected 'INDEX<TAB>PATH')");
                    proof {
                        assert(msg@ == missing_tab_msg(trim_spec(lsv[li as int])));
                        assert(slots_after(lsv.take(li + 1), n as nat) is Err);
                        lemma_slots_after_err(lsv, n as nat, li as int + 1);
                    }
                    return Err(Error { kind: ErrorKind::EditorLineCount, value: Some(msg) });
                },
                Some(tp) => {
                    proof {
                        crate::strutil::lemma_find_tab(line@);
                    }
                    let index_raw = line.as_str().substring_char(0, tp);
                    let index_str = trim_string(&String::from_str(index_raw));
                    let line_len = line.as_str().unicode_len();
                    let path_raw = line.as_str().substring_char(tp + 1, line_len);
                    let path_str = trim_string(&String::from_str(path_raw));
                    proof {
                        assert(index_raw@ =~= line@.take(find_tab_spec(line@)->Some_0));
                        assert(path_raw@ =~= line@.skip(find_tab_spec(line@)->Some_0 + 1));
                    }
                    match parse_usize(&index_str) {
                        None => {
                            let mut msg = String::new();
                            msg.append("invalid index '");
                            msg.append(index_str.as_str());
                            msg.append("' in line '");
                            msg.append(line.as_str());
                            msg.append("'");
                            proof {
                                assert(msg@ == invalid_index_msg(
                                    index_str@,
                                    trim_spec(lsv[li as int]),
                                ));
                                assert(slots_after(lsv.take(li + 1), n as nat) is Err);
                                lemma_slots_after_err(lsv, n as nat, li as int + 1);
                            }
                            return Err(
                                Error { kind: ErrorKind::EditorLineCount, value: Some(msg) },
                            );
                        },
                        Some(index) => {
                            if index < 1 || index > n {
                                let mut msg = String::new();
                                msg.append("index ");
                                let d1 = fmt_usize(index);
                                msg.append(d1.as_str());
                                msg.append(" is out of range (1-");
                                let d2 = fmt_usize(n);
                                msg.append(d2.as_str());
                                msg.append(")");
                                proof {
                                    assert(msg@ == range_index_msg(index as nat, n as nat));
                                    assert(slots_after(lsv.take(li + 1), n as nat) is Err);
                                    lemma_slots_after_err(lsv, n as nat, li as int + 1);
                                }
                                return Err(
                                    Error { kind: ErrorKind::EditorLineCount, value: Some(msg) },
                                );
                            }
                            if slots[index - 1].is_some() {
                                let mut msg = String::new();
                                msg.append("duplicate index ");
                                let d1 = fmt_usize(index);
                                msg.append(d1.as_str());
                                msg.append(" in editor output");
                                proof {
                                    assert(msg@ == duplicate_index_msg(index as nat));
                                    assert(slots_after(lsv.take(li + 1), n as nat) is Err);
                                    lemma_slots_after_err(lsv, n as nat, li as int + 1);
                                }
                                return Err(
                                    Error { kind: ErrorKind::EditorLineCount, value: Some(msg) },
                                );
                            }
                            let ghost slots_pre = slot_views(slots@);
                            slots[index - 1] = Some(path_str);
                            proof {
                                assert(slot_views(slots@) =~= slots_pre.update(
                                    index - 1,
                                    Some(trim_spec(line@.skip(find_tab_spec(line@)->Some_0 + 1))),
                                ));
                            }
                        },
                    }
                },
            }
        }
        li = li + 1;
    }
    proof {
        assert(lsv.take(edited_lines@.len() as int) =~= lsv);
    }
    let ghost slv = slot_views(slots@);

    // Read the operations and deletions off the slots.
    let mut operations: Vec<Operation> = Vec::new();
    let mut deletions: Vec<String> = Vec::new();
    let mut i: usize = 0;
    proof {
        assert(psv.take(0) =~= Seq::<Seq<char>>::empty());
        assert(slv.take(0) =~= Seq::<Option<Seq<char>>>::empty());
        assert(op_pairs(operations@) =~= with_delete_ops(psv.take(0), slv.take(0)));
        assert(seq_views(deletions@) =~= with_delete_dels(psv.take(0), slv.take(0)));
    }
    while i < n
        invariant
            i <= n,
            n == paths@.len(),
            slots@.len() == n,
            slv == slot_views(slots@),
            op_pairs(operations@) == with_delete_ops(psv.take(i as int), slv.take(i as int)),
            seq_views(deletions@) == with_delete_dels(psv.take(i as int), slv.take(i as int)),
        decreases n - i,
    {
        proof {
            assert(psv.take(i + 1).drop_last() =~= psv.take(i as int));
            assert(slv.take(i + 1).drop_last() =~= slv.take(i as int));
            assert(psv.take(i + 1).last() == psv[i as int]);
            assert(slv.take(i + 1).last() == slv[i as int]);
        }
        match &slots[i] {
            Some(target) => {
                if !(paths[i] == *target) {
                    let ghost pre = op_pairs(operations@);
                    operations.push(
                        Operation { source: paths[i].clone(), target: target.clone() },
                    );
                    proof {
                        assert(op_pairs(operations@) =~= pre.push(
                            (psv[i as int], slv[i as int]->Some_0),
                        ));
                        assert(pre + seq![(psv[i as int], slv[i as int]->Some_0)] =~= op_pairs(
                            operations@,
                        ));
                    }
                } else {
                    proof {
                        assert(with_delete_ops(psv.take(i + 1), slv.take(i + 1))
                            =~= with_delete_ops(psv.take(i as int), slv.take(i as int)));
                    }
                }
            },
            None => {
                let ghost pre = seq_views(deletions@);
                deletions.push(paths[i].clone());
                proof {
                    assert(seq_views(deletions@) =~= pre.push(psv[i as int]));
                    assert(pre + seq![psv[i as int]] =~= seq_views(deletions@));
                }
            },
        }
        i = i + 1;
    }
    proof {
        assert(psv.take(n as int) =~= psv);
        assert(slv.take(n as int) =~= slv);
    }
    Ok(EditorResult { operations, deletions })
}

} // verus!
