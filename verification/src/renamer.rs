//! The conflict-map builder and the text transformations used to derive
//! target names.
//!
//! The builder takes the proposed `(source, target)` pairs of one batch —
//! the target derivation itself (a pattern replacement or transliteration)
//! is supplied by the caller — discards pairs whose target equals their
//! source, and builds the target-to-source [`RenameMap`], failing with
//! `SameFilename` when two different sources propose the same target.

use vstd::prelude::*;
use crate::error::{Error, ErrorKind};
use crate::solver::{map_source, op_pairs, targets_of, map_wf, Operation, RenameMap};
use crate::paths::{file_name_spec, file_name_of, with_file_name_spec, with_file_name};

verus! {

/// The targets of a pair list.
pub open spec fn pair_targets(ps: Seq<(Seq<char>, Seq<char>)>) -> Seq<Seq<char>> {
    ps.map(|i: int, p: (Seq<char>, Seq<char>)| p.1)
}

/// The source recorded for a target among the pairs (the first, if targets
/// repeat).
pub open spec fn pair_source(ps: Seq<(Seq<char>, Seq<char>)>, t: Seq<char>) -> Seq<char>
    decreases ps.len(),
{
    if ps.len() == 0 {
        Seq::empty()
    } else if ps[0].1 == t {
        ps[0].0
    } else {
        pair_source(ps.drop_first(), t)
    }
}

/// `map_source` on entries agrees with `pair_source` on their pairs.
proof fn lemma_map_source_pairs(m: Seq<Operation>, t: Seq<char>)
    ensures
        map_source(m, t) == pair_source(op_pairs(m), t),
    decreases m.len(),
{
    if m.len() > 0 {
        lemma_map_source_pairs(m.drop_first(), t);
        assert(op_pairs(m).drop_first() =~= op_pairs(m.drop_first()));
    }
}

/// The map entries kept after processing the proposals in order: pairs
/// whose target equals their source are dropped, and a pair whose target
/// was already taken is dropped as a collision.
pub open spec fn build_map(ps: Seq<(Seq<char>, Seq<char>)>) -> Seq<(Seq<char>, Seq<char>)>
    decreases ps.len(),
{
    if ps.len() == 0 {
        Seq::empty()
    } else {
        let prev = build_map(ps.drop_last());
        let p = ps.last();
        if p.0 == p.1 {
            prev
        } else if pair_targets(prev).contains(p.1) {
            prev
        } else {
            prev.push(p)
        }
    }
}

/// The collision report accumulated while processing the proposals: for
/// each pair whose target was already taken by a different source, both
/// conflicting lines.
pub open spec fn build_err(ps: Seq<(Seq<char>, Seq<char>)>) -> Seq<char>
    decreases ps.len(),
{
    if ps.len() == 0 {
        Seq::empty()
    } else {
        let prev = build_map(ps.drop_last());
        let preverr = build_err(ps.drop_last());
        let p = ps.last();
        if p.0 == p.1 {
            preverr
        } else if pair_targets(prev).contains(p.1) {
            preverr + "\n"@ + pair_source(prev, p.1) + "->"@ + p.1 + "\n"@ + p.0 + "->"@ + p.1
                + "\n"@
        } else {
            preverr
        }
    }
}

/// Every kept entry is one of the proposals, at some index.
proof fn lemma_build_map_from(ps: Seq<(Seq<char>, Seq<char>)>, k: int)
    requires
        0 <= k < build_map(ps).len(),
    ensures
        exists|i: int| 0 <= i < ps.len() && ps[i] == build_map(ps)[k],
    decreases ps.len(),
{
    if ps.len() > 0 {
        let prev = build_map(ps.drop_last());
        if k < prev.len() {
            lemma_build_map_from(ps.drop_last(), k);
            let i = choose|i: int| 0 <= i < ps.drop_last().len() && ps.drop_last()[i] == prev[k];
            assert(ps[i] == build_map(ps)[k]);
        } else {
            assert(ps[ps.len() - 1] == build_map(ps)[k]);
        }
    }
}

/// The kept entries have pairwise distinct targets, and — when the
/// proposed sources are pairwise distinct — pairwise distinct sources.
proof fn lemma_build_map_wf(ps: Seq<(Seq<char>, Seq<char>)>)
    requires
        forall|i: int, j: int| 0 <= i < j < ps.len() ==> ps[i].0 != ps[j].0,
    ensures
        forall|i: int, j: int|
            0 <= i < j < build_map(ps).len() ==> build_map(ps)[i].1 != build_map(ps)[j].1,
        forall|i: int, j: int|
            0 <= i < j < build_map(ps).len() ==> build_map(ps)[i].0 != build_map(ps)[j].0,
    decreases ps.len(),
{
    if ps.len() > 0 {
        lemma_build_map_wf(ps.drop_last());
        let prev = build_map(ps.drop_last());
        let b = build_map(ps);
        if b.len() == prev.len() + 1 {
            let p = ps.last();
            assert forall|i: int, j: int| 0 <= i < j < b.len() implies b[i].1 != b[j].1 by {
                if j == b.len() - 1 {
                    assert(b[j] == p);
                    assert(pair_targets(prev)[i] == prev[i].1);
                    assert(!pair_targets(prev).contains(p.1));
                }
            }
            assert forall|i: int, j: int| 0 <= i < j < b.len() implies b[i].0 != b[j].0 by {
                if j == b.len() - 1 {
                    assert(b[j] == p);
                    lemma_build_map_from(ps.drop_last(), i);
                    let pi = choose|pi: int|
                        0 <= pi < ps.drop_last().len() && ps.drop_last()[pi] == prev[i];
                    assert(ps[pi] == b[i]);
                    assert(ps[ps.len() - 1] == p);
                }
            }
        }
    }
}

/// Build the rename map from the proposed pairs of one batch. Pairs whose
/// target equals their source are no-ops and dropped. When two different
/// sources propose the same target, the whole batch fails with
/// `SameFilename`, reporting every colliding pair of lines.
#[verifier::loop_isolation(false)]
pub fn get_rename_map(pairs: &Vec<Operation>) -> (r: Result<RenameMap, Error>)
    requires
        forall|i: int, j: int| 0 <= i < j < pairs@.len() ==> pairs@[i].source@ != pairs@[j].source@,
    ensures
        match r {
            Ok(map) => {
                &&& build_err(op_pairs(pairs@)) == Seq::<char>::empty()
                &&& op_pairs(map.entries@) == build_map(op_pairs(pairs@))
                &&& map_wf(map.entries@)
            },
            Err(e) => {
                &&& build_err(op_pairs(pairs@)).len() > 0
                &&& e.kind == ErrorKind::SameFilename
                &&& e.value matches Some(v) && v@ == build_err(op_pairs(pairs@))
            },
        },
{
    let ghost psv = op_pairs(pairs@);
    let mut rm = RenameMap { entries: Vec::new() };
    let mut err = String::new();
    let mut k: usize = 0;
    proof {
        assert(psv.take(0) =~= Seq::<(Seq<char>, Seq<char>)>::empty());
        assert(op_pairs(rm.entries@) =~= Seq::<(Seq<char>, Seq<char>)>::empty());
    }
    while k < pairs.len()
        invariant
            k <= pairs@.len(),
            op_pairs(rm.entries@) == build_map(psv.take(k as int)),
            err@ == build_err(psv.take(k as int)),
        decreases pairs@.len() - k,
    {
        proof {
            assert(psv.take(k + 1).drop_last() =~= psv.take(k as int));
            assert(psv.take(k + 1).last() == psv[k as int]);
            assert(psv[k as int] == (pairs@[k as int].source@, pairs@[k as int].target@));
        }
        let p = &pairs[k];
        if p.source == p.target {
            // A no-op proposal: the name does not change.
        } else if rm.contains_target(&p.target) {
            proof {
                assert(targets_of(rm.entries@) =~= pair_targets(op_pairs(rm.entries@)));
                lemma_map_source_pairs(rm.entries@, p.target@);
            }
            let prev_source = rm.get_source(&p.target);
            err.append("\n");
            err.append(prev_source.as_str());
            err.append("->");
            err.append(p.target.as_str());
            err.append("\n");
            err.append(p.source.as_str());
            err.append("->");
            err.append(p.target.as_str());
            err.append("\n");
        } else {
            proof {
                assert(targets_of(rm.entries@) =~= pair_targets(op_pairs(rm.entries@)));
            }
            let ghost pre = op_pairs(rm.entries@);
            rm.entries.push(Operation { source: p.source.clone(), target: p.target.clone() });
            proof {
                assert(op_pairs(rm.entries@) =~= pre.push(psv[k as int]));
            }
        }
        k = k + 1;
    }
    proof {
        assert(psv.take(pairs@.len() as int) =~= psv);
    }
    if err.as_str().unicode_len() > 0 {
        proof {
            assert(build_err(psv).len() > 0);
        }
        Err(Error { kind: ErrorKind::SameFilename, value: Some(err) })
    } else {
        proof {
            assert(err@ =~= Seq::<char>::empty());
            lemma_build_map_wf(psv);
            assert forall|i: int, j: int|
                0 <= i < j < rm.entries@.len() implies rm.entries@[i].target@
                != rm.entries@[j].target@ by {
                assert(op_pairs(rm.entries@)[i] == (rm.entries@[i].source@, rm.entries@[i].target@));
                assert(op_pairs(rm.entries@)[j] == (rm.entries@[j].source@, rm.entries@[j].target@));
            }
            assert forall|i: int, j: int|
                0 <= i < j < rm.entries@.len() implies rm.entries@[i].source@
                != rm.entries@[j].source@ by {
                assert(op_pairs(rm.entries@)[i] == (rm.entries@[i].source@, rm.entries@[i].target@));
                assert(op_pairs(rm.entries@)[j] == (rm.entries@[j].source@, rm.entries@[j].target@));
            }
        }
        Ok(rm)
    }
}

/// As the proposals are processed, a target once kept stays kept, and the
/// collision report never shrinks.
proof fn lemma_build_monotone(ps: Seq<(Seq<char>, Seq<char>)>, t: int)
    requires
        0 <= t <= ps.len(),
    ensures
        build_err(ps.take(t)).len() <= build_err(ps).len(),
        forall|c: Seq<char>|
            pair_targets(build_map(ps.take(t))).contains(c) ==> pair_targets(
                build_map(ps),
            ).contains(c),
    decreases ps.len() - t,
{
    if t == ps.len() {
        assert(ps.take(t) =~= ps);
    } else {
        lemma_build_monotone(ps, t + 1);
        let a = ps.take(t);
        let b = ps.take(t + 1);
        assert(b.drop_last() =~= a);
        assert(b.last() == ps[t]);
        let prev = build_map(a);
        assert forall|c: Seq<char>|
            pair_targets(prev).contains(c) implies pair_targets(build_map(b)).contains(c) by {
            let y = choose|y: int| 0 <= y < prev.len() && pair_targets(prev)[y] == c;
            if build_map(b) == prev.push(ps[t]) {
                assert(pair_targets(build_map(b))[y] == prev[y].1);
            } else {
                assert(build_map(b) == prev);
            }
        }
    }
}

/// Collision detection in general: in any batch of proposals, two that
/// name the same target while renaming it from somewhere else make the
/// build fail — `get_rename_map` returns `SameFilename`.
pub proof fn lemma_collision_always_reported(ps: Seq<(Seq<char>, Seq<char>)>, i: int, j: int)
    requires
        0 <= i < j < ps.len(),
        ps[i].1 == ps[j].1,
        ps[i].0 != ps[i].1,
        ps[j].0 != ps[j].1,
    ensures
        build_err(ps).len() > 0,
{
    reveal_strlit("\n");
    let c = ps[i].1;
    let a = ps.take(i);
    let b = ps.take(i + 1);
    assert(b.drop_last() =~= a);
    assert(b.last() == ps[i]);
    if pair_targets(build_map(a)).contains(c) {
        // The target was already taken before step `i`: that step itself
        // reports a collision.
        assert(build_err(b).len() > 0);
        lemma_build_monotone(ps, i + 1);
    } else {
        // Step `i` takes the target; it is still taken at step `j`, which
        // then reports the collision.
        assert(build_map(b) == build_map(a).push(ps[i]));
        assert(pair_targets(build_map(b))[build_map(a).len() as int] == c);
        assert(pair_targets(build_map(b)).contains(c));
        let bj = ps.take(j);
        assert(bj.take(i + 1) =~= b);
        lemma_build_monotone(bj, i + 1);
        assert(pair_targets(build_map(bj)).contains(c));
        let bj1 = ps.take(j + 1);
        assert(bj1.drop_last() =~= bj);
        assert(bj1.last() == ps[j]);
        assert(build_err(bj1).len() > 0);
        lemma_build_monotone(ps, j + 1);
    }
}

/// Collision detection: when two different sources both propose the same
/// target, the builder's report names both colliding lines — so
/// `get_rename_map` fails with `SameFilename` carrying exactly this text.
pub proof fn lemma_collision_reported(a: Seq<char>, b: Seq<char>, c: Seq<char>)
    requires
        a != b,
        a != c,
        b != c,
    ensures
        build_err(seq![(a, c), (b, c)]) == "\n"@ + a + "->"@ + c + "\n"@ + b + "->"@ + c + "\n"@,
        build_err(seq![(a, c), (b, c)]).len() > 0,
{
    let ps = seq![(a, c), (b, c)];
    let p0 = seq![(a, c)];
    assert(ps.drop_last() =~= p0);
    assert(p0.drop_last() =~= Seq::<(Seq<char>, Seq<char>)>::empty());
    assert(pair_targets(Seq::<(Seq<char>, Seq<char>)>::empty()).contains(c) == false);
    assert(build_map(Seq::<(Seq<char>, Seq<char>)>::empty()) == Seq::<(
        Seq<char>,
        Seq<char>,
    )>::empty());
    assert(build_err(Seq::<(Seq<char>, Seq<char>)>::empty()) == Seq::<char>::empty());
    assert(p0.last() == (a, c));
    assert(build_map(p0) =~= seq![(a, c)]);
    assert(pair_targets(build_map(p0))[0] == c);
    assert(pair_targets(build_map(p0)).contains(c));
    assert(pair_source(build_map(p0), c) == a);
    assert(build_err(p0) =~= Seq::<char>::empty());
    assert(ps.last() == (b, c));
    assert(build_err(ps) =~= "\n"@ + a + "->"@ + c + "\n"@ + b + "->"@ + c + "\n"@);
    reveal_strlit("\n");
    assert(build_err(ps).len() > 0);
}

/// What `str::to_uppercase` returns for the given characters.
pub uninterp spec fn upper_of(s: Seq<char>) -> Seq<char>;

/// What `str::to_lowercase` returns for the given characters.
pub uninterp spec fn lower_of(s: Seq<char>) -> Seq<char>;

/// What `any_ascii` returns for the given characters.
pub uninterp spec fn ascii_of(s: Seq<char>) -> Seq<char>;

/// Relies on `str::to_uppercase`: the result depends on the characters
/// alone.
#[verifier::external_body]
fn to_upper(text: &str) -> (r: String)
    ensures
        r@ == upper_of(text@),
{
    text.to_uppercase()
}

/// Relies on `str::to_lowercase`: the result depends on the characters
/// alone.
#[verifier::external_body]
pub(crate) fn to_lower(text: &str) -> (r: String)
    ensures
        r@ == lower_of(text@),
{
    text.to_lowercase()
}

/// Relies on `any_ascii::any_ascii`: a character-by-character
/// transliteration to ASCII that depends on the characters alone.
#[verifier::external_body]
fn transliterate(text: &str) -> (r: String)
    ensures
        r@ == ascii_of(text@),
{
    any_ascii::any_ascii(text)
}

/// Text transformation type.
#[derive(Debug, Copy, Clone)]
pub enum TextTransformation {
    /// To uppercase.
    Upper,
    /// To lowercase.
    Lower,
    /// To ASCII representation.
    ASCII,
    /// Leave text as it is.
    Unchanged,
}

/// What each transformation does to a piece of text.
pub open spec fn transform_spec(t: TextTransformation, s: Seq<char>) -> Seq<char> {
    match t {
        TextTransformation::Upper => upper_of(s),
        TextTransformation::Lower => lower_of(s),
        TextTransformation::ASCII => ascii_of(s),
        TextTransformation::Unchanged => s,
    }
}

impl TextTransformation {
    /// Apply the transformation to the given text.
    pub fn transform(&self, text: String) -> (r: String)
        ensures
            r@ == transform_spec(*self, text@),
    {
        match self {
            TextTransformation::Upper => to_upper(text.as_str()),
            TextTransformation::Lower => to_lower(text.as_str()),
            TextTransformation::ASCII => transliterate(text.as_str()),
            TextTransformation::Unchanged => text,
        }
    }
}

/// The target proposed by the transliteration mode: the path with its file
/// name replaced by the ASCII transliteration of that name.
pub fn to_ascii_target(path: &String) -> (r: String)
    ensures
        r@ == with_file_name_spec(path@, ascii_of(file_name_spec(path@))),
{
    let name = file_name_of(path);
    let ascii_name = transliterate(name.as_str());
    with_file_name(path, &ascii_name)
}

} // verus!
