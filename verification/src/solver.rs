//! The rename-order solver.
//!
//! Given a mapping from target paths to their source paths, the solver
//! computes a total execution order in which no rename overwrites a path
//! that a later rename still needs to read, or fails: with `ExistingPath`
//! when a target is occupied by an entry that is neither renamed in the
//! batch nor the same filesystem entry as its source, and with `SolveOrder`
//! when the blocked operations form an unresolvable cycle.
//!
//! The filesystem itself is never queried here. Callers pass in the facts
//! they observed: which of the batch's target paths currently exist
//! (`existing`), and which of those are the same filesystem entry as their
//! source (`same_entry`, the case-change rename on a case-insensitive,
//! case-preserving filesystem). Paths are compared as the character
//! strings they are — the hygiene pass hands every candidate under one
//! canonical spelling, so equal strings mean the same entry. The solver is
//! verified to follow its specification-level mirror exactly for every
//! such observation.

use vstd::prelude::*;
use crate::error::{Error, ErrorKind};
use crate::strutil::{seq_views, contains_string};
use crate::paths::depth_spec;
use crate::paths::path_depth;

verus! {

/// A single renaming operation: rename `source` into `target`.
#[derive(Clone, Debug)]
pub struct Operation {
    pub source: String,
    pub target: String,
}

/// The solved, totally ordered list of operations.
pub type Operations = Vec<Operation>;

/// A mapping from target path to source path, kept in insertion order.
/// Well-formed maps have pairwise distinct targets and pairwise distinct
/// sources (see [`map_wf`]); the conflict-map builder establishes both.
#[derive(Debug)]
pub struct RenameMap {
    pub entries: Vec<Operation>,
}

/// A specification-level error: the kind and the attached value.
pub type ErrSpec = (ErrorKind, Option<Seq<char>>);

/// Whether the executable error carries exactly the specified kind and value.
pub open spec fn err_matches(e: Error, s: ErrSpec) -> bool {
    &&& e.kind == s.0
    &&& match (e.value, s.1) {
        (Some(v), Some(sv)) => v@ == sv,
        (None, None) => true,
        _ => false,
    }
}

/// The targets of the map, in insertion order.
pub open spec fn targets_of(m: Seq<Operation>) -> Seq<Seq<char>> {
    m.map(|i: int, o: Operation| o.target@)
}

/// The sources of the map, in insertion order.
pub open spec fn sources_of(m: Seq<Operation>) -> Seq<Seq<char>> {
    m.map(|i: int, o: Operation| o.source@)
}

/// The source recorded for a target (the first entry, if targets repeat).
pub open spec fn map_source(m: Seq<Operation>, t: Seq<char>) -> Seq<char>
    decreases m.len(),
{
    if m.len() == 0 {
        Seq::empty()
    } else if m[0].target@ == t {
        m[0].source@
    } else {
        map_source(m.drop_first(), t)
    }
}

/// Well-formedness of a rename map: targets are pairwise distinct and
/// sources are pairwise distinct.
pub open spec fn map_wf(m: Seq<Operation>) -> bool {
    &&& forall|i: int, j: int|
        0 <= i < j < m.len() ==> m[i].target@ != m[j].target@
    &&& forall|i: int, j: int|
        0 <= i < j < m.len() ==> m[i].source@ != m[j].source@
}

/// Looking the source up after skipping entries whose target differs.
proof fn lemma_map_source_skip(m: Seq<Operation>, t: Seq<char>, i: int)
    requires
        0 <= i <= m.len(),
        forall|k: int| 0 <= k < i ==> m[k].target@ != t,
    ensures
        map_source(m, t) == map_source(m.skip(i), t),
    decreases i,
{
    if i == 0 {
        assert(m.skip(0) =~= m);
    } else {
        lemma_map_source_skip(m, t, i - 1);
        let m1 = m.skip(i - 1);
        assert(m1[0] == m[i - 1]);
        assert(m1.drop_first() =~= m.skip(i));
    }
}

/// The recorded source of an entry of a well-formed map is the entry's own
/// source.
pub proof fn lemma_map_source_entry(m: Seq<Operation>, i: int)
    requires
        0 <= i < m.len(),
        forall|p: int, q: int|
            0 <= p < q < m.len() ==> m[p].target@ != m[q].target@,
    ensures
        map_source(m, m[i].target@) == m[i].source@,
{
    lemma_map_source_skip(m, m[i].target@, i);
    let m1 = m.skip(i);
    assert(m1[0] == m[i]);
}

impl RenameMap {
    /// The sequence of entries the map holds.
    pub open spec fn view_entries(&self) -> Seq<Operation> {
        self.entries@
    }

    /// Whether some entry's target equals `t`.
    pub fn contains_target(&self, t: &String) -> (r: bool)
        ensures
            r == targets_of(self.entries@).contains(t@),
    {
        let mut i: usize = 0;
        while i < self.entries.len()
            invariant
                i <= self.entries.len(),
                forall|k: int| 0 <= k < i ==> targets_of(self.entries@)[k] != t@,
            decreases self.entries.len() - i,
        {
            if self.entries[i].target == *t {
                assert(targets_of(self.entries@)[i as int] == t@);
                return true;
            }
            i = i + 1;
        }
        false
    }

    /// Whether some entry's source equals `p`.
    pub fn contains_source(&self, p: &String) -> (r: bool)
        ensures
            r == sources_of(self.entries@).contains(p@),
    {
        let mut i: usize = 0;
        while i < self.entries.len()
            invariant
                i <= self.entries.len(),
                forall|k: int| 0 <= k < i ==> sources_of(self.entries@)[k] != p@,
            decreases self.entries.len() - i,
        {
            if self.entries[i].source == *p {
                assert(sources_of(self.entries@)[i as int] == p@);
                return true;
            }
            i = i + 1;
        }
        false
    }

    /// The source recorded for the target `t`.
    pub fn get_source(&self, t: &String) -> (r: String)
        requires
            targets_of(self.entries@).contains(t@),
        ensures
            r@ == map_source(self.entries@, t@),
    {
        let mut i: usize = 0;
        while i < self.entries.len()
            invariant
                i <= self.entries.len(),
                targets_of(self.entries@).contains(t@),
                forall|k: int| 0 <= k < i ==> self.entries@[k].target@ != t@,
            decreases self.entries.len() - i,
        {
            if self.entries[i].target == *t {
                proof {
                    lemma_map_source_skip(self.entries@, t@, i as int);
                    assert(self.entries@.skip(i as int)[0] == self.entries@[i as int]);
                }
                return self.entries[i].source.clone();
            }
            i = i + 1;
        }
        proof {
            let j = choose|j: int|
                0 <= j < self.entries@.len() && targets_of(self.entries@)[j] == t@;
            assert(self.entries@[j].target@ == t@);
            assert(false);
        }
        unreached()
    }
}

/// The classification of a level's targets against the observed filesystem
/// facts: targets that do not exist are free; targets that exist and are a
/// batch source are blocked and returned, in order; an existing target that
/// is not a batch source is skipped when it is the same entry as its source
/// and is otherwise a fatal foreign collision.
pub open spec fn existing_targets_spec(
    ts: Seq<Seq<char>>,
    m: Seq<Operation>,
    ex: Seq<Seq<char>>,
    same: Seq<Seq<char>>,
) -> Result<Seq<Seq<char>>, ErrSpec>
    decreases ts.len(),
{
    if ts.len() == 0 {
        Ok(Seq::empty())
    } else {
        let t = ts[0];
        let rest = existing_targets_spec(ts.drop_first(), m, ex, same);
        if !ex.contains(t) {
            rest
        } else if sources_of(m).contains(t) {
            match rest {
                Ok(r) => Ok(seq![t] + r),
                Err(e) => Err(e),
            }
        } else if same.contains(t) {
            rest
        } else {
            Err((ErrorKind::ExistingPath, Some(map_source(m, t) + " -> "@ + t)))
        }
    }
}

/// Check the targets of one level against the observed filesystem facts and
/// return those that exist and must be sequenced carefully, or fail with
/// `ExistingPath` on a foreign collision.
pub fn get_existing_targets(
    targets: &Vec<String>,
    rename_map: &RenameMap,
    existing: &Vec<String>,
    same_entry: &Vec<String>,
) -> (r: Result<Vec<String>, Error>)
    requires
        forall|k: int|
            0 <= k < targets@.len() ==> targets_of(rename_map.entries@).contains(targets@[k]@),
    ensures
        match r {
            Ok(out) => existing_targets_spec(
                seq_views(targets@),
                rename_map.entries@,
                seq_views(existing@),
                seq_views(same_entry@),
            ) == Ok::<Seq<Seq<char>>, ErrSpec>(seq_views(out@)) && (forall|k: int|
                0 <= k < out@.len() ==> targets_of(rename_map.entries@).contains(out@[k]@)),
            Err(e) => existing_targets_spec(
                seq_views(targets@),
                rename_map.entries@,
                seq_views(existing@),
                seq_views(same_entry@),
            ) matches Err(se) && err_matches(e, se),
        },
{
    let ghost tsv = seq_views(targets@);
    let ghost mv = rename_map.entries@;
    let ghost exv = seq_views(existing@);
    let ghost samev = seq_views(same_entry@);
    let mut out: Vec<String> = Vec::new();
    let mut i: usize = 0;
    proof {
        assert(tsv.skip(0) =~= tsv);
        match existing_targets_spec(tsv, mv, exv, samev) {
            Ok(r) => {
                assert(seq_views(out@) + r =~= r);
            },
            Err(_) => {},
        }
    }
    while i < targets.len()
        invariant
            tsv == seq_views(targets@),
            mv == rename_map.entries@,
            exv == seq_views(existing@),
            samev == seq_views(same_entry@),
            i <= targets.len(),
            forall|k: int| 0 <= k < out@.len() ==> targets_of(mv).contains(out@[k]@),
            forall|k: int|
                0 <= k < targets@.len() ==> targets_of(rename_map.entries@).contains(
                    targets@[k]@,
                ),
            existing_targets_spec(tsv, mv, exv, samev) == (
            match existing_targets_spec(tsv.skip(i as int), mv, exv, samev) {
                Ok(r) => Ok::<Seq<Seq<char>>, ErrSpec>(seq_views(out@) + r),
                Err(e) => Err(e),
            }),
        decreases targets.len() - i,
    {
        proof {
            let s = tsv.skip(i as int);
            assert(s.len() > 0);
            assert(s[0] == tsv[i as int]);
            assert(s[0] == targets@[i as int]@);
            assert(s.drop_first() =~= tsv.skip(i + 1));
        }
        let t = &targets[i];
        if contains_string(existing, t) {
            if rename_map.contains_source(t) {
                let ghost out_pre = out@;
                out.push(t.clone());
                proof {
                    assert(seq_views(out@) =~= seq_views(out_pre).push(tsv[i as int]));
                    match existing_targets_spec(tsv.skip(i as int + 1), mv, exv, samev) {
                        Ok(r2) => {
                            assert(seq_views(out_pre) + (seq![tsv[i as int]] + r2) =~= seq_views(
                                out@,
                            ) + r2);
                        },
                        Err(_) => {},
                    }
                }
            } else if contains_string(same_entry, t) {
                // Same filesystem entry as its source: treated as free.
            } else {
                let source = rename_map.get_source(t);
                let mut msg = source.clone();
                msg.append(" -> ");
                msg.append(t.as_str());
                proof {
                    assert(msg@ == map_source(mv, tsv[i as int]) + " -> "@ + tsv[i as int]);
                }
                return Err(Error { kind: ErrorKind::ExistingPath, value: Some(msg) });
            }
        }
        i = i + 1;
    }
    proof {
        assert(tsv.skip(targets@.len() as int) =~= Seq::<Seq<char>>::empty());
        assert(seq_views(out@) + Seq::<Seq<char>>::empty() =~= seq_views(out@));
    }
    Ok(out)
}

/// The sources of the still-remaining blocked targets.
pub open spec fn rem_sources(m: Seq<Operation>, rem: Seq<Seq<char>>) -> Seq<Seq<char>> {
    rem.map(|i: int, t: Seq<char>| map_source(m, t))
}

/// The first index at or after `k` whose target is not the source of any
/// still-remaining blocked operation.
pub open spec fn first_eligible(m: Seq<Operation>, rem: Seq<Seq<char>>, k: nat) -> Option<nat>
    decreases rem.len() - k,
{
    if k >= rem.len() {
        None
    } else if !rem_sources(m, rem).contains(rem[k as int]) {
        Some(k)
    } else {
        first_eligible(m, rem, k + 1)
    }
}

/// What `first_eligible` finds: the first eligible index, if any.
proof fn lemma_first_eligible(m: Seq<Operation>, rem: Seq<Seq<char>>, k: nat)
    requires
        k <= rem.len(),
    ensures
        match first_eligible(m, rem, k) {
            Some(j) => {
                &&& k <= j < rem.len()
                &&& !rem_sources(m, rem).contains(rem[j as int])
                &&& forall|x: int| k <= x < j ==> rem_sources(m, rem).contains(rem[x])
            },
            None => forall|x: int| k <= x < rem.len() ==> rem_sources(m, rem).contains(rem[x]),
        },
    decreases rem.len() - k,
{
    if k < rem.len() && rem_sources(m, rem).contains(rem[k as int]) {
        lemma_first_eligible(m, rem, k + 1);
    }
}

/// The greedy ordering of the blocked targets: repeatedly extract the first
/// remaining target that no remaining operation still reads as its source;
/// fail with `SolveOrder` when none can be extracted while some remain.
pub open spec fn sort_spec(m: Seq<Operation>, rem: Seq<Seq<char>>) -> Result<
    Seq<Seq<char>>,
    ErrSpec,
>
    decreases rem.len(),
{
    if rem.len() == 0 {
        Ok(Seq::empty())
    } else {
        match first_eligible(m, rem, 0) {
            None => Err((ErrorKind::SolveOrder, None)),
            Some(k) => if k < rem.len() {
                match sort_spec(m, rem.remove(k as int)) {
                    Ok(r) => Ok(seq![rem[k as int]] + r),
                    Err(e) => Err(e),
                }
            } else {
                Err((ErrorKind::SolveOrder, None))
            },
        }
    }
}

/// Removing an element commutes with taking views.
proof fn lemma_seq_views_remove(v: Seq<String>, i: int)
    requires
        0 <= i < v.len(),
    ensures
        seq_views(v.remove(i)) =~= seq_views(v).remove(i),
{
}

/// Order the blocked targets so that each is written only once nothing
/// still pending reads from it, or fail with `SolveOrder` when the
/// remaining set holds an unresolvable cycle.
#[verifier::loop_isolation(false)]
pub fn sort_existing_targets(rename_map: &RenameMap, existing_targets: Vec<String>) -> (r: Result<
    Vec<String>,
    Error,
>)
    requires
        forall|k: int|
            0 <= k < existing_targets@.len() ==> targets_of(rename_map.entries@).contains(
                existing_targets@[k]@,
            ),
    ensures
        match r {
            Ok(out) => sort_spec(rename_map.entries@, seq_views(existing_targets@)) == Ok::<
                Seq<Seq<char>>,
                ErrSpec,
            >(seq_views(out@)) && (forall|k: int|
                0 <= k < out@.len() ==> targets_of(rename_map.entries@).contains(out@[k]@)),
            Err(e) => sort_spec(rename_map.entries@, seq_views(existing_targets@)) matches Err(se)
                && err_matches(e, se),
        },
{
    let ghost mv = rename_map.entries@;
    let ghost rem0 = seq_views(existing_targets@);
    let mut rem = existing_targets;
    let mut ordered: Vec<String> = Vec::new();
    proof {
        match sort_spec(mv, rem0) {
            Ok(r) => {
                assert(seq_views(ordered@) + r =~= r);
            },
            Err(_) => {},
        }
    }
    while rem.len() > 0
        invariant
            mv == rename_map.entries@,
            forall|k: int| 0 <= k < rem@.len() ==> targets_of(mv).contains(rem@[k]@),
            forall|k: int| 0 <= k < ordered@.len() ==> targets_of(mv).contains(ordered@[k]@),
            sort_spec(mv, rem0) == (match sort_spec(mv, seq_views(rem@)) {
                Ok(r) => Ok::<Seq<Seq<char>>, ErrSpec>(seq_views(ordered@) + r),
                Err(e) => Err(e),
            }),
        decreases rem.len(),
    {
        let ghost remv = seq_views(rem@);
        let n = rem.len();
        // Find the first target that is not the source of any remaining
        // blocked operation.
        let mut idx: usize = 0;
        let mut found: bool = false;
        while idx < n && !found
            invariant
                mv == rename_map.entries@,
                remv == seq_views(rem@),
                n == rem@.len(),
                idx <= n,
                forall|k: int| 0 <= k < rem@.len() ==> targets_of(mv).contains(rem@[k]@),
                !found ==> forall|x: int| 0 <= x < idx ==> rem_sources(mv, remv).contains(remv[x]),
                found ==> idx < n && !rem_sources(mv, remv).contains(remv[idx as int]) && (
                forall|x: int| 0 <= x < idx ==> rem_sources(mv, remv).contains(remv[x])),
            decreases n - idx, (if found { 0int } else { 1int }),
        {
            // Check whether rem[idx] is still read as a source.
            let mut conflict: bool = false;
            let mut j: usize = 0;
            while j < n
                invariant
                    mv == rename_map.entries@,
                    remv == seq_views(rem@),
                    n == rem@.len(),
                    idx < n,
                    j <= n,
                    forall|k: int| 0 <= k < rem@.len() ==> targets_of(mv).contains(rem@[k]@),
                    conflict ==> rem_sources(mv, remv).contains(remv[idx as int]),
                    !conflict ==> forall|x: int|
                        0 <= x < j ==> rem_sources(mv, remv)[x] != remv[idx as int],
                decreases n - j,
            {
                if !conflict {
                    let sj = rename_map.get_source(&rem[j]);
                    if sj == rem[idx] {
                        conflict = true;
                        proof {
                            assert(rem_sources(mv, remv)[j as int] == remv[idx as int]);
                        }
                    }
                }
                j = j + 1;
            }
            if conflict {
                idx = idx + 1;
            } else {
                found = true;
            }
        }
        if !found {
            proof {
                lemma_first_eligible(mv, remv, 0);
                assert(first_eligible(mv, remv, 0) is None);
                assert(sort_spec(mv, remv) == Err::<Seq<Seq<char>>, ErrSpec>(
                    (ErrorKind::SolveOrder, None),
                ));
            }
            return Err(Error { kind: ErrorKind::SolveOrder, value: None });
        }
        proof {
            lemma_first_eligible(mv, remv, 0);
            match first_eligible(mv, remv, 0) {
                Some(fj) => {
                    assert(fj <= idx);
                    assert(fj >= idx);
                },
                None => {
                    assert(false);
                },
            }
        }
        let ghost ordered_pre = ordered@;
        let ghost rem_pre = rem@;
        let picked = rem.remove(idx);
        ordered.push(picked);
        proof {
            lemma_seq_views_remove(rem_pre, idx as int);
            assert(seq_views(rem@) =~= seq_views(rem_pre).remove(idx as int));
            assert(seq_views(ordered@) =~= seq_views(ordered_pre).push(remv[idx as int]));
            match sort_spec(mv, seq_views(rem@)) {
                Ok(r2) => {
                    assert(seq_views(ordered_pre) + (seq![remv[idx as int]] + r2) =~= seq_views(
                        ordered@,
                    ) + r2);
                },
                Err(_) => {},
            }
        }
    }
    proof {
        assert(seq_views(rem@) =~= Seq::<Seq<char>>::empty());
        assert(seq_views(ordered@) + Seq::<Seq<char>>::empty() =~= seq_views(ordered@));
    }
    Ok(ordered)
}

/// A model filesystem: a map from paths to the files they hold. Renaming
/// moves the file at the source to the target path.
pub open spec fn apply_pair<V>(
    fs: Map<Seq<char>, V>,
    p: (Seq<char>, Seq<char>),
) -> Map<Seq<char>, V> {
    fs.remove(p.0).insert(p.1, fs[p.0])
}

/// Whether the renames can run in order: each step finds its source
/// present and its target free.
pub open spec fn pairs_applicable<V>(
    fs: Map<Seq<char>, V>,
    ps: Seq<(Seq<char>, Seq<char>)>,
) -> bool
    decreases ps.len(),
{
    if ps.len() == 0 {
        true
    } else {
        &&& fs.dom().contains(ps[0].0)
        &&& !fs.dom().contains(ps[0].1)
        &&& pairs_applicable(apply_pair(fs, ps[0]), ps.drop_first())
    }
}

/// The filesystem after the renames ran in order.
pub open spec fn apply_pairs<V>(
    fs: Map<Seq<char>, V>,
    ps: Seq<(Seq<char>, Seq<char>)>,
) -> Map<Seq<char>, V>
    decreases ps.len(),
{
    if ps.len() == 0 {
        fs
    } else {
        apply_pairs(apply_pair(fs, ps[0]), ps.drop_first())
    }
}

/// The reverted list: reversed order, source and target swapped.
pub open spec fn undo_pairs(ps: Seq<(Seq<char>, Seq<char>)>) -> Seq<(Seq<char>, Seq<char>)> {
    Seq::new(ps.len(), |i: int| (ps[ps.len() - 1 - i].1, ps[ps.len() - 1 - i].0))
}

/// Application distributes over concatenation, and so does applicability.
proof fn lemma_apply_pairs_concat<V>(
    fs: Map<Seq<char>, V>,
    a: Seq<(Seq<char>, Seq<char>)>,
    b: Seq<(Seq<char>, Seq<char>)>,
)
    ensures
        apply_pairs(fs, a + b) == apply_pairs(apply_pairs(fs, a), b),
        pairs_applicable(fs, a + b) == (pairs_applicable(fs, a) && pairs_applicable(
            apply_pairs(fs, a),
            b,
        )),
    decreases a.len(),
{
    if a.len() == 0 {
        assert(a + b =~= b);
    } else {
        assert((a + b)[0] == a[0]);
        assert((a + b).drop_first() =~= a.drop_first() + b);
        lemma_apply_pairs_concat(apply_pair(fs, a[0]), a.drop_first(), b);
    }
}

/// A rename followed by its swap restores the filesystem.
proof fn lemma_apply_swap_inverse<V>(fs: Map<Seq<char>, V>, p: (Seq<char>, Seq<char>))
    requires
        fs.dom().contains(p.0),
        !fs.dom().contains(p.1),
    ensures
        apply_pair(apply_pair(fs, p), (p.1, p.0)) == fs,
        apply_pair(fs, p).dom().contains(p.1),
        !apply_pair(fs, p).dom().contains(p.0),
{
    let fs1 = apply_pair(fs, p);
    assert(fs1[p.1] == fs[p.0]);
    assert(apply_pair(fs1, (p.1, p.0)) =~= fs);
}

/// Undo round-trip: applying a list of renames and then its reverted list
/// to an otherwise untouched filesystem restores the original state.
pub proof fn lemma_undo_round_trip<V>(fs: Map<Seq<char>, V>, ps: Seq<(Seq<char>, Seq<char>)>)
    requires
        pairs_applicable(fs, ps),
    ensures
        pairs_applicable(apply_pairs(fs, ps), undo_pairs(ps)),
        apply_pairs(apply_pairs(fs, ps), undo_pairs(ps)) == fs,
    decreases ps.len(),
{
    if ps.len() > 0 {
        let p = ps[0];
        let fs1 = apply_pair(fs, p);
        let rest = ps.drop_first();
        lemma_undo_round_trip(fs1, rest);
        assert(undo_pairs(ps) =~= undo_pairs(rest) + seq![(p.1, p.0)]);
        lemma_apply_pairs_concat(apply_pairs(fs, ps), undo_pairs(rest), seq![(p.1, p.0)]);
        assert(apply_pairs(fs, ps) == apply_pairs(fs1, rest));
        assert(apply_pairs(apply_pairs(fs1, rest), undo_pairs(rest)) == fs1);
        lemma_apply_swap_inverse(fs, p);
        let q = (p.1, p.0);
        let one = seq![q];
        assert(one[0] == q);
        assert(one.drop_first() =~= Seq::<(Seq<char>, Seq<char>)>::empty());
        assert(apply_pair(fs1, q) == fs);
        assert(pairs_applicable(fs, Seq::<(Seq<char>, Seq<char>)>::empty()));
        assert(apply_pairs(fs, Seq::<(Seq<char>, Seq<char>)>::empty()) == fs);
        assert(pairs_applicable(fs1, one));
        assert(apply_pairs(fs1, one) == fs);
    }
}

/// The views of a vector of depths.
pub open spec fn lvl_views(v: Seq<usize>) -> Seq<nat> {
    v.map(|i: int, x: usize| x as nat)
}

/// Insert a depth into a sorted list of distinct depths, keeping it sorted
/// and distinct.
pub open spec fn insert_level(ls: Seq<nat>, l: nat) -> Seq<nat>
    decreases ls.len(),
{
    if ls.len() == 0 {
        seq![l]
    } else if l == ls[0] {
        ls
    } else if l < ls[0] {
        seq![l] + ls
    } else {
        seq![ls[0]] + insert_level(ls.drop_first(), l)
    }
}

/// The sorted list of distinct depths of the given targets.
pub open spec fn levels_fold(ts: Seq<Seq<char>>) -> Seq<nat>
    decreases ts.len(),
{
    if ts.len() == 0 {
        Seq::empty()
    } else {
        insert_level(levels_fold(ts.drop_last()), depth_spec(ts.last()))
    }
}

/// The targets of the given depth, in order.
pub open spec fn filter_depth(ts: Seq<Seq<char>>, l: nat) -> Seq<Seq<char>>
    decreases ts.len(),
{
    if ts.len() == 0 {
        Seq::empty()
    } else {
        filter_depth(ts.drop_last(), l) + (if depth_spec(ts.last()) == l {
            seq![ts.last()]
        } else {
            Seq::empty()
        })
    }
}

/// The targets that carry no ordering constraint: those not classified as
/// blocked.
pub open spec fn free_filter(ts: Seq<Seq<char>>, exist: Seq<Seq<char>>) -> Seq<Seq<char>>
    decreases ts.len(),
{
    if ts.len() == 0 {
        Seq::empty()
    } else {
        free_filter(ts.drop_last(), exist) + (if exist.contains(ts.last()) {
            Seq::empty()
        } else {
            seq![ts.last()]
        })
    }
}

/// The solver's work on one list of levels: per level, classify the
/// targets, emit the free ones first in map order, then the blocked ones in
/// greedy order, and concatenate the levels.
pub open spec fn solve_levels(
    m: Seq<Operation>,
    ls: Seq<nat>,
    ex: Seq<Seq<char>>,
    same: Seq<Seq<char>>,
) -> Result<Seq<Seq<char>>, ErrSpec>
    decreases ls.len(),
{
    if ls.len() == 0 {
        Ok(Seq::empty())
    } else {
        let ts = filter_depth(targets_of(m), ls[0]);
        match existing_targets_spec(ts, m, ex, same) {
            Err(e) => Err(e),
            Ok(exist) => match sort_spec(m, exist) {
                Err(e) => Err(e),
                Ok(ordered) => match solve_levels(m, ls.drop_first(), ex, same) {
                    Err(e) => Err(e),
                    Ok(rest) => Ok(free_filter(ts, exist) + ordered + rest),
                },
            },
        }
    }
}

/// The pairs `(source, target)` of a list of operations.
pub open spec fn op_pairs(ops: Seq<Operation>) -> Seq<(Seq<char>, Seq<char>)> {
    ops.map(|i: int, o: Operation| (o.source@, o.target@))
}

/// The level list the solver works through: the distinct target depths,
/// deepest first — the processing convention for the depth buckets.
pub open spec fn solve_order_levels(m: Seq<Operation>) -> Seq<nat> {
    levels_fold(targets_of(m)).reverse()
}

/// What the solver returns: the concatenation over the distinct levels,
/// deepest level first, of the per-level orders, each target paired with
/// its source.
pub open spec fn solve_spec(
    m: Seq<Operation>,
    ex: Seq<Seq<char>>,
    same: Seq<Seq<char>>,
) -> Result<Seq<(Seq<char>, Seq<char>)>, ErrSpec> {
    match solve_levels(m, solve_order_levels(m), ex, same) {
        Err(e) => Err(e),
        Ok(ts) => Ok(ts.map(|i: int, t: Seq<char>| (map_source(m, t), t))),
    }
}

/// Inserting a level after skipping a strictly smaller prefix.
proof fn lemma_insert_level_skip(ls: Seq<nat>, l: nat, j: int)
    requires
        0 <= j <= ls.len(),
        forall|k: int| 0 <= k < j ==> ls[k] < l,
    ensures
        insert_level(ls, l) == ls.take(j) + insert_level(ls.skip(j), l),
    decreases j,
{
    if j == 0 {
        assert(ls.skip(0) =~= ls);
        assert(ls.take(0) + insert_level(ls, l) =~= insert_level(ls, l));
    } else {
        lemma_insert_level_skip(ls, l, j - 1);
        let s1 = ls.skip(j - 1);
        assert(s1[0] == ls[j - 1]);
        assert(s1.len() > 0);
        assert(ls[j - 1] < l);
        assert(insert_level(s1, l) == seq![s1[0]] + insert_level(s1.drop_first(), l));
        assert(s1.drop_first() =~= ls.skip(j));
        assert(ls.take(j - 1) + (seq![ls[j - 1]] + insert_level(ls.skip(j), l)) =~= ls.take(j)
            + insert_level(ls.skip(j), l));
    }
}

/// Insert a depth into the sorted vector of distinct depths.
#[verifier::loop_isolation(false)]
fn insert_level_exec(levels: &mut Vec<usize>, l: usize)
    ensures
        lvl_views(final(levels)@) == insert_level(lvl_views(old(levels)@), l as nat),
{
    let ghost ls = lvl_views(levels@);
    let mut j: usize = 0;
    while j < levels.len() && levels[j] < l
        invariant
            levels@ == old(levels)@,
            j <= levels@.len(),
            forall|k: int| 0 <= k < j ==> ls[k] < l as nat,
        decreases levels@.len() - j,
    {
        j = j + 1;
    }
    proof {
        lemma_insert_level_skip(ls, l as nat, j as int);
    }
    if j < levels.len() && levels[j] == l {
        proof {
            let s1 = ls.skip(j as int);
            assert(s1[0] == ls[j as int]);
            assert(s1[0] == l as nat);
            assert(insert_level(s1, l as nat) == s1);
            assert(ls.take(j as int) + ls.skip(j as int) =~= ls);
        }
    } else {
        let ghost pre = levels@;
        levels.insert(j, l);
        proof {
            let s1 = ls.skip(j as int);
            if s1.len() == 0 {
                assert(insert_level(s1, l as nat) =~= seq![l as nat]);
            } else {
                assert(s1[0] == ls[j as int]);
                assert((l as nat) < s1[0]);
                assert(insert_level(s1, l as nat) == seq![l as nat] + s1);
            }
            assert(lvl_views(levels@) =~= ls.take(j as int) + insert_level(s1, l as nat));
        }
    }
}

/// Solve the renaming order to avoid file overwrites. The solver orders the
/// operations considering existing targets to avoid conflicts: the depth
/// levels are worked deepest first, and within a level free targets come
/// first, then the blocked targets in an order that never writes a path
/// some pending operation still reads.
///
/// `existing` lists the batch's target paths observed to exist on the
/// filesystem; `same_entry` lists those of them whose occupant is the same
/// filesystem entry as the operation's own source.
#[verifier::loop_isolation(false)]
#[verifier::rlimit(100)]
pub fn solve_rename_order(
    rename_map: &RenameMap,
    existing: &Vec<String>,
    same_entry: &Vec<String>,
) -> (r: Result<Operations, Error>)
    requires
        map_wf(rename_map.entries@),
    ensures
        match r {
            Ok(ops) => solve_spec(
                rename_map.entries@,
                seq_views(existing@),
                seq_views(same_entry@),
            ) == Ok::<Seq<(Seq<char>, Seq<char>)>, ErrSpec>(op_pairs(ops@)),
            Err(e) => solve_spec(
                rename_map.entries@,
                seq_views(existing@),
                seq_views(same_entry@),
            ) matches Err(se) && err_matches(e, se),
        },
{
    let ghost mv = rename_map.entries@;
    let ghost exv = seq_views(existing@);
    let ghost samev = seq_views(same_entry@);
    let n = rename_map.entries.len();

    // Gather the distinct path depths of the targets, sorted ascending.
    let mut levels: Vec<usize> = Vec::new();
    let mut i: usize = 0;
    while i < n
        invariant
            i <= n,
            lvl_views(levels@) == levels_fold(targets_of(mv).take(i as int)),
        decreases n - i,
    {
        let d = path_depth(&rename_map.entries[i].target);
        insert_level_exec(&mut levels, d);
        proof {
            assert(targets_of(mv).take(i + 1).drop_last() =~= targets_of(mv).take(i as int));
            assert(targets_of(mv).take(i + 1).last() == mv[i as int].target@);
        }
        i = i + 1;
    }
    proof {
        assert(targets_of(mv).take(n as int) =~= targets_of(mv));
    }
    let ghost lvlv = lvl_views(levels@).reverse();
    proof {
        assert(lvlv == solve_order_levels(mv));
    }

    // Work level by level, deepest first, pushing each level's free
    // targets first and its ordered blocked targets after them.
    let mut order: Vec<String> = Vec::new();
    let mut li: usize = 0;
    proof {
        assert(lvlv.skip(0) =~= lvlv);
        match solve_levels(mv, lvlv, exv, samev) {
            Ok(r0) => {
                assert(seq_views(order@) + r0 =~= r0);
            },
            Err(_) => {},
        }
    }
    while li < levels.len()
        invariant
            li <= levels@.len(),
            lvlv.len() == levels@.len(),
            forall|k: int| 0 <= k < order@.len() ==> targets_of(mv).contains(order@[k]@),
            solve_levels(mv, lvlv, exv, samev) == (match solve_levels(
                mv,
                lvlv.skip(li as int),
                exv,
                samev,
            ) {
                Ok(rest) => Ok::<Seq<Seq<char>>, ErrSpec>(seq_views(order@) + rest),
                Err(e) => Err(e),
            }),
        decreases levels@.len() - li,
    {
        let lv = levels[levels.len() - 1 - li];
        proof {
            assert(lvlv[li as int] == lvl_views(levels@)[levels@.len() - 1 - li]);
            assert(lvlv.skip(li as int)[0] == lvlv[li as int]);
            assert(lvlv.skip(li as int).drop_first() =~= lvlv.skip(li as int + 1));
        }

        // Collect this level's targets, in map order.
        let mut level_targets: Vec<String> = Vec::new();
        let mut k: usize = 0;
        while k < n
            invariant
                k <= n,
                seq_views(level_targets@) == filter_depth(targets_of(mv).take(k as int), lv as nat),
                forall|j: int|
                    0 <= j < level_targets@.len() ==> targets_of(mv).contains(
                        level_targets@[j]@,
                    ),
            decreases n - k,
        {
            proof {
                assert(targets_of(mv).take(k + 1).drop_last() =~= targets_of(mv).take(k as int));
                assert(targets_of(mv).take(k + 1).last() == mv[k as int].target@);
            }
            let d = path_depth(&rename_map.entries[k].target);
            if d == lv {
                let ghost pre = seq_views(level_targets@);
                level_targets.push(rename_map.entries[k].target.clone());
                proof {
                    assert(seq_views(level_targets@) =~= pre.push(mv[k as int].target@));
                    assert(targets_of(mv)[k as int] == mv[k as int].target@);
                    assert(pre + seq![mv[k as int].target@] =~= pre.push(mv[k as int].target@));
                }
            }
            k = k + 1;
        }
        proof {
            assert(targets_of(mv).take(n as int) =~= targets_of(mv));
        }
        let ghost ts = seq_views(level_targets@);

        // Classify the targets of this level against the observations.
        let existing_targets = match get_existing_targets(
            &level_targets,
            rename_map,
            existing,
            same_entry,
        ) {
            Ok(v) => v,
            Err(e) => {
                return Err(e);
            },
        };
        let ghost existv = seq_views(existing_targets@);

        // Free targets carry no constraint: push them first, in map order.
        let ghost order_pre = seq_views(order@);
        let mut t_i: usize = 0;
        while t_i < level_targets.len()
            invariant
                t_i <= level_targets@.len(),
                forall|k2: int| 0 <= k2 < order@.len() ==> targets_of(mv).contains(order@[k2]@),
                seq_views(order@) == order_pre + free_filter(ts.take(t_i as int), existv),
            decreases level_targets@.len() - t_i,
        {
            proof {
                assert(ts.take(t_i + 1).drop_last() =~= ts.take(t_i as int));
                assert(ts.take(t_i + 1).last() == ts[t_i as int]);
            }
            if !contains_string(&existing_targets, &level_targets[t_i]) {
                let ghost opre = seq_views(order@);
                order.push(level_targets[t_i].clone());
                proof {
                    assert(seq_views(order@) =~= opre.push(ts[t_i as int]));
                    assert(order_pre + (free_filter(ts.take(t_i as int), existv) + seq![ts[t_i as int]])
                        =~= opre.push(ts[t_i as int]));
                }
            }
            t_i = t_i + 1;
        }
        proof {
            assert(ts.take(level_targets@.len() as int) =~= ts);
        }

        // Blocked targets: order them greedily, or fail on a cycle.
        let mut ordered = match sort_existing_targets(rename_map, existing_targets) {
            Ok(v) => v,
            Err(e) => {
                return Err(e);
            },
        };
        let ghost orderedv = seq_views(ordered@);
        let ghost order_mid = seq_views(order@);
        order.append(&mut ordered);
        proof {
            assert(seq_views(order@) =~= order_mid + orderedv);
            match solve_levels(mv, lvlv.skip(li as int + 1), exv, samev) {
                Ok(rest) => {
                    assert(order_pre + (free_filter(ts, existv) + orderedv + rest) =~= seq_views(
                        order@,
                    ) + rest);
                },
                Err(_) => {},
            }
        }
        li = li + 1;
    }
    proof {
        assert(lvlv.skip(levels@.len() as int) =~= Seq::<nat>::empty());
        assert(seq_views(order@) + Seq::<Seq<char>>::empty() =~= seq_views(order@));
    }

    // Assemble the ordered operations, pairing each target with its source.
    let mut ops: Vec<Operation> = Vec::new();
    let mut a: usize = 0;
    while a < order.len()
        invariant
            a <= order@.len(),
            ops@.len() == a,
            forall|k: int|
                0 <= k < a ==> ops@[k].source@ == map_source(mv, order@[k]@) && ops@[k].target@
                    == order@[k]@,
        decreases order@.len() - a,
    {
        let t = order[a].clone();
        let s = rename_map.get_source(&t);
        ops.push(Operation { source: s, target: t });
        a = a + 1;
    }
    proof {
        assert(op_pairs(ops@) =~= seq_views(order@).map(
            |i2: int, t2: Seq<char>| (map_source(mv, t2), t2),
        ));
    }
    Ok(ops)
}

/// The recorded source of a target is the source of one of the map's
/// entries, whose target is that target.
proof fn lemma_map_source_entry_exists(m: Seq<Operation>, t: Seq<char>)
    requires
        targets_of(m).contains(t),
    ensures
        exists|k: int|
            0 <= k < m.len() && m[k].target@ == t && #[trigger] m[k].source@ == map_source(m, t),
    decreases m.len(),
{
    if m[0].target@ == t {
        assert(m[0].source@ == map_source(m, t));
    } else {
        assert forall|j: int|
            0 <= j < m.drop_first().len() implies #[trigger] targets_of(m.drop_first())[j]
            == targets_of(m)[j + 1] by {}
        let i = choose|i: int| 0 <= i < m.len() && targets_of(m)[i] == t;
        assert(targets_of(m.drop_first())[i - 1] == t);
        lemma_map_source_entry_exists(m.drop_first(), t);
        let k = choose|k: int|
            0 <= k < m.drop_first().len() && m.drop_first()[k].target@ == t
                && #[trigger] m.drop_first()[k].source@ == map_source(m.drop_first(), t);
        assert(m[k + 1].target@ == t && m[k + 1].source@ == map_source(m, t));
    }
}

/// Every element of a level's target list is one of the map's targets and
/// has that level's depth.
proof fn lemma_filter_depth_facts(ts: Seq<Seq<char>>, l: nat)
    ensures
        forall|j: int|
            0 <= j < filter_depth(ts, l).len() ==> ts.contains(#[trigger] filter_depth(ts, l)[j])
                && depth_spec(filter_depth(ts, l)[j]) == l,
    decreases ts.len(),
{
    if ts.len() > 0 {
        lemma_filter_depth_facts(ts.drop_last(), l);
        assert forall|j: int| 0 <= j < filter_depth(ts, l).len() implies ts.contains(
            #[trigger] filter_depth(ts, l)[j],
        ) && depth_spec(filter_depth(ts, l)[j]) == l by {
            if j < filter_depth(ts.drop_last(), l).len() {
                assert(filter_depth(ts, l)[j] == filter_depth(ts.drop_last(), l)[j]);
                let x = filter_depth(ts.drop_last(), l)[j];
                let i = choose|i: int| 0 <= i < ts.drop_last().len() && ts.drop_last()[i] == x;
                assert(ts[i] == x);
            } else {
                assert(filter_depth(ts, l)[j] == ts.last());
                assert(ts[ts.len() - 1] == ts.last());
            }
        }
    }
}

/// What a successful classification says: every blocked target is one of
/// the level's targets, exists, and is a batch source; and every level
/// target that exists and is a batch source is among the blocked ones.
proof fn lemma_existing_spec_facts(
    ts: Seq<Seq<char>>,
    m: Seq<Operation>,
    ex: Seq<Seq<char>>,
    same: Seq<Seq<char>>,
    exist: Seq<Seq<char>>,
)
    requires
        existing_targets_spec(ts, m, ex, same) == Ok::<Seq<Seq<char>>, ErrSpec>(exist),
    ensures
        forall|j: int|
            0 <= j < exist.len() ==> ts.contains(#[trigger] exist[j]) && ex.contains(exist[j])
                && sources_of(m).contains(exist[j]),
        forall|t: Seq<char>|
            ts.contains(t) && ex.contains(t) && sources_of(m).contains(t) ==> exist.contains(t),
    decreases ts.len(),
{
    if ts.len() > 0 {
        let t0 = ts[0];
        let rest = existing_targets_spec(ts.drop_first(), m, ex, same);
        let restv = rest->Ok_0;
        if !ex.contains(t0) || (ex.contains(t0) && !sources_of(m).contains(t0)) {
            lemma_existing_spec_facts(ts.drop_first(), m, ex, same, exist);
            assert forall|j: int| 0 <= j < exist.len() implies ts.contains(#[trigger] exist[j])
                && ex.contains(exist[j]) && sources_of(m).contains(exist[j]) by {
                let x = exist[j];
                let i = choose|i: int| 0 <= i < ts.drop_first().len() && ts.drop_first()[i] == x;
                assert(ts[i + 1] == x);
            }
            assert forall|t: Seq<char>|
                ts.contains(t) && ex.contains(t) && sources_of(m).contains(t) implies exist
                .contains(t) by {
                let i = choose|i: int| 0 <= i < ts.len() && ts[i] == t;
                assert(i != 0);
                assert(ts.drop_first()[i - 1] == t);
            }
        } else {
            lemma_existing_spec_facts(ts.drop_first(), m, ex, same, restv);
            assert(exist == seq![t0] + restv);
            assert forall|j: int| 0 <= j < exist.len() implies ts.contains(#[trigger] exist[j])
                && ex.contains(exist[j]) && sources_of(m).contains(exist[j]) by {
                if j == 0 {
                    assert(exist[0] == t0);
                    assert(ts[0] == t0);
                } else {
                    assert(exist[j] == restv[j - 1]);
                    let x = restv[j - 1];
                    let i = choose|i: int|
                        0 <= i < ts.drop_first().len() && ts.drop_first()[i] == x;
                    assert(ts[i + 1] == x);
                }
            }
            assert forall|t: Seq<char>|
                ts.contains(t) && ex.contains(t) && sources_of(m).contains(t) implies exist
                .contains(t) by {
                if t == t0 {
                    assert(exist[0] == t0);
                } else {
                    let i = choose|i: int| 0 <= i < ts.len() && ts[i] == t;
                    assert(ts.drop_first()[i - 1] == t);
                    assert(restv.contains(t));
                    let j = choose|j: int| 0 <= j < restv.len() && restv[j] == t;
                    assert(exist[j + 1] == t);
                }
            }
        }
    }
}

/// A successful classification on distinct targets returns distinct
/// blocked targets, and leaves only same-entry or absent targets out.
proof fn lemma_existing_spec_more(
    ts: Seq<Seq<char>>,
    m: Seq<Operation>,
    ex: Seq<Seq<char>>,
    same: Seq<Seq<char>>,
    exist: Seq<Seq<char>>,
)
    requires
        existing_targets_spec(ts, m, ex, same) == Ok::<Seq<Seq<char>>, ErrSpec>(exist),
        forall|i: int, j: int| 0 <= i < j < ts.len() ==> ts[i] != ts[j],
    ensures
        forall|i: int, j: int| 0 <= i < j < exist.len() ==> exist[i] != exist[j],
        forall|t: Seq<char>|
            ts.contains(t) && ex.contains(t) && !sources_of(m).contains(t) ==> same.contains(t),
    decreases ts.len(),
{
    if ts.len() > 0 {
        let t0 = ts[0];
        let rest = existing_targets_spec(ts.drop_first(), m, ex, same);
        let restv = rest->Ok_0;
        assert forall|i: int, j: int|
            0 <= i < j < ts.drop_first().len() implies ts.drop_first()[i] != ts.drop_first()[j] by {
            assert(ts.drop_first()[i] == ts[i + 1]);
            assert(ts.drop_first()[j] == ts[j + 1]);
        }
        if !ex.contains(t0) || (ex.contains(t0) && !sources_of(m).contains(t0) && same.contains(
            t0,
        )) {
            lemma_existing_spec_more(ts.drop_first(), m, ex, same, exist);
            assert forall|t: Seq<char>|
                ts.contains(t) && ex.contains(t) && !sources_of(m).contains(t) implies same
                .contains(t) by {
                let i = choose|i: int| 0 <= i < ts.len() && ts[i] == t;
                if i != 0 {
                    assert(ts.drop_first()[i - 1] == t);
                }
            }
        } else {
            lemma_existing_spec_more(ts.drop_first(), m, ex, same, restv);
            lemma_existing_spec_facts(ts.drop_first(), m, ex, same, restv);
            assert(exist == seq![t0] + restv);
            assert forall|i: int, j: int| 0 <= i < j < exist.len() implies exist[i] != exist[j] by {
                if i == 0 {
                    assert(exist[0] == t0);
                    assert(exist[j] == restv[j - 1]);
                    assert(ts.drop_first().contains(restv[j - 1]));
                    let y = choose|y: int|
                        0 <= y < ts.drop_first().len() && ts.drop_first()[y] == restv[j - 1];
                    assert(ts[y + 1] == restv[j - 1]);
                    assert(ts[0] != ts[y + 1]);
                } else {
                    assert(exist[i] == restv[i - 1]);
                    assert(exist[j] == restv[j - 1]);
                }
            }
            assert forall|t: Seq<char>|
                ts.contains(t) && ex.contains(t) && !sources_of(m).contains(t) implies same
                .contains(t) by {
                let i = choose|i: int| 0 <= i < ts.len() && ts[i] == t;
                if i != 0 {
                    assert(ts.drop_first()[i - 1] == t);
                }
            }
        }
    }
}

/// Every level target that is not blocked is among the free ones.
proof fn lemma_free_filter_complete(ts: Seq<Seq<char>>, exist: Seq<Seq<char>>, t: Seq<char>)
    requires
        ts.contains(t),
        !exist.contains(t),
    ensures
        free_filter(ts, exist).contains(t),
    decreases ts.len(),
{
    let i = choose|i: int| 0 <= i < ts.len() && ts[i] == t;
    if i == ts.len() - 1 {
        let f = free_filter(ts, exist);
        assert(f[f.len() - 1] == t);
    } else {
        assert(ts.drop_last()[i] == t);
        lemma_free_filter_complete(ts.drop_last(), exist, t);
        let f1 = free_filter(ts.drop_last(), exist);
        let j = choose|j: int| 0 <= j < f1.len() && f1[j] == t;
        assert(free_filter(ts, exist)[j] == t);
    }
}

/// The greedy order of a distinct blocked set is itself distinct and
/// keeps every blocked target.
proof fn lemma_sort_spec_perm(m: Seq<Operation>, rem: Seq<Seq<char>>, out: Seq<Seq<char>>)
    requires
        sort_spec(m, rem) == Ok::<Seq<Seq<char>>, ErrSpec>(out),
        forall|i: int, j: int| 0 <= i < j < rem.len() ==> rem[i] != rem[j],
    ensures
        forall|i: int, j: int| 0 <= i < j < out.len() ==> out[i] != out[j],
        forall|t: Seq<char>| rem.contains(t) ==> out.contains(t),
    decreases rem.len(),
{
    if rem.len() > 0 {
        lemma_first_eligible(m, rem, 0);
        let k = first_eligible(m, rem, 0)->Some_0;
        let rem1 = rem.remove(k as int);
        let rest = sort_spec(m, rem1)->Ok_0;
        assert forall|i: int, j: int| 0 <= i < j < rem1.len() implies rem1[i] != rem1[j] by {
            assert(rem1[i] == (if i < k { rem[i] } else { rem[i + 1] }));
            assert(rem1[j] == (if j < k { rem[j] } else { rem[j + 1] }));
        }
        lemma_sort_spec_perm(m, rem1, rest);
        lemma_sort_spec_facts(m, rem1, rest);
        assert(out == seq![rem[k as int]] + rest);
        assert forall|i: int, j: int| 0 <= i < j < out.len() implies out[i] != out[j] by {
            if i == 0 {
                assert(out[0] == rem[k as int]);
                assert(out[j] == rest[j - 1]);
                assert(rem1.contains(rest[j - 1]));
                let y = choose|y: int| 0 <= y < rem1.len() && rem1[y] == rest[j - 1];
                assert(rem1[y] == (if y < k { rem[y] } else { rem[y + 1] }));
            } else {
                assert(out[i] == rest[i - 1]);
                assert(out[j] == rest[j - 1]);
            }
        }
        assert forall|t: Seq<char>| rem.contains(t) implies out.contains(t) by {
            let i = choose|i: int| 0 <= i < rem.len() && rem[i] == t;
            if i == k {
                assert(out[0] == t);
            } else {
                if i < k {
                    assert(rem1[i] == t);
                } else {
                    assert(rem1[i - 1] == t);
                }
                assert(rem1.contains(t));
                let y = choose|y: int| 0 <= y < rest.len() && rest[y] == t;
                assert(out[y + 1] == t);
            }
        }
    }
}

/// Every target with the level's depth is among the level's targets.
proof fn lemma_filter_depth_complete(ts: Seq<Seq<char>>, l: nat, t: Seq<char>)
    requires
        ts.contains(t),
        depth_spec(t) == l,
    ensures
        filter_depth(ts, l).contains(t),
    decreases ts.len(),
{
    let i = choose|i: int| 0 <= i < ts.len() && ts[i] == t;
    if i == ts.len() - 1 {
        let f = filter_depth(ts, l);
        assert(f[f.len() - 1] == t);
    } else {
        assert(ts.drop_last()[i] == t);
        lemma_filter_depth_complete(ts.drop_last(), l, t);
        let f1 = filter_depth(ts.drop_last(), l);
        let j = choose|j: int| 0 <= j < f1.len() && f1[j] == t;
        assert(filter_depth(ts, l)[j] == t);
    }
}

/// The level targets of a distinct target list are distinct.
proof fn lemma_filter_depth_distinct(ts: Seq<Seq<char>>, l: nat)
    requires
        forall|i: int, j: int| 0 <= i < j < ts.len() ==> ts[i] != ts[j],
    ensures
        forall|i: int, j: int|
            0 <= i < j < filter_depth(ts, l).len() ==> filter_depth(ts, l)[i] != filter_depth(
                ts,
                l,
            )[j],
    decreases ts.len(),
{
    if ts.len() > 0 {
        assert forall|i: int, j: int|
            0 <= i < j < ts.drop_last().len() implies ts.drop_last()[i] != ts.drop_last()[j] by {
            assert(ts.drop_last()[i] == ts[i]);
            assert(ts.drop_last()[j] == ts[j]);
        }
        lemma_filter_depth_distinct(ts.drop_last(), l);
        lemma_filter_depth_facts(ts.drop_last(), l);
        let f = filter_depth(ts, l);
        let f1 = filter_depth(ts.drop_last(), l);
        assert forall|i: int, j: int| 0 <= i < j < f.len() implies f[i] != f[j] by {
            if j == f.len() - 1 && f.len() == f1.len() + 1 {
                assert(f[j] == ts.last());
                assert(f[i] == f1[i]);
                assert(ts.drop_last().contains(f1[i]));
                let y = choose|y: int| 0 <= y < ts.drop_last().len() && ts.drop_last()[y] == f1[i];
                assert(ts[y] == f1[i]);
                assert(ts[y] != ts[ts.len() - 1]);
            } else {
                assert(f[i] == f1[i]);
                assert(f[j] == f1[j]);
            }
        }
    }
}

/// The level list covers the depth of every target.
proof fn lemma_levels_fold_contains(ts: Seq<Seq<char>>, t: Seq<char>)
    requires
        ts.contains(t),
    ensures
        levels_fold(ts).contains(depth_spec(t)),
    decreases ts.len(),
{
    let i = choose|i: int| 0 <= i < ts.len() && ts[i] == t;
    if i == ts.len() - 1 {
        lemma_insert_level_contains(levels_fold(ts.drop_last()), depth_spec(ts.last()));
    } else {
        assert(ts.drop_last()[i] == t);
        lemma_levels_fold_contains(ts.drop_last(), t);
        lemma_insert_level_contains(levels_fold(ts.drop_last()), depth_spec(ts.last()));
    }
}

/// Inserting a level keeps all levels and adds the new one.
proof fn lemma_insert_level_contains(ls: Seq<nat>, l: nat)
    ensures
        insert_level(ls, l).contains(l),
        forall|x: nat| ls.contains(x) ==> insert_level(ls, l).contains(x),
    decreases ls.len(),
{
    let r = insert_level(ls, l);
    if ls.len() == 0 {
        assert(r[0] == l);
    } else if l == ls[0] {
        assert(r[0] == l);
    } else if l < ls[0] {
        assert(r[0] == l);
        assert forall|x: nat| ls.contains(x) implies r.contains(x) by {
            let i = choose|i: int| 0 <= i < ls.len() && ls[i] == x;
            assert(r[i + 1] == x);
        }
    } else {
        lemma_insert_level_contains(ls.drop_first(), l);
        let r1 = insert_level(ls.drop_first(), l);
        assert(r == seq![ls[0]] + r1);
        let j = choose|j: int| 0 <= j < r1.len() && r1[j] == l;
        assert(r[j + 1] == l);
        assert forall|x: nat| ls.contains(x) implies r.contains(x) by {
            let i = choose|i: int| 0 <= i < ls.len() && ls[i] == x;
            if i == 0 {
                assert(r[0] == x);
            } else {
                assert(ls.drop_first()[i - 1] == x);
                assert(ls.drop_first().contains(x));
                assert(r1.contains(x));
                let y = choose|y: int| 0 <= y < r1.len() && r1[y] == x;
                assert(r[y + 1] == x);
            }
        }
    }
}

/// Every free target is one of the level's targets and is not blocked.
proof fn lemma_free_filter_facts(ts: Seq<Seq<char>>, exist: Seq<Seq<char>>)
    ensures
        forall|j: int|
            0 <= j < free_filter(ts, exist).len() ==> ts.contains(
                #[trigger] free_filter(ts, exist)[j],
            ) && !exist.contains(free_filter(ts, exist)[j]),
    decreases ts.len(),
{
    if ts.len() > 0 {
        lemma_free_filter_facts(ts.drop_last(), exist);
        assert forall|j: int| 0 <= j < free_filter(ts, exist).len() implies ts.contains(
            #[trigger] free_filter(ts, exist)[j],
        ) && !exist.contains(free_filter(ts, exist)[j]) by {
            if j < free_filter(ts.drop_last(), exist).len() {
                assert(free_filter(ts, exist)[j] == free_filter(ts.drop_last(), exist)[j]);
                let x = free_filter(ts.drop_last(), exist)[j];
                let i = choose|i: int| 0 <= i < ts.drop_last().len() && ts.drop_last()[i] == x;
                assert(ts[i] == x);
            } else {
                assert(free_filter(ts, exist)[j] == ts.last());
                assert(ts[ts.len() - 1] == ts.last());
            }
        }
    }
}

/// Removing an element keeps the rest in the sequence.
proof fn lemma_remove_contains(rem: Seq<Seq<char>>, k: int, x: Seq<char>)
    requires
        0 <= k < rem.len(),
        rem.remove(k).contains(x),
    ensures
        rem.contains(x),
{
    let i = choose|i: int| 0 <= i < rem.remove(k).len() && rem.remove(k)[i] == x;
    if i < k {
        assert(rem[i] == x);
    } else {
        assert(rem[i + 1] == x);
    }
}

/// What the greedy ordering guarantees: the blocked targets come back in
/// some order in which no earlier target is the source of a later one.
proof fn lemma_sort_spec_facts(m: Seq<Operation>, rem: Seq<Seq<char>>, out: Seq<Seq<char>>)
    requires
        sort_spec(m, rem) == Ok::<Seq<Seq<char>>, ErrSpec>(out),
    ensures
        out.len() == rem.len(),
        forall|j: int| 0 <= j < out.len() ==> rem.contains(#[trigger] out[j]),
        forall|i: int, j: int| 0 <= i < j < out.len() ==> out[i] != map_source(m, out[j]),
    decreases rem.len(),
{
    if rem.len() > 0 {
        lemma_first_eligible(m, rem, 0);
        let k = first_eligible(m, rem, 0)->Some_0;
        let rest = sort_spec(m, rem.remove(k as int))->Ok_0;
        lemma_sort_spec_facts(m, rem.remove(k as int), rest);
        assert(out == seq![rem[k as int]] + rest);
        assert forall|j: int| 0 <= j < out.len() implies rem.contains(#[trigger] out[j]) by {
            if j == 0 {
                assert(out[0] == rem[k as int]);
            } else {
                assert(out[j] == rest[j - 1]);
                lemma_remove_contains(rem, k as int, rest[j - 1]);
            }
        }
        assert forall|i: int, j: int| 0 <= i < j < out.len() implies out[i] != map_source(
            m,
            out[j],
        ) by {
            if i == 0 {
                assert(out[0] == rem[k as int]);
                assert(!rem_sources(m, rem).contains(rem[k as int]));
                assert(out[j] == rest[j - 1]);
                lemma_remove_contains(rem, k as int, rest[j - 1]);
                let y = choose|y: int| 0 <= y < rem.len() && rem[y] == out[j];
                assert(rem_sources(m, rem)[y] == map_source(m, rem[y]));
                if out[0] == map_source(m, out[j]) {
                    assert(rem_sources(m, rem).contains(rem[k as int]));
                }
            } else {
                assert(out[i] == rest[i - 1]);
                assert(out[j] == rest[j - 1]);
            }
        }
    }
}

/// Cycle detection is honest: the greedy ordering gives up only when
/// some nonempty set of remaining blocked targets is truly unresolvable —
/// each of its targets is still read as the source of one of them, as in
/// two files renamed into each other's current path.
pub proof fn lemma_sort_fails_on_cycle(m: Seq<Operation>, rem: Seq<Seq<char>>)
    requires
        sort_spec(m, rem) is Err,
    ensures
        exists|sub: Seq<Seq<char>>|
            {
                &&& #[trigger] sub.len() > 0
                &&& forall|t: Seq<char>| sub.contains(t) ==> rem.contains(t)
                &&& forall|t: Seq<char>|
                    #[trigger] sub.contains(t) ==> exists|u: Seq<char>|
                        sub.contains(u) && map_source(m, u) == t
            },
    decreases rem.len(),
{
    lemma_first_eligible(m, rem, 0);
    match first_eligible(m, rem, 0) {
        None => {
            assert forall|t: Seq<char>| rem.contains(t) implies exists|u: Seq<char>|
                rem.contains(u) && map_source(m, u) == t by {
                let i = choose|i: int| 0 <= i < rem.len() && rem[i] == t;
                assert(rem_sources(m, rem).contains(rem[i]));
                let y = choose|y: int| 0 <= y < rem.len() && rem_sources(m, rem)[y] == t;
                assert(map_source(m, rem[y]) == t);
                assert(rem.contains(rem[y]));
            }
            assert(rem.len() > 0);
            assert forall|t: Seq<char>| rem.contains(t) implies rem.contains(t) by {}
        },
        Some(k) => {
            let rem1 = rem.remove(k as int);
            lemma_sort_fails_on_cycle(m, rem1);
            let sub = choose|sub: Seq<Seq<char>>|
                {
                    &&& #[trigger] sub.len() > 0
                    &&& forall|t: Seq<char>| sub.contains(t) ==> rem1.contains(t)
                    &&& forall|t: Seq<char>|
                        #[trigger] sub.contains(t) ==> exists|u: Seq<char>|
                            sub.contains(u) && map_source(m, u) == t
                };
            assert forall|t: Seq<char>| sub.contains(t) implies rem.contains(t) by {
                lemma_remove_contains(rem, k as int, t);
            }
        },
    }
}

/// The sorted level list is strictly increasing.
proof fn lemma_insert_level_sorted(ls: Seq<nat>, l: nat)
    requires
        forall|i: int, j: int| 0 <= i < j < ls.len() ==> ls[i] < ls[j],
    ensures
        forall|i: int, j: int|
            0 <= i < j < insert_level(ls, l).len() ==> insert_level(ls, l)[i] < insert_level(
                ls,
                l,
            )[j],
        forall|x: nat| insert_level(ls, l).contains(x) ==> ls.contains(x) || x == l,
    decreases ls.len(),
{
    if ls.len() == 0 {
        assert forall|x: nat| insert_level(ls, l).contains(x) implies ls.contains(x) || x == l by {
            let i = choose|i: int| 0 <= i < insert_level(ls, l).len() && insert_level(ls, l)[i] == x;
        }
    } else if l == ls[0] || l < ls[0] {
        assert forall|x: nat| insert_level(ls, l).contains(x) implies ls.contains(x) || x == l by {
            let i = choose|i: int| 0 <= i < insert_level(ls, l).len() && insert_level(ls, l)[i] == x;
            if l < ls[0] && i > 0 {
                assert(ls[i - 1] == x);
            }
        }
    } else {
        assert forall|i: int, j: int|
            0 <= i < j < ls.drop_first().len() implies ls.drop_first()[i] < ls.drop_first()[j] by {
            assert(ls.drop_first()[i] == ls[i + 1]);
            assert(ls.drop_first()[j] == ls[j + 1]);
        }
        lemma_insert_level_sorted(ls.drop_first(), l);
        let r = insert_level(ls, l);
        let r1 = insert_level(ls.drop_first(), l);
        assert(r == seq![ls[0]] + r1);
        assert forall|i: int, j: int| 0 <= i < j < r.len() implies r[i] < r[j] by {
            if i == 0 {
                assert(r[0] == ls[0]);
                assert(r[j] == r1[j - 1]);
                assert(r1.contains(r1[j - 1]));
                if ls.drop_first().contains(r1[j - 1]) {
                    let y = choose|y: int|
                        0 <= y < ls.drop_first().len() && ls.drop_first()[y] == r1[j - 1];
                    assert(ls[y + 1] == r1[j - 1]);
                }
            } else {
                assert(r[i] == r1[i - 1]);
                assert(r[j] == r1[j - 1]);
            }
        }
        assert forall|x: nat| r.contains(x) implies ls.contains(x) || x == l by {
            let i = choose|i: int| 0 <= i < r.len() && r[i] == x;
            if i == 0 {
                assert(ls[0] == x);
            } else {
                assert(r1[i - 1] == x);
                assert(r1.contains(x));
                if ls.drop_first().contains(x) {
                    let y = choose|y: int| 0 <= y < ls.drop_first().len() && ls.drop_first()[y] == x;
                    assert(ls[y + 1] == x);
                }
            }
        }
    }
}

/// The level list of a target set is strictly increasing.
proof fn lemma_levels_fold_sorted(ts: Seq<Seq<char>>)
    ensures
        forall|i: int, j: int|
            0 <= i < j < levels_fold(ts).len() ==> levels_fold(ts)[i] < levels_fold(ts)[j],
    decreases ts.len(),
{
    if ts.len() > 0 {
        lemma_levels_fold_sorted(ts.drop_last());
        lemma_insert_level_sorted(levels_fold(ts.drop_last()), depth_spec(ts.last()));
    }
}

/// The solver's level list is strictly decreasing — deepest first — hence
/// free of repetitions, and covers exactly the depths of the targets.
proof fn lemma_solve_order_levels(m: Seq<Operation>)
    ensures
        forall|i: int, j: int|
            0 <= i < j < solve_order_levels(m).len() ==> solve_order_levels(m)[i]
                > solve_order_levels(m)[j],
        forall|i: int, j: int|
            0 <= i < j < solve_order_levels(m).len() ==> solve_order_levels(m)[i]
                != solve_order_levels(m)[j],
        forall|x: nat|
            solve_order_levels(m).contains(x) <==> levels_fold(targets_of(m)).contains(x),
{
    let asc = levels_fold(targets_of(m));
    let rev = solve_order_levels(m);
    lemma_levels_fold_sorted(targets_of(m));
    let n = asc.len() as int;
    assert forall|i: int, j: int| 0 <= i < j < rev.len() implies rev[i] > rev[j] by {
        assert(rev[i] == asc[n - 1 - i]);
        assert(rev[j] == asc[n - 1 - j]);
    }
    assert forall|x: nat| rev.contains(x) implies asc.contains(x) by {
        let i = choose|i: int| 0 <= i < rev.len() && rev[i] == x;
        assert(asc[n - 1 - i] == x);
    }
    assert forall|x: nat| asc.contains(x) implies rev.contains(x) by {
        let i = choose|i: int| 0 <= i < asc.len() && asc[i] == x;
        assert(rev[n - 1 - i] == asc[i]);
    }
}

/// The safety of one solved level list: no ordered target is the recorded
/// source of a later ordered target.
proof fn lemma_solve_levels_safe(
    m: Seq<Operation>,
    ls: Seq<nat>,
    ex: Seq<Seq<char>>,
    same: Seq<Seq<char>>,
    out: Seq<Seq<char>>,
)
    requires
        map_wf(m),
        forall|t: Seq<char>|
            sources_of(m).contains(t) && targets_of(m).contains(t) ==> ex.contains(t),
        forall|k: int|
            0 <= k < m.len() ==> depth_spec(#[trigger] m[k].source@) == depth_spec(m[k].target@),
        forall|i: int, j: int| 0 <= i < j < ls.len() ==> ls[i] != ls[j],
        solve_levels(m, ls, ex, same) == Ok::<Seq<Seq<char>>, ErrSpec>(out),
    ensures
        forall|j: int| 0 <= j < out.len() ==> targets_of(m).contains(#[trigger] out[j]),
        forall|j: int| 0 <= j < out.len() ==> ls.contains(depth_spec(#[trigger] out[j])),
        forall|i: int, j: int| 0 <= i < j < out.len() ==> out[i] != map_source(m, out[j]),
    decreases ls.len(),
{
    if ls.len() > 0 {
        let l0 = ls[0];
        let ts = filter_depth(targets_of(m), l0);
        let exist = existing_targets_spec(ts, m, ex, same)->Ok_0;
        let ordered = sort_spec(m, exist)->Ok_0;
        let free = free_filter(ts, exist);
        let rest = solve_levels(m, ls.drop_first(), ex, same)->Ok_0;
        assert(out == free + ordered + rest);
        assert forall|i: int, j: int|
            0 <= i < j < ls.drop_first().len() implies ls.drop_first()[i] != ls.drop_first()[j] by {
            assert(ls.drop_first()[i] == ls[i + 1]);
            assert(ls.drop_first()[j] == ls[j + 1]);
        }
        lemma_solve_levels_safe(m, ls.drop_first(), ex, same, rest);
        lemma_filter_depth_facts(targets_of(m), l0);
        lemma_existing_spec_facts(ts, m, ex, same, exist);
        lemma_free_filter_facts(ts, exist);
        lemma_sort_spec_facts(m, exist, ordered);
        let head = free + ordered;
        let hn = head.len();

        // Each element of this level's output is a batch target of depth l0.
        assert forall|j: int| 0 <= j < hn implies targets_of(m).contains(#[trigger] head[j])
            && depth_spec(head[j]) == l0 by {
            if j < free.len() {
                assert(head[j] == free[j]);
            } else {
                assert(head[j] == ordered[j - free.len()]);
                assert(exist.contains(ordered[j - free.len()]));
                let y = choose|y: int| 0 <= y < exist.len() && exist[y] == head[j];
            }
        }

        // A free target is never a recorded source of any batch target.
        assert forall|i: int, t: Seq<char>|
            0 <= i < free.len() && targets_of(m).contains(t) implies free[i] != map_source(
                m,
                t,
            ) by {
            lemma_map_source_entry_exists(m, t);
            let k = choose|k: int|
                0 <= k < m.len() && m[k].target@ == t && #[trigger] m[k].source@ == map_source(
                    m,
                    t,
                );
            if free[i] == map_source(m, t) {
                assert(sources_of(m)[k] == m[k].source@);
                assert(sources_of(m).contains(free[i]));
                if ex.contains(free[i]) {
                    assert(exist.contains(free[i]));
                } else {
                    assert(ex.contains(free[i]));
                }
            }
        }

        // The depth of a recorded source equals the depth of its target.
        assert forall|t: Seq<char>| targets_of(m).contains(t) implies depth_spec(
            map_source(m, t),
        ) == depth_spec(t) by {
            lemma_map_source_entry_exists(m, t);
        }

        assert forall|i: int, j: int| 0 <= i < j < out.len() implies out[i] != map_source(
            m,
            out[j],
        ) by {
            if j < hn {
                // Both in this level.
                if i < free.len() {
                    assert(out[i] == free[i]);
                    assert(targets_of(m).contains(head[j]));
                } else {
                    assert(out[i] == ordered[i - free.len()]);
                    assert(out[j] == ordered[j - free.len()]);
                }
            } else if i < hn {
                // This level against a later level: the depths differ.
                assert(out[j] == rest[j - hn]);
                assert(ls.drop_first().contains(depth_spec(rest[j - hn])));
                let y = choose|y: int|
                    0 <= y < ls.drop_first().len() && ls.drop_first()[y] == depth_spec(
                        rest[j - hn],
                    );
                assert(ls[y + 1] == depth_spec(rest[j - hn]));
                assert(depth_spec(rest[j - hn]) != l0);
                assert(targets_of(m).contains(rest[j - hn]));
                assert(depth_spec(map_source(m, out[j])) == depth_spec(out[j]));
                assert(depth_spec(out[i]) == l0);
            } else {
                // Both in later levels.
                assert(out[i] == rest[i - hn]);
                assert(out[j] == rest[j - hn]);
            }
        }
        assert forall|j: int| 0 <= j < out.len() implies targets_of(m).contains(
            #[trigger] out[j],
        ) by {
            if j >= hn {
                assert(out[j] == rest[j - hn]);
            }
        }
        assert forall|j: int| 0 <= j < out.len() implies ls.contains(
            depth_spec(#[trigger] out[j]),
        ) by {
            if j < hn {
                assert(ls[0] == depth_spec(out[j]));
            } else {
                assert(out[j] == rest[j - hn]);
                assert(ls.drop_first().contains(depth_spec(rest[j - hn])));
                let y = choose|y: int|
                    0 <= y < ls.drop_first().len() && ls.drop_first()[y] == depth_spec(
                        rest[j - hn],
                    );
                assert(ls[y + 1] == depth_spec(rest[j - hn]));
            }
        }
    }
}

/// The free targets of a distinct level list are distinct.
proof fn lemma_free_filter_distinct(ts: Seq<Seq<char>>, exist: Seq<Seq<char>>)
    requires
        forall|i: int, j: int| 0 <= i < j < ts.len() ==> ts[i] != ts[j],
    ensures
        forall|i: int, j: int|
            0 <= i < j < free_filter(ts, exist).len() ==> free_filter(ts, exist)[i] != free_filter(
                ts,
                exist,
            )[j],
    decreases ts.len(),
{
    if ts.len() > 0 {
        assert forall|i: int, j: int|
            0 <= i < j < ts.drop_last().len() implies ts.drop_last()[i] != ts.drop_last()[j] by {
            assert(ts.drop_last()[i] == ts[i]);
            assert(ts.drop_last()[j] == ts[j]);
        }
        lemma_free_filter_distinct(ts.drop_last(), exist);
        lemma_free_filter_facts(ts.drop_last(), exist);
        let f = free_filter(ts, exist);
        let f1 = free_filter(ts.drop_last(), exist);
        assert forall|i: int, j: int| 0 <= i < j < f.len() implies f[i] != f[j] by {
            if j == f.len() - 1 && f.len() == f1.len() + 1 {
                assert(f[j] == ts.last());
                assert(f[i] == f1[i]);
                assert(ts.drop_last().contains(f1[i]));
                let y = choose|y: int| 0 <= y < ts.drop_last().len() && ts.drop_last()[y] == f1[i];
                assert(ts[y] == f1[i]);
                assert(ts[y] != ts[ts.len() - 1]);
            } else {
                assert(f[i] == f1[i]);
                assert(f[j] == f1[j]);
            }
        }
    }
}

/// The solved level list is complete and free of repetitions: it holds
/// every batch target whose depth one of the levels covers, exactly once.
proof fn lemma_solve_levels_complete(
    m: Seq<Operation>,
    ls: Seq<nat>,
    ex: Seq<Seq<char>>,
    same: Seq<Seq<char>>,
    out: Seq<Seq<char>>,
)
    requires
        map_wf(m),
        forall|i: int, j: int| 0 <= i < j < ls.len() ==> ls[i] != ls[j],
        solve_levels(m, ls, ex, same) == Ok::<Seq<Seq<char>>, ErrSpec>(out),
    ensures
        forall|j: int| 0 <= j < out.len() ==> targets_of(m).contains(#[trigger] out[j]),
        forall|j: int| 0 <= j < out.len() ==> ls.contains(depth_spec(#[trigger] out[j])),
        forall|i: int, j: int| 0 <= i < j < out.len() ==> out[i] != out[j],
        forall|t: Seq<char>|
            targets_of(m).contains(t) && ls.contains(depth_spec(t)) ==> out.contains(t),
        forall|t: Seq<char>|
            targets_of(m).contains(t) && ex.contains(t) && !sources_of(m).contains(t)
                && ls.contains(depth_spec(t)) ==> same.contains(t),
    decreases ls.len(),
{
    assert forall|i: int, j: int|
        0 <= i < j < targets_of(m).len() implies targets_of(m)[i] != targets_of(m)[j] by {
        assert(targets_of(m)[i] == m[i].target@);
        assert(targets_of(m)[j] == m[j].target@);
    }
    if ls.len() > 0 {
        let l0 = ls[0];
        let ts = filter_depth(targets_of(m), l0);
        let exist = existing_targets_spec(ts, m, ex, same)->Ok_0;
        let ordered = sort_spec(m, exist)->Ok_0;
        let free = free_filter(ts, exist);
        let rest = solve_levels(m, ls.drop_first(), ex, same)->Ok_0;
        assert(out == free + ordered + rest);
        let head = free + ordered;
        let hn = head.len();
        assert forall|i: int, j: int|
            0 <= i < j < ls.drop_first().len() implies ls.drop_first()[i] != ls.drop_first()[j] by {
            assert(ls.drop_first()[i] == ls[i + 1]);
            assert(ls.drop_first()[j] == ls[j + 1]);
        }
        lemma_solve_levels_complete(m, ls.drop_first(), ex, same, rest);
        lemma_filter_depth_facts(targets_of(m), l0);
        lemma_filter_depth_distinct(targets_of(m), l0);
        lemma_existing_spec_facts(ts, m, ex, same, exist);
        lemma_existing_spec_more(ts, m, ex, same, exist);
        lemma_free_filter_facts(ts, exist);
        lemma_free_filter_distinct(ts, exist);
        assert forall|i: int, j: int| 0 <= i < j < exist.len() implies exist[i] != exist[j] by {}
        lemma_sort_spec_facts(m, exist, ordered);
        lemma_sort_spec_perm(m, exist, ordered);

        // The head holds this level's targets, each exactly once.
        assert forall|j: int| 0 <= j < hn implies targets_of(m).contains(#[trigger] head[j])
            && depth_spec(head[j]) == l0 by {
            if j < free.len() {
                assert(head[j] == free[j]);
            } else {
                assert(head[j] == ordered[j - free.len()]);
                assert(exist.contains(ordered[j - free.len()]));
                let y = choose|y: int| 0 <= y < exist.len() && exist[y] == head[j];
            }
        }
        assert forall|i: int, j: int| 0 <= i < j < hn implies head[i] != head[j] by {
            if i < free.len() && j >= free.len() {
                assert(head[i] == free[i]);
                assert(head[j] == ordered[j - free.len()]);
                assert(exist.contains(ordered[j - free.len()]));
                assert(!exist.contains(free[i]));
            } else if i >= free.len() {
                assert(head[i] == ordered[i - free.len()]);
                assert(head[j] == ordered[j - free.len()]);
            } else {
                assert(head[i] == free[i]);
                assert(head[j] == free[j]);
            }
        }
        assert forall|t: Seq<char>| ts.contains(t) implies head.contains(t) by {
            if exist.contains(t) {
                assert(ordered.contains(t));
                let y = choose|y: int| 0 <= y < ordered.len() && ordered[y] == t;
                assert(head[free.len() + y] == t);
            } else {
                lemma_free_filter_complete(ts, exist, t);
                let y = choose|y: int| 0 <= y < free.len() && free[y] == t;
                assert(head[y] == t);
            }
        }

        // Glue the head and the later levels together.
        assert forall|j: int| 0 <= j < out.len() implies targets_of(m).contains(
            #[trigger] out[j],
        ) by {
            if j < hn {
                assert(out[j] == head[j]);
            } else {
                assert(out[j] == rest[j - hn]);
            }
        }
        assert forall|j: int| 0 <= j < out.len() implies ls.contains(
            depth_spec(#[trigger] out[j]),
        ) by {
            if j < hn {
                assert(out[j] == head[j]);
                assert(ls[0] == depth_spec(out[j]));
            } else {
                assert(out[j] == rest[j - hn]);
                assert(ls.drop_first().contains(depth_spec(rest[j - hn])));
                let y = choose|y: int|
                    0 <= y < ls.drop_first().len() && ls.drop_first()[y] == depth_spec(
                        rest[j - hn],
                    );
                assert(ls[y + 1] == depth_spec(rest[j - hn]));
            }
        }
        assert forall|i: int, j: int| 0 <= i < j < out.len() implies out[i] != out[j] by {
            if i < hn && j >= hn {
                assert(out[i] == head[i]);
                assert(out[j] == rest[j - hn]);
                assert(depth_spec(head[i]) == l0);
                assert(ls.drop_first().contains(depth_spec(rest[j - hn])));
                let y = choose|y: int|
                    0 <= y < ls.drop_first().len() && ls.drop_first()[y] == depth_spec(
                        rest[j - hn],
                    );
                assert(ls[y + 1] == depth_spec(rest[j - hn]));
                assert(ls[0] != ls[y + 1]);
            } else if i >= hn {
                assert(out[i] == rest[i - hn]);
                assert(out[j] == rest[j - hn]);
            } else {
                assert(out[i] == head[i]);
                assert(out[j] == head[j]);
            }
        }
        assert forall|t: Seq<char>|
            targets_of(m).contains(t) && ls.contains(depth_spec(t)) implies out.contains(t) by {
            let y = choose|y: int| 0 <= y < ls.len() && ls[y] == depth_spec(t);
            if y == 0 {
                lemma_filter_depth_complete(targets_of(m), l0, t);
                assert(head.contains(t));
                let z = choose|z: int| 0 <= z < hn && head[z] == t;
                assert(out[z] == head[z]);
            } else {
                assert(ls.drop_first()[y - 1] == depth_spec(t));
                assert(ls.drop_first().contains(depth_spec(t)));
                assert(rest.contains(t));
                let z = choose|z: int| 0 <= z < rest.len() && rest[z] == t;
                assert(out[hn + z] == rest[z]);
            }
        }
        assert forall|t: Seq<char>|
            targets_of(m).contains(t) && ex.contains(t) && !sources_of(m).contains(t)
                && ls.contains(depth_spec(t)) implies same.contains(t) by {
            let y = choose|y: int| 0 <= y < ls.len() && ls[y] == depth_spec(t);
            if y == 0 {
                lemma_filter_depth_complete(targets_of(m), l0, t);
            } else {
                assert(ls.drop_first()[y - 1] == depth_spec(t));
                assert(ls.drop_first().contains(depth_spec(t)));
            }
        }
    }
}

/// The ordering guarantee of a solved batch: for a well-formed map whose
/// renames change only the file name (source and target share their
/// depth), and observations in which every batch source that is also a
/// batch target was seen to exist, no operation of the solved order writes
/// a path that a later operation still reads as its source.
pub proof fn lemma_solve_order_safe(
    m: Seq<Operation>,
    ex: Seq<Seq<char>>,
    same: Seq<Seq<char>>,
    ps: Seq<(Seq<char>, Seq<char>)>,
)
    requires
        map_wf(m),
        forall|t: Seq<char>|
            sources_of(m).contains(t) && targets_of(m).contains(t) ==> ex.contains(t),
        forall|k: int|
            0 <= k < m.len() ==> depth_spec(#[trigger] m[k].source@) == depth_spec(m[k].target@),
        solve_spec(m, ex, same) == Ok::<Seq<(Seq<char>, Seq<char>)>, ErrSpec>(ps),
    ensures
        forall|i: int, j: int| 0 <= i < j < ps.len() ==> ps[i].1 != ps[j].0,
{
    let ls = solve_order_levels(m);
    let out = solve_levels(m, ls, ex, same)->Ok_0;
    lemma_solve_order_levels(m);
    lemma_solve_levels_safe(m, ls, ex, same, out);
    assert forall|i: int, j: int| 0 <= i < j < ps.len() implies ps[i].1 != ps[j].0 by {
        assert(ps[i] == (map_source(m, out[i]), out[i]));
        assert(ps[j] == (map_source(m, out[j]), out[j]));
    }
}

/// Whether some operation of the list reads the path as its source.
pub open spec fn in_sources(ps: Seq<(Seq<char>, Seq<char>)>, p: Seq<char>) -> bool {
    exists|i: int| 0 <= i < ps.len() && ps[i].0 == p
}

/// Whether some operation of the list writes the path as its target.
pub open spec fn in_targets(ps: Seq<(Seq<char>, Seq<char>)>, p: Seq<char>) -> bool {
    exists|i: int| 0 <= i < ps.len() && ps[i].1 == p
}

/// The executability of the first `j` operations of a batch, together
/// with a description of the filesystem they leave behind.
proof fn lemma_batch_applicable_rec<V>(fs: Map<Seq<char>, V>, ps: Seq<(Seq<char>, Seq<char>)>, j: int)
    requires
        0 <= j <= ps.len(),
        forall|i: int| 0 <= i < ps.len() ==> fs.dom().contains(#[trigger] ps[i].0),
        forall|i: int| 0 <= i < ps.len() ==> (#[trigger] ps[i]).0 != ps[i].1,
        forall|i: int, k: int| 0 <= i < k < ps.len() ==> ps[i].0 != ps[k].0,
        forall|i: int, k: int| 0 <= i < k < ps.len() ==> ps[i].1 != ps[k].1,
        forall|i: int, k: int| 0 <= i < k < ps.len() ==> ps[i].1 != ps[k].0,
        forall|i: int|
            0 <= i < ps.len() && fs.dom().contains(#[trigger] ps[i].1) ==> in_sources(
                ps,
                ps[i].1,
            ),
    ensures
        pairs_applicable(fs, ps.take(j)),
        forall|p: Seq<char>|
            apply_pairs(fs, ps.take(j)).dom().contains(p) <==> (in_targets(ps.take(j), p) || (
            fs.dom().contains(p) && !in_sources(ps.take(j), p))),
    decreases j,
{
    if j == 0 {
        assert(ps.take(0) =~= Seq::<(Seq<char>, Seq<char>)>::empty());
        assert forall|p: Seq<char>|
            apply_pairs(fs, ps.take(0)).dom().contains(p) <==> (in_targets(ps.take(0), p) || (
            fs.dom().contains(p) && !in_sources(ps.take(0), p))) by {
            assert(!in_targets(ps.take(0), p));
            assert(!in_sources(ps.take(0), p));
        }
    } else {
        lemma_batch_applicable_rec(fs, ps, j - 1);
        let pre = ps.take(j - 1);
        let cur = ps.take(j);
        let q = ps[j - 1];
        assert(cur =~= pre + seq![q]);
        let fsj = apply_pairs(fs, pre);
        lemma_apply_pairs_concat(fs, pre, seq![q]);

        // The step's source is still present.
        assert(fs.dom().contains(q.0));
        assert(!in_sources(pre, q.0)) by {
            if in_sources(pre, q.0) {
                let i = choose|i: int| 0 <= i < pre.len() && pre[i].0 == q.0;
                assert(ps[i].0 == ps[j - 1].0);
            }
        }
        assert(fsj.dom().contains(q.0));

        // The step's target is free.
        assert(!in_targets(pre, q.1)) by {
            if in_targets(pre, q.1) {
                let i = choose|i: int| 0 <= i < pre.len() && pre[i].1 == q.1;
                assert(ps[i].1 == ps[j - 1].1);
            }
        }
        if fs.dom().contains(q.1) {
            assert(in_sources(ps, q.1));
            let k = choose|k: int| 0 <= k < ps.len() && ps[k].0 == q.1;
            assert(k < j - 1);
            assert(pre[k].0 == q.1);
            assert(in_sources(pre, q.1));
        }
        assert(!fsj.dom().contains(q.1));

        // One more step stays applicable.
        let one = seq![q];
        assert(one[0] == q);
        assert(one.drop_first() =~= Seq::<(Seq<char>, Seq<char>)>::empty());
        assert(pairs_applicable(apply_pair(fsj, q), one.drop_first()));
        assert(pairs_applicable(fsj, one));
        assert(pairs_applicable(fs, cur));

        // The filesystem it leaves: the step's target appears, its source
        // disappears, everything else is as before.
        let fsj1 = apply_pairs(fs, cur);
        assert(apply_pairs(apply_pair(fsj, q), Seq::<(Seq<char>, Seq<char>)>::empty())
            == apply_pair(fsj, q));
        assert(apply_pairs(fsj, one) == apply_pair(fsj, q));
        assert(fsj1 == apply_pair(fsj, q));
        assert forall|p: Seq<char>|
            fsj1.dom().contains(p) <==> (in_targets(cur, p) || (fs.dom().contains(p)
                && !in_sources(cur, p))) by {
            assert(in_targets(cur, p) == (in_targets(pre, p) || p == q.1)) by {
                if in_targets(cur, p) {
                    let i = choose|i: int| 0 <= i < cur.len() && cur[i].1 == p;
                    if i < j - 1 {
                        assert(pre[i].1 == p);
                    } else {
                        assert(cur[i] == q);
                    }
                }
                if in_targets(pre, p) {
                    let i = choose|i: int| 0 <= i < pre.len() && pre[i].1 == p;
                    assert(cur[i].1 == p);
                }
                if p == q.1 {
                    assert(cur[j - 1].1 == p);
                }
            }
            assert(in_sources(cur, p) == (in_sources(pre, p) || p == q.0)) by {
                if in_sources(cur, p) {
                    let i = choose|i: int| 0 <= i < cur.len() && cur[i].0 == p;
                    if i < j - 1 {
                        assert(pre[i].0 == p);
                    } else {
                        assert(cur[i] == q);
                    }
                }
                if in_sources(pre, p) {
                    let i = choose|i: int| 0 <= i < pre.len() && pre[i].0 == p;
                    assert(cur[i].0 == p);
                }
                if p == q.0 {
                    assert(cur[j - 1].0 == p);
                }
            }
            if p == q.1 {
                assert(fsj1.dom().contains(p));
            } else if p == q.0 {
                assert(!fsj1.dom().contains(p));
                assert(!in_targets(pre, q.0)) by {
                    if in_targets(pre, q.0) {
                        let i = choose|i: int| 0 <= i < pre.len() && pre[i].1 == q.0;
                        assert(ps[i].1 == ps[j - 1].0);
                    }
                }
            } else {
                assert(fsj1.dom().contains(p) == fsj.dom().contains(p));
            }
        }
    }
}

/// A batch whose operations read distinct present sources, write distinct
/// targets, never write a path a later operation still reads, and whose
/// occupied targets are all read by the batch itself, runs through: every
/// step finds its source present and its target free, and afterwards the
/// written targets are present, the renamed sources are gone, and
/// everything else is untouched.
pub proof fn lemma_batch_applicable<V>(fs: Map<Seq<char>, V>, ps: Seq<(Seq<char>, Seq<char>)>)
    requires
        forall|i: int| 0 <= i < ps.len() ==> fs.dom().contains(#[trigger] ps[i].0),
        forall|i: int| 0 <= i < ps.len() ==> (#[trigger] ps[i]).0 != ps[i].1,
        forall|i: int, k: int| 0 <= i < k < ps.len() ==> ps[i].0 != ps[k].0,
        forall|i: int, k: int| 0 <= i < k < ps.len() ==> ps[i].1 != ps[k].1,
        forall|i: int, k: int| 0 <= i < k < ps.len() ==> ps[i].1 != ps[k].0,
        forall|i: int|
            0 <= i < ps.len() && fs.dom().contains(#[trigger] ps[i].1) ==> in_sources(
                ps,
                ps[i].1,
            ),
    ensures
        pairs_applicable(fs, ps),
        forall|p: Seq<char>|
            apply_pairs(fs, ps).dom().contains(p) <==> (in_targets(ps, p) || (fs.dom().contains(
                p,
            ) && !in_sources(ps, p))),
{
    lemma_batch_applicable_rec(fs, ps, ps.len() as int);
    assert(ps.take(ps.len() as int) =~= ps);
}

/// The execution guarantee of a solved batch: on a filesystem that holds
/// every source, matches the existence observations on the batch targets,
/// and has no same-entry aliases, the solved order runs through — each
/// rename finds its source present and its target free — and afterwards
/// exactly the targets are present where the sources were.
pub proof fn lemma_solved_batch_executes<V>(
    fs: Map<Seq<char>, V>,
    m: Seq<Operation>,
    ex: Seq<Seq<char>>,
    same: Seq<Seq<char>>,
    ps: Seq<(Seq<char>, Seq<char>)>,
)
    requires
        map_wf(m),
        forall|k: int| 0 <= k < m.len() ==> (#[trigger] m[k]).source@ != m[k].target@,
        forall|k: int|
            0 <= k < m.len() ==> depth_spec(#[trigger] m[k].source@) == depth_spec(m[k].target@),
        forall|k: int| 0 <= k < m.len() ==> fs.dom().contains(#[trigger] m[k].source@),
        forall|t: Seq<char>|
            #[trigger] targets_of(m).contains(t) ==> (ex.contains(t) <==> fs.dom().contains(t)),
        forall|t: Seq<char>| #[trigger] targets_of(m).contains(t) ==> !same.contains(t),
        solve_spec(m, ex, same) == Ok::<Seq<(Seq<char>, Seq<char>)>, ErrSpec>(ps),
    ensures
        pairs_applicable(fs, ps),
        forall|p: Seq<char>|
            apply_pairs(fs, ps).dom().contains(p) <==> (in_targets(ps, p) || (fs.dom().contains(
                p,
            ) && !in_sources(ps, p))),
{
    let ls = solve_order_levels(m);
    let out = solve_levels(m, ls, ex, same)->Ok_0;
    lemma_solve_order_levels(m);
    assert forall|t: Seq<char>|
        sources_of(m).contains(t) && targets_of(m).contains(t) implies ex.contains(t) by {
        let k = choose|k: int| 0 <= k < m.len() && sources_of(m)[k] == t;
        assert(m[k].source@ == t);
        assert(fs.dom().contains(t));
    }
    lemma_solve_order_safe(m, ex, same, ps);
    lemma_solve_levels_complete(m, ls, ex, same, out);
    assert(ps == out.map(|i: int, t: Seq<char>| (map_source(m, t), t)));
    assert(ps.len() == out.len());
    assert forall|i: int| 0 <= i < ps.len() implies #[trigger] ps[i] == (
        map_source(m, out[i]),
        out[i],
    ) by {}

    // Each pair is an entry of the map.
    assert forall|i: int| 0 <= i < ps.len() implies fs.dom().contains(#[trigger] ps[i].0)
        && (#[trigger] ps[i]).0 != ps[i].1 by {
        lemma_map_source_entry_exists(m, out[i]);
        let k = choose|k: int|
            0 <= k < m.len() && m[k].target@ == out[i] && #[trigger] m[k].source@ == map_source(
                m,
                out[i],
            );
    }
    assert forall|i: int, k: int| 0 <= i < k < ps.len() implies ps[i].0 != ps[k].0 by {
        lemma_map_source_entry_exists(m, out[i]);
        lemma_map_source_entry_exists(m, out[k]);
        let ki = choose|ki: int|
            0 <= ki < m.len() && m[ki].target@ == out[i] && #[trigger] m[ki].source@ == map_source(
                m,
                out[i],
            );
        let kk = choose|kk: int|
            0 <= kk < m.len() && m[kk].target@ == out[k] && #[trigger] m[kk].source@ == map_source(
                m,
                out[k],
            );
        assert(out[i] != out[k]);
        assert(ki != kk);
    }
    assert forall|i: int, k: int| 0 <= i < k < ps.len() implies ps[i].1 != ps[k].1 by {
        assert(out[i] != out[k]);
    }

    // An occupied target is read by the batch itself.
    assert forall|i: int|
        0 <= i < ps.len() && fs.dom().contains(#[trigger] ps[i].1) implies in_sources(
        ps,
        ps[i].1,
    ) by {
        let t = out[i];
        assert(targets_of(m).contains(t));
        assert(ex.contains(t));
        assert(ls.contains(depth_spec(t)));
        assert(sources_of(m).contains(t));
        let k = choose|k: int| 0 <= k < m.len() && sources_of(m)[k] == t;
        assert(m[k].source@ == t);
        assert(targets_of(m)[k] == m[k].target@);
        assert(targets_of(m).contains(m[k].target@));
        assert(ls.contains(depth_spec(m[k].target@))) by {
            lemma_levels_fold_contains(targets_of(m), m[k].target@);
            lemma_solve_order_levels(m);
        }
        assert(out.contains(m[k].target@));
        let z = choose|z: int| 0 <= z < out.len() && out[z] == m[k].target@;
        lemma_map_source_entry(m, k);
        assert(ps[z].0 == map_source(m, out[z]));
        assert(ps[z].0 == t);
    }
    lemma_batch_applicable(fs, ps);
}

/// Undo round-trip for a solved batch: executing the solved order and
/// then the reverted list on an otherwise untouched filesystem restores
/// the original state exactly.
pub proof fn lemma_solved_batch_undo_restores<V>(
    fs: Map<Seq<char>, V>,
    m: Seq<Operation>,
    ex: Seq<Seq<char>>,
    same: Seq<Seq<char>>,
    ps: Seq<(Seq<char>, Seq<char>)>,
)
    requires
        map_wf(m),
        forall|k: int| 0 <= k < m.len() ==> (#[trigger] m[k]).source@ != m[k].target@,
        forall|k: int|
            0 <= k < m.len() ==> depth_spec(#[trigger] m[k].source@) == depth_spec(m[k].target@),
        forall|k: int| 0 <= k < m.len() ==> fs.dom().contains(#[trigger] m[k].source@),
        forall|t: Seq<char>|
            #[trigger] targets_of(m).contains(t) ==> (ex.contains(t) <==> fs.dom().contains(t)),
        forall|t: Seq<char>| #[trigger] targets_of(m).contains(t) ==> !same.contains(t),
        solve_spec(m, ex, same) == Ok::<Seq<(Seq<char>, Seq<char>)>, ErrSpec>(ps),
    ensures
        pairs_applicable(fs, ps),
        pairs_applicable(apply_pairs(fs, ps), undo_pairs(ps)),
        apply_pairs(apply_pairs(fs, ps), undo_pairs(ps)) == fs,
{
    lemma_solved_batch_executes(fs, m, ex, same, ps);
    lemma_undo_round_trip(fs, ps);
}

/// Classification never reports a foreign collision when every existing
/// target is backed by a batch source or is the same entry as its own
/// source.
proof fn lemma_existing_spec_no_foreign(
    ts: Seq<Seq<char>>,
    m: Seq<Operation>,
    ex: Seq<Seq<char>>,
    same: Seq<Seq<char>>,
)
    requires
        forall|t: Seq<char>|
            ts.contains(t) && ex.contains(t) ==> sources_of(m).contains(t) || same.contains(t),
    ensures
        !(existing_targets_spec(ts, m, ex, same) is Err),
    decreases ts.len(),
{
    if ts.len() > 0 {
        assert(ts.contains(ts[0]));
        assert forall|t: Seq<char>|
            ts.drop_first().contains(t) && ex.contains(t) implies sources_of(m).contains(t)
            || same.contains(t) by {
            let i = choose|i: int| 0 <= i < ts.drop_first().len() && ts.drop_first()[i] == t;
            assert(ts[i + 1] == t);
        }
        lemma_existing_spec_no_foreign(ts.drop_first(), m, ex, same);
    }
}

/// A sorting failure always carries the `SolveOrder` kind.
proof fn lemma_sort_spec_err_kind(m: Seq<Operation>, rem: Seq<Seq<char>>)
    ensures
        sort_spec(m, rem) matches Err(se) ==> se == (
            ErrorKind::SolveOrder,
            None::<Seq<char>>,
        ),
    decreases rem.len(),
{
    if rem.len() > 0 {
        match first_eligible(m, rem, 0) {
            None => {},
            Some(k) => {
                if k < rem.len() {
                    lemma_sort_spec_err_kind(m, rem.remove(k as int));
                }
            },
        }
    }
}

/// No foreign overwrite: when every existing target is backed by a source
/// in the same batch or is the same filesystem entry as its own source,
/// the solver never fails with `ExistingPath`.
pub proof fn lemma_no_foreign_overwrite(m: Seq<Operation>, ex: Seq<Seq<char>>, same: Seq<Seq<char>>)
    requires
        forall|t: Seq<char>|
            targets_of(m).contains(t) && ex.contains(t) ==> sources_of(m).contains(t)
                || same.contains(t),
    ensures
        solve_spec(m, ex, same) matches Err(se) ==> se.0 == ErrorKind::SolveOrder,
{
    lemma_solve_levels_no_foreign(m, solve_order_levels(m), ex, same);
}

/// Over any level list, the only failure left is `SolveOrder`.
proof fn lemma_solve_levels_no_foreign(
    m: Seq<Operation>,
    ls: Seq<nat>,
    ex: Seq<Seq<char>>,
    same: Seq<Seq<char>>,
)
    requires
        forall|t: Seq<char>|
            targets_of(m).contains(t) && ex.contains(t) ==> sources_of(m).contains(t)
                || same.contains(t),
    ensures
        solve_levels(m, ls, ex, same) matches Err(se) ==> se.0 == ErrorKind::SolveOrder,
    decreases ls.len(),
{
    if ls.len() > 0 {
        let ts = filter_depth(targets_of(m), ls[0]);
        lemma_filter_depth_facts(targets_of(m), ls[0]);
        assert forall|t: Seq<char>|
            ts.contains(t) && ex.contains(t) implies sources_of(m).contains(t)
            || same.contains(t) by {
            let i = choose|i: int| 0 <= i < ts.len() && ts[i] == t;
            assert(targets_of(m).contains(ts[i]));
        }
        lemma_existing_spec_no_foreign(ts, m, ex, same);
        match existing_targets_spec(ts, m, ex, same) {
            Err(_) => {},
            Ok(exist) => {
                lemma_sort_spec_err_kind(m, exist);
                lemma_solve_levels_no_foreign(m, ls.drop_first(), ex, same);
            },
        }
    }
}

/// Revert the given operations: reverse the sequence order and swap the
/// `source` and `target` of every operation, so that replaying the result
/// undoes a previously executed batch.
pub fn revert_operations(operations: &Vec<Operation>) -> (r: Result<Operations, Error>)
    ensures
        r matches Ok(rev) && rev@.len() == operations@.len() && (forall|i: int|
            0 <= i < operations@.len() ==> {
                &&& rev@[i].source@ == operations@[operations@.len() - 1 - i].target@
                &&& rev@[i].target@ == operations@[operations@.len() - 1 - i].source@
            }) && op_pairs(rev@) == undo_pairs(op_pairs(operations@)),
{
    let n = operations.len();
    let mut rev: Vec<Operation> = Vec::new();
    let mut i: usize = 0;
    while i < n
        invariant
            n == operations@.len(),
            i <= n,
            rev@.len() == i,
            forall|k: int|
                0 <= k < i ==> {
                    &&& rev@[k].source@ == operations@[n - 1 - k].target@
                    &&& rev@[k].target@ == operations@[n - 1 - k].source@
                },
        decreases n - i,
    {
        let op = &operations[n - 1 - i];
        rev.push(Operation { source: op.target.clone(), target: op.source.clone() });
        i = i + 1;
    }
    proof {
        assert(op_pairs(rev@) =~= undo_pairs(op_pairs(operations@)));
    }
    Ok(rev)
}

} // verus!
