//! Path hygiene and backup-name helpers.
//!
//! The hygiene pass cleans a raw candidate list before any target is
//! derived. All filesystem queries happen outside the library: each
//! candidate arrives as a [`PathEntry`] carrying the path together with the
//! facts the caller observed about it (whether an entry exists there even
//! as a broken symlink, whether it is a directory, and whether it has a
//! retrievable name component).

use vstd::prelude::*;
use crate::strutil::{fmt_usize, dec_digits, lex_lt, str_lt, lemma_lex_trichotomy, lemma_lex_trans};
use crate::paths::{file_name_spec, with_file_name_spec, file_name_of, with_file_name};
use crate::renamer::{lower_of, to_lower};

verus! {

/// One candidate path, with the filesystem facts observed for it.
#[derive(Clone, Debug)]
pub struct PathEntry {
    /// The candidate path. Deduplication compares these spellings, so the
    /// caller hands each candidate under its canonical absolute spelling,
    /// with symlinked intermediate components resolved — then equal
    /// spellings mean the same filesystem entry.
    pub path: String,
    /// Whether anything exists at the path, a broken symlink included.
    pub exists: bool,
    /// Whether the entry is a directory.
    pub is_dir: bool,
    /// Whether the path has a retrievable name component.
    pub has_file_name: bool,
}

/// Whether the hygiene pass keeps a candidate: it must exist, and a
/// directory is kept only when directories are asked for and it has a name
/// component.
pub open spec fn entry_kept(e: PathEntry, keep_dirs: bool) -> bool {
    e.exists && (!e.is_dir || (keep_dirs && e.has_file_name))
}

/// One kept candidate placed into the sorted cleaned list: entries are
/// ordered by path, and a path already present keeps its first
/// occurrence.
pub open spec fn entry_insert(sorted: Seq<PathEntry>, e: PathEntry) -> Seq<PathEntry>
    decreases sorted.len(),
{
    if sorted.len() == 0 {
        seq![e]
    } else if lex_lt(sorted[0].path@, e.path@) {
        seq![sorted[0]] + entry_insert(sorted.drop_first(), e)
    } else if sorted[0].path@ == e.path@ {
        sorted
    } else {
        seq![e] + sorted
    }
}

/// The cleaned candidate list: the kept entries sorted ascending by path,
/// each path once, the first occurrence of a repeated path surviving.
pub open spec fn cleanup_spec(s: Seq<PathEntry>, keep_dirs: bool) -> Seq<PathEntry>
    decreases s.len(),
{
    if s.len() == 0 {
        Seq::empty()
    } else {
        let prev = cleanup_spec(s.drop_last(), keep_dirs);
        if entry_kept(s.last(), keep_dirs) {
            entry_insert(prev, s.last())
        } else {
            prev
        }
    }
}

/// Inserting after skipping a strictly smaller prefix.
proof fn lemma_entry_insert_skip(ls: Seq<PathEntry>, e: PathEntry, j: int)
    requires
        0 <= j <= ls.len(),
        forall|k: int| 0 <= k < j ==> lex_lt(ls[k].path@, e.path@),
    ensures
        entry_insert(ls, e) == ls.take(j) + entry_insert(ls.skip(j), e),
    decreases j,
{
    if j == 0 {
        assert(ls.skip(0) =~= ls);
        assert(ls.take(0) + entry_insert(ls, e) =~= entry_insert(ls, e));
    } else {
        lemma_entry_insert_skip(ls, e, j - 1);
        let s1 = ls.skip(j - 1);
        assert(s1[0] == ls[j - 1]);
        assert(s1.len() > 0);
        assert(lex_lt(ls[j - 1].path@, e.path@));
        assert(entry_insert(s1, e) == seq![s1[0]] + entry_insert(s1.drop_first(), e));
        assert(s1.drop_first() =~= ls.skip(j));
        assert(ls.take(j - 1) + (seq![ls[j - 1]] + entry_insert(ls.skip(j), e)) =~= ls.take(j)
            + entry_insert(ls.skip(j), e));
    }
}

/// Place one kept candidate into the sorted cleaned list.
#[verifier::loop_isolation(false)]
fn insert_entry(out: &mut Vec<PathEntry>, e: PathEntry)
    ensures
        final(out)@ == entry_insert(old(out)@, e),
{
    let ghost ls = out@;
    let mut j: usize = 0;
    while j < out.len() && str_lt(&out[j].path, &e.path)
        invariant
            out@ == old(out)@,
            j <= out@.len(),
            forall|k: int| 0 <= k < j ==> lex_lt(ls[k].path@, e.path@),
        decreases out@.len() - j,
    {
        j = j + 1;
    }
    proof {
        lemma_entry_insert_skip(ls, e, j as int);
    }
    if j < out.len() && out[j].path == e.path {
        proof {
            let s1 = ls.skip(j as int);
            assert(s1[0] == ls[j as int]);
            assert(!lex_lt(s1[0].path@, e.path@));
            assert(s1[0].path@ == e.path@);
            assert(entry_insert(s1, e) == s1);
            assert(ls.take(j as int) + ls.skip(j as int) =~= ls);
        }
    } else {
        let ghost pre = out@;
        out.insert(j, e);
        proof {
            let s1 = ls.skip(j as int);
            if s1.len() == 0 {
                assert(entry_insert(s1, e) =~= seq![e]);
            } else {
                assert(s1[0] == ls[j as int]);
                assert(!lex_lt(s1[0].path@, e.path@));
                assert(s1[0].path@ != e.path@);
                assert(entry_insert(s1, e) == seq![e] + s1);
            }
            assert(out@ =~= ls.take(j as int) + entry_insert(s1, e));
        }
    }
}

/// Clean paths that do not exist and duplicated entries, returning the
/// survivors sorted ascending by path. Directories are removed too unless
/// `keep_dirs` is set.
#[verifier::loop_isolation(false)]
pub fn cleanup_paths(paths: Vec<PathEntry>, keep_dirs: bool) -> (r: Vec<PathEntry>)
    ensures
        r@ == cleanup_spec(paths@, keep_dirs),
{
    let mut out: Vec<PathEntry> = Vec::new();
    let mut k: usize = 0;
    proof {
        assert(paths@.take(0) =~= Seq::<PathEntry>::empty());
    }
    while k < paths.len()
        invariant
            k <= paths@.len(),
            out@ == cleanup_spec(paths@.take(k as int), keep_dirs),
        decreases paths@.len() - k,
    {
        proof {
            assert(paths@.take(k + 1).drop_last() =~= paths@.take(k as int));
            assert(paths@.take(k + 1).last() == paths@[k as int]);
        }
        let e = &paths[k];
        if e.exists && (!e.is_dir || (keep_dirs && e.has_file_name)) {
            let entry = PathEntry {
                path: e.path.clone(),
                exists: e.exists,
                is_dir: e.is_dir,
                has_file_name: e.has_file_name,
            };
            proof {
                assert(entry == paths@[k as int]);
            }
            insert_entry(&mut out, entry);
        }
        k = k + 1;
    }
    proof {
        assert(paths@.take(paths@.len() as int) =~= paths@);
    }
    out
}

/// Insertion keeps a sorted list sorted, adds no entry but the given one,
/// and keeps every entry it had.
proof fn lemma_entry_insert_facts(ls: Seq<PathEntry>, e: PathEntry)
    requires
        forall|i: int, j: int| 0 <= i < j < ls.len() ==> lex_lt(ls[i].path@, ls[j].path@),
    ensures
        forall|i: int, j: int|
            0 <= i < j < entry_insert(ls, e).len() ==> lex_lt(
                entry_insert(ls, e)[i].path@,
                entry_insert(ls, e)[j].path@,
            ),
        forall|x: PathEntry| entry_insert(ls, e).contains(x) ==> ls.contains(x) || x == e,
    decreases ls.len(),
{
    let r = entry_insert(ls, e);
    if ls.len() == 0 {
        assert forall|x: PathEntry| r.contains(x) implies ls.contains(x) || x == e by {
            let i = choose|i: int| 0 <= i < r.len() && r[i] == x;
        }
    } else if lex_lt(ls[0].path@, e.path@) {
        assert forall|i: int, j: int|
            0 <= i < j < ls.drop_first().len() implies lex_lt(
            ls.drop_first()[i].path@,
            ls.drop_first()[j].path@,
        ) by {
            assert(ls.drop_first()[i] == ls[i + 1]);
            assert(ls.drop_first()[j] == ls[j + 1]);
        }
        lemma_entry_insert_facts(ls.drop_first(), e);
        let r1 = entry_insert(ls.drop_first(), e);
        assert(r == seq![ls[0]] + r1);
        assert forall|i: int, j: int| 0 <= i < j < r.len() implies lex_lt(
            r[i].path@,
            r[j].path@,
        ) by {
            if i == 0 {
                assert(r[0] == ls[0]);
                assert(r[j] == r1[j - 1]);
                assert(r1.contains(r1[j - 1]));
                if ls.drop_first().contains(r1[j - 1]) {
                    let y = choose|y: int|
                        0 <= y < ls.drop_first().len() && ls.drop_first()[y] == r1[j - 1];
                    assert(ls[y + 1] == r1[j - 1]);
                }
            } else {
                assert(r[i] == r1[i - 1]);
                assert(r[j] == r1[j - 1]);
            }
        }
        assert forall|x: PathEntry| r.contains(x) implies ls.contains(x) || x == e by {
            let i = choose|i: int| 0 <= i < r.len() && r[i] == x;
            if i == 0 {
                assert(ls[0] == x);
            } else {
                assert(r1[i - 1] == x);
                assert(r1.contains(x));
                if ls.drop_first().contains(x) {
                    let y = choose|y: int| 0 <= y < ls.drop_first().len() && ls.drop_first()[y] == x;
                    assert(ls[y + 1] == x);
                }
            }
        }
    } else if ls[0].path@ == e.path@ {
        assert forall|x: PathEntry| r.contains(x) implies ls.contains(x) || x == e by {}
    } else {
        lemma_lex_trichotomy(ls[0].path@, e.path@);
        assert(lex_lt(e.path@, ls[0].path@));
        assert(r == seq![e] + ls);
        assert forall|i: int, j: int| 0 <= i < j < r.len() implies lex_lt(
            r[i].path@,
            r[j].path@,
        ) by {
            if i == 0 {
                assert(r[0] == e);
                assert(r[j] == ls[j - 1]);
                if j > 1 {
                    lemma_lex_trans(e.path@, ls[0].path@, ls[j - 1].path@);
                }
            } else {
                assert(r[i] == ls[i - 1]);
                assert(r[j] == ls[j - 1]);
            }
        }
        assert forall|x: PathEntry| r.contains(x) implies ls.contains(x) || x == e by {
            let i = choose|i: int| 0 <= i < r.len() && r[i] == x;
            if i > 0 {
                assert(ls[i - 1] == x);
            }
        }
    }
}

/// Every cleaned entry is kept by the filters, and the cleaned list is
/// sorted strictly ascending by path — so its paths are pairwise distinct.
proof fn lemma_cleanup_entries(s: Seq<PathEntry>, keep_dirs: bool)
    ensures
        forall|i: int|
            0 <= i < cleanup_spec(s, keep_dirs).len() ==> entry_kept(
                cleanup_spec(s, keep_dirs)[i],
                keep_dirs,
            ),
        forall|i: int, j: int|
            0 <= i < j < cleanup_spec(s, keep_dirs).len() ==> lex_lt(
                cleanup_spec(s, keep_dirs)[i].path@,
                cleanup_spec(s, keep_dirs)[j].path@,
            ),
    decreases s.len(),
{
    if s.len() > 0 {
        lemma_cleanup_entries(s.drop_last(), keep_dirs);
        let prev = cleanup_spec(s.drop_last(), keep_dirs);
        let c = cleanup_spec(s, keep_dirs);
        if entry_kept(s.last(), keep_dirs) {
            lemma_entry_insert_facts(prev, s.last());
            assert forall|i: int| 0 <= i < c.len() implies entry_kept(c[i], keep_dirs) by {
                assert(c.contains(c[i]));
                if prev.contains(c[i]) {
                    let y = choose|y: int| 0 <= y < prev.len() && prev[y] == c[i];
                }
            }
        }
    }
}

/// Inserting an entry whose path comes after every present path appends
/// it.
proof fn lemma_entry_insert_at_end(ls: Seq<PathEntry>, e: PathEntry)
    requires
        forall|k: int| 0 <= k < ls.len() ==> lex_lt(ls[k].path@, e.path@),
    ensures
        entry_insert(ls, e) == ls.push(e),
    decreases ls.len(),
{
    if ls.len() == 0 {
        assert(seq![e] =~= ls.push(e));
    } else {
        assert forall|k: int| 0 <= k < ls.drop_first().len() implies lex_lt(
            ls.drop_first()[k].path@,
            e.path@,
        ) by {
            assert(ls.drop_first()[k] == ls[k + 1]);
        }
        lemma_entry_insert_at_end(ls.drop_first(), e);
        assert(seq![ls[0]] + ls.drop_first().push(e) =~= ls.push(e));
    }
}

/// Cleaning a list whose entries are all kept and sorted strictly
/// ascending by path changes nothing.
proof fn lemma_cleanup_fixed(s: Seq<PathEntry>, keep_dirs: bool)
    requires
        forall|i: int| 0 <= i < s.len() ==> entry_kept(s[i], keep_dirs),
        forall|i: int, j: int| 0 <= i < j < s.len() ==> lex_lt(s[i].path@, s[j].path@),
    ensures
        cleanup_spec(s, keep_dirs) == s,
    decreases s.len(),
{
    if s.len() > 0 {
        assert forall|i: int, j: int|
            0 <= i < j < s.drop_last().len() implies lex_lt(
            s.drop_last()[i].path@,
            s.drop_last()[j].path@,
        ) by {
            assert(s.drop_last()[i] == s[i]);
            assert(s.drop_last()[j] == s[j]);
        }
        lemma_cleanup_fixed(s.drop_last(), keep_dirs);
        assert(cleanup_spec(s.drop_last(), keep_dirs) == s.drop_last());
        assert(entry_kept(s.last(), keep_dirs));
        assert forall|k: int| 0 <= k < s.drop_last().len() implies lex_lt(
            s.drop_last()[k].path@,
            s.last().path@,
        ) by {
            assert(s.drop_last()[k] == s[k]);
            assert(s.last() == s[s.len() - 1]);
        }
        lemma_entry_insert_at_end(s.drop_last(), s.last());
        assert(s.drop_last().push(s.last()) =~= s);
    }
}

/// Path hygiene is idempotent: cleaning the cleaned list again yields the
/// same list, with no further path dropped, reordered or deduplicated.
pub proof fn lemma_cleanup_idempotent(s: Seq<PathEntry>, keep_dirs: bool)
    ensures
        cleanup_spec(cleanup_spec(s, keep_dirs), keep_dirs) == cleanup_spec(s, keep_dirs),
{
    lemma_cleanup_entries(s, keep_dirs);
    lemma_cleanup_fixed(cleanup_spec(s, keep_dirs), keep_dirs);
}

/// The filesystem facts compared when deciding whether two paths name the
/// same entry: the entry's kind and size, and its creation and
/// modification stamps where the filesystem reports them.
#[derive(Clone, Copy, Debug, PartialEq, Eq, Structural)]
pub struct MetaFacts {
    /// The entry kind, as a small code chosen by the caller.
    pub kind: u8,
    /// The entry's length in bytes.
    pub size: u64,
    /// Whether a creation stamp was reported.
    pub has_created: bool,
    pub created_secs: u64,
    pub created_nanos: u32,
    /// Whether a modification stamp was reported.
    pub has_modified: bool,
    pub modified_secs: u64,
    pub modified_nanos: u32,
}

/// Whether a source and a target name the same filesystem entry on a
/// case-insensitive, case-preserving filesystem: the two paths agree up
/// to character case and the observed metadata agree exactly. The caller
/// observes the metadata; the decision is made here.
pub fn same_entry_decision(
    source: &String,
    target: &String,
    source_facts: &MetaFacts,
    target_facts: &MetaFacts,
) -> (r: bool)
    ensures
        r == (lower_of(source@) == lower_of(target@) && source_facts == target_facts),
{
    let low_source = to_lower(source.as_str());
    let low_target = to_lower(target.as_str());
    low_source == low_target && *source_facts == *target_facts
}

/// The candidate names tried when a unique sibling name is generated: the
/// file name with the suffix appended, then the same with `.1`, `.2`, …
/// appended, until a free name is found.
pub open spec fn unique_candidate_spec(
    p: Seq<char>,
    suffix: Seq<char>,
    index: nat,
) -> Seq<char> {
    if index == 0 {
        with_file_name_spec(p, file_name_spec(p) + suffix)
    } else {
        with_file_name_spec(p, file_name_spec(p) + suffix + "."@ + dec_digits(index))
    }
}

/// The `index`-th candidate for a unique sibling name of `path`: the file
/// name with `suffix` appended, and, from index 1 on, a `.index` tail. The
/// caller probes the filesystem and takes the first candidate that is not
/// occupied.
pub fn unique_name_candidate(path: &String, suffix: &String, index: usize) -> (r: String)
    ensures
        r@ == unique_candidate_spec(path@, suffix@, index as nat),
{
    let base = file_name_of(path);
    let mut name = base;
    name.append(suffix.as_str());
    if index > 0 {
        name.append(".");
        let digits = fmt_usize(index);
        name.append(digits.as_str());
    }
    with_file_name(path, &name)
}

} // verus!
