//! Verified path helpers over plain strings.
//!
//! Paths are handled as strings whose components are separated by `/`, and
//! only by `/`: a `\` is an ordinary name character here, so on a platform
//! with another separator the caller converts before handing paths in. A
//! rename never changes a path's parent directory, only its final component,
//! so a source and its target always share the same depth; the solver uses
//! the depth to bucket targets by level.

use vstd::prelude::*;
use crate::strutil::{string_chars, string_from_chars};

verus! {

/// The depth of a path: the number of `/` separator characters in it.
pub open spec fn depth_spec(p: Seq<char>) -> nat
    decreases p.len(),
{
    if p.len() == 0 {
        0
    } else {
        depth_spec(p.drop_last()) + (if p.last() == '/' { 1nat } else { 0nat })
    }
}

/// The depth never exceeds the length.
pub proof fn lemma_depth_le_len(p: Seq<char>)
    ensures
        depth_spec(p) <= p.len(),
    decreases p.len(),
{
    if p.len() > 0 {
        lemma_depth_le_len(p.drop_last());
    }
}

/// The number of separator characters in the path.
pub fn path_depth(p: &String) -> (r: usize)
    ensures
        r == depth_spec(p@),
{
    let chars = string_chars(p.as_str());
    let mut count: usize = 0;
    let mut i: usize = 0;
    while i < chars.len()
        invariant
            chars@ == p@,
            i <= chars.len(),
            count == depth_spec(p@.take(i as int)),
            count <= i,
        decreases chars.len() - i,
    {
        proof {
            assert(p@.take(i + 1).drop_last() =~= p@.take(i as int));
            assert(p@.take(i + 1).last() == p@[i as int]);
        }
        if chars[i] == '/' {
            count = count + 1;
        }
        i = i + 1;
    }
    proof {
        assert(p@.take(chars@.len() as int) =~= p@);
    }
    count
}

/// The index just past the last `/` separator: characters from this index
/// on form the file name, characters before it form the parent prefix
/// (including the trailing separator). Zero when the path has no separator.
pub open spec fn name_start_spec(p: Seq<char>) -> int
    decreases p.len(),
{
    if p.len() == 0 {
        0
    } else if p.last() == '/' {
        p.len() as int
    } else {
        name_start_spec(p.drop_last())
    }
}

pub proof fn lemma_name_start_bounds(p: Seq<char>)
    ensures
        0 <= name_start_spec(p) <= p.len(),
    decreases p.len(),
{
    if p.len() > 0 && p.last() != '/' {
        lemma_name_start_bounds(p.drop_last());
    }
}

/// The final component of the path: everything after the last separator.
pub open spec fn file_name_spec(p: Seq<char>) -> Seq<char> {
    p.skip(name_start_spec(p))
}

/// The path with its final component replaced by `name`.
pub open spec fn with_file_name_spec(p: Seq<char>, name: Seq<char>) -> Seq<char> {
    p.take(name_start_spec(p)) + name
}

/// The position just past the last separator of `p`.
pub fn name_start(p: &String) -> (r: usize)
    ensures
        r == name_start_spec(p@),
{
    let chars = string_chars(p.as_str());
    let mut i: usize = chars.len();
    proof {
        assert(p@.take(chars@.len() as int) =~= p@);
    }
    while i > 0
        invariant
            chars@ == p@,
            i <= chars.len(),
            name_start_spec(p@) == name_start_spec(p@.take(i as int)),
        decreases i,
    {
        proof {
            assert(p@.take(i as int).drop_last() =~= p@.take(i - 1));
            assert(p@.take(i as int).last() == p@[i - 1]);
        }
        if chars[i - 1] == '/' {
            proof {
                assert(name_start_spec(p@.take(i as int)) == i as int);
            }
            return i;
        }
        i = i - 1;
    }
    proof {
        assert(p@.take(0) =~= Seq::<char>::empty());
    }
    0
}

/// The final component of the path.
pub fn file_name_of(p: &String) -> (r: String)
    ensures
        r@ == file_name_spec(p@),
{
    let chars = string_chars(p.as_str());
    let start = name_start(p);
    proof {
        lemma_name_start_bounds(p@);
    }
    let mut out: Vec<char> = Vec::new();
    let mut i: usize = start;
    while i < chars.len()
        invariant
            chars@ == p@,
            start == name_start_spec(p@),
            start <= i <= chars.len(),
            out@ == p@.subrange(name_start_spec(p@), i as int),
        decreases chars.len() - i,
    {
        out.push(chars[i]);
        i = i + 1;
        proof {
            assert(out@ =~= p@.subrange(name_start_spec(p@), i as int));
        }
    }
    string_from_chars(&out)
}

/// The path with its final component replaced by `name`.
pub fn with_file_name(p: &String, name: &String) -> (r: String)
    ensures
        r@ == with_file_name_spec(p@, name@),
{
    let chars = string_chars(p.as_str());
    let start = name_start(p);
    proof {
        lemma_name_start_bounds(p@);
    }
    let mut out: Vec<char> = Vec::new();
    let mut i: usize = 0;
    while i < start
        invariant
            chars@ == p@,
            start == name_start_spec(p@),
            start <= chars.len(),
            i <= start,
            out@ == p@.take(i as int),
        decreases start - i,
    {
        out.push(chars[i]);
        i = i + 1;
        proof {
            assert(out@ =~= p@.take(i as int));
        }
    }
    let name_chars = string_chars(name.as_str());
    let mut j: usize = 0;
    while j < name_chars.len()
        invariant
            name_chars@ == name@,
            j <= name_chars.len(),
            out@ == p@.take(name_start_spec(p@)) + name@.take(j as int),
        decreases name_chars.len() - j,
    {
        out.push(name_chars[j]);
        j = j + 1;
        proof {
            assert(out@ =~= p@.take(name_start_spec(p@)) + name@.take(j as int));
        }
    }
    proof {
        assert(name@.take(name_chars@.len() as int) =~= name@);
    }
    string_from_chars(&out)
}

/// Replacing the file name does not change the depth when the new name has
/// no separator in it.
pub proof fn lemma_with_file_name_depth(p: Seq<char>, name: Seq<char>)
    requires
        forall|i: int| 0 <= i < name.len() ==> name[i] != '/',
    ensures
        depth_spec(with_file_name_spec(p, name)) == depth_spec(p),
{
    lemma_name_start_bounds(p);
    lemma_depth_concat(p.take(name_start_spec(p)), name);
    lemma_depth_no_sep(name);
    lemma_depth_concat(p.take(name_start_spec(p)), p.skip(name_start_spec(p)));
    assert(p.take(name_start_spec(p)) + p.skip(name_start_spec(p)) =~= p);
    lemma_depth_no_sep_tail(p);
}

/// Depth distributes over concatenation.
pub proof fn lemma_depth_concat(a: Seq<char>, b: Seq<char>)
    ensures
        depth_spec(a + b) == depth_spec(a) + depth_spec(b),
    decreases b.len(),
{
    if b.len() == 0 {
        assert(a + b =~= a);
    } else {
        lemma_depth_concat(a, b.drop_last());
        assert((a + b).drop_last() =~= a + b.drop_last());
        assert((a + b).last() == b.last());
    }
}

/// A sequence without separators has depth zero.
proof fn lemma_depth_no_sep(s: Seq<char>)
    requires
        forall|i: int| 0 <= i < s.len() ==> s[i] != '/',
    ensures
        depth_spec(s) == 0,
    decreases s.len(),
{
    if s.len() > 0 {
        lemma_depth_no_sep(s.drop_last());
    }
}

/// The file-name part of a path holds no separator.
proof fn lemma_depth_no_sep_tail(p: Seq<char>)
    ensures
        depth_spec(file_name_spec(p)) == 0,
    decreases p.len(),
{
    lemma_name_start_bounds(p);
    lemma_no_sep_after_start(p);
    lemma_depth_no_sep(file_name_spec(p));
}

/// No separator occurs at or after the name start.
proof fn lemma_no_sep_after_start(p: Seq<char>)
    ensures
        forall|i: int| name_start_spec(p) <= i < p.len() ==> p[i] != '/',
    decreases p.len(),
{
    if p.len() > 0 && p.last() != '/' {
        lemma_no_sep_after_start(p.drop_last());
        lemma_name_start_bounds(p.drop_last());
        assert forall|i: int| name_start_spec(p) <= i < p.len() implies p[i] != '/' by {
            if i < p.len() - 1 {
                assert(p[i] == p.drop_last()[i]);
            }
        }
    }
}

} // verus!
