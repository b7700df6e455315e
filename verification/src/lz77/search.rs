//! Looking for a run of bytes in the window behind the cursor.

use vstd::prelude::*;

verus! {

/// Whether `needle` lies in `hay` at index `at`.
pub open spec fn occurs_at(hay: Seq<u8>, needle: Seq<u8>, at: int) -> bool {
    &&& 0 <= at
    &&& at + needle.len() <= hay.len()
    &&& hay.subrange(at, at + needle.len()) == needle
}

/// Whether `needle` lies somewhere in `hay`, whole.
pub open spec fn occurs_in(hay: Seq<u8>, needle: Seq<u8>) -> bool {
    exists|at: int| occurs_at(hay, needle, at)
}

/// The least distance from the end of `hay`, not under `offset`, at which
/// `needle` lies in `hay`; zero where there is none.
pub open spec fn nearest_from(hay: Seq<u8>, needle: Seq<u8>, offset: int) -> int
    decreases hay.len() + 1 - offset,
{
    if offset > hay.len() {
        0
    } else if occurs_at(hay, needle, hay.len() - offset) {
        offset
    } else {
        nearest_from(hay, needle, offset + 1)
    }
}

/// How far behind the end of `hay` the last place lies at which `needle`
/// occurs in it, whole; zero where it does not occur.
pub open spec fn nearest_offset(hay: Seq<u8>, needle: Seq<u8>) -> int {
    nearest_from(hay, needle, 1)
}

/// The search from `offset` on finds an occurrence no farther than a
/// known one.
proof fn lemma_nearest_from(hay: Seq<u8>, needle: Seq<u8>, offset: int, known: int)
    requires
        1 <= offset <= known <= hay.len(),
        occurs_at(hay, needle, hay.len() - known),
    ensures
        offset <= nearest_from(hay, needle, offset) <= known,
        occurs_at(hay, needle, hay.len() - nearest_from(hay, needle, offset)),
    decreases known - offset,
{
    if !occurs_at(hay, needle, hay.len() - offset) {
        lemma_nearest_from(hay, needle, offset + 1, known);
    }
}

/// Where a non-empty needle occurs, the nearest offset is one at which it
/// lies, and is at least the needle's length.
pub proof fn lemma_nearest_offset(hay: Seq<u8>, needle: Seq<u8>)
    requires
        needle.len() > 0,
        occurs_in(hay, needle),
    ensures
        needle.len() <= nearest_offset(hay, needle) <= hay.len(),
        occurs_at(hay, needle, hay.len() - nearest_offset(hay, needle)),
{
    let at = choose|at: int| occurs_at(hay, needle, at);
    lemma_nearest_from(hay, needle, 1, hay.len() - at);
}

/// What holds a run of bytes also holds each run that it starts with.
pub proof fn lemma_occurs_prefix(hay: Seq<u8>, needle: Seq<u8>, shorter: int)
    requires
        0 <= shorter <= needle.len(),
        occurs_in(hay, needle),
    ensures
        occurs_in(hay, needle.take(shorter)),
{
    let at = choose|at: int| occurs_at(hay, needle, at);
    let part = needle.take(shorter);
    assert(hay.subrange(at, at + part.len()) =~= hay.subrange(at, at + needle.len()).take(
        shorter,
    ));
    assert(occurs_at(hay, part, at));
}

/// Whether `needle` lies in `haystack` at index `at`.
fn matches_here(haystack: &[u8], needle: &[u8], at: usize) -> (same: bool)
    requires
        at + needle@.len() <= haystack@.len(),
    ensures
        same == occurs_at(haystack@, needle@, at as int),
{
    let count: usize = needle.len();
    let total: usize = haystack.len();
    let mut k: usize = 0;
    while k < count
        invariant
            count == needle@.len(),
            total == haystack@.len(),
            at + count <= total,
            k <= count,
            forall|j: int| 0 <= j < k ==> haystack@[at + j] == needle@[j],
        decreases count - k,
    {
        if haystack[at + k] != needle[k] {
            assert(haystack@.subrange(at as int, at + count)[k as int] == haystack@[at + k]);
            return false;
        }
        k += 1;
    }
    assert(haystack@.subrange(at as int, at + count) =~= needle@);
    true
}

/// Whether `needle` occurs in `haystack`, whole. The empty needle occurs
/// in every haystack.
pub fn contains_slice(haystack: &[u8], needle: &[u8]) -> (found: bool)
    ensures
        found == occurs_in(haystack@, needle@),
{
    if needle.len() == 0 {
        assert(haystack@.subrange(0, 0) =~= needle@);
        assert(occurs_at(haystack@, needle@, 0));
        return true;
    }
    if needle.len() > haystack.len() {
        return false;
    }
    let total: usize = haystack.len();
    let last: usize = total - needle.len();
    let mut at: usize = 0;
    while at <= last
        invariant
            total == haystack@.len(),
            last == total - needle@.len(),
            needle@.len() > 0,
            at <= last + 1,
            forall|x: int| 0 <= x < at ==> !occurs_at(haystack@, needle@, x),
        decreases last + 1 - at,
    {
        if matches_here(haystack, needle, at) {
            return true;
        }
        at += 1;
    }
    false
}

/// How far behind the end of `search` the last place lies at which
/// `pattern` occurs in it, whole; zero where it does not occur.
pub fn find_offset(search: &[u8], pattern: &[u8]) -> (offset: usize)
    ensures
        offset == nearest_offset(search@, pattern@),
{
    let n: usize = search.len();
    let count: usize = pattern.len();
    let mut i: usize = 0;
    while i < n
        invariant
            n == search@.len(),
            count == pattern@.len(),
            i <= n,
            nearest_offset(search@, pattern@) == nearest_from(search@, pattern@, i + 1),
        decreases n - i,
    {
        let at: usize = n - i - 1;
        if count <= i + 1 && matches_here(search, pattern, at) {
            return i + 1;
        }
        i += 1;
    }
    0
}

} // verus!
