//! Positions in a source text: byte offsets of characters, and the line and
//! column of a byte offset given the line breaks seen so far.

use vstd::prelude::*;

use crate::error::Location;
use crate::text::{byte_len, char_width_exec, lemma_byte_len_bounds, lemma_byte_len_prefix_monotone, lemma_byte_len_push};

verus! {

/// `offsets[k]` is the byte offset of the `k`-th character of `s`, for every
/// `k` up to and including `s.len()`.
pub open spec fn offsets_ok(s: Seq<char>, offsets: Seq<usize>) -> bool {
    &&& offsets.len() == s.len() + 1
    &&& forall|k: int| 0 <= k <= s.len() ==> #[trigger] offsets[k] == byte_len(s.subrange(0, k))
}

/// Byte offsets grow with the character index.
pub proof fn lemma_offsets_grow(s: Seq<char>, offsets: Seq<usize>, i: int, j: int)
    requires
        offsets_ok(s, offsets),
        0 <= i <= j <= s.len(),
    ensures
        offsets[i] <= offsets[j],
        i < j ==> offsets[i] < offsets[j],
        offsets[j] <= offsets[s.len() as int],
    decreases j - i,
{
    if i < j {
        lemma_offsets_grow(s, offsets, i, j - 1);
        assert(s.subrange(0, j) =~= s.subrange(0, j - 1).push(s[j - 1]));
        lemma_byte_len_push(s.subrange(0, j - 1), s[j - 1]);
    }
    lemma_byte_len_prefix_monotone(s, j);
    assert(s.subrange(0, s.len() as int) =~= s);
}

/// The byte offsets of the characters of `s`.
pub fn char_offsets(s: &[char]) -> (r: Vec<usize>)
    requires
        byte_len(s@) <= isize::MAX,
    ensures
        offsets_ok(s@, r@),
{
    let mut r: Vec<usize> = Vec::new();
    let mut acc: usize = 0;
    let mut k: usize = 0;
    proof {
        assert(s@.subrange(0, 0) =~= Seq::<char>::empty());
    }
    while k < s.len()
        invariant
            k <= s@.len(),
            byte_len(s@) <= isize::MAX,
            r@.len() == k,
            acc == byte_len(s@.subrange(0, k as int)),
            forall|j: int| 0 <= j < k ==> #[trigger] r@[j] == byte_len(s@.subrange(0, j)),
        decreases s@.len() - k,
    {
        r.push(acc);
        proof {
            assert(s@.subrange(0, k + 1) =~= s@.subrange(0, k as int).push(s@[k as int]));
            lemma_byte_len_push(s@.subrange(0, k as int), s@[k as int]);
            lemma_byte_len_prefix_monotone(s@, k + 1);
        }
        acc = acc + char_width_exec(s[k]);
        k = k + 1;
    }
    r.push(acc);
    proof {
        assert forall|j: int| 0 <= j <= s@.len() implies #[trigger] r@[j] == byte_len(s@.subrange(0, j)) by {
            if j < s@.len() {
            }
        }
    }
    r
}

/// How many of the (ascending) offsets `nls` lie before `offset`.
pub open spec fn lines_before(nls: Seq<usize>, offset: int) -> nat
    decreases nls.len(),
{
    if nls.len() == 0 {
        0
    } else if nls.last() < offset {
        nls.len()
    } else {
        lines_before(nls.drop_last(), offset)
    }
}

/// The values grow strictly.
pub open spec fn ascending(v: Seq<usize>) -> bool {
    forall|i: int, j: int| 0 <= i < j < v.len() ==> v[i] < v[j]
}

/// The location of the byte offset `offset`, given the byte offsets `nls` of
/// the line breaks before it: lines and columns count from one, a column in bytes.
pub open spec fn location_in(nls: Seq<usize>, offset: usize) -> Location {
    let l = lines_before(nls, offset as int);
    let line_start: int = if l == 0 {
        0
    } else {
        nls[l - 1] + 1
    };
    Location { line: (l + 1) as usize, column: (offset - line_start + 1) as usize, offset }
}

proof fn lemma_lines_before(nls: Seq<usize>, offset: int, lo: int)
    requires
        0 <= lo <= nls.len(),
        forall|k: int| 0 <= k < lo ==> nls[k] < offset,
        forall|k: int| lo <= k < nls.len() ==> nls[k] >= offset,
    ensures
        lines_before(nls, offset) == lo,
    decreases nls.len(),
{
    if nls.len() > lo {
        let d = nls.drop_last();
        assert forall|k: int| lo <= k < d.len() implies d[k] >= offset by {
            assert(d[k] == nls[k]);
        }
        lemma_lines_before(d, offset, lo);
    } else if nls.len() > 0 {
        assert(nls.last() < offset);
    }
}

/// The line and column of `offset`, found by binary search over the ascending
/// line-break offsets `nls`.
pub fn location_from_offset(nls: &[usize], offset: usize) -> (r: Location)
    requires
        ascending(nls@),
        nls@.len() < usize::MAX,
        offset < usize::MAX,
    ensures
        r == location_in(nls@, offset),
{
    let mut lo: usize = 0;
    let mut hi: usize = nls.len();
    while lo < hi
        invariant
            lo <= hi <= nls@.len(),
            ascending(nls@),
            forall|k: int| 0 <= k < lo ==> nls@[k] < offset,
            forall|k: int| hi <= k < nls@.len() ==> nls@[k] >= offset,
        decreases hi - lo,
    {
        let mid = lo + (hi - lo) / 2;
        if nls[mid] < offset {
            proof {
                assert forall|k: int| 0 <= k < mid + 1 implies nls@[k] < offset by {
                    if k < mid {
                        assert(nls@[k] < nls@[mid as int]);
                    }
                }
            }
            lo = mid + 1;
        } else {
            proof {
                assert forall|k: int| mid <= k < nls@.len() implies nls@[k] >= offset by {
                    if k > mid {
                        assert(nls@[mid as int] < nls@[k]);
                    }
                }
            }
            hi = mid;
        }
    }
    proof {
        lemma_lines_before(nls@, offset as int, lo as int);
    }
    let line_start = if lo == 0 {
        0
    } else {
        nls[lo - 1] + 1
    };
    Location { line: lo + 1, column: offset - line_start + 1, offset }
}

/// The byte offsets of the `\n` characters of `s[a..b]`, in order.
pub open spec fn newline_offsets_in(s: Seq<char>, offsets: Seq<usize>, a: int, b: int) -> Seq<usize>
    decreases b - a,
{
    if b <= a {
        seq![]
    } else if s[b - 1] == '\n' {
        newline_offsets_in(s, offsets, a, b - 1).push(offsets[b - 1])
    } else {
        newline_offsets_in(s, offsets, a, b - 1)
    }
}

proof fn lemma_newline_offsets_in(s: Seq<char>, offsets: Seq<usize>, a: int, b: int)
    requires
        offsets_ok(s, offsets),
        0 <= a <= b <= s.len(),
    ensures
        ascending(newline_offsets_in(s, offsets, a, b)),
        newline_offsets_in(s, offsets, a, b).len() <= b - a,
        forall|k: int|
            0 <= k < newline_offsets_in(s, offsets, a, b).len() ==> offsets[a] <= #[trigger] newline_offsets_in(
                s,
                offsets,
                a,
                b,
            )[k] < offsets[b],
    decreases b - a,
{
    if b > a {
        lemma_newline_offsets_in(s, offsets, a, b - 1);
        lemma_offsets_grow(s, offsets, a, b - 1);
        lemma_offsets_grow(s, offsets, b - 1, b);
        lemma_offsets_grow(s, offsets, a, b);
        let p = newline_offsets_in(s, offsets, a, b - 1);
        if s[b - 1] == '\n' {
            let q = p.push(offsets[b - 1]);
            assert forall|k: int| 0 <= k < q.len() implies offsets[a] <= #[trigger] q[k] < offsets[b] by {
                if k < p.len() {
                    assert(q[k] == p[k]);
                }
            }
        }
    }
}

/// Appends to `nls` the byte offsets of the `\n` characters of `s[a..b]`.
pub fn record_newlines(nls: &mut Vec<usize>, s: &[char], offsets: &[usize], a: usize, b: usize)
    requires
        offsets_ok(s@, offsets@),
        a <= b <= s@.len(),
        ascending(old(nls)@),
        forall|k: int| 0 <= k < old(nls)@.len() ==> old(nls)@[k] < offsets@[a as int],
    ensures
        final(nls)@ == old(nls)@ + newline_offsets_in(s@, offsets@, a as int, b as int),
        ascending(final(nls)@),
        final(nls)@.len() <= old(nls)@.len() + (b - a),
        forall|k: int| 0 <= k < final(nls)@.len() ==> final(nls)@[k] < offsets@[b as int],
{
    let ghost n0 = nls@;
    let mut k = a;
    proof {
        assert(n0 + newline_offsets_in(s@, offsets@, a as int, a as int) =~= n0);
    }
    while k < b
        invariant
            a <= k <= b <= s@.len(),
            offsets_ok(s@, offsets@),
            nls@ == n0 + newline_offsets_in(s@, offsets@, a as int, k as int),
        decreases b - k,
    {
        if s[k] == '\n' {
            nls.push(offsets[k]);
        }
        proof {
            assert(nls@ =~= n0 + newline_offsets_in(s@, offsets@, a as int, k + 1));
        }
        k = k + 1;
    }
    proof {
        lemma_newline_offsets_in(s@, offsets@, a as int, b as int);
        lemma_offsets_grow(s@, offsets@, a as int, b as int);
        let q = newline_offsets_in(s@, offsets@, a as int, b as int);
        assert forall|i: int, j: int| 0 <= i < j < nls@.len() implies nls@[i] < nls@[j] by {
            if j < n0.len() {
            } else if i < n0.len() {
                assert(nls@[j] == q[j - n0.len()]);
            } else {
                assert(nls@[j] == q[j - n0.len()]);
                assert(nls@[i] == q[i - n0.len()]);
            }
        }
        assert forall|i: int| 0 <= i < nls@.len() implies nls@[i] < offsets@[b as int] by {
            if i >= n0.len() {
                assert(nls@[i] == q[i - n0.len()]);
            }
        }
    }
}

/// The number of characters is at most the number of bytes.
pub proof fn lemma_chars_within_bytes(s: Seq<char>)
    ensures
        s.len() <= byte_len(s),
{
    lemma_byte_len_bounds(s);
}

/// The byte offsets of the characters of `s`, and of its end.
pub open spec fn byte_offsets(s: Seq<char>) -> Seq<usize> {
    Seq::new((s.len() + 1) as nat, |k: int| byte_len(s.subrange(0, k)) as usize)
}

/// Offsets that are right are the byte offsets.
pub proof fn lemma_offsets_are_bytes(s: Seq<char>, offsets: Seq<usize>)
    requires
        offsets_ok(s, offsets),
    ensures
        offsets == byte_offsets(s),
{
    assert(offsets =~= byte_offsets(s));
}

/// The byte offsets are right when the text's length in bytes fits.
pub proof fn lemma_byte_offsets_ok(s: Seq<char>)
    requires
        byte_len(s) <= usize::MAX,
    ensures
        offsets_ok(s, byte_offsets(s)),
{
    assert forall|k: int| 0 <= k <= s.len() implies #[trigger] byte_offsets(s)[k] == byte_len(s.subrange(0, k)) by {
        lemma_byte_len_prefix_monotone(s, k);
    }
}

/// Line breaks at or after `x` change nothing to the location of `x`.
pub proof fn lemma_location_in_prefix(a: Seq<usize>, b: Seq<usize>, x: usize)
    requires
        forall|k: int| 0 <= k < b.len() ==> b[k] >= x,
    ensures
        location_in(a + b, x) == location_in(a, x),
    decreases b.len(),
{
    if b.len() > 0 {
        let d = b.drop_last();
        assert((a + b).drop_last() =~= a + d);
        assert((a + b).last() == b.last());
        assert forall|k: int| 0 <= k < d.len() implies d[k] >= x by {
            assert(d[k] == b[k]);
        }
        lemma_location_in_prefix(a, d, x);
        lemma_lines_before_len(a + d, x as int);
        lemma_lines_before_len(a, x as int);
        let l = lines_before(a, x as int);
        if l > 0 {
            assert((a + b)[l - 1] == a[l - 1]);
            assert((a + d)[l - 1] == a[l - 1]);
        }
    } else {
        assert(a + b =~= a);
    }
}

proof fn lemma_lines_before_len(nls: Seq<usize>, offset: int)
    ensures
        lines_before(nls, offset) <= nls.len(),
    decreases nls.len(),
{
    if nls.len() > 0 {
        lemma_lines_before_len(nls.drop_last(), offset);
    }
}

/// The offsets that `newline_offsets_in` gives lie in `[offsets[a], offsets[b])`.
pub proof fn lemma_newline_offsets_bounds(s: Seq<char>, offsets: Seq<usize>, a: int, b: int)
    requires
        offsets_ok(s, offsets),
        0 <= a <= b <= s.len(),
    ensures
        forall|k: int|
            0 <= k < newline_offsets_in(s, offsets, a, b).len() ==> offsets[a] <= #[trigger] newline_offsets_in(
                s,
                offsets,
                a,
                b,
            )[k] < offsets[b],
{
    lemma_newline_offsets_in(s, offsets, a, b);
}

} // verus!
