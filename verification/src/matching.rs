//! Depth-counted bracket matching, the model of the executor's loop jumps.
//!
//! `scan_close` and `scan_open` scan forward and backward from a position,
//! tracking how many brackets of the skipped kind are still open, and stop on
//! the bracket that returns the count to zero — the textually matching
//! bracket. The lemmas show that on a balanced program the scans land, in
//! range, on the matching bracket of the right kind.

use vstd::prelude::*;

use crate::brackets::depth;

verus! {

/// Position of the first `]` at or after `k` once `d` extra `[` levels have
/// been closed; `s.len()` if the scan runs off the end.
pub open spec fn scan_close(s: Seq<char>, k: int, d: int) -> int
    decreases s.len() - k,
{
    if k < 0 || k >= s.len() {
        s.len() as int
    } else if s[k] == ']' {
        if d == 0 {
            k
        } else {
            scan_close(s, k + 1, d - 1)
        }
    } else if s[k] == '[' {
        scan_close(s, k + 1, d + 1)
    } else {
        scan_close(s, k + 1, d)
    }
}

/// Position of the last `[` at or before `k` once `d` extra `]` levels have
/// been closed; `-1` if the scan runs off the start.
pub open spec fn scan_open(s: Seq<char>, k: int, d: int) -> int
    decreases k + 1,
{
    if k < 0 || k >= s.len() {
        -1
    } else if s[k] == '[' {
        if d == 0 {
            k
        } else {
            scan_open(s, k - 1, d - 1)
        }
    } else if s[k] == ']' {
        scan_open(s, k - 1, d + 1)
    } else {
        scan_open(s, k - 1, d)
    }
}

/// A forward scan never moves backward and never leaves the program.
pub proof fn lemma_scan_close_ge(s: Seq<char>, k: int, d: int)
    requires
        0 <= k <= s.len(),
    ensures
        k <= scan_close(s, k, d) <= s.len(),
    decreases s.len() - k,
{
    if k < s.len() {
        if s[k] == ']' && d == 0 {
        } else if s[k] == ']' {
            lemma_scan_close_ge(s, k + 1, d - 1);
        } else if s[k] == '[' {
            lemma_scan_close_ge(s, k + 1, d + 1);
        } else {
            lemma_scan_close_ge(s, k + 1, d);
        }
    }
}

/// A backward scan never moves forward and never leaves the program.
pub proof fn lemma_scan_open_le(s: Seq<char>, k: int, d: int)
    requires
        -1 <= k < s.len(),
    ensures
        -1 <= scan_open(s, k, d) <= k,
    decreases k + 1,
{
    if k >= 0 {
        if s[k] == '[' && d == 0 {
        } else if s[k] == '[' {
            lemma_scan_open_le(s, k - 1, d - 1);
        } else if s[k] == ']' {
            lemma_scan_open_le(s, k - 1, d + 1);
        } else {
            lemma_scan_open_le(s, k - 1, d);
        }
    }
}

/// If the depth at the end of the program lies below the level the forward
/// scan is looking for, the scan finds a `]` in range: the first position
/// where the depth drops back to `depth(s, k) - d`, with the whole scanned
/// span staying at or above that level.
pub proof fn lemma_scan_close_finds(s: Seq<char>, k: int, d: int)
    requires
        0 <= k <= s.len(),
        d >= 0,
        depth(s, s.len() as int) < depth(s, k) - d,
    ensures
        ({
            let m = scan_close(s, k, d);
            &&& k <= m < s.len()
            &&& s[m] == ']'
            &&& depth(s, m) == depth(s, k) - d
            &&& depth(s, m + 1) == depth(s, k) - d - 1
            &&& forall|k2: int| k <= k2 <= m ==> #[trigger] depth(s, k2) >= depth(s, k) - d
        }),
    decreases s.len() - k,
{
    if k == s.len() {
        assert(false);
    } else if s[k] == ']' {
        assert(depth(s, k + 1) == depth(s, k) - 1);
        if d > 0 {
            lemma_scan_close_finds(s, k + 1, d - 1);
        }
    } else if s[k] == '[' {
        assert(depth(s, k + 1) == depth(s, k) + 1);
        lemma_scan_close_finds(s, k + 1, d + 1);
    } else {
        assert(depth(s, k + 1) == depth(s, k));
        lemma_scan_close_finds(s, k + 1, d);
    }
}

/// If the depth at the start of the program lies below the level the
/// backward scan is looking for, the scan finds a `[` in range: the last
/// position where the depth drops back to `depth(s, k + 1) - d`, with the
/// whole scanned span staying at or above that level.
pub proof fn lemma_scan_open_finds(s: Seq<char>, k: int, d: int)
    requires
        -1 <= k < s.len(),
        d >= 0,
        0 < depth(s, k + 1) - d,
    ensures
        ({
            let m = scan_open(s, k, d);
            &&& 0 <= m <= k
            &&& s[m] == '['
            &&& depth(s, m + 1) == depth(s, k + 1) - d
            &&& depth(s, m) == depth(s, k + 1) - d - 1
            &&& forall|k2: int|
                m <= k2 <= k ==> #[trigger] depth(s, k2 + 1) >= depth(s, k + 1) - d
        }),
    decreases k + 1,
{
    if k == -1 {
        assert(false);
    } else if s[k] == '[' {
        assert(depth(s, k + 1) == depth(s, k) + 1);
        if d > 0 {
            lemma_scan_open_finds(s, k - 1, d - 1);
        }
    } else if s[k] == ']' {
        assert(depth(s, k + 1) == depth(s, k) - 1);
        lemma_scan_open_finds(s, k - 1, d + 1);
    } else {
        assert(depth(s, k + 1) == depth(s, k));
        lemma_scan_open_finds(s, k - 1, d);
    }
}

} // verus!
