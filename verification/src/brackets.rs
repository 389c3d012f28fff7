//! The validator: bracket-nesting analysis of a program.
//!
//! The mathematical model is `scan_stack`, the stack of still-open `[`
//! positions after scanning a prefix of the program, and `depth`, the
//! bracket nesting depth of a prefix. `check_brackets` is verified against
//! `scan_stack`; the laws at the bottom connect the two models.

use vstd::prelude::*;

use crate::error::BfError;
use crate::error::BfErrorType;

verus! {

/// Number of `[` minus number of `]` among the first `n` characters of `s`.
pub open spec fn depth(s: Seq<char>, n: int) -> int
    decreases n,
{
    if n <= 0 {
        0
    } else {
        depth(s, n - 1) + if s[n - 1] == '[' {
            1
        } else if s[n - 1] == ']' {
            -1
        } else {
            0
        }
    }
}

/// The positions (in the order they were opened) of the `[` still open after
/// scanning the first `n` characters of `s`; `None` if some `]` in that
/// prefix had no open `[` before it.
pub open spec fn scan_stack(s: Seq<char>, n: int) -> Option<Seq<int>>
    decreases n,
{
    if n <= 0 {
        Some(Seq::empty())
    } else {
        match scan_stack(s, n - 1) {
            None => None,
            Some(st) => if s[n - 1] == '[' {
                Some(st.push(n - 1))
            } else if s[n - 1] == ']' {
                if st.len() == 0 {
                    None
                } else {
                    Some(st.drop_last())
                }
            } else {
                Some(st)
            },
        }
    }
}

/// A program passes validation exactly when scanning it leaves an empty
/// stack of open brackets.
pub open spec fn valid(s: Seq<char>) -> bool {
    scan_stack(s, s.len() as int) == Some(Seq::<int>::empty())
}

/// Balance stated over nesting depth alone: the depth never goes negative
/// and returns to zero at the end.
pub open spec fn balanced(s: Seq<char>) -> bool {
    &&& forall|i: int| 0 <= i <= s.len() ==> depth(s, i) >= 0
    &&& depth(s, s.len() as int) == 0
}

/// `j` is the position of a `[` that is never closed: after it opens, the
/// depth never returns to its level before `j`.
pub open spec fn unclosed_open(s: Seq<char>, j: int) -> bool {
    &&& 0 <= j < s.len()
    &&& s[j] == '['
    &&& forall|k: int| j < k <= s.len() ==> depth(s, k) > depth(s, j)
}

/// The validator reports offset `loc` exactly when one of these holds:
/// `loc` is a `]` reached with no bracket open, or the scan completes and
/// `loc` is the most recently opened `[` left on the stack.
pub open spec fn reports_unmatched_at(s: Seq<char>, loc: int) -> bool {
    ||| (0 <= loc < s.len() && s[loc] == ']' && scan_stack(s, loc) == Some(
        Seq::<int>::empty(),
    ))
    ||| (scan_stack(s, s.len() as int) matches Some(st) && st.len() > 0 && loc == st.last())
}

/// The positions held by the executable stack, as mathematical integers.
spec fn positions(stack: Seq<usize>) -> Seq<int> {
    stack.map_values(|x: usize| x as int)
}

/// Once the scan has failed on a prefix, it stays failed on every longer
/// prefix.
proof fn lemma_scan_stack_none_persists(s: Seq<char>, a: int, b: int)
    requires
        0 <= a <= b,
        scan_stack(s, a) is None,
    ensures
        scan_stack(s, b) is None,
    decreases b - a,
{
    if b > a {
        lemma_scan_stack_none_persists(s, a, b - 1);
    }
}

/// Scan the program once and verify bracket nesting is well-formed.
///
/// Returns `Ok` exactly on valid programs. On failure the reported offset is
/// pinned by `reports_unmatched_at`: the first `]` with no open `[` before
/// it, or else the most recently opened unclosed `[`.
pub fn check_brackets(program: &Vec<char>) -> (r: Result<(), BfError>)
    ensures
        r is Ok <==> valid(program@),
        r matches Err(e) ==> e.error_type == BfErrorType::UnmatchedBrackets
            && reports_unmatched_at(program@, e.location as int),
{
    let ghost s = program@;
    let mut stack: Vec<usize> = Vec::new();
    let mut i: usize = 0;
    while i < program.len()
        invariant
            i <= program.len(),
            s == program@,
            scan_stack(s, i as int) == Some(positions(stack@)),
        decreases program.len() - i,
    {
        let c = program[i];
        if c == '[' {
            let ghost before = positions(stack@);
            stack.push(i);
            proof {
                assert(positions(stack@) =~= before.push(i as int));
            }
        } else if c == ']' {
            if stack.len() == 0 {
                proof {
                    assert(positions(stack@) =~= Seq::<int>::empty());
                    assert(scan_stack(s, i + 1) is None);
                    lemma_scan_stack_none_persists(s, i + 1, s.len() as int);
                }
                return Err(BfError::new(i, BfErrorType::UnmatchedBrackets));
            }
            let ghost before = positions(stack@);
            stack.pop();
            proof {
                assert(positions(stack@) =~= before.drop_last());
                assert(scan_stack(s, i + 1) == Some(positions(stack@)));
            }
        }
        i += 1;
    }
    if stack.len() > 0 {
        let loc = stack[stack.len() - 1];
        proof {
            assert(positions(stack@).last() == loc as int);
        }
        return Err(BfError::new(loc, BfErrorType::UnmatchedBrackets));
    }
    proof {
        assert(positions(stack@) =~= Seq::<int>::empty());
    }
    Ok(())
}

/// Structure of the open-bracket stack after scanning a prefix: its length
/// is the nesting depth of the prefix, and the `m`-th entry is the position
/// of the `[` that raised the depth from `m` to `m + 1` and whose level has
/// stayed open since.
proof fn lemma_scan_stack_props(s: Seq<char>, n: int)
    requires
        0 <= n <= s.len(),
        scan_stack(s, n) is Some,
    ensures
        ({
            let st = scan_stack(s, n)->Some_0;
            &&& st.len() == depth(s, n)
            &&& forall|i: int| 0 <= i <= n ==> depth(s, i) >= 0
            &&& forall|m: int|
                0 <= m < st.len() ==> 0 <= #[trigger] st[m] < n && s[st[m] as int] == '[' && depth(
                    s,
                    st[m] as int,
                ) == m
            &&& forall|m: int|
                #![trigger st[m]]
                0 <= m < st.len() ==> (forall|k: int|
                    st[m] < k <= n ==> #[trigger] depth(s, k) > m)
        }),
    decreases n,
{
    if n > 0 {
        lemma_scan_stack_props(s, n - 1);
        let st0 = scan_stack(s, n - 1)->Some_0;
        let st = scan_stack(s, n)->Some_0;
        if s[n - 1] == '[' {
            assert(st == st0.push(n - 1));
        } else if s[n - 1] == ']' {
            assert(st == st0.drop_last());
        } else {
            assert(st == st0);
        }
    }
}

/// Every `[` whose level is still open over the whole prefix of length `n`
/// sits on the stack at the index given by its depth.
proof fn lemma_scan_stack_complete(s: Seq<char>, n: int, j: int)
    requires
        0 <= n <= s.len(),
        scan_stack(s, n) is Some,
        0 <= j < n,
        s[j] == '[',
        forall|k: int| j < k <= n ==> #[trigger] depth(s, k) > depth(s, j),
    ensures
        ({
            let st = scan_stack(s, n)->Some_0;
            0 <= depth(s, j) < st.len() && st[depth(s, j)] == j
        }),
    decreases n,
{
    lemma_scan_stack_props(s, n - 1);
    let st0 = scan_stack(s, n - 1)->Some_0;
    let st = scan_stack(s, n)->Some_0;
    if j == n - 1 {
        assert(st == st0.push(n - 1));
        assert(depth(s, j) == st0.len());
    } else {
        lemma_scan_stack_complete(s, n - 1, j);
        if s[n - 1] == ']' {
            assert(st == st0.drop_last());
            assert(depth(s, n) > depth(s, j));
            assert(st.len() == st0.len() - 1);
            assert(depth(s, n) == st.len());
        }
    }
}

/// If the depth of every prefix up to `n` is nonnegative, the scan does not
/// fail on that prefix.
proof fn lemma_nonneg_scan_some(s: Seq<char>, n: int)
    requires
        0 <= n <= s.len(),
        forall|i: int| 0 <= i <= n ==> depth(s, i) >= 0,
    ensures
        scan_stack(s, n) is Some,
    decreases n,
{
    if n > 0 {
        lemma_nonneg_scan_some(s, n - 1);
        lemma_scan_stack_props(s, n - 1);
        if s[n - 1] == ']' {
            assert(depth(s, n) >= 0);
            assert(depth(s, n - 1) >= 1);
        }
    }
}

/// Before the first `]` found at depth zero, the depth stays nonnegative.
proof fn lemma_nonneg_upto(s: Seq<char>, i: int)
    requires
        0 <= i <= s.len(),
        forall|k: int| 0 <= k < i ==> !(s[k] == ']' && #[trigger] depth(s, k) == 0),
    ensures
        forall|k: int| 0 <= k <= i ==> depth(s, k) >= 0,
    decreases i,
{
    if i > 0 {
        lemma_nonneg_upto(s, i - 1);
        if s[i - 1] == ']' {
            assert(depth(s, i - 1) != 0);
            assert(depth(s, i - 1) >= 0);
        }
        assert(depth(s, i) >= 0);
    }
}

/// Law: a program validates exactly when its brackets are balanced — the
/// nesting depth never goes negative and returns to zero at the end. In
/// particular every program with balanced, correctly nested brackets passes
/// `check_brackets`.
pub proof fn lemma_balanced_validates(s: Seq<char>)
    ensures
        valid(s) <==> balanced(s),
{
    if balanced(s) {
        lemma_nonneg_scan_some(s, s.len() as int);
        lemma_scan_stack_props(s, s.len() as int);
        let st = scan_stack(s, s.len() as int)->Some_0;
        assert(st =~= Seq::<int>::empty());
    }
    if valid(s) {
        lemma_scan_stack_props(s, s.len() as int);
    }
}

/// Law: if offset `i` holds the first `]` that has no open `[` before it,
/// validation fails, and the reported offset is exactly `i`.
pub proof fn lemma_unmatched_close_location(s: Seq<char>, i: int)
    requires
        0 <= i < s.len(),
        s[i] == ']',
        depth(s, i) == 0,
        forall|k: int| 0 <= k < i ==> !(s[k] == ']' && #[trigger] depth(s, k) == 0),
    ensures
        !valid(s),
        reports_unmatched_at(s, i),
        forall|loc: int| reports_unmatched_at(s, loc) ==> loc == i,
{
    lemma_nonneg_upto(s, i);
    lemma_nonneg_scan_some(s, i);
    lemma_scan_stack_props(s, i);
    let st = scan_stack(s, i)->Some_0;
    assert(st =~= Seq::<int>::empty());
    assert(scan_stack(s, i + 1) is None);
    lemma_scan_stack_none_persists(s, i + 1, s.len() as int);
    assert forall|loc: int| reports_unmatched_at(s, loc) implies loc == i by {
        if loc != i {
            if 0 <= loc < s.len() && s[loc] == ']' && scan_stack(s, loc) == Some(
                Seq::<int>::empty(),
            ) {
                if loc < i {
                    lemma_scan_stack_props(s, loc);
                    assert(depth(s, loc) == 0);
                    assert(false);
                } else {
                    lemma_scan_stack_none_persists(s, i + 1, loc);
                    assert(false);
                }
            }
        }
    };
}

/// Law: if the depth never goes negative (no stray `]`) but some `[` is
/// never closed, validation fails, and the reported offset is exactly the
/// most recently opened (innermost) unclosed `[`.
pub proof fn lemma_unclosed_open_location(s: Seq<char>, j: int)
    requires
        forall|i: int| 0 <= i <= s.len() ==> depth(s, i) >= 0,
        unclosed_open(s, j),
    ensures
        !valid(s),
        scan_stack(s, s.len() as int) is Some,
        ({
            let st = scan_stack(s, s.len() as int)->Some_0;
            &&& st.len() > 0
            &&& reports_unmatched_at(s, st.last())
            &&& unclosed_open(s, st.last())
            &&& forall|j2: int| unclosed_open(s, j2) ==> j2 <= st.last()
            &&& forall|loc: int| reports_unmatched_at(s, loc) ==> loc == st.last()
        }),
{
    let n = s.len() as int;
    lemma_nonneg_scan_some(s, n);
    lemma_scan_stack_props(s, n);
    lemma_scan_stack_complete(s, n, j);
    let st = scan_stack(s, n)->Some_0;
    assert(st.len() > 0);
    let m = st.len() - 1;
    assert(s[st[m] as int] == '[' && depth(s, st[m] as int) == m);
    assert(forall|k: int| st[m] < k <= n ==> #[trigger] depth(s, k) > m);
    assert(unclosed_open(s, st.last()));
    assert forall|j2: int| unclosed_open(s, j2) implies j2 <= st.last() by {
        lemma_scan_stack_complete(s, n, j2);
        if j2 > st.last() {
            assert(depth(s, j2) > m);
            assert(false);
        }
    };
    assert forall|loc: int| reports_unmatched_at(s, loc) implies loc == st.last() by {
        if 0 <= loc < s.len() && s[loc] == ']' && scan_stack(s, loc) == Some(
            Seq::<int>::empty(),
        ) {
            lemma_scan_stack_none_persists(s, loc + 1, n);
            assert(false);
        }
    };
}

} // verus!
