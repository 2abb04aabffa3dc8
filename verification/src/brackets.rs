//! Loop resolution: a single left-to-right, stack-disciplined pass over a
//! token sequence builds the bidirectional jump table between matching
//! loop-start and loop-end positions. An unmatched bracket is a fatal error
//! reported before any execution begins.
//!
//! Matching is characterized through the bracket nesting depth of prefixes:
//! position `q` matches an opening bracket at `p` exactly when the depth
//! returns at `q + 1` to its value at `p` while staying strictly above it in
//! between. Tokens are raw guest bytes; `[` is 91 and `]` is 93, and every
//! other byte leaves the depth unchanged, so the same resolver serves both
//! raw source text and (re-encoded) fused IR.

use vstd::prelude::*;
use crate::VmError;

verus! {

/// The contribution of one token to the bracket nesting depth.
pub open spec fn bracket_delta(b: u8) -> int {
    if b == 91 {
        1
    } else if b == 93 {
        -1
    } else {
        0
    }
}

/// The bracket nesting depth of the prefix `s[0..j]`.
pub open spec fn depth(s: Seq<u8>, j: int) -> int
    decreases j when 0 <= j <= s.len()
{
    if j <= 0 {
        0
    } else {
        depth(s, j - 1) + bracket_delta(s[j - 1])
    }
}

/// Brackets are balanced: the depth never goes negative and ends at zero.
/// This is the well-formedness condition every execution path demands.
pub open spec fn balanced(s: Seq<u8>) -> bool {
    depth(s, s.len() as int) == 0 && forall|j: int| 0 <= j <= s.len() ==> depth(s, j) >= 0
}

/// The opening bracket at `p` is still unclosed after reading `s[0..j]`:
/// the depth stays strictly above its value at `p` throughout `(p, j]`.
pub open spec fn still_open(s: Seq<u8>, p: int, j: int) -> bool {
    forall|m: int| p < m <= j ==> depth(s, m) > depth(s, p)
}

/// `q` is the loop-end matching the loop-start at `p`: the depth first
/// returns to its value at `p` right after `q`.
pub open spec fn is_match(s: Seq<u8>, p: int, q: int) -> bool {
    &&& 0 <= p < q < s.len()
    &&& s[p] == 91
    &&& s[q] == 93
    &&& depth(s, q + 1) == depth(s, p)
    &&& forall|m: int| p < m <= q ==> depth(s, m) > depth(s, p)
}

/// A loop-start has at most one matching loop-end.
pub proof fn lemma_match_fwd_unique(s: Seq<u8>, p: int, q1: int, q2: int)
    requires
        is_match(s, p, q1),
        is_match(s, p, q2),
    ensures
        q1 == q2,
{
    if q1 < q2 {
        assert(p < q1 + 1 <= q2);
        assert(depth(s, q1 + 1) > depth(s, p));
    }
    if q2 < q1 {
        assert(p < q2 + 1 <= q1);
        assert(depth(s, q2 + 1) > depth(s, p));
    }
}

/// A loop-end has at most one matching loop-start.
pub proof fn lemma_match_bwd_unique(s: Seq<u8>, p1: int, p2: int, q: int)
    requires
        is_match(s, p1, q),
        is_match(s, p2, q),
    ensures
        p1 == p2,
{
    if p1 < p2 {
        assert(p1 < p2 <= q);
        assert(depth(s, p2) > depth(s, p1));
    }
    if p2 < p1 {
        assert(p2 < p1 <= q);
        assert(depth(s, p1) > depth(s, p2));
    }
}

/// The depth changes by at most one per token.
pub proof fn lemma_depth_lipschitz(s: Seq<u8>, i: int, j: int)
    requires
        0 <= i <= j <= s.len(),
    ensures
        depth(s, j) - depth(s, i) <= j - i,
        depth(s, i) - depth(s, j) <= j - i,
    decreases j - i,
{
    if i < j {
        lemma_depth_lipschitz(s, i, j - 1);
    }
}

/// A valid jump table: at every loop-start it holds the matching loop-end
/// position, and at every loop-end the matching loop-start position.
pub open spec fn table_ok(s: Seq<u8>, jt: Seq<usize>) -> bool {
    &&& jt.len() == s.len()
    &&& forall|p: int| 0 <= p < s.len() && s[p] == 91 ==> is_match(s, p, #[trigger] jt[p] as int)
    &&& forall|q: int| 0 <= q < s.len() && s[q] == 93 ==> is_match(s, #[trigger] jt[q] as int, q)
}

/// Loop matching law: in a valid jump table, every loop-start at `p` maps to
/// a loop-end at a strictly greater position `q`, and `q` maps back to `p`.
pub proof fn lemma_table_involution(s: Seq<u8>, jt: Seq<usize>, p: int)
    requires
        table_ok(s, jt),
        0 <= p < s.len(),
        s[p] == 91,
    ensures
        p < jt[p] < s.len(),
        s[jt[p] as int] == 93,
        jt[jt[p] as int] as int == p,
{
    let q = jt[p] as int;
    assert(is_match(s, p, q));
    assert(is_match(s, jt[q] as int, q));
    lemma_match_bwd_unique(s, jt[q] as int, p, q);
}

/// Build the bidirectional jump table in one left-to-right pass, pushing
/// each loop-start position and popping it at the matching loop-end. The
/// first loop-end with no open loop-start, or the innermost loop-start still
/// open at the end of input, is reported as a fatal unmatched bracket.
pub fn resolve(toks: &Vec<u8>) -> (r: Result<Vec<usize>, VmError>)
    ensures
        match r {
            Ok(jt) => balanced(toks@) && table_ok(toks@, jt@),
            Err(VmError::UnmatchedClose(q)) => {
                &&& !balanced(toks@)
                &&& 0 <= q < toks@.len()
                &&& toks@[q as int] == 93
                &&& depth(toks@, q + 1) == -1
                &&& forall|j: int| 0 <= j <= q ==> depth(toks@, j) >= 0
            },
            Err(VmError::UnmatchedOpen(p)) => {
                &&& !balanced(toks@)
                &&& 0 <= p < toks@.len()
                &&& toks@[p as int] == 91
                &&& still_open(toks@, p as int, toks@.len() as int)
                &&& forall|j: int| 0 <= j <= toks@.len() ==> depth(toks@, j) >= 0
            },
            _ => false,
        },
{
    let ghost s = toks@;
    let n = toks.len();
    let mut jt: Vec<usize> = vec![0usize; n];
    let mut stack: Vec<usize> = Vec::new();
    let mut idx: usize = 0;
    while idx < n
        invariant
            n == s.len(),
            idx <= n,
            toks@ == s,
            jt@.len() == n,
            depth(s, idx as int) == stack@.len(),
            forall|j: int| 0 <= j <= idx ==> depth(s, j) >= 0,
            forall|i: int|
                0 <= i < stack@.len() ==> (#[trigger] stack@[i] as int) < idx && s[stack@[i] as int]
                    == 91 && depth(s, stack@[i] as int) == i,
            forall|i: int, m: int|
                0 <= i < stack@.len() && (#[trigger] stack@[i] as int) < m <= idx ==> #[trigger] depth(
                    s,
                    m,
                ) > i,
            forall|p: int|
                0 <= p < idx && s[p] == 91 && !still_open(s, p, idx as int) ==> is_match(
                    s,
                    p,
                    #[trigger] jt@[p] as int,
                ) && jt@[p] < idx,
            forall|q: int|
                0 <= q < idx && s[q] == 93 ==> is_match(s, #[trigger] jt@[q] as int, q),
        decreases n - idx,
    {
        let b = toks[idx];
        if b == 91 {
            stack.push(idx);
        } else if b == 93 {
            if stack.len() == 0 {
                proof {
                    assert(depth(s, idx as int) == 0);
                    assert(depth(s, idx + 1) == -1);
                    assert(0 <= idx + 1 <= s.len() && depth(s, idx + 1) < 0);
                }
                return Err(VmError::UnmatchedClose(idx));
            }
            let p = stack.pop().unwrap();
            let ghost k = stack@.len() as int;
            assert(depth(s, p as int) == k);
            assert(depth(s, idx + 1) == k);
            assert(is_match(s, p as int, idx as int));
            jt[p] = idx;
            jt[idx] = p;
            proof {
                // Only the popped loop-start loses `still_open` at this step:
                // any still-open p' newly closed here has depth k, and the
                // depth characterization pins the position with depth k.
                assert forall|p2: int|
                    0 <= p2 < idx + 1 && s[p2] == 91 && !still_open(s, p2, idx + 1) implies
                    is_match(s, p2, jt@[p2] as int) && jt@[p2] < idx + 1 by {
                    if p2 == p as int {
                    } else if p2 == idx as int {
                        assert(false);
                    } else if !still_open(s, p2, idx as int) {
                        // already matched earlier; its table entry is unchanged
                        assert(jt@[p2] < idx);
                    } else {
                        // p2 was still open and closes now: depth(s, idx + 1) <= depth(s, p2)
                        // while depth(s, idx) > depth(s, p2); so depth(s, p2) == k
                        assert(depth(s, idx as int) > depth(s, p2));
                        assert(exists|m: int|
                            p2 < m <= idx + 1 && depth(s, m) <= depth(s, p2));
                        let m0 = choose|m: int| p2 < m <= idx + 1 && depth(s, m) <= depth(s, p2);
                        assert(m0 == idx + 1);
                        assert(depth(s, p2) >= k);
                        assert(depth(s, p2) <= k) by {
                            assert(depth(s, idx as int) > depth(s, p2) || p2 == idx as int);
                        }
                        // two still-open positions cannot share a depth
                        if p2 < p as int {
                            assert(p2 < (p as int) && (p as int) <= idx as int);
                            assert(depth(s, p as int) > depth(s, p2));
                            assert(false);
                        } else {
                            assert((p as int) < p2 && p2 <= idx as int);
                            assert(still_open(s, p as int, idx as int));
                            assert(depth(s, p2) > depth(s, p as int));
                            assert(false);
                        }
                    }
                }
            }
        }
        idx = idx + 1;
    }
    if stack.len() > 0 {
        let p = stack[stack.len() - 1];
        proof {
            let k = stack@.len() as int;
            assert(depth(s, p as int) == k - 1);
            assert(depth(s, n as int) == k);
        }
        return Err(VmError::UnmatchedOpen(p));
    }
    proof {
        assert forall|p: int| 0 <= p < n && s[p] == 91 implies is_match(
            s,
            p,
            jt@[p] as int,
        ) by {
            if still_open(s, p, n as int) {
                // p would have to sit in the (empty) stack at its depth
                assert(depth(s, n as int) > depth(s, p));
                assert(false);
            }
        }
    }
    Ok(jt)
}

} // verus!
