//! Fusion correctness: the fused machine over the decoded IR simulates the
//! reference machine over the raw source. Together with determinism this
//! closes the tier-equivalence circle: a completed fused-tier run agrees
//! with a completed naive- or precomputed-tier run on the exit signal, the
//! output stream and the final tape.
//!
//! The bridge is the start position of each fused operation in the source
//! text. Every operation owns a span of source characters: its run of
//! identical opcode characters followed by any comment characters up to the
//! next operation's start. Bracket nesting depths, and hence loop matching,
//! carry over between the op-token sequence and the source through these
//! spans, and each fused step corresponds to the span's worth of reference
//! steps.

use vstd::prelude::*;
use crate::ir::{
    FusedOp, fused_ir, decode_from, is_cmd, is_run_cmd, unit_op, op_bump, op_count,
    lemma_decode_head,
};
use crate::brackets::{depth, bracket_delta, is_match, balanced};
use crate::machine::{Cfg, Status, step, steps, halted, init_cfg};
use crate::machine::{cell_inc, cell_dec, lemma_steps_add, lemma_halt_unique};
use crate::opsem::{cell_add_n, cell_sub_n, step_ops, steps_ops, halted_ops};
use crate::opsem::toks_of;

verus! {

/// The source character an operation stands for.
pub open spec fn op_char(op: FusedOp) -> u8 {
    match op {
        FusedOp::AdvancePointer(_) => 62,
        FusedOp::RetreatPointer(_) => 60,
        FusedOp::IncrementCell(_) => 43,
        FusedOp::DecrementCell(_) => 45,
        FusedOp::WriteByte => 46,
        FusedOp::ReadByte => 44,
        FusedOp::LoopStart => 91,
        FusedOp::LoopEnd => 93,
    }
}

/// The start positions, in the source suffix from `i`, of the operations of
/// `decode_from(src, i)`, in order. A merged run's start moves back to the
/// run's first character.
pub open spec fn op_starts(src: Seq<u8>, i: int) -> Seq<int>
    decreases src.len() - i when 0 <= i <= src.len()
{
    if i >= src.len() {
        Seq::empty()
    } else {
        let rest = op_starts(src, i + 1);
        let b = src[i];
        if !is_cmd(b) {
            rest
        } else if is_run_cmd(b) && i + 1 < src.len() && src[i + 1] == b {
            rest.update(0, i)
        } else {
            seq![i] + rest
        }
    }
}

/// The source position where operation `j` of the whole program starts; one
/// past the end of the IR it is the source length.
pub open spec fn pos_of(src: Seq<u8>, j: int) -> int {
    if j < fused_ir(src).len() {
        op_starts(src, 0)[j]
    } else {
        src.len() as int
    }
}

/// The end of operation `j`'s span in the suffix decoding from `i`.
pub open spec fn span_end(src: Seq<u8>, st: Seq<int>, j: int) -> int {
    if j + 1 < st.len() {
        st[j + 1]
    } else {
        src.len() as int
    }
}

/// The structure of decoding: starts and operations correspond one to one;
/// every operation `j` owns the span from its start to the next start (or
/// the end of the source), beginning with `op_count` copies of its character
/// and continuing with comment characters only; characters before the first
/// start are comments; and a suffix beginning with an opcode starts its
/// first operation right there.
pub open spec fn span_ok(src: Seq<u8>, i: int) -> bool {
    let ir = decode_from(src, i);
    let st = op_starts(src, i);
    &&& st.len() == ir.len()
    &&& (i < src.len() && is_cmd(src[i]) ==> ir.len() > 0 && st[0] == i)
    &&& forall|m: int|
        i <= m < (if ir.len() > 0 {
            st[0]
        } else {
            src.len() as int
        }) ==> !is_cmd(#[trigger] src[m])
    &&& forall|j: int|
        0 <= j < ir.len() ==> {
            let p = #[trigger] st[j];
            let nx = span_end(src, st, j);
            &&& i <= p
            &&& p + op_count(ir[j]) <= nx <= src.len()
            &&& 1 <= op_count(ir[j])
            &&& forall|m: int| p <= m < p + op_count(ir[j]) ==> #[trigger] src[m] == op_char(ir[j])
            &&& forall|m: int| p + op_count(ir[j]) <= m < nx ==> !is_cmd(#[trigger] src[m])
        }
}

/// Decoding satisfies the span structure.
pub proof fn lemma_span_ok(src: Seq<u8>, i: int)
    requires
        src.len() <= usize::MAX,
        0 <= i <= src.len(),
    ensures
        span_ok(src, i),
    decreases src.len() - i,
{
    if i < src.len() {
        lemma_span_ok(src, i + 1);
        let b = src[i];
        let ir = decode_from(src, i);
        let st = op_starts(src, i);
        let ir1 = decode_from(src, i + 1);
        let st1 = op_starts(src, i + 1);
        if !is_cmd(b) {
            assert(span_ok(src, i));
        } else if is_run_cmd(b) && i + 1 < src.len() && src[i + 1] == b {
            lemma_decode_head(src, i + 1);
            assert(ir == ir1.update(0, op_bump(ir1[0])));
            assert(st == st1.update(0, i));
            assert(st1[0] == i + 1);
            assert(ir1[0] == decode_from(src, i + 1)[0]);
            // the head span: one more leading character, same character,
            // same end, count one higher
            assert(op_char(op_bump(ir1[0])) == op_char(ir1[0]));
            assert(op_char(ir1[0]) == b);
            assert(op_count(ir[0]) == op_count(ir1[0]) + 1);
            assert(span_end(src, st, 0) == span_end(src, st1, 0));
            assert forall|j: int| 0 <= j < ir.len() implies {
                let p = #[trigger] st[j];
                let nx = span_end(src, st, j);
                &&& i <= p
                &&& p + op_count(ir[j]) <= nx <= src.len()
                &&& 1 <= op_count(ir[j])
                &&& forall|m: int| p <= m < p + op_count(ir[j]) ==> #[trigger] src[m] == op_char(
                    ir[j],
                )
                &&& forall|m: int| p + op_count(ir[j]) <= m < nx ==> !is_cmd(#[trigger] src[m])
            } by {
                if j == 0 {
                    let p = st[j];
                    let nx = span_end(src, st, 0);
                    assert(p == i);
                    assert(forall|m: int|
                        i + 1 <= m < i + 1 + op_count(ir1[0]) ==> #[trigger] src[m] == op_char(
                            ir1[0],
                        ));
                    assert forall|m: int| p <= m < p + op_count(ir[0]) implies #[trigger] src[m]
                        == op_char(ir[0]) by {
                        if m == i {
                        } else {
                            assert(i + 1 <= m < i + 1 + op_count(ir1[0]));
                        }
                    }
                } else {
                    assert(st[j] == st1[j]);
                    assert(ir[j] == ir1[j]);
                    assert(span_end(src, st, j) == span_end(src, st1, j));
                }
            }
            assert(span_ok(src, i));
        } else {
            assert(ir == seq![unit_op(b)] + ir1);
            assert(st == seq![i] + st1);
            assert(op_char(unit_op(b)) == b);
            assert(op_count(unit_op(b)) == 1);
            assert forall|j: int| 0 <= j < ir.len() implies {
                let p = #[trigger] st[j];
                let nx = span_end(src, st, j);
                &&& i <= p
                &&& p + op_count(ir[j]) <= nx <= src.len()
                &&& 1 <= op_count(ir[j])
                &&& forall|m: int| p <= m < p + op_count(ir[j]) ==> #[trigger] src[m] == op_char(
                    ir[j],
                )
                &&& forall|m: int| p + op_count(ir[j]) <= m < nx ==> !is_cmd(#[trigger] src[m])
            } by {
                if j == 0 {
                    let nx = span_end(src, st, 0);
                    if ir1.len() > 0 {
                        assert(nx == st1[0]);
                        assert(forall|m: int|
                            i + 1 <= m < st1[0] ==> !is_cmd(#[trigger] src[m]));
                    } else {
                        assert(nx == src.len() as int);
                        assert(forall|m: int|
                            i + 1 <= m < src.len() ==> !is_cmd(#[trigger] src[m]));
                    }
                } else {
                    assert(st[j] == st1[j - 1]);
                    assert(ir[j] == ir1[j - 1]);
                    assert(span_end(src, st, j) == span_end(src, st1, j - 1));
                }
            }
            assert(span_ok(src, i));
        }
    }
}

/// The depth does not change across a bracket-free stretch.
pub proof fn lemma_depth_const(src: Seq<u8>, a: int, b: int)
    requires
        0 <= a <= b <= src.len(),
        forall|m: int| a <= m < b ==> #[trigger] src[m] != 91 && src[m] != 93,
    ensures
        depth(src, b) == depth(src, a),
    decreases b - a,
{
    if a < b {
        lemma_depth_const(src, a, b - 1);
    }
}

/// Nesting depths correspond between the op-token sequence and the source:
/// the depth before op `j` equals the source depth at op `j`'s start.
#[verifier::rlimit(60)]
pub proof fn lemma_depth_corr(src: Seq<u8>, j: int)
    requires
        src.len() <= usize::MAX,
        0 <= j <= fused_ir(src).len(),
    ensures
        depth(toks_of(fused_ir(src)), j) == depth(src, pos_of(src, j)),
    decreases j,
{
    lemma_span_ok(src, 0);
    let ir = fused_ir(src);
    let st = op_starts(src, 0);
    let toks = toks_of(ir);
    if j == 0 {
        if ir.len() > 0 {
            lemma_depth_const(src, 0, st[0]);
        } else {
            lemma_depth_const(src, 0, src.len() as int);
        }
    } else {
        lemma_depth_corr(src, j - 1);
        let p = st[j - 1];
        let k = op_count(ir[j - 1]);
        let nx = span_end(src, st, j - 1);
        assert(pos_of(src, j) == nx);
        assert(toks[j - 1] == crate::opsem::op_token(ir[j - 1]));
        match ir[j - 1] {
            FusedOp::LoopStart => {
                assert(src[p] == 91 && k == 1);
                assert(depth(src, p + 1) == depth(src, p) + 1);
                lemma_depth_const(src, p + 1, nx);
            },
            FusedOp::LoopEnd => {
                assert(src[p] == 93 && k == 1);
                assert(depth(src, p + 1) == depth(src, p) - 1);
                lemma_depth_const(src, p + 1, nx);
            },
            _ => {
                assert forall|m: int| p <= m < nx implies #[trigger] src[m] != 91 && src[m]
                    != 93 by {
                    if m < p + k {
                        assert(src[m] == op_char(ir[j - 1]));
                    }
                }
                lemma_depth_const(src, p, nx);
            },
        }
    }
}

/// Within one op's span the source depth never drops below both endpoint
/// depths.
#[verifier::rlimit(60)]
pub proof fn lemma_span_depth(src: Seq<u8>, j: int, m: int)
    requires
        src.len() <= usize::MAX,
        0 <= j < fused_ir(src).len(),
        pos_of(src, j) <= m <= pos_of(src, j + 1),
    ensures
        depth(src, m) >= depth(src, pos_of(src, j)) || depth(src, m) >= depth(
            src,
            pos_of(src, j + 1),
        ),
{
    lemma_span_ok(src, 0);
    let ir = fused_ir(src);
    let st = op_starts(src, 0);
    let p = st[j];
    let k = op_count(ir[j]);
    let nx = span_end(src, st, j);
    assert(pos_of(src, j + 1) == nx);
    match ir[j] {
        FusedOp::LoopStart => {
            if m > p {
                assert(depth(src, p + 1) == depth(src, p) + 1);
                lemma_depth_const(src, p + 1, m);
                lemma_depth_const(src, p + 1, nx);
            }
        },
        FusedOp::LoopEnd => {
            if m > p {
                assert(depth(src, p + 1) == depth(src, p) - 1);
                lemma_depth_const(src, p + 1, m);
                lemma_depth_const(src, p + 1, nx);
            }
        },
        _ => {
            assert forall|mm: int| p <= mm < m implies #[trigger] src[mm] != 91 && src[mm]
                != 93 by {
                if mm < p + k {
                    assert(src[mm] == op_char(ir[j]));
                }
            }
            lemma_depth_const(src, p, m);
        },
    }
}

/// Every source position between two op starts falls in some op's span.
pub proof fn lemma_locate(src: Seq<u8>, j: int, q: int, m: int)
    requires
        src.len() <= usize::MAX,
        0 <= j < q <= fused_ir(src).len(),
        pos_of(src, j) < m <= pos_of(src, q),
    ensures
        exists|jj: int|
            j <= jj < q && #[trigger] pos_of(src, jj) < m <= pos_of(src, jj + 1),
    decreases q - j,
{
    if m <= pos_of(src, j + 1) {
        assert(j <= j < q && pos_of(src, j) < m <= pos_of(src, j + 1));
    } else {
        lemma_locate(src, j + 1, q, m);
    }
}

/// Loop matching transfers from the op tokens to the source: if ops `j` and
/// `q` match, their start characters match in the source.
/// The source character at an op's start is the op's character.
proof fn lemma_start_char(src: Seq<u8>, j: int)
    requires
        src.len() <= usize::MAX,
        0 <= j < fused_ir(src).len(),
    ensures
        src[pos_of(src, j)] == op_char(fused_ir(src)[j]),
        0 <= pos_of(src, j) < src.len(),
{
    lemma_span_ok(src, 0);
    let st = op_starts(src, 0);
    let ir = fused_ir(src);
    let pp = st[j];
    assert(ir == decode_from(src, 0));
    assert(pp + op_count(ir[j]) <= span_end(src, st, j) && 1 <= op_count(ir[j]) && forall|m: int|
        pp <= m < pp + op_count(ir[j]) ==> #[trigger] src[m] == op_char(ir[j]));
    assert(src[pp] == op_char(ir[j]));
}

#[verifier::rlimit(100)]
pub proof fn lemma_match_transfer(src: Seq<u8>, j: int, q: int)
    requires
        src.len() <= usize::MAX,
        is_match(toks_of(fused_ir(src)), j, q),
    ensures
        is_match(src, pos_of(src, j), pos_of(src, q)),
{
    let ir = fused_ir(src);
    let toks = toks_of(ir);
    let p = pos_of(src, j);
    let ps = pos_of(src, q);
    assert(ir[j] is LoopStart);
    assert(ir[q] is LoopEnd);
    lemma_start_char(src, j);
    lemma_start_char(src, q);
    assert(src[p] == 91 && src[ps] == 93);
    assert(p < ps) by {
        lemma_pos_increasing(src, j, q);
    }
    lemma_depth_corr(src, j);
    lemma_depth_corr(src, q);
    lemma_depth_corr(src, q + 1);
    // the source depth right after the loop-end's character equals the
    // token depth after op q
    assert(depth(src, ps + 1) == depth(src, ps) - 1);
    assert(depth(toks, q + 1) == depth(toks, q) - 1);
    assert(depth(src, ps + 1) == depth(src, p)) by {
        assert(depth(toks, q + 1) == depth(toks, j));
    }
    assert forall|m: int| p < m <= ps implies depth(src, m) > depth(src, p) by {
        lemma_interior_transfer(src, j, q, m);
    }
}

/// Every source position strictly inside a matched pair of op spans sits
/// strictly above the loop-start's depth.
#[verifier::rlimit(100)]
proof fn lemma_interior_transfer(src: Seq<u8>, j: int, q: int, m: int)
    requires
        src.len() <= usize::MAX,
        is_match(toks_of(fused_ir(src)), j, q),
        fused_ir(src)[j] is LoopStart,
        pos_of(src, j) < m <= pos_of(src, q),
    ensures
        depth(src, m) > depth(src, pos_of(src, j)),
{
    let ir = fused_ir(src);
    let toks = toks_of(ir);
    let p = pos_of(src, j);
    lemma_depth_corr(src, j);
    lemma_locate(src, j, q, m);
    let jj = choose|jj: int|
        j <= jj < q && #[trigger] pos_of(src, jj) < m <= pos_of(src, jj + 1);
    lemma_span_depth(src, jj, m);
    lemma_depth_corr(src, jj);
    lemma_depth_corr(src, jj + 1);
    if jj == j {
        // inside the loop-start's own span the depth sits one above
        lemma_start_char(src, j);
        lemma_bracket_span_depth(src, j, m);
    } else {
        assert(j < jj < q && j < jj + 1 <= q);
        assert(depth(toks, jj) > depth(toks, j));
        assert(depth(toks, jj + 1) > depth(toks, j));
    }
}

/// Inside a bracket op's span, past its character, the depth sits at the
/// start's depth adjusted by the bracket.
proof fn lemma_bracket_span_depth(src: Seq<u8>, j: int, m: int)
    requires
        src.len() <= usize::MAX,
        0 <= j < fused_ir(src).len(),
        fused_ir(src)[j] is LoopStart || fused_ir(src)[j] is LoopEnd,
        pos_of(src, j) < m <= pos_of(src, j + 1),
    ensures
        depth(src, m) == depth(src, pos_of(src, j)) + bracket_delta(src[pos_of(src, j)]),
{
    lemma_span_ok(src, 0);
    let ir = fused_ir(src);
    let st = op_starts(src, 0);
    let p = st[j];
    assert(op_count(ir[j]) == 1);
    assert(src[p] == op_char(ir[j]));
    assert(pos_of(src, j + 1) == span_end(src, st, j));
    assert(depth(src, p + 1) == depth(src, p) + bracket_delta(src[p]));
    assert forall|mm: int| p + 1 <= mm < m implies #[trigger] src[mm] != 91 && src[mm] != 93 by {
        assert(!is_cmd(src[mm]));
    }
    lemma_depth_const(src, p + 1, m);
}

/// Adding one first, then `k` more, adds `k + 1`, all modulo 256.
pub proof fn lemma_cell_add_chain(x: u8, k: int)
    requires
        k >= 0,
    ensures
        cell_add_n(cell_inc(x), k) == cell_add_n(x, k + 1),
{
    if x == 255 {
        vstd::arithmetic::div_mod::lemma_mod_multiples_vanish(1, k, 256);
    }
}

/// Subtracting one first, then `k` more, subtracts `k + 1`, all modulo 256.
pub proof fn lemma_cell_sub_chain(x: u8, k: int)
    requires
        k >= 0,
    ensures
        cell_sub_n(cell_dec(x), k) == cell_sub_n(x, k + 1),
{
    if x == 0 {
        vstd::arithmetic::div_mod::lemma_mod_multiples_vanish(1, 0 - (k + 1), 256);
    }
}

/// A cell is unchanged by adding or subtracting zero.
pub proof fn lemma_cell_zero(x: u8)
    ensures
        cell_add_n(x, 0) == x,
        cell_sub_n(x, 0) == x,
{
    vstd::arithmetic::div_mod::lemma_small_mod(x as nat, 256);
}

/// A run of `k` cell-increment or cell-decrement characters takes the
/// reference machine `k` steps and adds or subtracts `k` modulo 256.
pub proof fn lemma_run_cells(src: Seq<u8>, c: Cfg, k: int, b: u8)
    requires
        c.status == Status::Running,
        0 <= c.ip,
        c.ip + k <= src.len(),
        0 <= k,
        b == 43 || b == 45,
        forall|m: int| c.ip <= m < c.ip + k ==> #[trigger] src[m] == b,
        0 <= c.cur < c.tape.len(),
    ensures
        steps(src, c, k as nat) == (Cfg {
            ip: c.ip + k,
            tape: c.tape.update(
                c.cur,
                if b == 43 {
                    cell_add_n(c.tape[c.cur], k)
                } else {
                    cell_sub_n(c.tape[c.cur], k)
                },
            ),
            ..c
        }),
    decreases k,
{
    let x = c.tape[c.cur];
    if k == 0 {
        lemma_cell_zero(x);
        assert(c.tape.update(c.cur, x) =~= c.tape);
        assert(steps(src, c, 0) =~= (Cfg { ip: c.ip, tape: c.tape.update(c.cur, x), ..c }));
    } else {
        let c1 = step(src, c);
        if b == 43 {
            assert(c1 == (Cfg { ip: c.ip + 1, tape: c.tape.update(c.cur, cell_inc(x)), ..c }));
            lemma_run_cells(src, c1, k - 1, b);
            lemma_cell_add_chain(x, k - 1);
            assert(c1.tape.update(c.cur, cell_add_n(cell_inc(x), k - 1)) =~= c.tape.update(
                c.cur,
                cell_add_n(x, k),
            ));
        } else {
            assert(c1 == (Cfg { ip: c.ip + 1, tape: c.tape.update(c.cur, cell_dec(x)), ..c }));
            lemma_run_cells(src, c1, k - 1, b);
            lemma_cell_sub_chain(x, k - 1);
            assert(c1.tape.update(c.cur, cell_sub_n(cell_dec(x), k - 1)) =~= c.tape.update(
                c.cur,
                cell_sub_n(x, k),
            ));
        }
        assert(steps(src, c, k as nat) == steps(src, c1, (k - 1) as nat));
    }
}

/// A run of `k` pointer-advance characters that stays on the tape takes `k`
/// steps and moves the cursor by `k`.
pub proof fn lemma_run_right_ok(src: Seq<u8>, c: Cfg, k: int)
    requires
        c.status == Status::Running,
        0 <= c.ip,
        c.ip + k <= src.len(),
        0 <= k,
        forall|m: int| c.ip <= m < c.ip + k ==> #[trigger] src[m] == 62,
        0 <= c.cur,
        c.cur + k < c.tape.len(),
    ensures
        steps(src, c, k as nat) == (Cfg { ip: c.ip + k, cur: c.cur + k, ..c }),
    decreases k,
{
    if k == 0 {
        assert(steps(src, c, 0) =~= (Cfg { ip: c.ip, cur: c.cur, ..c }));
    } else {
        let c1 = step(src, c);
        lemma_run_right_ok(src, c1, k - 1);
    }
}

/// A run of pointer-advance characters that would leave the tape takes the
/// machine to the right edge and then halts it with a bounds exit; the tape
/// and output are untouched.
pub proof fn lemma_run_right_oob(src: Seq<u8>, c: Cfg, k: int)
    requires
        c.status == Status::Running,
        0 <= c.ip,
        c.ip + k <= src.len(),
        forall|m: int| c.ip <= m < c.ip + k ==> #[trigger] src[m] == 62,
        0 <= c.cur < c.tape.len(),
        c.cur + k >= c.tape.len(),
    ensures
        steps(src, c, (c.tape.len() - c.cur) as nat) == (Cfg {
            status: Status::Oob,
            ip: c.ip + (c.tape.len() - 1 - c.cur),
            cur: c.tape.len() - 1,
            ..c
        }),
    decreases c.tape.len() - c.cur,
{
    if c.cur + 1 >= c.tape.len() {
        assert(step(src, c) == (Cfg { status: Status::Oob, ..c }));
        assert(steps(src, c, 1) == steps(src, step(src, c), 0));
    } else {
        let c1 = step(src, c);
        assert(c1 == (Cfg { ip: c.ip + 1, cur: c.cur + 1, ..c }));
        lemma_run_right_oob(src, c1, k - 1);
        assert(steps(src, c, (c.tape.len() - c.cur) as nat) == steps(
            src,
            c1,
            (c.tape.len() - c.cur - 1) as nat,
        ));
    }
}

/// A run of `k` pointer-retreat characters that stays on the tape takes `k`
/// steps and moves the cursor back by `k`.
pub proof fn lemma_run_left_ok(src: Seq<u8>, c: Cfg, k: int)
    requires
        c.status == Status::Running,
        0 <= c.ip,
        c.ip + k <= src.len(),
        0 <= k,
        forall|m: int| c.ip <= m < c.ip + k ==> #[trigger] src[m] == 60,
        k <= c.cur,
        c.cur < c.tape.len(),
    ensures
        steps(src, c, k as nat) == (Cfg { ip: c.ip + k, cur: c.cur - k, ..c }),
    decreases k,
{
    if k == 0 {
        assert(steps(src, c, 0) =~= (Cfg { ip: c.ip, cur: c.cur, ..c }));
    } else {
        let c1 = step(src, c);
        lemma_run_left_ok(src, c1, k - 1);
    }
}

/// A run of pointer-retreat characters that would pass the left edge takes
/// the machine to cell zero and then halts it with a bounds exit.
pub proof fn lemma_run_left_oob(src: Seq<u8>, c: Cfg, k: int)
    requires
        c.status == Status::Running,
        0 <= c.ip,
        c.ip + k <= src.len(),
        forall|m: int| c.ip <= m < c.ip + k ==> #[trigger] src[m] == 60,
        0 <= c.cur < c.tape.len(),
        k > c.cur,
    ensures
        steps(src, c, (c.cur + 1) as nat) == (Cfg {
            status: Status::Oob,
            ip: c.ip + c.cur,
            cur: 0,
            ..c
        }),
    decreases c.cur,
{
    if c.cur == 0 {
        assert(step(src, c) == (Cfg { status: Status::Oob, ..c }));
        assert(steps(src, c, 1) == steps(src, step(src, c), 0));
    } else {
        let c1 = step(src, c);
        assert(c1 == (Cfg { ip: c.ip + 1, cur: c.cur - 1, ..c }));
        lemma_run_left_oob(src, c1, k - 1);
        assert(steps(src, c, (c.cur + 1) as nat) == steps(src, c1, c.cur as nat));
    }
}

/// Comment characters are skipped one reference step apiece.
pub proof fn lemma_run_comments(src: Seq<u8>, c: Cfg, b_end: int)
    requires
        c.status == Status::Running,
        0 <= c.ip <= b_end <= src.len(),
        forall|m: int| c.ip <= m < b_end ==> !is_cmd(#[trigger] src[m]),
    ensures
        steps(src, c, (b_end - c.ip) as nat) == (Cfg { ip: b_end, ..c }),
    decreases b_end - c.ip,
{
    if c.ip == b_end {
        assert(steps(src, c, 0) =~= (Cfg { ip: b_end, ..c }));
    } else {
        let c1 = step(src, c);
        assert(!is_cmd(src[c.ip]));
        assert(c1 == (Cfg { ip: c.ip + 1, ..c }));
        lemma_run_comments(src, c1, b_end);
        assert(steps(src, c, (b_end - c.ip) as nat) == steps(src, c1, (b_end - c.ip - 1) as nat));
    }
}

/// Under balance, every loop-start has a matching loop-end. The search
/// walks right from `i`, where the depth is still strictly above the depth
/// at the loop-start.
proof fn lemma_find_match_fwd(s: Seq<u8>, p: int, i: int)
    requires
        0 <= p < i <= s.len(),
        s[p] == 91,
        depth(s, s.len() as int) <= depth(s, p),
        forall|m: int| p < m <= i ==> depth(s, m) > depth(s, p),
    ensures
        exists|q: int| is_match(s, p, q),
    decreases s.len() - i,
{
    if i == s.len() {
        assert(depth(s, i) > depth(s, p));
        assert(false);
    } else {
        if depth(s, i + 1) == depth(s, p) {
            assert(depth(s, i + 1) == depth(s, i) + bracket_delta(s[i]));
            assert(depth(s, i) > depth(s, p));
            assert(s[i] == 93);
            assert(is_match(s, p, i));
        } else {
            assert(depth(s, i + 1) >= depth(s, i) - 1 > depth(s, p) - 1);
            assert(depth(s, i + 1) > depth(s, p));
            lemma_find_match_fwd(s, p, i + 1);
        }
    }
}

/// In a balanced sequence every loop-start has a matching loop-end.
pub proof fn lemma_match_exists_fwd(s: Seq<u8>, p: int)
    requires
        balanced(s),
        0 <= p < s.len(),
        s[p] == 91,
    ensures
        exists|q: int| is_match(s, p, q),
{
    assert(depth(s, p + 1) == depth(s, p) + 1);
    lemma_find_match_fwd(s, p, p + 1);
}

/// Under balance, every loop-end has a matching loop-start. The search
/// walks left from `i`, where the depth is still strictly above the depth
/// right after the loop-end.
proof fn lemma_find_match_bwd(s: Seq<u8>, q: int, i: int)
    requires
        0 <= i < q < s.len(),
        s[q] == 93,
        depth(s, q + 1) >= 0,
        forall|j: int| 0 <= j <= s.len() ==> depth(s, j) >= 0,
        forall|m: int| i < m <= q ==> #[trigger] depth(s, m) > depth(s, q + 1),
    ensures
        exists|p: int| is_match(s, p, q),
    decreases i,
{
    if depth(s, i) == depth(s, q + 1) {
        assert(depth(s, i + 1) == depth(s, i) + bracket_delta(s[i]));
        assert(depth(s, i + 1) > depth(s, q + 1));
        assert(s[i] == 91);
        assert(is_match(s, i, q));
    } else {
        assert(depth(s, i) >= depth(s, i + 1) - 1);
        assert(depth(s, i + 1) > depth(s, q + 1));
        assert(depth(s, i) >= depth(s, q + 1));
        assert(depth(s, i) > depth(s, q + 1));
        assert(i > 0) by {
            if i == 0 {
                assert(depth(s, 0) == 0);
            }
        }
        lemma_find_match_bwd(s, q, i - 1);
    }
}

/// In a balanced sequence every loop-end has a matching loop-start.
pub proof fn lemma_match_exists_bwd(s: Seq<u8>, q: int)
    requires
        balanced(s),
        0 <= q < s.len(),
        s[q] == 93,
    ensures
        exists|p: int| is_match(s, p, q),
{
    assert(depth(s, q) == depth(s, q + 1) + 1);
    if q == 0 {
        assert(depth(s, 0) == 0);
        assert(false);
    }
    lemma_find_match_bwd(s, q, q - 1);
}

/// Op start positions are strictly increasing (up to one past the end).
pub proof fn lemma_pos_increasing(src: Seq<u8>, j: int, q: int)
    requires
        src.len() <= usize::MAX,
        0 <= j < q <= fused_ir(src).len(),
    ensures
        pos_of(src, j) < pos_of(src, q),
    decreases q - j,
{
    lemma_span_ok(src, 0);
    let ir = fused_ir(src);
    let st = op_starts(src, 0);
    assert(st[j] + op_count(ir[j]) <= span_end(src, st, j));
    assert(pos_of(src, j) < pos_of(src, j + 1));
    if j + 1 < q {
        lemma_pos_increasing(src, j + 1, q);
    }
}


/// The simulation relation: a fused configuration over the IR and a
/// reference configuration over the source describe the same execution
/// state. Tape, input mark, output and status always agree; while running,
/// the reference machine stands at the start of the fused machine's current
/// operation with the same cursor.
pub open spec fn rel(src: Seq<u8>, co: Cfg, cs: Cfg) -> bool {
    &&& cs.tape == co.tape
    &&& cs.inp == co.inp
    &&& cs.read == co.read
    &&& cs.out == co.out
    &&& cs.status == co.status
    &&& 0 <= co.ip <= fused_ir(src).len()
    &&& co.status == Status::Running ==> cs.ip == pos_of(src, co.ip) && cs.cur == co.cur && 0
        <= co.cur < co.tape.len()
}

/// A single reference step in iterated form.
proof fn lemma_steps_one(src: Seq<u8>, c: Cfg)
    ensures
        steps(src, c, 1) == step(src, c),
{
    assert(steps(src, c, 1) == steps(src, step(src, c), 0));
    assert(steps(src, step(src, c), 0) == step(src, c));
}

/// Simulation of one pointer run, either direction, with its bounds check.
#[verifier::rlimit(100)]
proof fn lemma_sim_step_moves(src: Seq<u8>, co: Cfg, cs: Cfg)
    requires
        src.len() <= usize::MAX,
        rel(src, co, cs),
        !halted_ops(fused_ir(src), co),
        fused_ir(src)[co.ip] is AdvancePointer || fused_ir(src)[co.ip] is RetreatPointer,
    ensures
        exists|dm: nat| rel(src, step_ops(fused_ir(src), co), #[trigger] steps(src, cs, dm)),
{
    let ir = fused_ir(src);
    let toks = toks_of(ir);
    let st = op_starts(src, 0);
    lemma_span_ok(src, 0);
    let j = co.ip;
    let op = ir[j];
    let p = st[j];
    let k = op_count(op);
    let nx = span_end(src, st, j);
    assert(pos_of(src, j) == p && pos_of(src, j + 1) == nx);
    assert(p + k <= nx <= src.len() && 1 <= k);
    assert(forall|m: int| p <= m < p + k ==> #[trigger] src[m] == op_char(op));
    assert(forall|m: int| p + k <= m < nx ==> !is_cmd(#[trigger] src[m]));
    let co2 = step_ops(ir, co);
    match op {
        FusedOp::AdvancePointer(kk) => {
            if co.cur + kk >= co.tape.len() {
                lemma_run_right_oob(src, cs, k);
                let dm = (cs.tape.len() - cs.cur) as nat;
                assert(co2 == (Cfg { status: Status::Oob, ..co }));
                assert(rel(src, co2, steps(src, cs, dm)));
            } else {
                lemma_run_right_ok(src, cs, k);
                let c1 = steps(src, cs, k as nat);
                lemma_run_comments(src, c1, nx);
                lemma_steps_add(src, cs, k as nat, (nx - p - k) as nat);
                let dm = (nx - p) as nat;
                assert(steps(src, cs, dm) == (Cfg { ip: nx, cur: cs.cur + k, ..cs }));
                assert(co2 == (Cfg { ip: j + 1, cur: co.cur + kk, ..co }));
                assert(rel(src, co2, steps(src, cs, dm)));
            }
        },
        FusedOp::RetreatPointer(kk) => {
            if kk > co.cur {
                lemma_run_left_oob(src, cs, k);
                let dm = (cs.cur + 1) as nat;
                assert(co2 == (Cfg { status: Status::Oob, ..co }));
                assert(rel(src, co2, steps(src, cs, dm)));
            } else {
                lemma_run_left_ok(src, cs, k);
                let c1 = steps(src, cs, k as nat);
                lemma_run_comments(src, c1, nx);
                lemma_steps_add(src, cs, k as nat, (nx - p - k) as nat);
                let dm = (nx - p) as nat;
                assert(steps(src, cs, dm) == (Cfg { ip: nx, cur: cs.cur - k, ..cs }));
                assert(co2 == (Cfg { ip: j + 1, cur: co.cur - kk, ..co }));
                assert(rel(src, co2, steps(src, cs, dm)));
            }
        },
        _ => {
            assert(false);
        },
    }
}

/// Simulation of one cell-arithmetic run.
#[verifier::rlimit(100)]
proof fn lemma_sim_step_cells(src: Seq<u8>, co: Cfg, cs: Cfg)
    requires
        src.len() <= usize::MAX,
        rel(src, co, cs),
        !halted_ops(fused_ir(src), co),
        fused_ir(src)[co.ip] is IncrementCell || fused_ir(src)[co.ip] is DecrementCell,
    ensures
        exists|dm: nat| rel(src, step_ops(fused_ir(src), co), #[trigger] steps(src, cs, dm)),
{
    let ir = fused_ir(src);
    let toks = toks_of(ir);
    let st = op_starts(src, 0);
    lemma_span_ok(src, 0);
    let j = co.ip;
    let op = ir[j];
    let p = st[j];
    let k = op_count(op);
    let nx = span_end(src, st, j);
    assert(pos_of(src, j) == p && pos_of(src, j + 1) == nx);
    assert(p + k <= nx <= src.len() && 1 <= k);
    assert(forall|m: int| p <= m < p + k ==> #[trigger] src[m] == op_char(op));
    assert(forall|m: int| p + k <= m < nx ==> !is_cmd(#[trigger] src[m]));
    let co2 = step_ops(ir, co);
    match op {
        FusedOp::IncrementCell(kk) => {
            lemma_run_cells(src, cs, k, 43);
            let c1 = steps(src, cs, k as nat);
            lemma_run_comments(src, c1, nx);
            lemma_steps_add(src, cs, k as nat, (nx - p - k) as nat);
            let dm = (nx - p) as nat;
            assert(co2 == (Cfg {
                ip: j + 1,
                tape: co.tape.update(co.cur, cell_add_n(co.tape[co.cur], kk as int)),
                ..co
            }));
            assert(rel(src, co2, steps(src, cs, dm)));
        },
        FusedOp::DecrementCell(kk) => {
            lemma_run_cells(src, cs, k, 45);
            let c1 = steps(src, cs, k as nat);
            lemma_run_comments(src, c1, nx);
            lemma_steps_add(src, cs, k as nat, (nx - p - k) as nat);
            let dm = (nx - p) as nat;
            assert(co2 == (Cfg {
                ip: j + 1,
                tape: co.tape.update(co.cur, cell_sub_n(co.tape[co.cur], kk as int)),
                ..co
            }));
            assert(rel(src, co2, steps(src, cs, dm)));
        },
        _ => {
            assert(false);
        },
    }
}

/// Simulation of one byte of output or input.
#[verifier::rlimit(100)]
proof fn lemma_sim_step_io(src: Seq<u8>, co: Cfg, cs: Cfg)
    requires
        src.len() <= usize::MAX,
        rel(src, co, cs),
        !halted_ops(fused_ir(src), co),
        fused_ir(src)[co.ip] is WriteByte || fused_ir(src)[co.ip] is ReadByte,
    ensures
        exists|dm: nat| rel(src, step_ops(fused_ir(src), co), #[trigger] steps(src, cs, dm)),
{
    let ir = fused_ir(src);
    let toks = toks_of(ir);
    let st = op_starts(src, 0);
    lemma_span_ok(src, 0);
    let j = co.ip;
    let op = ir[j];
    let p = st[j];
    let k = op_count(op);
    let nx = span_end(src, st, j);
    assert(pos_of(src, j) == p && pos_of(src, j + 1) == nx);
    assert(p + k <= nx <= src.len() && 1 <= k);
    assert(forall|m: int| p <= m < p + k ==> #[trigger] src[m] == op_char(op));
    assert(forall|m: int| p + k <= m < nx ==> !is_cmd(#[trigger] src[m]));
    let co2 = step_ops(ir, co);
    lemma_steps_one(src, cs);
    match op {
        FusedOp::WriteByte => {
            assert(src[p] == 46 && k == 1);
            let c1 = step(src, cs);
            assert(c1 == (Cfg { ip: p + 1, out: cs.out.push(cs.tape[cs.cur]), ..cs }));
            lemma_run_comments(src, c1, nx);
            lemma_steps_add(src, cs, 1, (nx - p - 1) as nat);
            let dm = (nx - p) as nat;
            assert(co2 == (Cfg { ip: j + 1, out: co.out.push(co.tape[co.cur]), ..co }));
            assert(rel(src, co2, steps(src, cs, dm)));
        },
        FusedOp::ReadByte => {
            assert(src[p] == 44 && k == 1);
            let c1 = step(src, cs);
            if co.read >= co.inp.len() {
                assert(c1 == (Cfg { status: Status::NoInput, ..cs }));
                assert(co2 == (Cfg { status: Status::NoInput, ..co }));
                assert(rel(src, co2, steps(src, cs, 1)));
            } else {
                assert(c1 == (Cfg {
                    ip: p + 1,
                    tape: cs.tape.update(cs.cur, cs.inp[cs.read]),
                    read: cs.read + 1,
                    ..cs
                }));
                lemma_run_comments(src, c1, nx);
                lemma_steps_add(src, cs, 1, (nx - p - 1) as nat);
                let dm = (nx - p) as nat;
                assert(co2 == (Cfg {
                    ip: j + 1,
                    tape: co.tape.update(co.cur, co.inp[co.read]),
                    read: co.read + 1,
                    ..co
                }));
                assert(rel(src, co2, steps(src, cs, dm)));
            }
        },
        _ => {
            assert(false);
        },
    }
}

/// Simulation of one loop bracket, jump or fall-through.
#[verifier::rlimit(100)]
proof fn lemma_sim_step_brackets(src: Seq<u8>, co: Cfg, cs: Cfg)
    requires
        src.len() <= usize::MAX,
        balanced(toks_of(fused_ir(src))),
        rel(src, co, cs),
        !halted_ops(fused_ir(src), co),
        fused_ir(src)[co.ip] is LoopStart || fused_ir(src)[co.ip] is LoopEnd,
    ensures
        exists|dm: nat| rel(src, step_ops(fused_ir(src), co), #[trigger] steps(src, cs, dm)),
{
    let ir = fused_ir(src);
    let toks = toks_of(ir);
    let st = op_starts(src, 0);
    lemma_span_ok(src, 0);
    let j = co.ip;
    let op = ir[j];
    let p = st[j];
    let k = op_count(op);
    let nx = span_end(src, st, j);
    assert(pos_of(src, j) == p && pos_of(src, j + 1) == nx);
    assert(p + k <= nx <= src.len() && 1 <= k);
    assert(forall|m: int| p <= m < p + k ==> #[trigger] src[m] == op_char(op));
    assert(forall|m: int| p + k <= m < nx ==> !is_cmd(#[trigger] src[m]));
    let co2 = step_ops(ir, co);
    lemma_steps_one(src, cs);
    match op {
        FusedOp::LoopStart => {
            assert(src[p] == 91 && k == 1);
            assert(toks[j] == 91);
            if co.tape[co.cur] == 0 {
                lemma_match_exists_fwd(toks, j);
                let qt = choose|q: int| is_match(toks, j, q);
                assert(is_match(toks, j, qt));
                assert(co2 == (Cfg { ip: qt, ..co }));
                lemma_match_transfer(src, j, qt);
                let c1 = step(src, cs);
                assert(is_match(src, p, pos_of(src, qt)));
                let qs = choose|q: int| is_match(src, p, q);
                assert(is_match(src, p, qs));
                crate::brackets::lemma_match_fwd_unique(src, p, qs, pos_of(src, qt));
                assert(c1 == (Cfg { ip: pos_of(src, qt), ..cs }));
                assert(rel(src, co2, steps(src, cs, 1)));
            } else {
                let c1 = step(src, cs);
                assert(c1 == (Cfg { ip: p + 1, ..cs }));
                lemma_run_comments(src, c1, nx);
                lemma_steps_add(src, cs, 1, (nx - p - 1) as nat);
                let dm = (nx - p) as nat;
                assert(co2 == (Cfg { ip: j + 1, ..co }));
                assert(rel(src, co2, steps(src, cs, dm)));
            }
        },
        FusedOp::LoopEnd => {
            assert(src[p] == 93 && k == 1);
            assert(toks[j] == 93);
            if co.tape[co.cur] != 0 {
                lemma_match_exists_bwd(toks, j);
                let pt = choose|pp: int| is_match(toks, pp, j);
                assert(is_match(toks, pt, j));
                assert(co2 == (Cfg { ip: pt, ..co }));
                lemma_match_transfer(src, pt, j);
                let c1 = step(src, cs);
                assert(is_match(src, pos_of(src, pt), p));
                let psrc = choose|pp: int| is_match(src, pp, p);
                assert(is_match(src, psrc, p));
                crate::brackets::lemma_match_bwd_unique(src, psrc, pos_of(src, pt), p);
                assert(c1 == (Cfg { ip: pos_of(src, pt), ..cs }));
                assert(rel(src, co2, steps(src, cs, 1)));
            } else {
                let c1 = step(src, cs);
                assert(c1 == (Cfg { ip: p + 1, ..cs }));
                lemma_run_comments(src, c1, nx);
                lemma_steps_add(src, cs, 1, (nx - p - 1) as nat);
                let dm = (nx - p) as nat;
                assert(co2 == (Cfg { ip: j + 1, ..co }));
                assert(rel(src, co2, steps(src, cs, dm)));
            }
        },
        _ => {
            assert(false);
        },
    }
}

/// One fused step is simulated by the span's worth of reference steps.
proof fn lemma_sim_step(src: Seq<u8>, co: Cfg, cs: Cfg)
    requires
        src.len() <= usize::MAX,
        balanced(toks_of(fused_ir(src))),
        rel(src, co, cs),
    ensures
        exists|dm: nat| rel(src, step_ops(fused_ir(src), co), #[trigger] steps(src, cs, dm)),
{
    let ir = fused_ir(src);
    if halted_ops(ir, co) {
        assert(step_ops(ir, co) == co);
        assert(steps(src, cs, 0) == cs);
        assert(rel(src, step_ops(ir, co), steps(src, cs, 0)));
    } else {
        match ir[co.ip] {
            FusedOp::AdvancePointer(_) => lemma_sim_step_moves(src, co, cs),
            FusedOp::RetreatPointer(_) => lemma_sim_step_moves(src, co, cs),
            FusedOp::IncrementCell(_) => lemma_sim_step_cells(src, co, cs),
            FusedOp::DecrementCell(_) => lemma_sim_step_cells(src, co, cs),
            FusedOp::WriteByte => lemma_sim_step_io(src, co, cs),
            FusedOp::ReadByte => lemma_sim_step_io(src, co, cs),
            FusedOp::LoopStart => lemma_sim_step_brackets(src, co, cs),
            FusedOp::LoopEnd => lemma_sim_step_brackets(src, co, cs),
        }
    }
}

/// The whole simulation: after any number of fused steps from the shared
/// starting configuration, some number of reference steps reaches a related
/// configuration.
proof fn lemma_sim(src: Seq<u8>, c0: Cfg, n: nat)
    requires
        src.len() <= usize::MAX,
        balanced(toks_of(fused_ir(src))),
        c0.status == Status::Running,
        c0.ip == 0,
        0 <= c0.cur < c0.tape.len(),
    ensures
        exists|m: nat|
            rel(src, steps_ops(fused_ir(src), c0, n), #[trigger] steps(src, c0, m)),
    decreases n,
{
    let ir = fused_ir(src);
    if n == 0 {
        lemma_span_ok(src, 0);
        let p0 = pos_of(src, 0);
        lemma_run_comments(src, c0, p0);
        assert(rel(src, c0, steps(src, c0, p0 as nat)));
        assert(steps_ops(ir, c0, 0) == c0);
    } else {
        lemma_sim(src, c0, (n - 1) as nat);
        let m1 = choose|m: nat|
            rel(src, steps_ops(ir, c0, (n - 1) as nat), #[trigger] steps(src, c0, m));
        lemma_sim_step(src, steps_ops(ir, c0, (n - 1) as nat), steps(src, c0, m1));
        let dm = choose|dm: nat|
            rel(
                src,
                step_ops(ir, steps_ops(ir, c0, (n - 1) as nat)),
                #[trigger] steps(src, steps(src, c0, m1), dm),
            );
        lemma_steps_add(src, c0, m1, dm);
        crate::opsem::lemma_steps_ops_snoc(ir, c0, (n - 1) as nat);
        assert(steps_ops(ir, c0, n) == step_ops(ir, steps_ops(ir, c0, (n - 1) as nat)));
        assert(rel(src, steps_ops(ir, c0, n), steps(src, c0, (m1 + dm) as nat)));
    }
}


/// Extracts the halting step count a completed fused-tier run promises.
proof fn harvest_ops_halt(
    ops: Seq<FusedOp>,
    tape0: Seq<u8>,
    cur0: int,
    inp: Seq<u8>,
    fuel: nat,
    r: Result<crate::interp::RunOutcome, crate::VmError>,
    tape_b: Seq<u8>,
    cur_b: int,
) -> (n: nat)
    requires
        crate::interp::run_post_ops(ops, tape0, cur0, inp, fuel, r, tape_b, cur_b),
        r is Ok,
    ensures
        halted_ops(ops, steps_ops(ops, init_cfg(tape0, cur0, inp), n)),
        crate::opsem::matches_exit_ops(
            ops,
            steps_ops(ops, init_cfg(tape0, cur0, inp), n),
            r->Ok_0.exit,
        ),
        steps_ops(ops, init_cfg(tape0, cur0, inp), n).out == r->Ok_0.output@,
        steps_ops(ops, init_cfg(tape0, cur0, inp), n).tape == tape_b,
        steps_ops(ops, init_cfg(tape0, cur0, inp), n).cur == cur_b,
        balanced(toks_of(ops)),
{
    let c0 = init_cfg(tape0, cur0, inp);
    let e = r->Ok_0.exit;
    let n = choose|n: nat|
        #![auto]
        n <= fuel && halted_ops(ops, steps_ops(ops, c0, n)) && crate::opsem::matches_exit_ops(
            ops,
            steps_ops(ops, c0, n),
            e,
        ) && steps_ops(ops, c0, n).out == r->Ok_0.output@ && steps_ops(ops, c0, n).tape == tape_b
            && steps_ops(ops, c0, n).cur == cur_b;
    n
}

/// Extracts the halting step count a completed reference-tier run promises.
proof fn harvest_src_halt(
    src: Seq<u8>,
    tape0: Seq<u8>,
    cur0: int,
    inp: Seq<u8>,
    fuel: nat,
    r: Result<crate::interp::RunOutcome, crate::VmError>,
    tape_a: Seq<u8>,
    cur_a: int,
) -> (n: nat)
    requires
        crate::interp::run_post(src, tape0, cur0, inp, fuel, r, tape_a, cur_a),
        r is Ok,
    ensures
        halted(src, steps(src, init_cfg(tape0, cur0, inp), n)),
        crate::machine::matches_exit(src, steps(src, init_cfg(tape0, cur0, inp), n), r->Ok_0.exit),
        steps(src, init_cfg(tape0, cur0, inp), n).out == r->Ok_0.output@,
        steps(src, init_cfg(tape0, cur0, inp), n).tape == tape_a,
        steps(src, init_cfg(tape0, cur0, inp), n).cur == cur_a,
{
    let c0 = init_cfg(tape0, cur0, inp);
    let e = r->Ok_0.exit;
    let n = choose|n: nat|
        #![auto]
        n <= fuel && halted(src, steps(src, c0, n)) && crate::machine::matches_exit(
            src,
            steps(src, c0, n),
            e,
        ) && steps(src, c0, n).out == r->Ok_0.output@ && steps(src, c0, n).tape == tape_a && steps(
            src,
            c0,
            n,
        ).cur == cur_a;
    n
}

/// The core of tier agreement, over harvested halting facts alone.
#[verifier::rlimit(100)]
proof fn lemma_agree_core(
    src: Seq<u8>,
    c0: Cfg,
    n1: nat,
    n3: nat,
    e1: crate::VmExit,
    e3: crate::VmExit,
)
    requires
        src.len() <= usize::MAX,
        balanced(toks_of(fused_ir(src))),
        c0.status == Status::Running,
        c0.ip == 0,
        c0.read == 0,
        0 <= c0.cur < c0.tape.len(),
        halted(src, steps(src, c0, n1)),
        crate::machine::matches_exit(src, steps(src, c0, n1), e1),
        halted_ops(fused_ir(src), steps_ops(fused_ir(src), c0, n3)),
        crate::opsem::matches_exit_ops(fused_ir(src), steps_ops(fused_ir(src), c0, n3), e3),
    ensures
        e1 == e3,
        steps(src, c0, n1).out == steps_ops(fused_ir(src), c0, n3).out,
        steps(src, c0, n1).tape == steps_ops(fused_ir(src), c0, n3).tape,
        e1 is Exit ==> steps(src, c0, n1).cur == steps_ops(fused_ir(src), c0, n3).cur,
{
    let ir = fused_ir(src);
    let co = steps_ops(ir, c0, n3);
    lemma_sim(src, c0, n3);
    let m = choose|m: nat| rel(src, steps_ops(ir, c0, n3), #[trigger] steps(src, c0, m));
    let cs = steps(src, c0, m);
    assert(rel(src, co, cs));
    assert(halted(src, cs)) by {
        if co.status == Status::Running {
            assert(co.ip >= ir.len());
            assert(cs.ip == pos_of(src, co.ip));
        }
    }
    lemma_halt_unique(src, c0, n1, m);
    assert(steps(src, c0, n1) == cs);
    match (e1, e3) {
        (crate::VmExit::Exit, crate::VmExit::Exit) => {
            assert(cs.status == Status::Running);
        },
        (crate::VmExit::PtrOob, crate::VmExit::PtrOob) => {},
        (crate::VmExit::Exit, crate::VmExit::PtrOob) => {
            assert(cs.status == Status::Running && co.status == Status::Oob);
            assert(false);
        },
        (crate::VmExit::PtrOob, crate::VmExit::Exit) => {
            assert(cs.status == Status::Oob && co.status == Status::Running);
            assert(false);
        },
    }
}

/// Tier equivalence across representations: a completed run of the naive or
/// precomputed-jump tier and a completed run of the fused tier, on the same
/// program, tape, cursor and input, report the same exit signal and the
/// same output stream and leave the same final tape; on a normal completion
/// they also agree on the final cursor. The two runs may use different step
/// budgets. (After a bounds exit the cursors may differ: a fused pointer
/// run refuses the whole move that the character-by-character tiers walk
/// partway into.)
#[verifier::rlimit(100)]
pub proof fn lemma_fused_tier_agrees(
    src: Seq<u8>,
    tape0: Seq<u8>,
    cur0: int,
    inp: Seq<u8>,
    fuel1: nat,
    fuel3: nat,
    r1: Result<crate::interp::RunOutcome, crate::VmError>,
    r3: Result<crate::interp::RunOutcome, crate::VmError>,
    tape_a: Seq<u8>,
    cur_a: int,
    tape_b: Seq<u8>,
    cur_b: int,
)
    requires
        src.len() <= usize::MAX,
        0 <= cur0 < tape0.len(),
        crate::interp::run_post(src, tape0, cur0, inp, fuel1, r1, tape_a, cur_a),
        crate::interp::run_post_ops(fused_ir(src), tape0, cur0, inp, fuel3, r3, tape_b, cur_b),
        r1 is Ok,
        r3 is Ok,
    ensures
        r1->Ok_0.exit == r3->Ok_0.exit,
        r1->Ok_0.output@ == r3->Ok_0.output@,
        tape_a == tape_b,
        r1->Ok_0.exit is Exit ==> cur_a == cur_b,
{
    let c0 = init_cfg(tape0, cur0, inp);
    let n1 = harvest_src_halt(src, tape0, cur0, inp, fuel1, r1, tape_a, cur_a);
    let n3 = harvest_ops_halt(fused_ir(src), tape0, cur0, inp, fuel3, r3, tape_b, cur_b);
    lemma_agree_core(src, c0, n1, n3, r1->Ok_0.exit, r3->Ok_0.exit);
}

} // verus!
