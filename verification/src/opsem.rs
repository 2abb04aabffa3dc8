//! The fused-IR semantics: the reference machine lifted to fused operations,
//! one step per operation. A run-length operation applies its whole count in
//! a single step — pointer moves check the bounds of the full move, and cell
//! arithmetic adds the count modulo 256 — which is exactly what the fused
//! interpreter tier and the generated native code do. Bracket matching is
//! inherited from the token-level machinery by re-encoding each operation as
//! a bracket token.

use vstd::prelude::*;
use crate::ir::FusedOp;
use crate::brackets::is_match;
use crate::machine::{Cfg, Status};
use vstd::arithmetic::div_mod::{
    lemma_small_mod, lemma_add_mod_noop, lemma_sub_mod_noop, lemma_mod_multiples_vanish,
};

verus! {

/// The bracket token of an operation: loop brackets keep their characters,
/// everything else is depth-neutral.
pub open spec fn op_token(op: FusedOp) -> u8 {
    match op {
        FusedOp::LoopStart => 91,
        FusedOp::LoopEnd => 93,
        _ => 0,
    }
}

/// The operation sequence re-encoded as bracket tokens, so the one loop
/// resolver and matching theory serve raw source and fused IR alike.
pub open spec fn toks_of(ops: Seq<FusedOp>) -> Seq<u8> {
    Seq::new(ops.len(), |i: int| op_token(ops[i]))
}

/// Re-encode fused operations as bracket tokens for the loop resolver.
pub fn op_tokens(ops: &Vec<FusedOp>) -> (toks: Vec<u8>)
    ensures
        toks@ == toks_of(ops@),
{
    let mut toks: Vec<u8> = Vec::new();
    let mut i: usize = 0;
    while i < ops.len()
        invariant
            i <= ops@.len(),
            toks@.len() == i,
            forall|j: int| 0 <= j < i ==> toks@[j] == op_token(ops@[j]),
        decreases ops@.len() - i,
    {
        let t: u8 = match ops[i] {
            FusedOp::LoopStart => 91,
            FusedOp::LoopEnd => 93,
            _ => 0,
        };
        toks.push(t);
        i = i + 1;
    }
    proof {
        assert(toks@ =~= toks_of(ops@));
    }
    toks
}

/// A cell with `k` added, modulo 256.
pub open spec fn cell_add_n(x: u8, k: int) -> u8 {
    ((x + k) % 256) as u8
}

/// A cell with `k` subtracted, modulo 256.
pub open spec fn cell_sub_n(x: u8, k: int) -> u8 {
    ((x - k) % 256) as u8
}

/// Adding a count modulo 256 equals one wrapping byte addition of the
/// count's low byte: applying a fused increment in one step agrees with the
/// sequential single-increment semantics folded `k` times.
pub proof fn lemma_cell_add_wrap(x: u8, k: int)
    requires
        k >= 0,
    ensures
        cell_add_n(x, k) == vstd::wrapping::u8_specs::wrapping_add(x, ((k % 256) as u8)),
{
    let kk = k % 256;
    lemma_add_mod_noop(x as int, k, 256);
    lemma_small_mod(x as nat, 256);
    lemma_add_mod_noop(x as int, kk, 256);
    lemma_small_mod((kk % 256) as nat, 256);
    if x + kk > 255 {
        lemma_mod_multiples_vanish(1, x + kk - 256, 256);
        lemma_small_mod((x + kk - 256) as nat, 256);
    } else {
        lemma_small_mod((x + kk) as nat, 256);
    }
}

/// Subtracting a count modulo 256 equals one wrapping byte subtraction of
/// the count's low byte.
pub proof fn lemma_cell_sub_wrap(x: u8, k: int)
    requires
        k >= 0,
    ensures
        cell_sub_n(x, k) == vstd::wrapping::u8_specs::wrapping_sub(x, ((k % 256) as u8)),
{
    let kk = k % 256;
    lemma_sub_mod_noop(x as int, k, 256);
    lemma_small_mod(x as nat, 256);
    lemma_sub_mod_noop(x as int, kk, 256);
    lemma_small_mod((kk % 256) as nat, 256);
    if x - kk < 0 {
        lemma_mod_multiples_vanish(1, x - kk, 256);
        lemma_small_mod((x - kk + 256) as nat, 256);
    } else {
        lemma_small_mod((x - kk) as nat, 256);
    }
}

/// The fused machine takes no further step.
pub open spec fn halted_ops(ops: Seq<FusedOp>, c: Cfg) -> bool {
    c.status != Status::Running || c.ip >= ops.len()
}

/// One step of the fused machine: a whole fused operation at once.
pub open spec fn step_ops(ops: Seq<FusedOp>, c: Cfg) -> Cfg {
    if halted_ops(ops, c) || c.ip < 0 {
        c
    } else {
        match ops[c.ip] {
            FusedOp::AdvancePointer(k) => {
                if c.cur + k >= c.tape.len() {
                    Cfg { status: Status::Oob, ..c }
                } else {
                    Cfg { ip: c.ip + 1, cur: c.cur + k, ..c }
                }
            },
            FusedOp::RetreatPointer(k) => {
                if k > c.cur {
                    Cfg { status: Status::Oob, ..c }
                } else {
                    Cfg { ip: c.ip + 1, cur: c.cur - k, ..c }
                }
            },
            FusedOp::IncrementCell(k) => Cfg {
                ip: c.ip + 1,
                tape: c.tape.update(c.cur, cell_add_n(c.tape[c.cur], k as int)),
                ..c
            },
            FusedOp::DecrementCell(k) => Cfg {
                ip: c.ip + 1,
                tape: c.tape.update(c.cur, cell_sub_n(c.tape[c.cur], k as int)),
                ..c
            },
            FusedOp::WriteByte => Cfg { ip: c.ip + 1, out: c.out.push(c.tape[c.cur]), ..c },
            FusedOp::ReadByte => {
                if c.read >= c.inp.len() {
                    Cfg { status: Status::NoInput, ..c }
                } else {
                    Cfg {
                        ip: c.ip + 1,
                        tape: c.tape.update(c.cur, c.inp[c.read]),
                        read: c.read + 1,
                        ..c
                    }
                }
            },
            FusedOp::LoopStart => {
                if c.tape[c.cur] == 0 {
                    if exists|q: int| is_match(toks_of(ops), c.ip, q) {
                        Cfg { ip: choose|q: int| is_match(toks_of(ops), c.ip, q), ..c }
                    } else {
                        c
                    }
                } else {
                    Cfg { ip: c.ip + 1, ..c }
                }
            },
            FusedOp::LoopEnd => {
                if c.tape[c.cur] != 0 {
                    if exists|p: int| is_match(toks_of(ops), p, c.ip) {
                        Cfg { ip: choose|p: int| is_match(toks_of(ops), p, c.ip), ..c }
                    } else {
                        c
                    }
                } else {
                    Cfg { ip: c.ip + 1, ..c }
                }
            },
        }
    }
}

/// The fused machine after `n` steps.
pub open spec fn steps_ops(ops: Seq<FusedOp>, c: Cfg, n: nat) -> Cfg
    decreases n,
{
    if n == 0 {
        c
    } else {
        steps_ops(ops, step_ops(ops, c), (n - 1) as nat)
    }
}

/// Iterating one more fused step applies `step_ops` at the end.
pub proof fn lemma_steps_ops_snoc(ops: Seq<FusedOp>, c: Cfg, n: nat)
    ensures
        steps_ops(ops, c, n + 1) == step_ops(ops, steps_ops(ops, c, n)),
    decreases n,
{
    assert(steps_ops(ops, c, n + 1) == steps_ops(ops, step_ops(ops, c), n));
    if n > 0 {
        lemma_steps_ops_snoc(ops, step_ops(ops, c), (n - 1) as nat);
        assert(steps_ops(ops, c, n) == steps_ops(ops, step_ops(ops, c), (n - 1) as nat));
    }
}

/// Fused step iteration composes additively.
pub proof fn lemma_steps_ops_add(ops: Seq<FusedOp>, c: Cfg, n: nat, m: nat)
    ensures
        steps_ops(ops, c, n + m) == steps_ops(ops, steps_ops(ops, c, n), m),
    decreases n,
{
    if n > 0 {
        lemma_steps_ops_add(ops, step_ops(ops, c), (n - 1) as nat, m);
    }
}

/// A halted fused configuration never changes again.
pub proof fn lemma_halted_ops_absorbs(ops: Seq<FusedOp>, c: Cfg, n: nat)
    requires
        halted_ops(ops, c),
    ensures
        steps_ops(ops, c, n) == c,
    decreases n,
{
    if n > 0 {
        lemma_halted_ops_absorbs(ops, step_ops(ops, c), (n - 1) as nat);
    }
}

/// Determinism of fused outcomes: a halt reached after `n1` steps and one
/// reached after `n2` steps are the same configuration.
pub proof fn lemma_halt_ops_unique(ops: Seq<FusedOp>, c: Cfg, n1: nat, n2: nat)
    requires
        halted_ops(ops, steps_ops(ops, c, n1)),
        halted_ops(ops, steps_ops(ops, c, n2)),
    ensures
        steps_ops(ops, c, n1) == steps_ops(ops, c, n2),
{
    if n1 <= n2 {
        lemma_steps_ops_add(ops, c, n1, (n2 - n1) as nat);
        lemma_halted_ops_absorbs(ops, steps_ops(ops, c, n1), (n2 - n1) as nat);
    } else {
        lemma_steps_ops_add(ops, c, n2, (n1 - n2) as nat);
        lemma_halted_ops_absorbs(ops, steps_ops(ops, c, n2), (n1 - n2) as nat);
    }
}

/// With a valid jump table over the op tokens, a fused step at a loop-start
/// whose cell is zero jumps exactly onto the table's entry.
pub proof fn lemma_step_ops_open(ops: Seq<FusedOp>, jt: Seq<usize>, c: Cfg)
    requires
        crate::brackets::table_ok(toks_of(ops), jt),
        !halted_ops(ops, c),
        0 <= c.ip < ops.len(),
        ops[c.ip] is LoopStart,
        c.tape[c.cur] == 0,
    ensures
        step_ops(ops, c) == (Cfg { ip: jt[c.ip] as int, ..c }),
{
    assert(toks_of(ops)[c.ip] == 91);
    assert(is_match(toks_of(ops), c.ip, jt[c.ip] as int));
    let q = choose|q: int| is_match(toks_of(ops), c.ip, q);
    crate::brackets::lemma_match_fwd_unique(toks_of(ops), c.ip, q, jt[c.ip] as int);
}

/// With a valid jump table over the op tokens, a fused step at a loop-end
/// whose cell is nonzero jumps exactly onto the table's entry.
pub proof fn lemma_step_ops_close(ops: Seq<FusedOp>, jt: Seq<usize>, c: Cfg)
    requires
        crate::brackets::table_ok(toks_of(ops), jt),
        !halted_ops(ops, c),
        0 <= c.ip < ops.len(),
        ops[c.ip] is LoopEnd,
        c.tape[c.cur] != 0,
    ensures
        step_ops(ops, c) == (Cfg { ip: jt[c.ip] as int, ..c }),
{
    assert(toks_of(ops)[c.ip] == 93);
    assert(is_match(toks_of(ops), jt[c.ip] as int, c.ip));
    let p = choose|p: int| is_match(toks_of(ops), p, c.ip);
    crate::brackets::lemma_match_bwd_unique(toks_of(ops), p, jt[c.ip] as int, c.ip);
}

/// How a halted fused configuration is reported to the caller.
pub open spec fn matches_exit_ops(ops: Seq<FusedOp>, c: Cfg, e: crate::VmExit) -> bool {
    match e {
        crate::VmExit::Exit => c.status == Status::Running && c.ip >= ops.len(),
        crate::VmExit::PtrOob => c.status == Status::Oob,
    }
}

} // verus!
