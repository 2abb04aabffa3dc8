//! The tiered interpreter. Three tiers execute guest programs against a tape
//! memory context and are proved against the same reference machine, so they
//! are interchangeable:
//!
//!  - the naive tier scans raw source and finds matching brackets by
//!    nesting-depth scans at run time;
//!  - the precomputed-jump tier resolves the jump table once and takes O(1)
//!    jumps;
//!  - the fused tier runs over run-length-fused IR.
//!
//! Every tier validates brackets first and reports an unmatched bracket
//! before executing anything. I/O is modeled as an input byte sequence and a
//! returned output byte sequence; the step budget `fuel` bounds the number
//! of reference-machine steps a call may simulate (the machine itself has no
//! such bound; the budget is what makes each call provably terminating).

use vstd::prelude::*;
use crate::{VmExit, VmError};
use crate::brackets::{balanced, table_ok, resolve, depth, still_open, is_match};
use crate::machine::{
    Cfg, Status, init_cfg, steps, halted, matches_exit, lemma_steps_snoc, lemma_step_open,
    lemma_step_close, lemma_halt_unique,
};
use crate::ir::{FusedOp, fused_ir};
use crate::opsem::{
    toks_of, op_tokens, steps_ops, halted_ops, matches_exit_ops, lemma_steps_ops_snoc,
    lemma_step_ops_open, lemma_step_ops_close, lemma_halt_ops_unique, lemma_cell_add_wrap,
    lemma_cell_sub_wrap,
};

verus! {

/// What a completed run reports: the exit signal and the output stream.
#[derive(Debug)]
pub struct RunOutcome {
    /// Normal completion or a bounds violation.
    pub exit: VmExit,
    /// Every byte the program wrote, in order.
    pub output: Vec<u8>,
}

/// The one contract all interpreter tiers meet, stated over the reference
/// machine started at `init_cfg(tape0, cur0, inp)`:
///  - `Ok` is returned exactly for runs that halt within `fuel` machine
///    steps, and reports that halt's exit signal, output, tape and cursor;
///  - `StepLimit` is returned when the machine is still running after
///    `fuel` steps;
///  - `InputExhausted` is returned when the machine stops on an empty input
///    stream within the budget;
///  - an unmatched bracket is reported exactly for unbalanced programs,
///    before any execution, with the tape and cursor untouched.
pub open spec fn run_post(
    s: Seq<u8>,
    tape0: Seq<u8>,
    cur0: int,
    inp: Seq<u8>,
    fuel: nat,
    r: Result<RunOutcome, VmError>,
    tape1: Seq<u8>,
    cur1: int,
) -> bool {
    let c0 = init_cfg(tape0, cur0, inp);
    match r {
        Ok(oc) => {
            &&& balanced(s)
            &&& exists|n: nat|
                #![auto]
                n <= fuel && halted(s, steps(s, c0, n)) && matches_exit(s, steps(s, c0, n), oc.exit)
                    && steps(s, c0, n).out == oc.output@ && steps(s, c0, n).tape == tape1 && steps(
                    s,
                    c0,
                    n,
                ).cur == cur1
        },
        Err(VmError::StepLimit) => {
            &&& balanced(s)
            &&& !halted(s, steps(s, c0, fuel))
            &&& steps(s, c0, fuel).tape == tape1
            &&& steps(s, c0, fuel).cur == cur1
        },
        Err(VmError::InputExhausted) => {
            &&& balanced(s)
            &&& exists|n: nat|
                #![auto]
                n <= fuel && steps(s, c0, n).status == Status::NoInput && steps(s, c0, n).tape
                    == tape1 && steps(s, c0, n).cur == cur1
        },
        Err(VmError::UnmatchedOpen(p)) => {
            &&& !balanced(s)
            &&& 0 <= p < s.len() && s[p as int] == 91 && still_open(s, p as int, s.len() as int)
            &&& tape1 == tape0 && cur1 == cur0
        },
        Err(VmError::UnmatchedClose(q)) => {
            &&& !balanced(s)
            &&& 0 <= q < s.len() && s[q as int] == 93 && depth(s, q + 1) == -1
            &&& tape1 == tape0 && cur1 == cur0
        },
    }
}

/// Tier equivalence: two completed runs of the same program over the same
/// tape, cursor and input — whichever tiers produced them, with whatever
/// step budgets — report the same exit signal, the same output stream, and
/// leave the same final tape and cursor. This holds because each tier's
/// contract names the same deterministic machine, whose halt is unique.
pub proof fn lemma_tiers_agree(
    s: Seq<u8>,
    tape0: Seq<u8>,
    cur0: int,
    inp: Seq<u8>,
    fuel1: nat,
    fuel2: nat,
    r1: Result<RunOutcome, VmError>,
    r2: Result<RunOutcome, VmError>,
    tape_a: Seq<u8>,
    cur_a: int,
    tape_b: Seq<u8>,
    cur_b: int,
)
    requires
        run_post(s, tape0, cur0, inp, fuel1, r1, tape_a, cur_a),
        run_post(s, tape0, cur0, inp, fuel2, r2, tape_b, cur_b),
        r1 is Ok,
        r2 is Ok,
    ensures
        r1->Ok_0.exit == r2->Ok_0.exit,
        r1->Ok_0.output@ == r2->Ok_0.output@,
        tape_a == tape_b,
        cur_a == cur_b,
{
    let c0 = init_cfg(tape0, cur0, inp);
    let n1 = choose|n: nat|
        #![auto]
        n <= fuel1 && halted(s, steps(s, c0, n)) && matches_exit(s, steps(s, c0, n), r1->Ok_0.exit)
            && steps(s, c0, n).out == r1->Ok_0.output@ && steps(s, c0, n).tape == tape_a && steps(
            s,
            c0,
            n,
        ).cur == cur_a;
    let n2 = choose|n: nat|
        #![auto]
        n <= fuel2 && halted(s, steps(s, c0, n)) && matches_exit(s, steps(s, c0, n), r2->Ok_0.exit)
            && steps(s, c0, n).out == r2->Ok_0.output@ && steps(s, c0, n).tape == tape_b && steps(
            s,
            c0,
            n,
        ).cur == cur_b;
    lemma_halt_unique(s, c0, n1, n2);
    match (r1->Ok_0.exit, r2->Ok_0.exit) {
        (VmExit::Exit, VmExit::Exit) => {},
        (VmExit::PtrOob, VmExit::PtrOob) => {},
        _ => {
            assert(false);
        },
    }
}

/// Supplies the witness step count for the `Ok` case of `run_post`.
pub proof fn lemma_run_post_ok_witness(
    s: Seq<u8>,
    c0: Cfg,
    fuel: nat,
    n: nat,
    e: VmExit,
    outv: Seq<u8>,
    tape1: Seq<u8>,
    cur1: int,
)
    requires
        n <= fuel,
        halted(s, steps(s, c0, n)),
        matches_exit(s, steps(s, c0, n), e),
        steps(s, c0, n).out == outv,
        steps(s, c0, n).tape == tape1,
        steps(s, c0, n).cur == cur1,
    ensures
        exists|m: nat|
            #![auto]
            m <= fuel && halted(s, steps(s, c0, m)) && matches_exit(s, steps(s, c0, m), e) && steps(
                s,
                c0,
                m,
            ).out == outv && steps(s, c0, m).tape == tape1 && steps(s, c0, m).cur == cur1,
{
    assert(n <= fuel && halted(s, steps(s, c0, n)) && matches_exit(s, steps(s, c0, n), e) && steps(
        s,
        c0,
        n,
    ).out == outv && steps(s, c0, n).tape == tape1 && steps(s, c0, n).cur == cur1);
}

/// Supplies the witness step count for the exhausted-input case of
/// `run_post`.
pub proof fn lemma_run_post_noinput_witness(
    s: Seq<u8>,
    c0: Cfg,
    fuel: nat,
    n: nat,
    tape1: Seq<u8>,
    cur1: int,
)
    requires
        n <= fuel,
        steps(s, c0, n).status == Status::NoInput,
        steps(s, c0, n).tape == tape1,
        steps(s, c0, n).cur == cur1,
    ensures
        exists|m: nat|
            #![auto]
            m <= fuel && steps(s, c0, m).status == Status::NoInput && steps(s, c0, m).tape == tape1
                && steps(s, c0, m).cur == cur1,
{
    assert(n <= fuel && steps(s, c0, n).status == Status::NoInput && steps(s, c0, n).tape == tape1
        && steps(s, c0, n).cur == cur1);
}

/// A tape memory context: a fixed byte buffer, a cursor into it, and
/// optionally a JIT translation cache for the native execution path.
pub struct Emu {
    /// The tape.
    pub memory: Vec<u8>,
    /// The cursor; always inside `[0, memory.len())`.
    pub ptr: usize,
    /// The translation cache, when the JIT path is enabled.
    pub jit_cache: Option<crate::jitcache::JitCache>,
}

impl Emu {
    /// The cursor stays on the tape.
    pub open spec fn wf(&self) -> bool {
        self.ptr < self.memory.len()
    }

    /// A fresh context: an all-zero tape of `size` bytes, the cursor at the
    /// left edge, and no JIT cache.
    pub fn new(size: usize) -> (e: Emu)
        requires
            size >= 1,
        ensures
            e.wf(),
            e.memory@.len() == size,
            forall|i: int| 0 <= i < size ==> e.memory@[i] == 0,
            e.ptr == 0,
            e.jit_cache is None,
    {
        Emu { memory: vec![0u8; size], ptr: 0, jit_cache: None }
    }

    /// Enable the JIT path by attaching a translation cache.
    pub fn enable_jit(self, jit_cache: crate::jitcache::JitCache) -> (e: Emu)
        ensures
            e.memory == self.memory,
            e.ptr == self.ptr,
            e.jit_cache == Some(jit_cache),
    {
        Emu { memory: self.memory, ptr: self.ptr, jit_cache: Some(jit_cache) }
    }

    /// The naive tier: execute raw source character by character. Brackets
    /// are paired at run time by nesting-depth scans — forward past a loop
    /// whose cell is zero, backward to the loop-start whose cell is nonzero
    /// — instead of consulting a precomputed table. Bracket balance is still
    /// validated up front, so a malformed program is rejected before any
    /// instruction executes.
    pub fn run_vm(&mut self, instructions: &Vec<u8>, input: &Vec<u8>, fuel: u64) -> (r: Result<
        RunOutcome,
        VmError,
    >)
        requires
            old(self).wf(),
        ensures
            final(self).wf(),
            final(self).jit_cache == old(self).jit_cache,
            run_post(
                instructions@,
                old(self).memory@,
                old(self).ptr as int,
                input@,
                fuel as nat,
                r,
                final(self).memory@,
                final(self).ptr as int,
            ),
    {
        let ghost s = instructions@;
        let ghost c0 = init_cfg(old(self).memory@, old(self).ptr as int, input@);
        // Validation pass only: the naive tier never reads this table while
        // executing; it is the ghost witness that every bracket scan below
        // finds its partner.
        let jt = match resolve(instructions) {
            Ok(jt) => jt,
            Err(e) => {
                return Err(e);
            },
        };
        let n = instructions.len();
        let mut out: Vec<u8> = Vec::new();
        let mut read: usize = 0;
        let mut idx: usize = 0;
        let mut left: u64 = fuel;
        while idx < n
            invariant
                self.wf(),
                self.jit_cache == old(self).jit_cache,
                n == s.len(),
                instructions@ == s,
                c0 == init_cfg(old(self).memory@, old(self).ptr as int, input@),
                balanced(s),
                table_ok(s, jt@),
                jt@.len() == n,
                idx <= n,
                left <= fuel,
                read <= input@.len(),
                steps(s, c0, (fuel - left) as nat) == (Cfg {
                    ip: idx as int,
                    cur: self.ptr as int,
                    tape: self.memory@,
                    inp: input@,
                    read: read as int,
                    out: out@,
                    status: Status::Running,
                }),
            decreases left,
        {
            let ghost consumed = (fuel - left) as nat;
            let ghost c = steps(s, c0, consumed);
            if left == 0 {
                return Err(VmError::StepLimit);
            }
            left = left - 1;
            proof {
                lemma_steps_snoc(s, c0, consumed);
            }
            let b = instructions[idx];
            if b == 62 {
                if self.ptr + 1 >= self.memory.len() {
                    proof {
                        lemma_run_post_ok_witness(
                            s,
                            c0,
                            fuel as nat,
                            consumed + 1,
                            VmExit::PtrOob,
                            out@,
                            self.memory@,
                            self.ptr as int,
                        );
                    }
                    return Ok(RunOutcome { exit: VmExit::PtrOob, output: out });
                }
                self.ptr = self.ptr + 1;
                idx = idx + 1;
            } else if b == 60 {
                if self.ptr == 0 {
                    proof {
                        lemma_run_post_ok_witness(
                            s,
                            c0,
                            fuel as nat,
                            consumed + 1,
                            VmExit::PtrOob,
                            out@,
                            self.memory@,
                            self.ptr as int,
                        );
                    }
                    return Ok(RunOutcome { exit: VmExit::PtrOob, output: out });
                }
                self.ptr = self.ptr - 1;
                idx = idx + 1;
            } else if b == 43 {
                let v = self.memory[self.ptr];
                self.memory[self.ptr] = if v == 255 {
                    0
                } else {
                    v + 1
                };
                idx = idx + 1;
            } else if b == 45 {
                let v = self.memory[self.ptr];
                self.memory[self.ptr] = if v == 0 {
                    255
                } else {
                    v - 1
                };
                idx = idx + 1;
            } else if b == 46 {
                out.push(self.memory[self.ptr]);
                idx = idx + 1;
            } else if b == 44 {
                if read >= input.len() {
                    proof {
                        lemma_run_post_noinput_witness(
                            s,
                            c0,
                            fuel as nat,
                            consumed + 1,
                            self.memory@,
                            self.ptr as int,
                        );
                    }
                    return Err(VmError::InputExhausted);
                }
                self.memory[self.ptr] = input[read];
                read = read + 1;
                idx = idx + 1;
            } else if b == 91 {
                if self.memory[self.ptr] == 0 {
                    // The machine crosses the loop in two steps (onto the
                    // loop-end, then past it); the scan below retraces them.
                    let ghost p0 = idx as int;
                    let ghost q0 = jt@[p0] as int;
                    proof {
                        lemma_step_open(s, jt@, c);
                    }
                    let ghost c1 = steps(s, c0, consumed + 1);
                    proof {
                        assert(is_match(s, p0, q0));
                        assert(c1 == (Cfg { ip: q0, ..c }));
                    }
                    if left == 0 {
                        return Err(VmError::StepLimit);
                    }
                    left = left - 1;
                    proof {
                        lemma_steps_snoc(s, c0, consumed + 1);
                        assert(is_match(s, p0, q0));
                        assert(s[q0] == 93);
                        assert(steps(s, c0, consumed + 2) == (Cfg { ip: q0 + 1, ..c }));
                    }
                    // Forward scan: skip to just past the matching loop-end,
                    // tracking the nesting depth of loop-starts passed.
                    let mut d: usize = 1;
                    let mut j: usize = idx + 1;
                    while d > 0
                        invariant
                            n == s.len(),
                            instructions@ == s,
                            is_match(s, p0, q0),
                            p0 < j <= q0 + 1,
                            q0 < n,
                            d as int == depth(s, j as int) - depth(s, p0),
                        decreases q0 + 1 - j,
                    {
                        proof {
                            assert(depth(s, q0 + 1) == depth(s, p0));
                            assert(j <= q0);
                            crate::brackets::lemma_depth_lipschitz(s, p0, j as int);
                        }
                        let b2 = instructions[j];
                        if b2 == 91 {
                            d = d + 1;
                        } else if b2 == 93 {
                            d = d - 1;
                        }
                        j = j + 1;
                    }
                    proof {
                        if j <= q0 {
                            assert(depth(s, j as int) > depth(s, p0));
                            assert(false);
                        }
                    }
                    idx = j;
                } else {
                    idx = idx + 1;
                }
            } else if b == 93 {
                if self.memory[self.ptr] != 0 {
                    proof {
                        lemma_step_close(s, jt@, c);
                    }
                    let ghost q0 = idx as int;
                    let ghost p0 = jt@[q0] as int;
                    proof {
                        assert(is_match(s, p0, q0));
                        assert(depth(s, q0) == depth(s, p0) + 1);
                    }
                    // Backward scan: return to the matching loop-start,
                    // tracking the nesting depth of loop-ends passed.
                    let mut d: usize = 0;
                    let mut j: usize = idx - 1;
                    while !(instructions[j] == 91 && d == 0)
                        invariant
                            n == s.len(),
                            instructions@ == s,
                            is_match(s, p0, q0),
                            p0 <= j < q0,
                            q0 < n,
                            d as int == depth(s, j + 1) - depth(s, q0),
                        decreases j,
                    {
                        proof {
                            assert(depth(s, p0 + 1) == depth(s, p0) + 1);
                            if j == p0 {
                                assert(s[j as int] == 91 && d == 0);
                                assert(false);
                            }
                            crate::brackets::lemma_depth_lipschitz(s, j + 1, q0);
                            assert(p0 < j + 1 <= q0);
                            assert(depth(s, j + 1) > depth(s, p0));
                        }
                        let b2 = instructions[j];
                        if b2 == 93 {
                            d = d + 1;
                        } else if b2 == 91 {
                            d = d - 1;
                        }
                        j = j - 1;
                    }
                    proof {
                        if j != p0 {
                            assert(p0 < j < q0);
                            assert(depth(s, j as int) > depth(s, p0));
                            assert(depth(s, j + 1) == depth(s, q0));
                            assert(depth(s, j + 1) == depth(s, j as int) + 1);
                            assert(depth(s, j as int) == depth(s, p0));
                            assert(false);
                        }
                    }
                    idx = j;
                } else {
                    idx = idx + 1;
                }
            } else {
                idx = idx + 1;
            }
        }
        proof {
            lemma_run_post_ok_witness(
                s,
                c0,
                fuel as nat,
                (fuel - left) as nat,
                VmExit::Exit,
                out@,
                self.memory@,
                self.ptr as int,
            );
        }
        Ok(RunOutcome { exit: VmExit::Exit, output: out })
    }

    /// The precomputed-jump tier: resolve the loop jump table once, then
    /// execute raw source with O(1) bracket jumps. Each loop iteration is
    /// exactly one reference-machine step.
    pub fn run_vm2(&mut self, instructions: &Vec<u8>, input: &Vec<u8>, fuel: u64) -> (r: Result<
        RunOutcome,
        VmError,
    >)
        requires
            old(self).wf(),
        ensures
            final(self).wf(),
            final(self).jit_cache == old(self).jit_cache,
            run_post(
                instructions@,
                old(self).memory@,
                old(self).ptr as int,
                input@,
                fuel as nat,
                r,
                final(self).memory@,
                final(self).ptr as int,
            ),
    {
        let ghost s = instructions@;
        let ghost c0 = init_cfg(old(self).memory@, old(self).ptr as int, input@);
        let jt = match resolve(instructions) {
            Ok(jt) => jt,
            Err(e) => {
                return Err(e);
            },
        };
        let n = instructions.len();
        let mut out: Vec<u8> = Vec::new();
        let mut read: usize = 0;
        let mut idx: usize = 0;
        let mut left: u64 = fuel;
        while idx < n
            invariant
                self.wf(),
                self.jit_cache == old(self).jit_cache,
                n == s.len(),
                instructions@ == s,
                c0 == init_cfg(old(self).memory@, old(self).ptr as int, input@),
                balanced(s),
                table_ok(s, jt@),
                jt@.len() == n,
                idx <= n,
                left <= fuel,
                read <= input@.len(),
                steps(s, c0, (fuel - left) as nat) == (Cfg {
                    ip: idx as int,
                    cur: self.ptr as int,
                    tape: self.memory@,
                    inp: input@,
                    read: read as int,
                    out: out@,
                    status: Status::Running,
                }),
            decreases left, n - idx,
        {
            let ghost consumed = (fuel - left) as nat;
            let ghost c = steps(s, c0, consumed);
            if left == 0 {
                return Err(VmError::StepLimit);
            }
            left = left - 1;
            proof {
                lemma_steps_snoc(s, c0, consumed);
            }
            let b = instructions[idx];
            if b == 62 {
                if self.ptr + 1 >= self.memory.len() {
                    proof {
                        lemma_run_post_ok_witness(
                            s,
                            c0,
                            fuel as nat,
                            consumed + 1,
                            VmExit::PtrOob,
                            out@,
                            self.memory@,
                            self.ptr as int,
                        );
                    }
                    return Ok(RunOutcome { exit: VmExit::PtrOob, output: out });
                }
                self.ptr = self.ptr + 1;
                idx = idx + 1;
            } else if b == 60 {
                if self.ptr == 0 {
                    proof {
                        lemma_run_post_ok_witness(
                            s,
                            c0,
                            fuel as nat,
                            consumed + 1,
                            VmExit::PtrOob,
                            out@,
                            self.memory@,
                            self.ptr as int,
                        );
                    }
                    return Ok(RunOutcome { exit: VmExit::PtrOob, output: out });
                }
                self.ptr = self.ptr - 1;
                idx = idx + 1;
            } else if b == 43 {
                let v = self.memory[self.ptr];
                self.memory[self.ptr] = if v == 255 {
                    0
                } else {
                    v + 1
                };
                idx = idx + 1;
            } else if b == 45 {
                let v = self.memory[self.ptr];
                self.memory[self.ptr] = if v == 0 {
                    255
                } else {
                    v - 1
                };
                idx = idx + 1;
            } else if b == 46 {
                out.push(self.memory[self.ptr]);
                idx = idx + 1;
            } else if b == 44 {
                if read >= input.len() {
                    proof {
                        lemma_run_post_noinput_witness(
                            s,
                            c0,
                            fuel as nat,
                            consumed + 1,
                            self.memory@,
                            self.ptr as int,
                        );
                    }
                    return Err(VmError::InputExhausted);
                }
                self.memory[self.ptr] = input[read];
                read = read + 1;
                idx = idx + 1;
            } else if b == 91 {
                if self.memory[self.ptr] == 0 {
                    proof {
                        lemma_step_open(s, jt@, c);
                    }
                    idx = jt[idx];
                } else {
                    idx = idx + 1;
                }
            } else if b == 93 {
                if self.memory[self.ptr] != 0 {
                    proof {
                        lemma_step_close(s, jt@, c);
                    }
                    idx = jt[idx];
                } else {
                    idx = idx + 1;
                }
            } else {
                idx = idx + 1;
            }
        }
        proof {
            lemma_run_post_ok_witness(
                s,
                c0,
                fuel as nat,
                (fuel - left) as nat,
                VmExit::Exit,
                out@,
                self.memory@,
                self.ptr as int,
            );
        }
        Ok(RunOutcome { exit: VmExit::Exit, output: out })
    }

    /// The fused tier: decode the source into run-length-fused IR, resolve
    /// the loop jump table over it, and execute one fused operation per
    /// step — a whole run of pointer or cell updates at once, with the
    /// bounds of the full move checked first and cell arithmetic wrapping
    /// modulo 256.
    pub fn run_vm3(&mut self, instructions: &Vec<u8>, input: &Vec<u8>, fuel: u64) -> (r: Result<
        RunOutcome,
        VmError,
    >)
        requires
            old(self).wf(),
        ensures
            final(self).wf(),
            final(self).jit_cache == old(self).jit_cache,
            run_post_ops(
                fused_ir(instructions@),
                old(self).memory@,
                old(self).ptr as int,
                input@,
                fuel as nat,
                r,
                final(self).memory@,
                final(self).ptr as int,
            ),
    {
        let ops = crate::ir::decode(instructions);
        let toks = op_tokens(&ops);
        let ghost og = ops@;
        let ghost c0 = init_cfg(old(self).memory@, old(self).ptr as int, input@);
        let jt = match resolve(&toks) {
            Ok(jt) => jt,
            Err(e) => {
                return Err(e);
            },
        };
        let n = ops.len();
        let mut out: Vec<u8> = Vec::new();
        let mut read: usize = 0;
        let mut j: usize = 0;
        let mut left: u64 = fuel;
        while j < n
            invariant
                self.wf(),
                self.jit_cache == old(self).jit_cache,
                og == fused_ir(instructions@),
                ops@ == og,
                toks@ == toks_of(og),
                n == og.len(),
                c0 == init_cfg(old(self).memory@, old(self).ptr as int, input@),
                balanced(toks_of(og)),
                table_ok(toks_of(og), jt@),
                jt@.len() == n,
                j <= n,
                left <= fuel,
                read <= input@.len(),
                steps_ops(og, c0, (fuel - left) as nat) == (Cfg {
                    ip: j as int,
                    cur: self.ptr as int,
                    tape: self.memory@,
                    inp: input@,
                    read: read as int,
                    out: out@,
                    status: Status::Running,
                }),
            decreases left,
        {
            let ghost consumed = (fuel - left) as nat;
            let ghost c = steps_ops(og, c0, consumed);
            if left == 0 {
                return Err(VmError::StepLimit);
            }
            left = left - 1;
            proof {
                lemma_steps_ops_snoc(og, c0, consumed);
            }
            let op = ops[j];
            match op {
                FusedOp::AdvancePointer(k) => {
                    if k >= self.memory.len() - self.ptr {
                        proof {
                            lemma_run_post_ops_ok_witness(
                                og,
                                c0,
                                fuel as nat,
                                consumed + 1,
                                VmExit::PtrOob,
                                out@,
                                self.memory@,
                                self.ptr as int,
                            );
                        }
                        return Ok(RunOutcome { exit: VmExit::PtrOob, output: out });
                    }
                    self.ptr = self.ptr + k;
                    j = j + 1;
                },
                FusedOp::RetreatPointer(k) => {
                    if k > self.ptr {
                        proof {
                            lemma_run_post_ops_ok_witness(
                                og,
                                c0,
                                fuel as nat,
                                consumed + 1,
                                VmExit::PtrOob,
                                out@,
                                self.memory@,
                                self.ptr as int,
                            );
                        }
                        return Ok(RunOutcome { exit: VmExit::PtrOob, output: out });
                    }
                    self.ptr = self.ptr - k;
                    j = j + 1;
                },
                FusedOp::IncrementCell(k) => {
                    let v = self.memory[self.ptr];
                    proof {
                        lemma_cell_add_wrap(v, k as int);
                    }
                    self.memory[self.ptr] = v.wrapping_add((k % 256) as u8);
                    j = j + 1;
                },
                FusedOp::DecrementCell(k) => {
                    let v = self.memory[self.ptr];
                    proof {
                        lemma_cell_sub_wrap(v, k as int);
                    }
                    self.memory[self.ptr] = v.wrapping_sub((k % 256) as u8);
                    j = j + 1;
                },
                FusedOp::WriteByte => {
                    out.push(self.memory[self.ptr]);
                    j = j + 1;
                },
                FusedOp::ReadByte => {
                    if read >= input.len() {
                        proof {
                            lemma_run_post_ops_noinput_witness(
                                og,
                                c0,
                                fuel as nat,
                                consumed + 1,
                                self.memory@,
                                self.ptr as int,
                            );
                        }
                        return Err(VmError::InputExhausted);
                    }
                    self.memory[self.ptr] = input[read];
                    read = read + 1;
                    j = j + 1;
                },
                FusedOp::LoopStart => {
                    if self.memory[self.ptr] == 0 {
                        proof {
                            lemma_step_ops_open(og, jt@, c);
                        }
                        j = jt[j];
                    } else {
                        j = j + 1;
                    }
                },
                FusedOp::LoopEnd => {
                    if self.memory[self.ptr] != 0 {
                        proof {
                            lemma_step_ops_close(og, jt@, c);
                        }
                        j = jt[j];
                    } else {
                        j = j + 1;
                    }
                },
            }
        }
        proof {
            lemma_run_post_ops_ok_witness(
                og,
                c0,
                fuel as nat,
                (fuel - left) as nat,
                VmExit::Exit,
                out@,
                self.memory@,
                self.ptr as int,
            );
        }
        Ok(RunOutcome { exit: VmExit::Exit, output: out })
    }
}

/// What one call of the execution dispatcher decided.
pub enum Dispatch {
    /// No JIT cache is attached: the program was interpreted by the fused
    /// tier, with this outcome.
    Interpreted(RunOutcome),
    /// A JIT cache is attached: the caller must obtain native code for the
    /// program — looking the entry address up in the cache, compiling and
    /// inserting on a miss — and transfer control to it. The control
    /// transfer into generated code is the one step of the dispatch the
    /// library cannot perform itself.
    TranslateAndRun,
}

impl Emu {
    /// The execution dispatcher: on the JIT path, hand the run to the
    /// caller-driven translate-and-transfer sequence; otherwise interpret
    /// with the fused tier. A run never falls back from the JIT path to
    /// interpretation.
    pub fn run(&mut self, instructions: &Vec<u8>, input: &Vec<u8>, fuel: u64) -> (r: Result<
        Dispatch,
        VmError,
    >)
        requires
            old(self).wf(),
        ensures
            final(self).wf(),
            final(self).jit_cache == old(self).jit_cache,
            old(self).jit_cache is Some ==> r == Ok::<Dispatch, VmError>(Dispatch::TranslateAndRun)
                && final(self).memory == old(self).memory && final(self).ptr == old(self).ptr,
            old(self).jit_cache is None ==> match r {
                Ok(d) => d matches Dispatch::Interpreted(oc) && run_post_ops(
                    fused_ir(instructions@),
                    old(self).memory@,
                    old(self).ptr as int,
                    input@,
                    fuel as nat,
                    Ok(oc),
                    final(self).memory@,
                    final(self).ptr as int,
                ),
                Err(e) => run_post_ops(
                    fused_ir(instructions@),
                    old(self).memory@,
                    old(self).ptr as int,
                    input@,
                    fuel as nat,
                    Err(e),
                    final(self).memory@,
                    final(self).ptr as int,
                ),
            },
    {
        if self.jit_cache.is_some() {
            return Ok(Dispatch::TranslateAndRun);
        }
        match self.run_vm3(instructions, input, fuel) {
            Ok(oc) => Ok(Dispatch::Interpreted(oc)),
            Err(e) => Err(e),
        }
    }
}

/// The contract of the fused tier, stated over the fused machine run on the
/// IR decoded from the source; the clauses mirror `run_post` clause for
/// clause, with bracket errors reported at IR positions.
pub open spec fn run_post_ops(
    ops: Seq<FusedOp>,
    tape0: Seq<u8>,
    cur0: int,
    inp: Seq<u8>,
    fuel: nat,
    r: Result<RunOutcome, VmError>,
    tape1: Seq<u8>,
    cur1: int,
) -> bool {
    let c0 = init_cfg(tape0, cur0, inp);
    let toks = toks_of(ops);
    match r {
        Ok(oc) => {
            &&& balanced(toks)
            &&& exists|n: nat|
                #![auto]
                n <= fuel && halted_ops(ops, steps_ops(ops, c0, n)) && matches_exit_ops(
                    ops,
                    steps_ops(ops, c0, n),
                    oc.exit,
                ) && steps_ops(ops, c0, n).out == oc.output@ && steps_ops(ops, c0, n).tape == tape1
                    && steps_ops(ops, c0, n).cur == cur1
        },
        Err(VmError::StepLimit) => {
            &&& balanced(toks)
            &&& !halted_ops(ops, steps_ops(ops, c0, fuel))
            &&& steps_ops(ops, c0, fuel).tape == tape1
            &&& steps_ops(ops, c0, fuel).cur == cur1
        },
        Err(VmError::InputExhausted) => {
            &&& balanced(toks)
            &&& exists|n: nat|
                #![auto]
                n <= fuel && steps_ops(ops, c0, n).status == Status::NoInput && steps_ops(
                    ops,
                    c0,
                    n,
                ).tape == tape1 && steps_ops(ops, c0, n).cur == cur1
        },
        Err(VmError::UnmatchedOpen(p)) => {
            &&& !balanced(toks)
            &&& 0 <= p < toks.len() && toks[p as int] == 91 && still_open(
                toks,
                p as int,
                toks.len() as int,
            )
            &&& tape1 == tape0 && cur1 == cur0
        },
        Err(VmError::UnmatchedClose(q)) => {
            &&& !balanced(toks)
            &&& 0 <= q < toks.len() && toks[q as int] == 93 && depth(toks, q + 1) == -1
            &&& tape1 == tape0 && cur1 == cur0
        },
    }
}

/// Determinism of the fused tier: two completed fused runs of the same
/// source over the same tape, cursor and input agree on the exit signal,
/// the output stream, and the final tape and cursor.
pub proof fn lemma_fused_runs_agree(
    src: Seq<u8>,
    tape0: Seq<u8>,
    cur0: int,
    inp: Seq<u8>,
    fuel1: nat,
    fuel2: nat,
    r1: Result<RunOutcome, VmError>,
    r2: Result<RunOutcome, VmError>,
    tape_a: Seq<u8>,
    cur_a: int,
    tape_b: Seq<u8>,
    cur_b: int,
)
    requires
        run_post_ops(fused_ir(src), tape0, cur0, inp, fuel1, r1, tape_a, cur_a),
        run_post_ops(fused_ir(src), tape0, cur0, inp, fuel2, r2, tape_b, cur_b),
        r1 is Ok,
        r2 is Ok,
    ensures
        r1->Ok_0.exit == r2->Ok_0.exit,
        r1->Ok_0.output@ == r2->Ok_0.output@,
        tape_a == tape_b,
        cur_a == cur_b,
{
    let ops = fused_ir(src);
    let c0 = init_cfg(tape0, cur0, inp);
    let n1 = choose|n: nat|
        #![auto]
        n <= fuel1 && halted_ops(ops, steps_ops(ops, c0, n)) && matches_exit_ops(
            ops,
            steps_ops(ops, c0, n),
            r1->Ok_0.exit,
        ) && steps_ops(ops, c0, n).out == r1->Ok_0.output@ && steps_ops(ops, c0, n).tape == tape_a
            && steps_ops(ops, c0, n).cur == cur_a;
    let n2 = choose|n: nat|
        #![auto]
        n <= fuel2 && halted_ops(ops, steps_ops(ops, c0, n)) && matches_exit_ops(
            ops,
            steps_ops(ops, c0, n),
            r2->Ok_0.exit,
        ) && steps_ops(ops, c0, n).out == r2->Ok_0.output@ && steps_ops(ops, c0, n).tape == tape_b
            && steps_ops(ops, c0, n).cur == cur_b;
    lemma_halt_ops_unique(ops, c0, n1, n2);
    match (r1->Ok_0.exit, r2->Ok_0.exit) {
        (VmExit::Exit, VmExit::Exit) => {},
        (VmExit::PtrOob, VmExit::PtrOob) => {},
        _ => {
            assert(false);
        },
    }
}

/// Supplies the witness step count for the `Ok` case of `run_post_ops`.
pub proof fn lemma_run_post_ops_ok_witness(
    ops: Seq<FusedOp>,
    c0: Cfg,
    fuel: nat,
    n: nat,
    e: VmExit,
    outv: Seq<u8>,
    tape1: Seq<u8>,
    cur1: int,
)
    requires
        n <= fuel,
        halted_ops(ops, steps_ops(ops, c0, n)),
        matches_exit_ops(ops, steps_ops(ops, c0, n), e),
        steps_ops(ops, c0, n).out == outv,
        steps_ops(ops, c0, n).tape == tape1,
        steps_ops(ops, c0, n).cur == cur1,
    ensures
        exists|m: nat|
            #![auto]
            m <= fuel && halted_ops(ops, steps_ops(ops, c0, m)) && matches_exit_ops(
                ops,
                steps_ops(ops, c0, m),
                e,
            ) && steps_ops(ops, c0, m).out == outv && steps_ops(ops, c0, m).tape == tape1
                && steps_ops(ops, c0, m).cur == cur1,
{
    assert(n <= fuel && halted_ops(ops, steps_ops(ops, c0, n)) && matches_exit_ops(
        ops,
        steps_ops(ops, c0, n),
        e,
    ) && steps_ops(ops, c0, n).out == outv && steps_ops(ops, c0, n).tape == tape1 && steps_ops(
        ops,
        c0,
        n,
    ).cur == cur1);
}

/// Supplies the witness step count for the exhausted-input case of
/// `run_post_ops`.
pub proof fn lemma_run_post_ops_noinput_witness(
    ops: Seq<FusedOp>,
    c0: Cfg,
    fuel: nat,
    n: nat,
    tape1: Seq<u8>,
    cur1: int,
)
    requires
        n <= fuel,
        steps_ops(ops, c0, n).status == Status::NoInput,
        steps_ops(ops, c0, n).tape == tape1,
        steps_ops(ops, c0, n).cur == cur1,
    ensures
        exists|m: nat|
            #![auto]
            m <= fuel && steps_ops(ops, c0, m).status == Status::NoInput && steps_ops(
                ops,
                c0,
                m,
            ).tape == tape1 && steps_ops(ops, c0, m).cur == cur1,
{
    assert(n <= fuel && steps_ops(ops, c0, n).status == Status::NoInput && steps_ops(
        ops,
        c0,
        n,
    ).tape == tape1 && steps_ops(ops, c0, n).cur == cur1);
}

} // verus!
