//! The reference semantics of the guest language: a deterministic small-step
//! machine over raw source text. One configuration holds the instruction
//! pointer, the tape with its cursor, the input stream with a read mark, and
//! the output written so far. Every interpreter tier and the JIT path are
//! specified against this one machine, which is what makes them
//! interchangeable.

use vstd::prelude::*;
use crate::brackets::is_match;

verus! {

/// Whether a machine is running or why it stopped.
#[derive(PartialEq, Eq, Structural)]
pub ghost enum Status {
    /// The machine can take another step (unless the ip ran off the end).
    Running,
    /// The cursor would have left the tape; the run ends with a bounds exit.
    Oob,
    /// A read opcode found no input byte left; fatal to the run.
    NoInput,
}

/// One machine configuration.
#[verifier::ext_equal]
pub ghost struct Cfg {
    /// Position in the source text of the next opcode to execute.
    pub ip: int,
    /// The cursor: an index into the tape, kept inside `[0, tape.len())`.
    pub cur: int,
    /// The tape contents.
    pub tape: Seq<u8>,
    /// The whole input stream.
    pub inp: Seq<u8>,
    /// How many input bytes have been consumed.
    pub read: int,
    /// The output stream written so far.
    pub out: Seq<u8>,
    /// Running, or the reason the machine stopped.
    pub status: Status,
}

/// The machine takes no further step: it stopped, or the ip ran off the end
/// of the program (normal completion).
pub open spec fn halted(s: Seq<u8>, c: Cfg) -> bool {
    c.status != Status::Running || c.ip >= s.len()
}

/// A cell incremented by one, wrapping modulo 256.
pub open spec fn cell_inc(x: u8) -> u8 {
    if x == 255 {
        0
    } else {
        (x + 1) as u8
    }
}

/// A cell decremented by one, wrapping modulo 256.
pub open spec fn cell_dec(x: u8) -> u8 {
    if x == 0 {
        255
    } else {
        (x - 1) as u8
    }
}

/// The starting configuration for a run of `s` over the given tape, cursor
/// and input stream.
pub open spec fn init_cfg(tape: Seq<u8>, cur: int, inp: Seq<u8>) -> Cfg {
    Cfg {
        ip: 0,
        cur: cur,
        tape: tape,
        inp: inp,
        read: 0,
        out: Seq::empty(),
        status: Status::Running,
    }
}

/// One step of the machine. A halted configuration is absorbing. Bounds are
/// checked before the cursor moves; cell arithmetic wraps modulo 256; a
/// comment character is skipped; a loop-start whose cell is zero jumps onto
/// its matching loop-end, and a loop-end whose cell is nonzero jumps back
/// onto its matching loop-start.
pub open spec fn step(s: Seq<u8>, c: Cfg) -> Cfg {
    if halted(s, c) || c.ip < 0 {
        c
    } else {
        let b = s[c.ip];
        if b == 62 {
            if c.cur + 1 >= c.tape.len() {
                Cfg { status: Status::Oob, ..c }
            } else {
                Cfg { ip: c.ip + 1, cur: c.cur + 1, ..c }
            }
        } else if b == 60 {
            if c.cur == 0 {
                Cfg { status: Status::Oob, ..c }
            } else {
                Cfg { ip: c.ip + 1, cur: c.cur - 1, ..c }
            }
        } else if b == 43 {
            Cfg { ip: c.ip + 1, tape: c.tape.update(c.cur, cell_inc(c.tape[c.cur])), ..c }
        } else if b == 45 {
            Cfg { ip: c.ip + 1, tape: c.tape.update(c.cur, cell_dec(c.tape[c.cur])), ..c }
        } else if b == 46 {
            Cfg { ip: c.ip + 1, out: c.out.push(c.tape[c.cur]), ..c }
        } else if b == 44 {
            if c.read >= c.inp.len() {
                Cfg { status: Status::NoInput, ..c }
            } else {
                Cfg {
                    ip: c.ip + 1,
                    tape: c.tape.update(c.cur, c.inp[c.read]),
                    read: c.read + 1,
                    ..c
                }
            }
        } else if b == 91 {
            if c.tape[c.cur] == 0 {
                if exists|q: int| is_match(s, c.ip, q) {
                    Cfg { ip: choose|q: int| is_match(s, c.ip, q), ..c }
                } else {
                    c
                }
            } else {
                Cfg { ip: c.ip + 1, ..c }
            }
        } else if b == 93 {
            if c.tape[c.cur] != 0 {
                if exists|p: int| is_match(s, p, c.ip) {
                    Cfg { ip: choose|p: int| is_match(s, p, c.ip), ..c }
                } else {
                    c
                }
            } else {
                Cfg { ip: c.ip + 1, ..c }
            }
        } else {
            Cfg { ip: c.ip + 1, ..c }
        }
    }
}

/// The configuration after `n` steps.
pub open spec fn steps(s: Seq<u8>, c: Cfg, n: nat) -> Cfg
    decreases n,
{
    if n == 0 {
        c
    } else {
        steps(s, step(s, c), (n - 1) as nat)
    }
}

/// Iterating one more step applies `step` to the end of the iteration.
pub proof fn lemma_steps_snoc(s: Seq<u8>, c: Cfg, n: nat)
    ensures
        steps(s, c, n + 1) == step(s, steps(s, c, n)),
    decreases n,
{
    assert(steps(s, c, n + 1) == steps(s, step(s, c), n));
    if n > 0 {
        lemma_steps_snoc(s, step(s, c), (n - 1) as nat);
        assert(steps(s, c, n) == steps(s, step(s, c), (n - 1) as nat));
    }
}

/// Step iteration composes additively.
pub proof fn lemma_steps_add(s: Seq<u8>, c: Cfg, n: nat, m: nat)
    ensures
        steps(s, c, n + m) == steps(s, steps(s, c, n), m),
    decreases n,
{
    if n > 0 {
        lemma_steps_add(s, step(s, c), (n - 1) as nat, m);
    }
}

/// A halted configuration never changes again.
pub proof fn lemma_halted_absorbs(s: Seq<u8>, c: Cfg, n: nat)
    requires
        halted(s, c),
    ensures
        steps(s, c, n) == c,
    decreases n,
{
    if n > 0 {
        lemma_halted_absorbs(s, step(s, c), (n - 1) as nat);
    }
}

/// Determinism of outcomes: if the machine is halted after `n1` steps and
/// after `n2` steps, the two configurations are the same one. This is the
/// backbone of the tier-equivalence laws.
pub proof fn lemma_halt_unique(s: Seq<u8>, c: Cfg, n1: nat, n2: nat)
    requires
        halted(s, steps(s, c, n1)),
        halted(s, steps(s, c, n2)),
    ensures
        steps(s, c, n1) == steps(s, c, n2),
{
    if n1 <= n2 {
        lemma_steps_add(s, c, n1, (n2 - n1) as nat);
        lemma_halted_absorbs(s, steps(s, c, n1), (n2 - n1) as nat);
    } else {
        lemma_steps_add(s, c, n2, (n1 - n2) as nat);
        lemma_halted_absorbs(s, steps(s, c, n2), (n1 - n2) as nat);
    }
}

/// With a valid jump table, a step at a loop-start whose cell is zero jumps
/// exactly onto the table's entry.
pub proof fn lemma_step_open(s: Seq<u8>, jt: Seq<usize>, c: Cfg)
    requires
        crate::brackets::table_ok(s, jt),
        !halted(s, c),
        0 <= c.ip < s.len(),
        s[c.ip] == 91,
        c.tape[c.cur] == 0,
    ensures
        step(s, c) == (Cfg { ip: jt[c.ip] as int, ..c }),
{
    assert(is_match(s, c.ip, jt[c.ip] as int));
    let q = choose|q: int| is_match(s, c.ip, q);
    crate::brackets::lemma_match_fwd_unique(s, c.ip, q, jt[c.ip] as int);
}

/// With a valid jump table, a step at a loop-end whose cell is nonzero jumps
/// exactly onto the table's entry.
pub proof fn lemma_step_close(s: Seq<u8>, jt: Seq<usize>, c: Cfg)
    requires
        crate::brackets::table_ok(s, jt),
        !halted(s, c),
        0 <= c.ip < s.len(),
        s[c.ip] == 93,
        c.tape[c.cur] != 0,
    ensures
        step(s, c) == (Cfg { ip: jt[c.ip] as int, ..c }),
{
    assert(is_match(s, jt[c.ip] as int, c.ip));
    let p = choose|p: int| is_match(s, p, c.ip);
    crate::brackets::lemma_match_bwd_unique(s, p, jt[c.ip] as int, c.ip);
}

/// How a halted configuration is reported to the caller.
pub open spec fn matches_exit(s: Seq<u8>, c: Cfg, e: crate::VmExit) -> bool {
    match e {
        crate::VmExit::Exit => c.status == Status::Running && c.ip >= s.len(),
        crate::VmExit::PtrOob => c.status == Status::Oob,
    }
}

} // verus!
