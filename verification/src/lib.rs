//! A verified execution engine for a minimal tape-based instruction language:
//! eight single-character opcodes move a cursor over a fixed byte tape,
//! mutate the cell under it, perform single-byte I/O, and loop.
//!
//! The crate offers three interchangeable interpreter tiers (a naive
//! scanning tier, a precomputed-jump tier, and a fused-IR tier), all proved
//! equivalent against one small-step semantics, together with the building
//! blocks of a JIT pipeline: a decoder/fuser, a loop resolver, a code
//! generator emitting abstract native-instruction requests, and a
//! translation cache over a bump-allocated arena.

use vstd::prelude::*;

pub mod ir;
pub mod brackets;
pub mod machine;
pub mod jitcache;
pub mod interp;
pub mod opsem;
pub mod codegen;
pub mod fusion;

verus! {

/// Reasons why a run of the virtual machine ended.
#[derive(Clone, Copy, PartialEq, Eq, Structural, Debug)]
pub enum VmExit {
    /// The cursor would have left the valid tape range.
    PtrOob,
    /// The program ran to completion.
    Exit,
}

/// Fatal conditions: none of these is an ordinary outcome of a run.
/// A bounds violation is not among them; it is reported as `VmExit::PtrOob`.
#[derive(Clone, Copy, PartialEq, Eq, Structural, Debug)]
pub enum VmError {
    /// A loop-start at this source or IR position has no matching loop-end.
    UnmatchedOpen(usize),
    /// A loop-end at this source or IR position has no matching loop-start.
    UnmatchedClose(usize),
    /// A read opcode found the input stream exhausted.
    InputExhausted,
    /// The step budget given to the run was used up before the program ended.
    StepLimit,
}

/// True of the ASCII characters treated as whitespace in guest source text.
pub open spec fn is_ws(b: u8) -> bool {
    b == 32 || b == 9 || b == 10 || b == 13 || b == 11 || b == 12
}

/// The sequence with all ASCII whitespace removed, in order.
pub open spec fn strip_ws(s: Seq<u8>) -> Seq<u8>
    decreases s.len(),
{
    if s.len() == 0 {
        Seq::empty()
    } else if is_ws(s.last()) {
        strip_ws(s.drop_last())
    } else {
        strip_ws(s.drop_last()).push(s.last())
    }
}

/// Remove all ASCII whitespace from guest source text.
pub fn remove_whitespace(s: &mut Vec<u8>)
    ensures
        final(s)@ == strip_ws(old(s)@),
{
    let mut out: Vec<u8> = Vec::new();
    let mut i: usize = 0;
    while i < s.len()
        invariant
            i <= s@.len(),
            out@ == strip_ws(s@.take(i as int)),
        decreases s@.len() - i,
    {
        let b = s[i];
        let keep = !(b == 32 || b == 9 || b == 10 || b == 13 || b == 11 || b == 12);
        if keep {
            out.push(b);
        }
        proof {
            assert(s@.take(i + 1).drop_last() =~= s@.take(i as int));
            assert(s@.take(i + 1).last() == s@[i as int]);
        }
        i = i + 1;
    }
    proof {
        assert(s@.take(s@.len() as int) =~= s@);
    }
    *s = out;
}

} // verus!
