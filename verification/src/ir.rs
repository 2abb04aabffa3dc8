//! Fused intermediate representation: guest source text is decoded into a
//! compact operation sequence, with consecutive identical pointer and cell
//! operations coalesced into run-length-counted ops.

use vstd::prelude::*;

verus! {

/// One fused IR operation. Run-length counts are always at least 1.
/// Loop brackets and I/O ops always have arity 1 and are never merged.
#[derive(Clone, Copy, PartialEq, Eq, Structural, Debug)]
pub enum FusedOp {
    /// Move the cursor forward by the count.
    AdvancePointer(usize),
    /// Move the cursor backward by the count.
    RetreatPointer(usize),
    /// Add the count to the cell under the cursor, wrapping modulo 256.
    IncrementCell(usize),
    /// Subtract the count from the cell under the cursor, wrapping modulo 256.
    DecrementCell(usize),
    /// Read one byte from the input stream into the cell under the cursor.
    ReadByte,
    /// Write the cell under the cursor to the output stream.
    WriteByte,
    /// Enter the loop if the cell under the cursor is nonzero.
    LoopStart,
    /// Return to the matching loop start.
    LoopEnd,
}

/// The eight recognized opcode characters. Anything else is a comment.
pub open spec fn is_cmd(b: u8) -> bool {
    b == 62 || b == 60 || b == 43 || b == 45 || b == 46 || b == 44 || b == 91 || b == 93
}

/// The four opcodes whose consecutive runs are fused.
pub open spec fn is_run_cmd(b: u8) -> bool {
    b == 62 || b == 60 || b == 43 || b == 45
}

/// The operation for a single occurrence of the opcode character `b`.
pub open spec fn unit_op(b: u8) -> FusedOp {
    if b == 62 {
        FusedOp::AdvancePointer(1)
    } else if b == 60 {
        FusedOp::RetreatPointer(1)
    } else if b == 43 {
        FusedOp::IncrementCell(1)
    } else if b == 45 {
        FusedOp::DecrementCell(1)
    } else if b == 46 {
        FusedOp::WriteByte
    } else if b == 44 {
        FusedOp::ReadByte
    } else if b == 91 {
        FusedOp::LoopStart
    } else {
        FusedOp::LoopEnd
    }
}

/// The run-length count of an operation (1 for unmergeable ops).
pub open spec fn op_count(op: FusedOp) -> int {
    match op {
        FusedOp::AdvancePointer(n) => n as int,
        FusedOp::RetreatPointer(n) => n as int,
        FusedOp::IncrementCell(n) => n as int,
        FusedOp::DecrementCell(n) => n as int,
        _ => 1,
    }
}

/// The same operation with its run-length count raised by one.
pub open spec fn op_bump(op: FusedOp) -> FusedOp {
    match op {
        FusedOp::AdvancePointer(n) => FusedOp::AdvancePointer((n + 1) as usize),
        FusedOp::RetreatPointer(n) => FusedOp::RetreatPointer((n + 1) as usize),
        FusedOp::IncrementCell(n) => FusedOp::IncrementCell((n + 1) as usize),
        FusedOp::DecrementCell(n) => FusedOp::DecrementCell((n + 1) as usize),
        _ => op,
    }
}

/// The fused IR of the source suffix starting at position `i`. A comment
/// character contributes nothing; a run opcode merges with an immediately
/// following identical character; everything else is a unit operation.
pub open spec fn decode_from(src: Seq<u8>, i: int) -> Seq<FusedOp>
    decreases src.len() - i when 0 <= i <= src.len()
{
    if i >= src.len() {
        Seq::empty()
    } else {
        let b = src[i];
        let rest = decode_from(src, i + 1);
        if !is_cmd(b) {
            rest
        } else if is_run_cmd(b) && i + 1 < src.len() && src[i + 1] == b {
            rest.update(0, op_bump(rest[0]))
        } else {
            seq![unit_op(b)] + rest
        }
    }
}

/// The fused IR of the whole source text.
pub open spec fn fused_ir(src: Seq<u8>) -> Seq<FusedOp> {
    decode_from(src, 0)
}

/// When position `i` holds an opcode, the decoded suffix is nonempty, its
/// head carries the kind of that opcode, and its count is the length of the
/// run starting at `i` (so counts never exceed the remaining source length).
pub proof fn lemma_decode_head(src: Seq<u8>, i: int)
    requires
        src.len() <= usize::MAX,
        0 <= i < src.len(),
        is_cmd(src[i]),
    ensures
        decode_from(src, i).len() >= 1,
        1 <= op_count(decode_from(src, i)[0]) <= src.len() - i,
        !(is_run_cmd(src[i]) && i + 1 < src.len() && src[i + 1] == src[i]) ==> decode_from(
            src,
            i,
        )[0] == unit_op(src[i]),
        (is_run_cmd(src[i]) && i + 1 < src.len() && src[i + 1] == src[i]) ==> decode_from(
            src,
            i,
        )[0] == op_bump(decode_from(src, i + 1)[0]) && op_count(decode_from(src, i)[0]) == op_count(
            decode_from(src, i + 1)[0],
        ) + 1,
    decreases src.len() - i,
{
    if is_run_cmd(src[i]) && i + 1 < src.len() && src[i + 1] == src[i] {
        lemma_decode_head(src, i + 1);
    }
}

/// Decoding never emits more operations than there are source characters.
pub proof fn lemma_decode_len(src: Seq<u8>, i: int)
    requires
        src.len() <= usize::MAX,
        0 <= i <= src.len(),
    ensures
        decode_from(src, i).len() <= src.len() - i,
    decreases src.len() - i,
{
    if i < src.len() {
        lemma_decode_len(src, i + 1);
        let b = src[i];
        let rest = decode_from(src, i + 1);
        if !is_cmd(b) {
        } else if is_run_cmd(b) && i + 1 < src.len() && src[i + 1] == b {
            lemma_decode_head(src, i + 1);
            assert(decode_from(src, i) == rest.update(0, op_bump(rest[0])));
            assert(decode_from(src, i).len() == rest.len());
        } else {
            assert(decode_from(src, i) == seq![unit_op(b)] + rest);
        }
    }
}

/// The unfused IR of the source suffix starting at `i`: every opcode
/// character becomes one unit operation, comments are skipped, nothing is
/// merged. This is what the unoptimized code-generation path consumes.
pub open spec fn unfused_from(src: Seq<u8>, i: int) -> Seq<FusedOp>
    decreases src.len() - i when 0 <= i <= src.len()
{
    if i >= src.len() {
        Seq::empty()
    } else if !is_cmd(src[i]) {
        unfused_from(src, i + 1)
    } else {
        seq![unit_op(src[i])] + unfused_from(src, i + 1)
    }
}

/// The unfused IR of the whole source text.
pub open spec fn unfused_ir(src: Seq<u8>) -> Seq<FusedOp> {
    unfused_from(src, 0)
}

/// Unfused decoding never emits more operations than source characters.
pub proof fn lemma_unfused_len(src: Seq<u8>, i: int)
    requires
        0 <= i <= src.len(),
    ensures
        unfused_from(src, i).len() <= src.len() - i,
    decreases src.len() - i,
{
    if i < src.len() {
        lemma_unfused_len(src, i + 1);
    }
}

/// Decode guest source text into unfused IR: one unit operation per opcode
/// character, comments skipped.
pub fn decode_unfused(src: &Vec<u8>) -> (ops: Vec<FusedOp>)
    ensures
        ops@ == unfused_ir(src@),
{
    let mut i: usize = src.len();
    let mut out: Vec<FusedOp> = Vec::new();
    while i > 0
        invariant
            i <= src.len(),
            out@ == unfused_from(src@, i as int),
        decreases i,
    {
        i = i - 1;
        let b = src[i];
        let cmd = b == 62 || b == 60 || b == 43 || b == 45 || b == 46 || b == 44 || b == 91 || b
            == 93;
        if cmd {
            let op = if b == 62 {
                FusedOp::AdvancePointer(1)
            } else if b == 60 {
                FusedOp::RetreatPointer(1)
            } else if b == 43 {
                FusedOp::IncrementCell(1)
            } else if b == 45 {
                FusedOp::DecrementCell(1)
            } else if b == 46 {
                FusedOp::WriteByte
            } else if b == 44 {
                FusedOp::ReadByte
            } else if b == 91 {
                FusedOp::LoopStart
            } else {
                FusedOp::LoopEnd
            };
            out.insert(0, op);
            proof {
                assert(out@ =~= seq![unit_op(b)] + unfused_from(src@, i + 1));
            }
        }
    }
    out
}

/// Decode guest source text into fused IR. Unrecognized characters are
/// skipped as comments; they are never an error and never emit an operation.
pub fn decode(src: &Vec<u8>) -> (ops: Vec<FusedOp>)
    ensures
        ops@ == fused_ir(src@),
{
    let mut i: usize = src.len();
    let mut out: Vec<FusedOp> = Vec::new();
    while i > 0
        invariant
            i <= src.len(),
            out@ == decode_from(src@, i as int),
        decreases i,
    {
        i = i - 1;
        let b = src[i];
        let cmd = b == 62 || b == 60 || b == 43 || b == 45 || b == 46 || b == 44 || b == 91 || b
            == 93;
        if cmd {
            let merges = (b == 62 || b == 60 || b == 43 || b == 45) && i + 1 < src.len() && src[i
                + 1] == b;
            if merges {
                proof {
                    lemma_decode_head(src@, i + 1);
                }
                let head = out[0];
                let bumped = match head {
                    FusedOp::AdvancePointer(n) => FusedOp::AdvancePointer(n + 1),
                    FusedOp::RetreatPointer(n) => FusedOp::RetreatPointer(n + 1),
                    FusedOp::IncrementCell(n) => FusedOp::IncrementCell(n + 1),
                    FusedOp::DecrementCell(n) => FusedOp::DecrementCell(n + 1),
                    _ => head,
                };
                out[0] = bumped;
            } else {
                let op = if b == 62 {
                    FusedOp::AdvancePointer(1)
                } else if b == 60 {
                    FusedOp::RetreatPointer(1)
                } else if b == 43 {
                    FusedOp::IncrementCell(1)
                } else if b == 45 {
                    FusedOp::DecrementCell(1)
                } else if b == 46 {
                    FusedOp::WriteByte
                } else if b == 44 {
                    FusedOp::ReadByte
                } else if b == 91 {
                    FusedOp::LoopStart
                } else {
                    FusedOp::LoopEnd
                };
                out.insert(0, op);
                proof {
                    assert(out@ =~= seq![unit_op(b)] + decode_from(src@, i + 1));
                }
            }
        }
    }
    out
}

} // verus!
