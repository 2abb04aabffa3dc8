//! The code generator: lowers fused IR into an ordered sequence of abstract
//! native-instruction requests realizing the same semantics as the fused
//! interpreter tier, for an external assembler backend to encode.
//!
//! The lowering contract is the fixed calling convention shared with the
//! execution dispatcher: one designated register holds the current tape
//! cursor as an absolute address for the whole block, pointer runs become
//! register adds and subtracts, cell runs become one-byte memory arithmetic
//! with the count folded into the immediate, I/O ops become direct one-byte
//! system-call sequences addressing through the cursor register, and the
//! sequence always ends with a return to the caller. Loop brackets compile
//! to label, zero-test and jump requests whose label identifiers are
//! allocated in strict stack order, so nested loops never collide.

use vstd::prelude::*;
use crate::VmError;
use crate::ir::{FusedOp, fused_ir, unfused_ir, lemma_decode_len, lemma_unfused_len};
use crate::brackets::{balanced, depth, still_open, resolve, is_match};
use crate::opsem::{toks_of, op_tokens};
use crate::interp::Emu;

verus! {

/// One abstract native-instruction request for the assembler backend.
/// The cursor register is implicit: it holds the absolute address of the
/// current tape cell throughout the block.
#[derive(Clone, Copy, PartialEq, Eq, Structural, Debug)]
pub enum NativeOp {
    /// Add the count to the cursor register.
    AddPtr(usize),
    /// Subtract the count from the cursor register.
    SubPtr(usize),
    /// Add the immediate to the one-byte cell the cursor register points at.
    AddCell(u8),
    /// Subtract the immediate from that one-byte cell.
    SubCell(u8),
    /// Write the cell at the cursor register to standard output, one byte,
    /// by direct system call.
    WriteCall,
    /// Read one byte from standard input into the cell at the cursor
    /// register, by direct system call.
    ReadCall,
    /// Define a local label with this identifier.
    Label(u64),
    /// Test the cell at the cursor register and jump to the label if zero.
    JumpIfZero(u64),
    /// Jump unconditionally to the label.
    Jump(u64),
    /// Return to the caller.
    Ret,
}

/// The lowering of the IR suffix from `j`, with the next free label
/// identifier and the stacks of loop-start and after-loop labels still open.
/// Each loop-start takes two fresh identifiers (its own label, then the
/// after-loop label its zero-test jumps to); each loop-end jumps back to the
/// innermost open loop-start label and defines the matching after-loop
/// label. The sequence always ends with a return request.
pub open spec fn gen_from(
    ops: Seq<FusedOp>,
    j: int,
    labels: u64,
    bstack: Seq<u64>,
    fstack: Seq<u64>,
) -> Seq<NativeOp>
    decreases ops.len() - j when 0 <= j <= ops.len()
{
    if j >= ops.len() {
        seq![NativeOp::Ret]
    } else {
        match ops[j] {
            FusedOp::AdvancePointer(k) => seq![NativeOp::AddPtr(k)] + gen_from(
                ops,
                j + 1,
                labels,
                bstack,
                fstack,
            ),
            FusedOp::RetreatPointer(k) => seq![NativeOp::SubPtr(k)] + gen_from(
                ops,
                j + 1,
                labels,
                bstack,
                fstack,
            ),
            FusedOp::IncrementCell(k) => seq![NativeOp::AddCell((k % 256) as u8)] + gen_from(
                ops,
                j + 1,
                labels,
                bstack,
                fstack,
            ),
            FusedOp::DecrementCell(k) => seq![NativeOp::SubCell((k % 256) as u8)] + gen_from(
                ops,
                j + 1,
                labels,
                bstack,
                fstack,
            ),
            FusedOp::WriteByte => seq![NativeOp::WriteCall] + gen_from(
                ops,
                j + 1,
                labels,
                bstack,
                fstack,
            ),
            FusedOp::ReadByte => seq![NativeOp::ReadCall] + gen_from(
                ops,
                j + 1,
                labels,
                bstack,
                fstack,
            ),
            FusedOp::LoopStart => seq![
                NativeOp::Label(labels),
                NativeOp::JumpIfZero((labels + 1) as u64),
            ] + gen_from(
                ops,
                j + 1,
                (labels + 2) as u64,
                bstack.push(labels),
                fstack.push((labels + 1) as u64),
            ),
            FusedOp::LoopEnd => seq![
                NativeOp::Jump(bstack.last()),
                NativeOp::Label(fstack.last()),
            ] + gen_from(ops, j + 1, labels, bstack.drop_last(), fstack.drop_last()),
        }
    }
}

/// The full lowering of an IR sequence.
pub open spec fn codegen_spec(ops: Seq<FusedOp>) -> Seq<NativeOp> {
    gen_from(ops, 0, 0, Seq::empty(), Seq::empty())
}

/// The generated sequence is never empty and always ends with a
/// return-to-caller request.
pub proof fn lemma_gen_ends_with_ret(
    ops: Seq<FusedOp>,
    j: int,
    labels: u64,
    bstack: Seq<u64>,
    fstack: Seq<u64>,
)
    requires
        0 <= j <= ops.len(),
    ensures
        gen_from(ops, j, labels, bstack, fstack).len() >= 1,
        gen_from(ops, j, labels, bstack, fstack).last() == NativeOp::Ret,
    decreases ops.len() - j,
{
    if j < ops.len() {
        match ops[j] {
            FusedOp::AdvancePointer(k) => {
                lemma_gen_ends_with_ret(ops, j + 1, labels, bstack, fstack);
            },
            FusedOp::RetreatPointer(k) => {
                lemma_gen_ends_with_ret(ops, j + 1, labels, bstack, fstack);
            },
            FusedOp::IncrementCell(k) => {
                lemma_gen_ends_with_ret(ops, j + 1, labels, bstack, fstack);
            },
            FusedOp::DecrementCell(k) => {
                lemma_gen_ends_with_ret(ops, j + 1, labels, bstack, fstack);
            },
            FusedOp::WriteByte => {
                lemma_gen_ends_with_ret(ops, j + 1, labels, bstack, fstack);
            },
            FusedOp::ReadByte => {
                lemma_gen_ends_with_ret(ops, j + 1, labels, bstack, fstack);
            },
            FusedOp::LoopStart => {
                lemma_gen_ends_with_ret(
                    ops,
                    j + 1,
                    (labels + 2) as u64,
                    bstack.push(labels),
                    fstack.push((labels + 1) as u64),
                );
            },
            FusedOp::LoopEnd => {
                lemma_gen_ends_with_ret(ops, j + 1, labels, bstack.drop_last(), fstack.drop_last());
            },
        }
    }
}

/// The code generator always ends its output with a return to the caller.
pub proof fn lemma_codegen_ends_with_ret(ops: Seq<FusedOp>)
    ensures
        codegen_spec(ops).len() >= 1,
        codegen_spec(ops).last() == NativeOp::Ret,
{
    lemma_gen_ends_with_ret(ops, 0, 0, Seq::empty(), Seq::empty());
}

/// What a failed lowering reports: the first loop-end with no open
/// loop-start, or an innermost loop-start never closed, at IR positions.
pub open spec fn gen_err_post(toks: Seq<u8>, e: VmError) -> bool {
    match e {
        VmError::UnmatchedOpen(p) => {
            &&& !balanced(toks)
            &&& 0 <= p < toks.len() && toks[p as int] == 91 && still_open(
                toks,
                p as int,
                toks.len() as int,
            )
        },
        VmError::UnmatchedClose(q) => {
            &&& !balanced(toks)
            &&& 0 <= q < toks.len() && toks[q as int] == 93 && depth(toks, q + 1) == -1
        },
        _ => false,
    }
}

/// Lower an IR sequence to native-instruction requests. The loop jump table
/// is resolved first: an unmatched bracket is fatal and nothing is emitted.
pub fn emit_native(ops: &Vec<FusedOp>) -> (r: Result<Vec<NativeOp>, VmError>)
    requires
        ops@.len() <= u64::MAX as int / 2 - 1,
    ensures
        match r {
            Ok(v) => balanced(toks_of(ops@)) && v@ == codegen_spec(ops@),
            Err(e) => gen_err_post(toks_of(ops@), e),
        },
{
    let ghost og = ops@;
    let toks = op_tokens(ops);
    // The resolved table is the witness that both label stacks below never
    // underflow; label identifiers are allocated in the same stack order.
    let jt = match resolve(&toks) {
        Ok(jt) => jt,
        Err(e) => {
            return Err(e);
        },
    };
    let n = ops.len();
    let mut out: Vec<NativeOp> = Vec::new();
    let mut labels: u64 = 0;
    let mut backward_labels: Vec<u64> = Vec::new();
    let mut forward_labels: Vec<u64> = Vec::new();
    let mut j: usize = 0;
    while j < n
        invariant
            og == ops@,
            n == og.len(),
            n <= u64::MAX as int / 2 - 1,
            toks@ == toks_of(og),
            balanced(toks_of(og)),
            j <= n,
            labels <= 2 * j,
            backward_labels@.len() == depth(toks_of(og), j as int),
            forward_labels@.len() == backward_labels@.len(),
            out@ + gen_from(og, j as int, labels, backward_labels@, forward_labels@)
                == codegen_spec(og),
        decreases n - j,
    {
        let ghost rest = gen_from(og, j as int, labels, backward_labels@, forward_labels@);
        let op = ops[j];
        match op {
            FusedOp::AdvancePointer(k) => {
                out.push(NativeOp::AddPtr(k));
            },
            FusedOp::RetreatPointer(k) => {
                out.push(NativeOp::SubPtr(k));
            },
            FusedOp::IncrementCell(k) => {
                out.push(NativeOp::AddCell((k % 256) as u8));
            },
            FusedOp::DecrementCell(k) => {
                out.push(NativeOp::SubCell((k % 256) as u8));
            },
            FusedOp::WriteByte => {
                out.push(NativeOp::WriteCall);
            },
            FusedOp::ReadByte => {
                out.push(NativeOp::ReadCall);
            },
            FusedOp::LoopStart => {
                out.push(NativeOp::Label(labels));
                out.push(NativeOp::JumpIfZero(labels + 1));
                backward_labels.push(labels);
                forward_labels.push(labels + 1);
                labels = labels + 2;
            },
            FusedOp::LoopEnd => {
                proof {
                    assert(toks_of(og)[j as int] == 93);
                    assert(depth(toks_of(og), j + 1) >= 0);
                    assert(depth(toks_of(og), j + 1) == depth(toks_of(og), j as int) - 1);
                }
                let back = backward_labels.pop().unwrap();
                let fwd = forward_labels.pop().unwrap();
                out.push(NativeOp::Jump(back));
                out.push(NativeOp::Label(fwd));
            },
        }
        proof {
            assert(out@ + gen_from(
                og,
                j + 1,
                labels,
                backward_labels@,
                forward_labels@,
            ) =~= codegen_spec(og));
        }
        j = j + 1;
    }
    out.push(NativeOp::Ret);
    proof {
        assert(out@ =~= codegen_spec(og));
    }
    Ok(out)
}

impl Emu {
    /// Generate the native-instruction requests for a guest program through
    /// the fused pipeline: decode and fuse, resolve loops, lower. The run of
    /// requests realizes the same semantics as the fused interpreter tier.
    pub fn generate_jit_opt(&self, instructions: &Vec<u8>) -> (r: Result<Vec<NativeOp>, VmError>)
        requires
            instructions@.len() <= u64::MAX as int / 2 - 1,
        ensures
            match r {
                Ok(v) => balanced(toks_of(fused_ir(instructions@))) && v@ == codegen_spec(
                    fused_ir(instructions@),
                ),
                Err(e) => gen_err_post(toks_of(fused_ir(instructions@)), e),
            },
    {
        // taking the length fixes in scope that the source fits in a vector
        let n0 = instructions.len();
        proof {
            lemma_decode_len(instructions@, 0);
        }
        let ops = crate::ir::decode(instructions);
        emit_native(&ops)
    }

    /// Generate native-instruction requests without run-length fusion: one
    /// request per opcode character. Kept as the unoptimized variant of the
    /// same lowering.
    pub fn generate_jit(&self, instructions: &Vec<u8>) -> (r: Result<Vec<NativeOp>, VmError>)
        requires
            instructions@.len() <= u64::MAX as int / 2 - 1,
        ensures
            match r {
                Ok(v) => balanced(toks_of(unfused_ir(instructions@))) && v@ == codegen_spec(
                    unfused_ir(instructions@),
                ),
                Err(e) => gen_err_post(toks_of(unfused_ir(instructions@)), e),
            },
    {
        // taking the length fixes in scope that the source fits in a vector
        let n0 = instructions.len();
        proof {
            lemma_unfused_len(instructions@, 0);
        }
        let ops = crate::ir::decode_unfused(instructions);
        emit_native(&ops)
    }
}


/// The number of loop-starts among the first `j` operations. Loop-start `p`
/// is compiled with label `2 * opens_before(ops, p)` and after-loop label
/// `2 * opens_before(ops, p) + 1`.
pub open spec fn opens_before(ops: Seq<FusedOp>, j: int) -> int
    decreases j when 0 <= j <= ops.len()
{
    if j <= 0 {
        0
    } else if ops[j - 1] is LoopStart {
        opens_before(ops, j - 1) + 1
    } else {
        opens_before(ops, j - 1)
    }
}

/// The closed form of the lowering of op `j`, with every loop-end's jump
/// resolved through the loop jump table: it jumps to the label of the
/// table's matching loop-start and defines that loop-start's after-loop
/// label.
pub open spec fn resolved_snippet(ops: Seq<FusedOp>, jt: Seq<usize>, j: int) -> Seq<NativeOp> {
    match ops[j] {
        FusedOp::AdvancePointer(k) => seq![NativeOp::AddPtr(k)],
        FusedOp::RetreatPointer(k) => seq![NativeOp::SubPtr(k)],
        FusedOp::IncrementCell(k) => seq![NativeOp::AddCell((k % 256) as u8)],
        FusedOp::DecrementCell(k) => seq![NativeOp::SubCell((k % 256) as u8)],
        FusedOp::WriteByte => seq![NativeOp::WriteCall],
        FusedOp::ReadByte => seq![NativeOp::ReadCall],
        FusedOp::LoopStart => seq![
            NativeOp::Label((2 * opens_before(ops, j)) as u64),
            NativeOp::JumpIfZero((2 * opens_before(ops, j) + 1) as u64),
        ],
        FusedOp::LoopEnd => seq![
            NativeOp::Jump((2 * opens_before(ops, jt[j] as int)) as u64),
            NativeOp::Label((2 * opens_before(ops, jt[j] as int) + 1) as u64),
        ],
    }
}

/// The closed form of the lowering of the IR suffix from `j`.
pub open spec fn resolved_gen(ops: Seq<FusedOp>, jt: Seq<usize>, j: int) -> Seq<NativeOp>
    decreases ops.len() - j when 0 <= j <= ops.len()
{
    if j >= ops.len() {
        seq![NativeOp::Ret]
    } else {
        resolved_snippet(ops, jt, j) + resolved_gen(ops, jt, j + 1)
    }
}

/// Nesting level `i` is represented by the labels of a loop-start that is
/// still open at position `j`.
spec fn level_ok(ops: Seq<FusedOp>, j: int, i: int, bl: u64, fl: u64) -> bool {
    exists|p: int|
        {
            &&& 0 <= p < j
            &&& toks_of(ops)[p] == 91
            &&& #[trigger] depth(toks_of(ops), p) == i
            &&& still_open(toks_of(ops), p, j)
            &&& bl == (2 * opens_before(ops, p)) as u64
            &&& fl == (2 * opens_before(ops, p) + 1) as u64
        }
}

/// Establish `level_ok` from an explicit witness.
proof fn level_ok_intro(ops: Seq<FusedOp>, j: int, i: int, bl: u64, fl: u64, p: int)
    requires
        0 <= p < j,
        toks_of(ops)[p] == 91,
        depth(toks_of(ops), p) == i,
        still_open(toks_of(ops), p, j),
        bl == (2 * opens_before(ops, p)) as u64,
        fl == (2 * opens_before(ops, p) + 1) as u64,
    ensures
        level_ok(ops, j, i, bl, fl),
{
    assert({
        &&& 0 <= p < j
        &&& toks_of(ops)[p] == 91
        &&& depth(toks_of(ops), p) == i
        &&& still_open(toks_of(ops), p, j)
        &&& bl == (2 * opens_before(ops, p)) as u64
        &&& fl == (2 * opens_before(ops, p) + 1) as u64
    });
}

/// Extract the witness of `level_ok`.
proof fn level_ok_elim(ops: Seq<FusedOp>, j: int, i: int, bl: u64, fl: u64) -> (p: int)
    requires
        level_ok(ops, j, i, bl, fl),
    ensures
        0 <= p < j,
        toks_of(ops)[p] == 91,
        depth(toks_of(ops), p) == i,
        still_open(toks_of(ops), p, j),
        bl == (2 * opens_before(ops, p)) as u64,
        fl == (2 * opens_before(ops, p) + 1) as u64,
{
    choose|p: int|
        {
            &&& 0 <= p < j
            &&& toks_of(ops)[p] == 91
            &&& #[trigger] depth(toks_of(ops), p) == i
            &&& still_open(toks_of(ops), p, j)
            &&& bl == (2 * opens_before(ops, p)) as u64
            &&& fl == (2 * opens_before(ops, p) + 1) as u64
        }
}

/// The label stacks during generation hold, per open nesting level, the
/// labels of the still-open loop-start at that level.
spec fn stacks_inv(ops: Seq<FusedOp>, j: int, bstack: Seq<u64>, fstack: Seq<u64>) -> bool {
    &&& bstack.len() == depth(toks_of(ops), j)
    &&& fstack.len() == bstack.len()
    &&& forall|i: int|
        0 <= i < bstack.len() ==> level_ok(ops, j, i, #[trigger] bstack[i], fstack[i])
}

/// Label discipline: under a valid jump table, the generated stream is, op
/// by op, the closed-form stream in which every loop-end jumps back to the
/// label of its matching loop-start and defines that loop-start's
/// after-loop label. Labels are allocated in strict stack order, so this is
/// exactly the correspondence the jump table records.
#[verifier::rlimit(100)]
proof fn lemma_gen_resolved(
    ops: Seq<FusedOp>,
    jt: Seq<usize>,
    j: int,
    labels: u64,
    bstack: Seq<u64>,
    fstack: Seq<u64>,
)
    requires
        ops.len() <= u64::MAX as int / 2 - 1,
        balanced(toks_of(ops)),
        crate::brackets::table_ok(toks_of(ops), jt),
        0 <= j <= ops.len(),
        labels == 2 * opens_before(ops, j),
        stacks_inv(ops, j, bstack, fstack),
    ensures
        gen_from(ops, j, labels, bstack, fstack) == resolved_gen(ops, jt, j),
    decreases ops.len() - j,
{
    let toks = toks_of(ops);
    if j < ops.len() {
        lemma_opens_bound(ops, j);
        assert(opens_before(ops, j + 1) == opens_before(ops, j) + (
        if ops[j] is LoopStart {
            1int
        } else {
            0int
        }));
        match ops[j] {
            FusedOp::LoopStart => {
                assert(toks[j] == 91);
                assert(depth(toks, j + 1) == depth(toks, j) + 1);
                let b2 = bstack.push(labels);
                let f2 = fstack.push((labels + 1) as u64);
                assert forall|i: int| 0 <= i < b2.len() implies level_ok(
                    ops,
                    j + 1,
                    i,
                    #[trigger] b2[i],
                    f2[i],
                ) by {
                    if i == bstack.len() {
                        assert(still_open(toks, j, j + 1)) by {
                            assert(depth(toks, j + 1) > depth(toks, j));
                        }
                        level_ok_intro(ops, j + 1, i, b2[i], f2[i], j);
                    } else {
                        let p = level_ok_elim(ops, j, i, bstack[i], fstack[i]);
                        assert(still_open(toks, p, j + 1)) by {
                            assert(depth(toks, j) > depth(toks, p));
                        }
                        level_ok_intro(ops, j + 1, i, b2[i], f2[i], p);
                    }
                }
                lemma_gen_resolved(ops, jt, j + 1, (labels + 2) as u64, b2, f2);
            },
            FusedOp::LoopEnd => {
                assert(toks[j] == 93);
                assert(depth(toks, j + 1) == depth(toks, j) - 1);
                assert(depth(toks, j + 1) >= 0);
                assert(bstack.len() >= 1);
                let i = bstack.len() - 1;
                let p = level_ok_elim(ops, j, i, bstack[i], fstack[i]);
                // the table's match for this loop-end is the still-open
                // loop-start at the innermost level, which is p
                let pm = jt[j] as int;
                assert(is_match(toks, pm, j));
                assert(depth(toks, pm) == i) by {
                    assert(depth(toks, j + 1) == depth(toks, pm));
                }
                assert(pm == p) by {
                    if pm < p {
                        assert(pm < p <= j);
                        assert(depth(toks, p) > depth(toks, pm));
                    }
                    if p < pm {
                        assert(p < pm <= j);
                        assert(depth(toks, pm) > depth(toks, p));
                    }
                }
                let b2 = bstack.drop_last();
                let f2 = fstack.drop_last();
                assert forall|i2: int| 0 <= i2 < b2.len() implies level_ok(
                    ops,
                    j + 1,
                    i2,
                    #[trigger] b2[i2],
                    f2[i2],
                ) by {
                    let p2 = level_ok_elim(ops, j, i2, bstack[i2], fstack[i2]);
                    assert(still_open(toks, p2, j + 1)) by {
                        assert(depth(toks, j) > depth(toks, p2));
                        assert(depth(toks, p2) == i2);
                        assert(i2 < i);
                    }
                    level_ok_intro(ops, j + 1, i2, b2[i2], f2[i2], p2);
                }
                lemma_gen_resolved(ops, jt, j + 1, labels, b2, f2);
                assert(bstack.last() == (2 * opens_before(ops, pm)) as u64);
                assert(fstack.last() == (2 * opens_before(ops, pm) + 1) as u64);
            },
            _ => {
                assert(toks[j] == 0);
                assert(depth(toks, j + 1) == depth(toks, j));
                assert forall|i2: int| 0 <= i2 < bstack.len() implies level_ok(
                    ops,
                    j + 1,
                    i2,
                    #[trigger] bstack[i2],
                    fstack[i2],
                ) by {
                    let p2 = level_ok_elim(ops, j, i2, bstack[i2], fstack[i2]);
                    assert(still_open(toks, p2, j + 1)) by {
                        assert(depth(toks, j) > depth(toks, p2));
                    }
                    level_ok_intro(ops, j + 1, i2, bstack[i2], fstack[i2], p2);
                }
                lemma_gen_resolved(ops, jt, j + 1, labels, bstack, fstack);
            },
        }
    }
}

/// Loop-starts are never more numerous than operations.
proof fn lemma_opens_bound(ops: Seq<FusedOp>, j: int)
    requires
        0 <= j <= ops.len(),
    ensures
        0 <= opens_before(ops, j) <= j,
    decreases j,
{
    if j > 0 {
        lemma_opens_bound(ops, j - 1);
    }
}

/// Label discipline, as the design demands it: under a valid loop jump
/// table the whole generated stream equals the closed form in which every
/// loop-end jumps to the label of the table's matching loop-start.
pub proof fn lemma_codegen_labels_follow_table(ops: Seq<FusedOp>, jt: Seq<usize>)
    requires
        ops.len() <= u64::MAX as int / 2 - 1,
        balanced(toks_of(ops)),
        crate::brackets::table_ok(toks_of(ops), jt),
    ensures
        codegen_spec(ops) == resolved_gen(ops, jt, 0),
{
    lemma_gen_resolved(ops, jt, 0, 0, Seq::empty(), Seq::empty());
}

} // verus!
