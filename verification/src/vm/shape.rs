use vstd::prelude::*;

use crate::common::{
    lemma_opcode_byte_roundtrip, opcode_byte, opcode_of, operand_count_of, OpCode, OPCODE_COUNT,
};

verus! {

// The shape of bytecode: where its instructions start, whether it divides
// into whole instructions, and where its branches go; and how appending an
// instruction or patching a branch's operands keeps that shape.

/// The length in bytes of the instruction whose opcode byte is `b`.
pub open spec fn instruction_len(b: u8) -> int {
    1 + if opcode_of(b) == OpCode::Closure {
        1int
    } else {
        operand_count_of(opcode_of(b)) as int
    }
}

/// From offset `i`, `code` is a run of whole instructions that ends exactly
/// at the end of the code.
pub open spec fn decodes_from(code: Seq<u8>, i: int) -> bool
    decreases if i <= code.len() { code.len() - i } else { 0 },
{
    if i >= code.len() {
        i == code.len()
    } else if 0 <= i && code[i] < OPCODE_COUNT {
        decodes_from(code, i + instruction_len(code[i]))
    } else {
        false
    }
}

/// The whole of `code` is a run of whole instructions.
pub open spec fn decodes(code: Seq<u8>) -> bool {
    decodes_from(code, 0)
}

/// Stepping from instruction to instruction from offset `i` reaches `k`.
pub open spec fn reaches_start(code: Seq<u8>, i: int, k: int) -> bool
    decreases if i <= k { k - i } else { 0 },
{
    if i >= k {
        i == k
    } else if 0 <= i < code.len() && code[i] < OPCODE_COUNT {
        reaches_start(code, i + instruction_len(code[i]), k)
    } else {
        false
    }
}

/// An instruction of `code` starts at `k`.
pub open spec fn instruction_start(code: Seq<u8>, k: int) -> bool {
    0 <= k < code.len() && reaches_start(code, 0, k)
}

/// Every instruction of `a` starts at the same place in `b`, with the same
/// opcode: `b` is `a` with operands changed or instructions added.
pub open spec fn shape_kept(a: Seq<u8>, b: Seq<u8>) -> bool {
    forall|k: int| #[trigger] instruction_start(a, k) ==> instruction_start(b, k) && b[k] == a[k]
}

/// Code that decodes from `i` reaches its own end from `i`.
pub proof fn lemma_decodes_reaches_end(code: Seq<u8>, i: int)
    requires
        decodes_from(code, i),
    ensures
        reaches_start(code, i, code.len() as int),
    decreases if i <= code.len() { code.len() - i } else { 0 },
{
    if i < code.len() {
        lemma_decodes_reaches_end(code, i + instruction_len(code[i]));
    }
}

/// Two codes of one length that agree from `i` on decode alike from `i` and
/// reach the same offsets from `i`.
pub proof fn lemma_same_suffix(a: Seq<u8>, b: Seq<u8>, i: int, k: int)
    requires
        a.len() == b.len(),
        forall|m: int| i <= m < a.len() ==> a[m] == b[m],
    ensures
        decodes_from(a, i) == decodes_from(b, i),
        reaches_start(a, i, k) == reaches_start(b, i, k),
    decreases if i <= a.len() { a.len() - i } else { 0 },
{
    if 0 <= i < a.len() && a[i] < OPCODE_COUNT {
        lemma_same_suffix(a, b, i + instruction_len(a[i]), k);
    }
    lemma_reaches_same(a, b, i, k);
}

/// The offsets reached from `i` depend only on the code from `i` on.
proof fn lemma_reaches_same(a: Seq<u8>, b: Seq<u8>, i: int, k: int)
    requires
        a.len() == b.len(),
        forall|m: int| i <= m < a.len() ==> a[m] == b[m],
    ensures
        reaches_start(a, i, k) == reaches_start(b, i, k),
    decreases if i <= k { k - i } else { 0 },
{
    if i < k && 0 <= i < a.len() && a[i] < OPCODE_COUNT {
        lemma_reaches_same(a, b, i + instruction_len(a[i]), k);
    }
}

/// Appending a whole instruction to code that decodes gives code that
/// decodes, keeps every instruction start, and starts an instruction where
/// the old code ended.
pub proof fn lemma_append_instruction(code: Seq<u8>, ins: Seq<u8>)
    requires
        decodes(code),
        ins.len() > 0,
        ins[0] < OPCODE_COUNT,
        ins.len() == instruction_len(ins[0]),
    ensures
        decodes(code + ins),
        shape_kept(code, code + ins),
        instruction_start(code + ins, code.len() as int),
        (code + ins)[code.len() as int] == ins[0],
{
    lemma_append_from(code, ins, 0);
    assert forall|k: int| #[trigger] instruction_start(code, k) implies instruction_start(code + ins, k)
        && (code + ins)[k] == code[k] by {
        lemma_append_reaches(code, ins, 0, k);
    }
    lemma_decodes_reaches_end(code, 0);
    lemma_append_reaches(code, ins, 0, code.len() as int);
}

proof fn lemma_append_from(code: Seq<u8>, ins: Seq<u8>, i: int)
    requires
        decodes_from(code, i),
        0 <= i,
        ins.len() > 0,
        ins[0] < OPCODE_COUNT,
        ins.len() == instruction_len(ins[0]),
    ensures
        decodes_from(code + ins, i),
    decreases if i <= code.len() { code.len() - i } else { 0 },
{
    let c = code + ins;
    if i == code.len() {
        assert(c[i] == ins[0]);
        assert(decodes_from(c, i + instruction_len(c[i])));
    } else {
        assert(c[i] == code[i]);
        lemma_append_from(code, ins, i + instruction_len(code[i]));
    }
}

proof fn lemma_append_reaches(code: Seq<u8>, ins: Seq<u8>, i: int, k: int)
    requires
        reaches_start(code, i, k),
        k <= code.len(),
    ensures
        reaches_start(code + ins, i, k),
    decreases if i <= k { k - i } else { 0 },
{
    if i < k {
        assert((code + ins)[i] == code[i]);
        lemma_append_reaches(code, ins, i + instruction_len(code[i]), k);
    }
}

/// Appending bytes keeps every instruction start where it was.
pub proof fn lemma_append_keeps_shape(code: Seq<u8>, tail: Seq<u8>)
    ensures
        shape_kept(code, code + tail),
{
    assert forall|k: int| #[trigger] instruction_start(code, k) implies instruction_start(code + tail, k)
        && (code + tail)[k] == code[k] by {
        lemma_append_reaches(code, tail, 0, k);
    }
}

/// Overwriting the two operand bytes of a three-byte instruction keeps the
/// code decoding and every instruction where it was.
pub proof fn lemma_patch_operands(code: Seq<u8>, j: int, x: u8, y: u8)
    requires
        decodes(code),
        instruction_start(code, j),
        instruction_len(code[j]) == 3,
    ensures
        decodes(code.update(j + 1, x).update(j + 2, y)),
        shape_kept(code, code.update(j + 1, x).update(j + 2, y)),
{
    let b = code.update(j + 1, x).update(j + 2, y);
    lemma_start_fits(code, 0, j);
    lemma_patch_from(code, j, x, y, 0);
    assert forall|k: int| #[trigger] instruction_start(code, k) implies instruction_start(b, k) && b[k]
        == code[k] by {
        lemma_patch_reaches(code, j, x, y, 0, k);
        lemma_starts_apart(code, 0, j, k);
    }
}

/// An offset reached from `i` lies at or after `i`.
proof fn lemma_reaches_after(code: Seq<u8>, i: int, k: int)
    requires
        reaches_start(code, i, k),
    ensures
        i <= k,
    decreases if i <= k { k - i } else { 0 },
{
}

/// An instruction reached in code that decodes is whole: a known opcode with
/// all its operand bytes.
pub proof fn lemma_start_fits(code: Seq<u8>, i: int, j: int)
    requires
        decodes_from(code, i),
        reaches_start(code, i, j),
        j < code.len(),
    ensures
        0 <= j,
        code[j] < OPCODE_COUNT,
        j + instruction_len(code[j]) <= code.len(),
        decodes_from(code, j + instruction_len(code[j])),
    decreases if i <= code.len() { code.len() - i } else { 0 },
{
    if i < j {
        lemma_start_fits(code, i + instruction_len(code[i]), j);
    } else {
        let n = j + instruction_len(code[j]);
        if n > code.len() {
            assert(!decodes_from(code, n));
        }
    }
}

/// Two instruction starts reached from one decoding start are at least an
/// instruction apart.
pub proof fn lemma_starts_apart(code: Seq<u8>, i: int, j: int, k: int)
    requires
        decodes_from(code, i),
        reaches_start(code, i, j),
        reaches_start(code, i, k),
        j < code.len(),
        k < code.len(),
    ensures
        k == j || k < j || k >= j + instruction_len(code[j]),
    decreases if i <= code.len() { code.len() - i } else { 0 },
{
    lemma_reaches_after(code, i, j);
    lemma_reaches_after(code, i, k);
    if i < j && i < k {
        lemma_starts_apart(code, i + instruction_len(code[i]), j, k);
    } else if i == j && j < k {
        lemma_reaches_after(code, j + instruction_len(code[j]), k);
    }
}

proof fn lemma_patch_from(code: Seq<u8>, j: int, x: u8, y: u8, i: int)
    requires
        decodes_from(code, i),
        reaches_start(code, i, j),
        0 <= j < code.len(),
        instruction_len(code[j]) == 3,
    ensures
        decodes_from(code.update(j + 1, x).update(j + 2, y), i),
    decreases if i <= j { j - i } else { 0 },
{
    let b = code.update(j + 1, x).update(j + 2, y);
    lemma_start_fits(code, i, j);
    lemma_reaches_after(code, i, j);
    if i == j {
        assert(b[j] == code[j]);
        lemma_same_suffix(code, b, j + 3, j + 3);
    } else {
        assert(b[i] == code[i]);
        lemma_patch_from(code, j, x, y, i + instruction_len(code[i]));
    }
}

proof fn lemma_patch_reaches(code: Seq<u8>, j: int, x: u8, y: u8, i: int, k: int)
    requires
        decodes_from(code, i),
        reaches_start(code, i, j),
        reaches_start(code, i, k),
        0 <= j < code.len(),
        instruction_len(code[j]) == 3,
    ensures
        reaches_start(code.update(j + 1, x).update(j + 2, y), i, k),
    decreases if i <= k { k - i } else { 0 },
{
    let b = code.update(j + 1, x).update(j + 2, y);
    lemma_start_fits(code, i, j);
    lemma_reaches_after(code, i, j);
    if i < k {
        if i < j {
            assert(b[i] == code[i]);
            lemma_patch_reaches(code, j, x, y, i + instruction_len(code[i]), k);
        } else {
            assert(i == j);
            assert(b[i] == code[i]);
            lemma_reaches_same(code, b, j + 3, k);
        }
    }
}

/// A branch: a jump forward, conditional or not, or a loop back.
pub open spec fn is_branch(b: u8) -> bool {
    b == opcode_byte(OpCode::Jump) || b == opcode_byte(OpCode::JumpIfFalse) || b == opcode_byte(
        OpCode::Loop,
    )
}

/// Where the branch that starts at `k` goes: its two-byte distance forward
/// from the end of the instruction, or back for a loop.
pub open spec fn branch_target(code: Seq<u8>, k: int) -> int {
    let d = code[k + 1] * 256 + code[k + 2];
    if code[k] == opcode_byte(OpCode::Loop) {
        k + 3 - d
    } else {
        k + 3 + d
    }
}

/// An instruction starts at `t`, or `t` is where the code ends.
pub open spec fn boundary(code: Seq<u8>, t: int) -> bool {
    0 <= t <= code.len() && reaches_start(code, 0, t)
}

/// Every branch, but those whose operand starts at an offset in `pending`,
/// goes to a boundary.
pub open spec fn branches_land(code: Seq<u8>, pending: Set<int>) -> bool {
    forall|k: int|
        #[trigger] instruction_start(code, k) && is_branch(code[k]) && !pending.contains(k + 1)
            ==> boundary(code, branch_target(code, k))
}

/// The instructions the machine runs: those of values, arithmetic, variables,
/// jumps, printing and `Return`; not those of calls, closures or classes.
pub open spec fn machine_op(b: u8) -> bool {
    b < OPCODE_COUNT && match opcode_of(b) {
        OpCode::Call | OpCode::Invoke | OpCode::Closure | OpCode::CloseUpvalue | OpCode::Class
        | OpCode::Method | OpCode::SetProperty | OpCode::GetProperty | OpCode::DeleteProperty
        | OpCode::SetIndex | OpCode::GetIndex | OpCode::SetUpvalue | OpCode::GetUpvalue => false,
        _ => true,
    }
}

/// Every instruction is one the machine runs, and every `Constant`
/// instruction names one of the first `n` constants.
pub open spec fn instructions_ok(code: Seq<u8>, n: int) -> bool {
    forall|k: int|
        #[trigger] instruction_start(code, k) ==> machine_op(code[k]) && (code[k] == opcode_byte(
            OpCode::Constant,
        ) ==> code[k + 1] < n)
}

/// A boundary of code stays one when bytes are appended.
pub proof fn lemma_append_keeps_boundary(code: Seq<u8>, tail: Seq<u8>, t: int)
    requires
        boundary(code, t),
    ensures
        boundary(code + tail, t),
{
    lemma_append_reaches(code, tail, 0, t);
}

/// A boundary stays one when the operands of an instruction are patched.
pub proof fn lemma_patch_keeps_boundary(code: Seq<u8>, j: int, x: u8, y: u8, t: int)
    requires
        decodes(code),
        instruction_start(code, j),
        instruction_len(code[j]) == 3,
        boundary(code, t),
    ensures
        boundary(code.update(j + 1, x).update(j + 2, y), t),
{
    lemma_start_fits(code, 0, j);
    lemma_patch_reaches(code, j, x, y, 0, t);
}

/// Walking code with bytes appended up to an offset inside the old code
/// walks the old code.
proof fn lemma_append_reaches_back(code: Seq<u8>, tail: Seq<u8>, i: int, k: int)
    requires
        reaches_start(code + tail, i, k),
        k <= code.len(),
    ensures
        reaches_start(code, i, k),
    decreases if i <= k { k - i } else { 0 },
{
    if i < k {
        assert((code + tail)[i] == code[i]);
        lemma_append_reaches_back(code, tail, i + instruction_len(code[i]), k);
    }
}

/// In code that decodes, after appending a whole instruction the only new
/// start is where the old code ended.
pub proof fn lemma_append_new_start(code: Seq<u8>, ins: Seq<u8>, k: int)
    requires
        decodes(code),
        ins.len() > 0,
        ins[0] < OPCODE_COUNT,
        ins.len() == instruction_len(ins[0]),
        instruction_start(code + ins, k),
    ensures
        k < code.len() ==> instruction_start(code, k),
        k >= code.len() ==> k == code.len(),
{
    lemma_append_instruction(code, ins);
    if k < code.len() {
        lemma_append_reaches_back(code, ins, 0, k);
    } else {
        lemma_starts_apart(code + ins, 0, code.len() as int, k);
    }
}

/// Appending a whole instruction keeps every branch landing where it did;
/// the new instruction, if a branch, must land or be pending itself.
pub proof fn lemma_append_branches(code: Seq<u8>, ins: Seq<u8>, p: Set<int>, p2: Set<int>)
    requires
        decodes(code),
        ins.len() > 0,
        ins[0] < OPCODE_COUNT,
        ins.len() == instruction_len(ins[0]),
        branches_land(code, p),
        p.subset_of(p2),
        is_branch(ins[0]) ==> p2.contains(code.len() + 1int) || boundary(
            code + ins,
            branch_target(code + ins, code.len() as int),
        ),
    ensures
        branches_land(code + ins, p2),
{
    let c = code + ins;
    lemma_append_instruction(code, ins);
    assert forall|k: int|
        #[trigger] instruction_start(c, k) && is_branch(c[k]) && !p2.contains(k + 1) implies boundary(
        c,
        branch_target(c, k),
    ) by {
        lemma_append_new_start(code, ins, k);
        if k < code.len() {
            lemma_start_fits(code, 0, k);
            assert(c[k] == code[k] && c[k + 1] == code[k + 1] && c[k + 2] == code[k + 2]);
            assert(!p.contains(k + 1));
            let t = branch_target(code, k);
            lemma_append_reaches(code, ins, 0, t);
        }
    }
}

/// Appending a whole instruction keeps every instruction one the machine
/// runs and every constant index in range; the new instruction must be one
/// the machine runs and, if a `Constant`, name one of the `n2` constants.
pub proof fn lemma_append_instructions_ok(code: Seq<u8>, ins: Seq<u8>, n: int, n2: int)
    requires
        decodes(code),
        ins.len() > 0,
        ins[0] < OPCODE_COUNT,
        ins.len() == instruction_len(ins[0]),
        instructions_ok(code, n),
        n <= n2,
        machine_op(ins[0]),
        ins[0] == opcode_byte(OpCode::Constant) ==> ins[1] < n2,
    ensures
        instructions_ok(code + ins, n2),
{
    let c = code + ins;
    lemma_append_instruction(code, ins);
    assert forall|k: int| #[trigger] instruction_start(c, k) implies machine_op(c[k]) && (c[k]
        == opcode_byte(OpCode::Constant) ==> c[k + 1] < n2) by {
        lemma_append_new_start(code, ins, k);
        lemma_opcode_byte_roundtrip(OpCode::Constant, 0);
        if k < code.len() {
            lemma_start_fits(code, 0, k);
            assert(c[k] == code[k]);
            if code[k] == opcode_byte(OpCode::Constant) {
                assert(c[k + 1] == code[k + 1]);
            }
        } else {
            assert(c[k] == ins[0]);
            if ins[0] == opcode_byte(OpCode::Constant) {
                assert(c[k + 1] == ins[1]);
            }
        }
    }
}

/// Patching the operands of branch `j` leaves every other instruction, and
/// its operands, as they were.
pub proof fn lemma_patch_others(code: Seq<u8>, j: int, x: u8, y: u8, k: int)
    requires
        decodes(code),
        instruction_start(code, j),
        instruction_len(code[j]) == 3,
        instruction_start(code.update(j + 1, x).update(j + 2, y), k),
        k != j,
    ensures
        instruction_start(code, k),
        ({
            let b = code.update(j + 1, x).update(j + 2, y);
            &&& b[k] == code[k]
            &&& instruction_len(code[k]) >= 2 ==> b[k + 1] == code[k + 1]
            &&& instruction_len(code[k]) >= 3 ==> b[k + 2] == code[k + 2]
        }),
{
    let b = code.update(j + 1, x).update(j + 2, y);
    lemma_start_fits(code, 0, j);
    lemma_patch_operands(code, j, x, y);
    assert(code =~= b.update(j + 1, code[j + 1]).update(j + 2, code[j + 2]));
    assert(b[j] == code[j]);
    lemma_patch_reaches(b, j, code[j + 1], code[j + 2], 0, k);
    lemma_start_fits(code, 0, k);
    lemma_starts_apart(code, 0, j, k);
    lemma_starts_apart(code, 0, k, j);
}

/// Patching the operands of branch `j` so that it lands keeps every branch
/// landing, and the patched one is no longer pending.
pub proof fn lemma_patch_branches(code: Seq<u8>, j: int, x: u8, y: u8, p: Set<int>)
    requires
        decodes(code),
        instruction_start(code, j),
        is_branch(code[j]),
        instruction_len(code[j]) == 3,
        branches_land(code, p),
        boundary(
            code.update(j + 1, x).update(j + 2, y),
            branch_target(code.update(j + 1, x).update(j + 2, y), j),
        ),
    ensures
        branches_land(code.update(j + 1, x).update(j + 2, y), p.remove(j + 1)),
{
    let b = code.update(j + 1, x).update(j + 2, y);
    lemma_start_fits(code, 0, j);
    assert forall|k: int|
        #[trigger] instruction_start(b, k) && is_branch(b[k]) && !p.remove(j + 1).contains(k + 1) implies boundary(
        b,
        branch_target(b, k),
    ) by {
        if k != j {
            lemma_patch_others(code, j, x, y, k);
            lemma_start_fits(code, 0, k);
            lemma_opcode_byte_roundtrip(opcode_of(code[k]), 0);
            assert(!p.contains(k + 1));
            let t = branch_target(code, k);
            assert(branch_target(b, k) == t);
            lemma_patch_reaches(code, j, x, y, 0, t);
        }
    }
}

/// Patching the operands of branch `j` keeps every instruction one the
/// machine runs and every constant index in range.
pub proof fn lemma_patch_instructions_ok(code: Seq<u8>, j: int, x: u8, y: u8, n: int)
    requires
        decodes(code),
        instruction_start(code, j),
        is_branch(code[j]),
        instruction_len(code[j]) == 3,
        instructions_ok(code, n),
    ensures
        instructions_ok(code.update(j + 1, x).update(j + 2, y), n),
{
    let b = code.update(j + 1, x).update(j + 2, y);
    lemma_start_fits(code, 0, j);
    assert forall|k: int| #[trigger] instruction_start(b, k) implies machine_op(b[k]) && (b[k]
        == opcode_byte(OpCode::Constant) ==> b[k + 1] < n) by {
        lemma_opcode_byte_roundtrip(OpCode::Constant, 0);
        lemma_opcode_byte_roundtrip(OpCode::Jump, 0);
        lemma_opcode_byte_roundtrip(OpCode::JumpIfFalse, 0);
        lemma_opcode_byte_roundtrip(OpCode::Loop, 0);
        if k != j {
            lemma_patch_others(code, j, x, y, k);
            lemma_start_fits(code, 0, k);
        } else {
            lemma_patch_operands(code, j, x, y);
            assert(b[j] == code[j]);
        }
    }
}

/// Every branch goes to the start of an instruction.
pub open spec fn branches_start(code: Seq<u8>) -> bool {
    forall|k: int|
        #[trigger] instruction_start(code, k) && is_branch(code[k]) ==> instruction_start(
            code,
            branch_target(code, k),
        )
}

/// The shape of code the compiler makes: whole instructions the machine runs,
/// the last a `Return`, every branch landing on an instruction, and every
/// constant index below `n`.
pub open spec fn compiled_shape(code: Seq<u8>, n: int) -> bool {
    &&& decodes(code)
    &&& code.len() > 0
    &&& instruction_start(code, code.len() - 1)
    &&& code[code.len() - 1] == opcode_byte(OpCode::Return)
    &&& branches_start(code)
    &&& instructions_ok(code, n)
}

/// Code whose branches land, closed by a `Return`, has the compiled shape.
pub proof fn lemma_closed_by_return(code: Seq<u8>, n: int)
    requires
        decodes(code),
        branches_land(code, Set::empty()),
        instructions_ok(code, n),
    ensures
        compiled_shape(code.push(opcode_byte(OpCode::Return)), n),
{
    let r = opcode_byte(OpCode::Return);
    let ins = seq![r];
    let c = code + ins;
    assert(code.push(r) =~= c);
    lemma_opcode_byte_roundtrip(OpCode::Return, 0);
    lemma_append_instruction(code, ins);
    lemma_append_instructions_ok(code, ins, n, n);
    assert forall|k: int| #[trigger] instruction_start(c, k) && is_branch(c[k]) implies instruction_start(
        c,
        branch_target(c, k),
    ) by {
        lemma_append_new_start(code, ins, k);
        lemma_opcode_byte_roundtrip(OpCode::Jump, 0);
        lemma_opcode_byte_roundtrip(OpCode::JumpIfFalse, 0);
        lemma_opcode_byte_roundtrip(OpCode::Loop, 0);
        if k < code.len() {
            lemma_start_fits(code, 0, k);
            assert(c[k] == code[k] && c[k + 1] == code[k + 1] && c[k + 2] == code[k + 2]);
            let t = branch_target(code, k);
            assert(boundary(code, t));
            lemma_append_reaches(code, ins, 0, t);
        }
    }
}

/// In code of the compiled shape, the instruction after one that is not the
/// final `Return` starts an instruction too.
pub proof fn lemma_next_start(code: Seq<u8>, n: int, k: int)
    requires
        compiled_shape(code, n),
        instruction_start(code, k),
        code[k] != opcode_byte(OpCode::Return),
    ensures
        code[k] < OPCODE_COUNT,
        k + instruction_len(code[k]) < code.len(),
        instruction_start(code, k + instruction_len(code[k])),
{
    lemma_start_fits(code, 0, k);
    let last = code.len() - 1;
    lemma_starts_apart(code, 0, k, last);
    lemma_reaches_step(code, 0, k);
}

/// One instruction further than an offset reached is reached too.
proof fn lemma_reaches_step(code: Seq<u8>, i: int, k: int)
    requires
        reaches_start(code, i, k),
        0 <= k < code.len(),
        code[k] < OPCODE_COUNT,
    ensures
        reaches_start(code, i, k + instruction_len(code[k])),
    decreases if i <= k { k - i } else { 0 },
{
    if i < k {
        lemma_reaches_step(code, i + instruction_len(code[i]), k);
    } else {
        assert(i == k);
        let n = k + instruction_len(code[k]);
        assert(reaches_start(code, n, n));
    }
}

} // verus!
