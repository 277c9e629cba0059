use vstd::prelude::*;

use crate::common::{opcode_byte, opcode_of, OpCode, OPCODE_COUNT};
use crate::vm::shape::{
    branch_target, decodes, instruction_len, instruction_start, is_branch,
    lemma_append_instruction, lemma_append_new_start, lemma_patch_operands, lemma_patch_others,
    lemma_start_fits,
};

verus! {

// How deep the stack is at each instruction: code is balanced when every
// instruction finds the values it reads, and every way of reaching an
// instruction, falling through or branching, reaches it with the stack at
// one depth.

/// How many values instruction `b` reads from the top of the stack.
pub open spec fn stack_need(b: u8) -> int {
    match opcode_of(b) {
        OpCode::Add | OpCode::Subtract | OpCode::Multiply | OpCode::Divide | OpCode::Greater
        | OpCode::Less | OpCode::Equal | OpCode::SwitchEq => 2,
        OpCode::Negate | OpCode::Not | OpCode::Print | OpCode::Pop | OpCode::SetLocal
        | OpCode::DefineGlobal | OpCode::SetGlobal | OpCode::JumpIfFalse => 1,
        _ => 0,
    }
}

/// How much deeper the stack is after instruction `b`, the value that the
/// host pushes for it included.
pub open spec fn stack_net(b: u8) -> int {
    match opcode_of(b) {
        OpCode::Constant | OpCode::Nil | OpCode::True | OpCode::False | OpCode::GetLocal
        | OpCode::GetGlobal => 1,
        OpCode::Add | OpCode::Subtract | OpCode::Multiply | OpCode::Divide | OpCode::Greater
        | OpCode::Less | OpCode::Equal | OpCode::Print | OpCode::Pop | OpCode::DefineGlobal => -1,
        _ => 0,
    }
}

/// The run goes on with the instruction after `b` (for `JumpIfFalse`, when
/// the jump is not taken).
pub open spec fn falls_through(b: u8) -> bool {
    b != opcode_byte(OpCode::Jump) && b != opcode_byte(OpCode::Loop) && b != opcode_byte(
        OpCode::Return,
    )
}

/// The instructions whose operand names a slot of the stack.
pub open spec fn names_slot(b: u8) -> bool {
    b == opcode_byte(OpCode::GetLocal) || b == opcode_byte(OpCode::SetLocal)
}

/// `depths` gives the depth of the stack at each offset of `code` and at its
/// end: every instruction finds what it reads, and a slot it names is below
/// the top; the instruction after one
/// that falls through starts at that one's depth changed by its net effect;
/// and every branch, but those whose operand starts at an offset in
/// `pending`, goes to an offset of the same depth.
pub open spec fn depths_fit(code: Seq<u8>, depths: Seq<int>, pending: Set<int>) -> bool {
    &&& depths.len() == code.len() + 1
    &&& forall|k: int| #[trigger]
        instruction_start(code, k) ==> {
            &&& 0 <= stack_need(code[k]) <= depths[k]
            &&& names_slot(code[k]) ==> code[k + 1] < depths[k]
            &&& falls_through(code[k]) ==> depths[k + instruction_len(code[k])] == depths[k]
                + stack_net(code[k])
            &&& is_branch(code[k]) && !pending.contains(k + 1) ==> {
                &&& 0 <= branch_target(code, k) <= code.len()
                &&& depths[branch_target(code, k)] == depths[k]
            }
        }
}

/// No instruction takes more values than it reads.
pub proof fn lemma_need_covers_net(b: u8)
    ensures
        0 <= stack_need(b),
        0 <= stack_need(b) + stack_net(b),
{
}

/// Code that runs from its start with an empty stack never reads below it.
pub open spec fn stack_balanced(code: Seq<u8>) -> bool {
    exists|depths: Seq<int>| #[trigger] depths_fit(code, depths, Set::empty()) && depths[0] == 0
}

/// The depths after appending an instruction of `n` bytes at the depth that
/// `depths` ends with: its operand bytes share that depth, and the code's
/// new end has depth `after`.
pub open spec fn extend_depths(depths: Seq<int>, n: int, after: int) -> Seq<int> {
    (depths + Seq::new((n - 1) as nat, |i: int| depths.last())).push(after)
}

/// Appending a whole instruction keeps the depths fitting, when the
/// instruction finds what it reads at the depth where the code ended, its
/// fall-through depth is right, and it is no branch or a pending one or one
/// that goes to an offset of its depth.
pub proof fn lemma_append_depths(
    code: Seq<u8>,
    ins: Seq<u8>,
    depths: Seq<int>,
    p: Set<int>,
    p2: Set<int>,
    after: int,
)
    requires
        decodes(code),
        ins.len() > 0,
        ins[0] < OPCODE_COUNT,
        ins.len() == instruction_len(ins[0]),
        depths_fit(code, depths, p),
        p.subset_of(p2),
        0 <= stack_need(ins[0]) <= depths.last(),
        names_slot(ins[0]) ==> ins[1] < depths.last(),
        falls_through(ins[0]) ==> after == depths.last() + stack_net(ins[0]),
        is_branch(ins[0]) ==> p2.contains(code.len() + 1int) || ({
            let t = branch_target(code + ins, code.len() as int);
            0 <= t <= code.len() && depths[t] == depths.last()
        }),
    ensures
        depths_fit(code + ins, extend_depths(depths, ins.len() as int, after), p2),
{
    let c = code + ins;
    let d2 = extend_depths(depths, ins.len() as int, after);
    lemma_append_instruction(code, ins);
    assert(d2.len() == c.len() + 1);
    assert forall|i: int| 0 <= i <= code.len() implies d2[i] == depths[i] by {}
    assert(d2[c.len() as int] == after);
    assert forall|k: int| #[trigger] instruction_start(c, k) implies {
        &&& 0 <= stack_need(c[k]) <= d2[k]
        &&& names_slot(c[k]) ==> c[k + 1] < d2[k]
        &&& falls_through(c[k]) ==> d2[k + instruction_len(c[k])] == d2[k] + stack_net(c[k])
        &&& is_branch(c[k]) && !p2.contains(k + 1) ==> {
            &&& 0 <= branch_target(c, k) <= c.len()
            &&& d2[branch_target(c, k)] == d2[k]
        }
    } by {
        lemma_append_new_start(code, ins, k);
        if k < code.len() {
            lemma_start_fits(code, 0, k);
            assert(c[k] == code[k]);
            if names_slot(code[k]) {
                crate::common::lemma_opcode_byte_roundtrip(OpCode::GetLocal, 0);
                crate::common::lemma_opcode_byte_roundtrip(OpCode::SetLocal, 0);
                assert(c[k + 1] == code[k + 1]);
            }
            if is_branch(code[k]) {
                assert(instruction_len(code[k]) == 3) by {
                    crate::common::lemma_opcode_byte_roundtrip(OpCode::Jump, 0);
                    crate::common::lemma_opcode_byte_roundtrip(OpCode::JumpIfFalse, 0);
                    crate::common::lemma_opcode_byte_roundtrip(OpCode::Loop, 0);
                }
                assert(c[k + 1] == code[k + 1] && c[k + 2] == code[k + 2]);
                assert(branch_target(c, k) == branch_target(code, k));
            }
        } else {
            assert(k == code.len());
            assert(c[k] == ins[0]);
            assert(d2[k] == depths.last());
            if names_slot(ins[0]) {
                crate::common::lemma_opcode_byte_roundtrip(OpCode::GetLocal, 0);
                crate::common::lemma_opcode_byte_roundtrip(OpCode::SetLocal, 0);
                assert(c[k + 1] == ins[1]);
            }
        }
    }
}

/// Patching the operands of branch `j` so that it goes to an offset of its
/// own depth keeps the depths fitting, and the branch is no longer pending.
pub proof fn lemma_patch_depths(code: Seq<u8>, j: int, x: u8, y: u8, depths: Seq<int>, p: Set<int>)
    requires
        decodes(code),
        instruction_start(code, j),
        is_branch(code[j]),
        instruction_len(code[j]) == 3,
        depths_fit(code, depths, p),
        ({
            let t = branch_target(code.update(j + 1, x).update(j + 2, y), j);
            0 <= t <= code.len() && depths[t] == depths[j]
        }),
    ensures
        depths_fit(code.update(j + 1, x).update(j + 2, y), depths, p.remove(j + 1)),
{
    let b = code.update(j + 1, x).update(j + 2, y);
    lemma_start_fits(code, 0, j);
    lemma_patch_operands(code, j, x, y);
    assert forall|k: int| #[trigger] instruction_start(b, k) implies {
        &&& 0 <= stack_need(b[k]) <= depths[k]
        &&& names_slot(b[k]) ==> b[k + 1] < depths[k]
        &&& falls_through(b[k]) ==> depths[k + instruction_len(b[k])] == depths[k] + stack_net(b[k])
        &&& is_branch(b[k]) && !p.remove(j + 1).contains(k + 1) ==> {
            &&& 0 <= branch_target(b, k) <= b.len()
            &&& depths[branch_target(b, k)] == depths[k]
        }
    } by {
        if k != j {
            lemma_patch_others(code, j, x, y, k);
            lemma_start_fits(code, 0, k);
            crate::common::lemma_opcode_byte_roundtrip(OpCode::GetLocal, 0);
            crate::common::lemma_opcode_byte_roundtrip(OpCode::SetLocal, 0);
            if is_branch(code[k]) {
                assert(instruction_len(code[k]) == 3) by {
                    crate::common::lemma_opcode_byte_roundtrip(OpCode::Jump, 0);
                    crate::common::lemma_opcode_byte_roundtrip(OpCode::JumpIfFalse, 0);
                    crate::common::lemma_opcode_byte_roundtrip(OpCode::Loop, 0);
                }
                assert(branch_target(b, k) == branch_target(code, k));
            }
        } else {
            assert(b[j] == code[j]);
            crate::common::lemma_opcode_byte_roundtrip(OpCode::Jump, 0);
            crate::common::lemma_opcode_byte_roundtrip(OpCode::JumpIfFalse, 0);
            crate::common::lemma_opcode_byte_roundtrip(OpCode::Loop, 0);
        }
    }
}

} // verus!
