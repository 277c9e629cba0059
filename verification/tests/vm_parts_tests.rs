use rlox::common::{Constant, OpCode};
use rlox::gc::Trace;
use rlox::object::ObjString;
use rlox::vm::heap::LoxHeap;
use rlox::vm::vm::{GlobalIndices, Stack, VMError};
use rlox::vm::{Chunk, Interner};

#[test]
fn opcode_bytes_round_trip() {
    for b in 0u8..38 {
        let op = OpCode::from_byte(b);
        assert_eq!(op.to_byte(), b);
        assert_eq!(u8::from(op), b);
    }
    assert_eq!(OpCode::Constant.to_byte(), 0);
    assert_eq!(OpCode::Return.to_byte(), 19);
    assert_eq!(OpCode::SwitchEq.to_byte(), 37);
}

#[test]
fn opcode_operand_counts() {
    assert_eq!(OpCode::Constant.operand_count(), 1);
    assert_eq!(OpCode::Add.operand_count(), 0);
    assert_eq!(OpCode::Invoke.operand_count(), 2);
    assert_eq!(OpCode::Jump.operand_count(), 2);
    assert_eq!(OpCode::GetLocal.operand_count(), 1);
}

#[test]
fn chunk_records_lines_per_byte() {
    let mut chunk = Chunk::new();
    chunk.write_byte(OpCode::Nil.to_byte(), 1);
    chunk.write_byte(OpCode::Pop.to_byte(), 1);
    chunk.write_byte(OpCode::True.to_byte(), 3);
    chunk.write_byte(OpCode::Return.to_byte(), 4);
    assert_eq!(chunk.code.len(), 4);
    assert_eq!(chunk.get_line(0), 1);
    assert_eq!(chunk.get_line(1), 1);
    assert_eq!(chunk.get_line(2), 3);
    assert_eq!(chunk.get_line(3), 4);
}

#[test]
fn chunk_constant_index_wraps_at_a_byte() {
    let mut chunk = Chunk::new();
    for i in 0..256usize {
        let idx = chunk.add_constant(Constant::String(i));
        assert_eq!(idx as usize, i);
    }
    let idx = chunk.add_constant(Constant::Number(b"1".to_vec()));
    assert_eq!(idx, 0);
    assert_eq!(chunk.constants.len(), 257);
}

#[test]
fn chunk_patch_and_read_short() {
    let mut chunk = Chunk::new();
    chunk.write_byte(OpCode::Jump.to_byte(), 1);
    chunk.write_byte(255, 1);
    chunk.write_byte(255, 1);
    assert_eq!(chunk.read_short(1), 0xffff);
    chunk.patch(1, 0x12);
    chunk.patch(2, 0x34);
    assert_eq!(chunk.read_short(1), 0x1234);
    assert_eq!(chunk.get_line(2), 1);
}

#[test]
fn chunk_instruction_info_for_disassembly() {
    let mut chunk = Chunk::new();
    chunk.write_byte(OpCode::Constant.to_byte(), 1);
    chunk.write_byte(0, 1);
    chunk.write_byte(OpCode::Jump.to_byte(), 2);
    chunk.write_byte(0, 2);
    chunk.write_byte(3, 2);
    chunk.write_byte(OpCode::Closure.to_byte(), 2);
    let a = chunk.instruction_info(0);
    assert_eq!(a.opcode, OpCode::Constant);
    assert_eq!(a.operand_count, 1);
    assert_eq!(a.line, 1);
    assert!(!a.same_line);
    let b = chunk.instruction_info(2);
    assert_eq!(b.opcode, OpCode::Jump);
    assert_eq!(b.operand_count, 2);
    assert!(!b.same_line);
    let c = chunk.instruction_info(5);
    assert_eq!(c.opcode, OpCode::Closure);
    assert_eq!(c.operand_count, 1);
    assert!(c.same_line);
    assert_eq!(chunk.instruction_size(5), 1);
}

#[test]
fn interner_gives_one_id_per_text() {
    let mut interner = Interner::new();
    let a = interner.intern("alpha");
    let b = interner.intern("beta");
    let a2 = interner.intern("alpha");
    let b2 = interner.intern_bytes(b"beta");
    assert_eq!(a, a2);
    assert_eq!(b, b2);
    assert_ne!(a, b);
    assert_eq!(interner.len(), 2);
    assert_eq!(interner.get(a).str, b"alpha".to_vec());
    assert_eq!(interner.get(b).str, b"beta".to_vec());
}

#[test]
fn lox_heap_interns_strings_once() {
    let mut heap: LoxHeap<ObjString> = LoxHeap::new();
    let a = heap.intern("hello");
    let b = heap.intern("hello");
    let c = heap.intern_bytes(b"world");
    assert!(a.same(&b));
    assert!(!a.same(&c));
    assert_eq!(heap.string(a).str, b"hello".to_vec());
    assert_eq!(heap.string(c).str, b"world".to_vec());
}

#[test]
fn lox_heap_collect_drops_unrooted_strings_from_the_table() {
    let mut heap: LoxHeap<ObjString> = LoxHeap::new();
    let kept = heap.intern("kept");
    let dropped = heap.intern("dropped");
    let obj = heap.allocate(ObjString { str: b"object".to_vec() });
    heap.collect(&Some(obj), &Some(kept));
    assert_eq!(heap.get(obj).str, b"object".to_vec());
    assert!(heap.intern("kept").same(&kept));
    // the dropped text is interned anew, in a fresh slot
    let again = heap.intern("dropped");
    assert!(!again.same(&dropped));
    assert_eq!(heap.string(again).str, b"dropped".to_vec());
}

#[test]
fn lox_heap_asks_for_collection_past_the_threshold() {
    let heap: LoxHeap<ObjString> = LoxHeap::new();
    assert!(!heap.should_collect());
}

#[test]
fn stack_pushes_and_pops_in_order() {
    let mut stack: Stack<u64, 4> = Stack::new();
    assert!(stack.is_empty());
    assert_eq!(stack.capacity(), 4);
    stack.push(1);
    stack.push(2);
    stack.push(3);
    assert_eq!(stack.len(), 3);
    assert_eq!(stack.top(), 3);
    assert_eq!(stack.peek(0), 3);
    assert_eq!(stack.peek(2), 1);
    assert_eq!(stack.pop(), 3);
    assert_eq!(stack.pop(), 2);
    assert_eq!(stack.len(), 1);
    stack.push(7);
    stack.push(8);
    stack.push(9);
    assert!(stack.is_full());
    assert_eq!(stack.get(0), 1);
    stack.set(0, 5);
    assert_eq!(stack.get(0), 5);
    stack.truncate(1);
    assert_eq!(stack.len(), 1);
    assert_eq!(stack.top(), 5);
    stack.clear();
    assert_eq!(stack.len(), 1);
    assert_eq!(stack.get(0), 0);
    assert_eq!(stack.get(3), 0);
}

#[test]
fn popped_slot_is_reset() {
    let mut stack: Stack<u64, 2> = Stack::new();
    stack.push(4);
    assert_eq!(stack.pop(), 4);
    assert_eq!(stack.get(0), 0);
}

#[test]
fn stack_traces_the_values_in_use() {
    let mut stack: Stack<usize, 3> = Stack::new();
    stack.push(1);
    stack.push(2);
    let refs = stack.trace();
    assert!(refs.is_empty());
}

#[test]
fn globals_start_empty() {
    let globals = GlobalIndices::new();
    assert!(globals.0.is_empty());
}

#[test]
fn runtime_error_carries_its_message() {
    let e = VMError::RuntimeError("Operands must be numbers.".to_string());
    match e {
        VMError::RuntimeError(m) => assert_eq!(m, "Operands must be numbers."),
        VMError::CompileError(_) => panic!("wrong variant"),
    }
}

#[test]
fn disassembly_walks_whole_instructions() {
    let mut chunk = Chunk::new();
    chunk.write_byte(OpCode::Constant.to_byte(), 1);
    chunk.write_byte(0, 1);
    chunk.write_byte(OpCode::JumpIfFalse.to_byte(), 1);
    chunk.write_byte(0, 1);
    chunk.write_byte(1, 1);
    chunk.write_byte(OpCode::Print.to_byte(), 2);
    chunk.write_byte(OpCode::Return.to_byte(), 2);
    assert!(chunk.is_decodable());
    let infos = chunk.disassembly();
    let offsets: Vec<usize> = infos.iter().map(|i| i.offset).collect();
    assert_eq!(offsets, vec![0, 2, 5, 6]);
    assert_eq!(infos[1].opcode, OpCode::JumpIfFalse);
    assert_eq!(infos[1].operand_count, 2);
    assert_eq!(infos[2].line, 2);
    assert!(!infos[2].same_line);
    assert!(infos[3].same_line);
}

#[test]
fn truncated_or_unknown_code_does_not_decode() {
    let mut chunk = Chunk::new();
    chunk.write_byte(OpCode::Jump.to_byte(), 1);
    chunk.write_byte(0, 1);
    assert!(!chunk.is_decodable());
    let mut other = Chunk::new();
    other.write_byte(200, 1);
    assert!(!other.is_decodable());
    assert!(Chunk::new().is_decodable());
    assert!(Chunk::new().disassembly().is_empty());
}

#[test]
fn chunk_listing_shows_every_byte() {
    let mut chunk = Chunk::new();
    chunk.write_byte(OpCode::Constant.to_byte(), 1);
    chunk.write_byte(12, 1);
    chunk.write_byte(OpCode::Return.to_byte(), 1);
    assert_eq!(chunk.to_text(), "=== Chunk ===\n0000 0\n0001 12\n0002 19\n");
    assert_eq!(Chunk::new().to_text(), "=== Chunk ===\n");
}

#[test]
fn every_written_byte_keeps_its_line() {
    let mut chunk = rlox::vm::Chunk::new();
    let lines = [1usize, 1, 2, 2, 2, 5, 7, 7];
    for (i, line) in lines.iter().enumerate() {
        chunk.write_byte(i as u8, *line);
    }
    for (i, line) in lines.iter().enumerate() {
        assert_eq!(chunk.get_line(i), *line);
    }
    assert_eq!(rlox::vm::Chunk::new().get_line(0), 0);
}
