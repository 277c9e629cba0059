use rlox::common::{Constant, OpCode};
use rlox::compiler::compiler::{CompileError, Compiler, ErrorLocation};
use rlox::vm::vm::{GlobalIndices, VMError};
use rlox::vm::{Chunk, Interner};

fn op(o: OpCode) -> u8 {
    o.to_byte()
}

fn compile_with(source: &str, interner: &mut Interner, globals: &mut GlobalIndices) -> Result<Chunk, VMError> {
    Compiler::compile(source, interner, globals)
}

fn compile_ok(source: &str) -> (Chunk, Interner, GlobalIndices) {
    let mut interner = Interner::new();
    let mut globals = GlobalIndices::new();
    match compile_with(source, &mut interner, &mut globals) {
        Ok(chunk) => (chunk, interner, globals),
        Err(_) => panic!("expected {:?} to compile", source),
    }
}

fn compile_errors(source: &str) -> Vec<CompileError> {
    let mut interner = Interner::new();
    let mut globals = GlobalIndices::new();
    match compile_with(source, &mut interner, &mut globals) {
        Ok(_) => panic!("expected {:?} to fail", source),
        Err(VMError::CompileError(errors)) => errors,
        Err(VMError::RuntimeError(_)) => panic!("no runtime error from the compiler"),
    }
}

fn number(c: &Constant) -> String {
    match c {
        Constant::Number(digits) => String::from_utf8(digits.clone()).unwrap(),
        Constant::String(_) => panic!("not a number"),
    }
}

#[test]
fn empty_source_is_just_return() {
    let (chunk, _, _) = compile_ok("");
    assert_eq!(chunk.code, vec![op(OpCode::Return)]);
}

#[test]
fn compiles_arithmetic_with_precedence() {
    let (chunk, _, _) = compile_ok("print 1 + 2 * 3;");
    assert_eq!(
        chunk.code,
        vec![
            op(OpCode::Constant),
            0,
            op(OpCode::Constant),
            1,
            op(OpCode::Constant),
            2,
            op(OpCode::Multiply),
            op(OpCode::Add),
            op(OpCode::Print),
            op(OpCode::Return),
        ]
    );
    assert_eq!(chunk.constants.len(), 3);
    assert_eq!(number(&chunk.constants[0]), "1");
    assert_eq!(number(&chunk.constants[1]), "2");
    assert_eq!(number(&chunk.constants[2]), "3");
}

#[test]
fn grouping_overrides_precedence() {
    let (chunk, _, _) = compile_ok("print (1 + 2) * 3;");
    assert_eq!(
        chunk.code,
        vec![
            op(OpCode::Constant),
            0,
            op(OpCode::Constant),
            1,
            op(OpCode::Add),
            op(OpCode::Constant),
            2,
            op(OpCode::Multiply),
            op(OpCode::Print),
            op(OpCode::Return),
        ]
    );
}

#[test]
fn unary_and_comparison_operators() {
    let (chunk, _, _) = compile_ok("print !(1 <= -2);");
    assert_eq!(
        chunk.code,
        vec![
            op(OpCode::Constant),
            0,
            op(OpCode::Constant),
            1,
            op(OpCode::Negate),
            op(OpCode::Greater),
            op(OpCode::Not),
            op(OpCode::Not),
            op(OpCode::Print),
            op(OpCode::Return),
        ]
    );
}

#[test]
fn literals_compile_to_their_opcodes() {
    let (chunk, _, _) = compile_ok("true; false; nil;");
    assert_eq!(
        chunk.code,
        vec![
            op(OpCode::True),
            op(OpCode::Pop),
            op(OpCode::False),
            op(OpCode::Pop),
            op(OpCode::Nil),
            op(OpCode::Pop),
            op(OpCode::Return),
        ]
    );
}

#[test]
fn global_definition_gets_a_slot() {
    let (chunk, interner, globals) = compile_ok("var x = 1;");
    assert_eq!(
        chunk.code,
        vec![op(OpCode::Constant), 0, op(OpCode::DefineGlobal), 0, op(OpCode::Return)]
    );
    assert_eq!(interner.len(), 1);
    assert_eq!(interner.get(0).str, b"x".to_vec());
    assert_eq!(globals.0.get(&0), Some(&0u8));
}

#[test]
fn global_without_initializer_is_nil() {
    let (chunk, _, _) = compile_ok("var y;");
    assert_eq!(chunk.code, vec![op(OpCode::Nil), op(OpCode::DefineGlobal), 0, op(OpCode::Return)]);
}

#[test]
fn globals_keep_their_slots_across_sources() {
    let mut interner = Interner::new();
    let mut globals = GlobalIndices::new();
    let first = compile_with("var a = 1; var b = 2;", &mut interner, &mut globals).ok().unwrap();
    assert_eq!(
        first.code,
        vec![
            op(OpCode::Constant),
            0,
            op(OpCode::DefineGlobal),
            0,
            op(OpCode::Constant),
            1,
            op(OpCode::DefineGlobal),
            1,
            op(OpCode::Return),
        ]
    );
    let second = compile_with("b = a;", &mut interner, &mut globals).ok().unwrap();
    assert_eq!(
        second.code,
        vec![op(OpCode::GetGlobal), 0, op(OpCode::SetGlobal), 1, op(OpCode::Pop), op(OpCode::Return)]
    );
    assert_eq!(globals.0.len(), 2);
}

#[test]
fn locals_live_on_the_stack_and_are_popped() {
    let (chunk, _, globals) = compile_ok("{ var a = 1; print a; }");
    assert_eq!(
        chunk.code,
        vec![
            op(OpCode::Constant),
            0,
            op(OpCode::GetLocal),
            0,
            op(OpCode::Print),
            op(OpCode::Pop),
            op(OpCode::Return),
        ]
    );
    assert_eq!(globals.0.len(), 0);
}

#[test]
fn inner_local_shadows_outer() {
    let (chunk, _, _) = compile_ok("{ var a = 1; { var a = 2; a = 3; } }");
    assert_eq!(
        chunk.code,
        vec![
            op(OpCode::Constant),
            0,
            op(OpCode::Constant),
            1,
            op(OpCode::Constant),
            2,
            op(OpCode::SetLocal),
            1,
            op(OpCode::Pop),
            op(OpCode::Pop),
            op(OpCode::Pop),
            op(OpCode::Return),
        ]
    );
}

#[test]
fn string_literal_is_interned_without_quotes() {
    let (chunk, interner, _) = compile_ok("print \"hi\";");
    assert_eq!(chunk.code, vec![op(OpCode::Constant), 0, op(OpCode::Print), op(OpCode::Return)]);
    match &chunk.constants[0] {
        Constant::String(id) => assert_eq!(interner.get(*id).str, b"hi".to_vec()),
        Constant::Number(_) => panic!("expected a string constant"),
    }
}

#[test]
fn if_statement_jumps_are_patched() {
    let (chunk, _, _) = compile_ok("if (true) print 1;");
    assert_eq!(
        chunk.code,
        vec![
            op(OpCode::True),
            op(OpCode::JumpIfFalse),
            0,
            7,
            op(OpCode::Pop),
            op(OpCode::Constant),
            0,
            op(OpCode::Print),
            op(OpCode::Jump),
            0,
            1,
            op(OpCode::Pop),
            op(OpCode::Return),
        ]
    );
    // the false branch lands on the Pop after the then-branch
    assert_eq!(4 + chunk.read_short(2) as usize, 11);
}

#[test]
fn while_loop_jumps_back_to_its_condition() {
    let (chunk, _, _) = compile_ok("while (false) print 1;");
    assert_eq!(
        chunk.code,
        vec![
            op(OpCode::False),
            op(OpCode::JumpIfFalse),
            0,
            7,
            op(OpCode::Pop),
            op(OpCode::Constant),
            0,
            op(OpCode::Print),
            op(OpCode::Loop),
            0,
            11,
            op(OpCode::Pop),
            op(OpCode::Return),
        ]
    );
    // after reading the Loop's operand the machine is at 11; 11 back is the start
    assert_eq!(11 - chunk.read_short(9) as usize, 0);
}

#[test]
fn for_loop_compiles_and_pops_its_variable() {
    let (chunk, _, _) = compile_ok("for (var i = 0; i < 3; i = i + 1) print i;");
    assert_eq!(chunk.code.last(), Some(&op(OpCode::Return)));
    assert_eq!(chunk.code[chunk.code.len() - 2], op(OpCode::Pop));
    assert!(chunk.code.contains(&op(OpCode::Loop)));
}

#[test]
fn and_or_short_circuit_with_jumps() {
    let (chunk, _, _) = compile_ok("print true and false or nil;");
    assert_eq!(
        chunk.code,
        vec![
            op(OpCode::True),
            op(OpCode::JumpIfFalse),
            0,
            2,
            op(OpCode::Pop),
            op(OpCode::False),
            op(OpCode::JumpIfFalse),
            0,
            3,
            op(OpCode::Jump),
            0,
            2,
            op(OpCode::Pop),
            op(OpCode::Nil),
            op(OpCode::Print),
            op(OpCode::Return),
        ]
    );
}

#[test]
fn switch_compiles_cases_and_default() {
    let (chunk, _, _) = compile_ok("switch (1) { case 1: print 1; default: print 2; }");
    assert_eq!(chunk.code.last(), Some(&op(OpCode::Return)));
    assert!(chunk.code.contains(&op(OpCode::SwitchEq)));
}

#[test]
fn missing_semicolon_is_reported_at_the_last_token() {
    let errors = compile_errors("print 1");
    assert_eq!(errors.len(), 1);
    assert_eq!(errors[0].message, "Expected ';' after value.");
    assert_eq!(errors[0].line, 1);
    match &errors[0].location {
        ErrorLocation::Lexeme(l) => assert_eq!(l, "1"),
        _ => panic!("expected a lexeme location"),
    }
}

#[test]
fn missing_expression_is_reported() {
    let errors = compile_errors("print ;");
    assert_eq!(errors[0].message, "Expected expression.");
}

#[test]
fn invalid_assignment_target_is_reported() {
    let errors = compile_errors("1 = 2;");
    assert_eq!(errors[0].message, "Invalid assignment target.");
    // inside a binary operand the target check sees the operand's own
    // precedence, and the '=' is then reported as a missing semicolon
    let errors = compile_errors("1 + 2 = 3;");
    assert_eq!(errors[0].message, "Expected ';' after expression.");
    let errors = compile_errors("a * b = c;");
    assert_eq!(errors[0].message, "Expected ';' after expression.");
}

#[test]
fn redeclared_local_is_reported() {
    let errors = compile_errors("{ var a = 1; var a = 2; }");
    assert_eq!(errors[0].message, "Already a variable with this name in this scope.");
}

#[test]
fn local_in_its_own_initializer_is_reported() {
    let errors = compile_errors("{ var a = a; }");
    assert_eq!(errors[0].message, "Can't read local variable in its own initializer.");
}

#[test]
fn unclosed_block_is_reported_at_the_last_token() {
    let errors = compile_errors("{ print 1;");
    assert_eq!(errors[0].message, "Expected '}' after block.");
    match &errors[0].location {
        ErrorLocation::Lexeme(l) => assert_eq!(l, ";"),
        _ => panic!("expected a lexeme location"),
    }
}

#[test]
fn scanner_errors_become_compile_errors() {
    let errors = compile_errors("print @;");
    assert_eq!(errors[0].message, "unexpected token @");
}

#[test]
fn errors_recover_at_statement_boundaries() {
    let errors = compile_errors("print ; print ;");
    assert_eq!(errors.len(), 2);
    assert_eq!(errors[1].message, "Expected expression.");
}

#[test]
fn switch_without_cases_closing_is_reported() {
    let errors = compile_errors("switch (1) { print 1; }");
    assert_eq!(errors[0].message, "Expected '}' after switch cases.");
}

#[test]
fn compiled_code_decodes_into_instructions() {
    let (chunk, _, _) = compile_ok("var a = 1; if (a < 2) { print a; } else { a = 3; } while (false) print 0;");
    assert!(chunk.is_decodable());
    let infos = chunk.disassembly();
    assert_eq!(infos[0].opcode, OpCode::Constant);
    assert_eq!(infos.last().unwrap().opcode, OpCode::Return);
}

#[test]
fn compiled_branches_land_on_instructions() {
    let source = "var i = 0; while (i < 3) { if (i == 1) print i; else print -i; i = i + 1; }
                  for (var j = 0; j < 2; j = j + 1) { switch (j) { case 0: print \"zero\"; default: print j; } }
                  print true and false or nil;";
    let (chunk, _, _) = compile_ok(source);
    let infos = chunk.disassembly();
    let starts: Vec<usize> = infos.iter().map(|i| i.offset).collect();
    let mut branches = 0;
    for info in &infos {
        let after = info.offset + 3;
        let target = match info.opcode {
            OpCode::Jump | OpCode::JumpIfFalse => after + chunk.read_short(info.offset + 1) as usize,
            OpCode::Loop => after - chunk.read_short(info.offset + 1) as usize,
            _ => continue,
        };
        branches += 1;
        assert!(starts.contains(&target), "branch at {} lands at {}", info.offset, target);
    }
    assert!(branches >= 8);
    assert_eq!(infos.last().unwrap().opcode, OpCode::Return);
}

/// What an instruction reads from the stack, and how much deeper the stack
/// is after it (the value the host pushes included).
fn stack_effect(o: OpCode) -> (i64, i64) {
    match o {
        OpCode::Constant | OpCode::Nil | OpCode::True | OpCode::False | OpCode::GetLocal
        | OpCode::GetGlobal => (0, 1),
        OpCode::Add | OpCode::Subtract | OpCode::Multiply | OpCode::Divide | OpCode::Greater
        | OpCode::Less | OpCode::Equal => (2, -1),
        OpCode::SwitchEq => (2, 0),
        OpCode::Print | OpCode::Pop | OpCode::DefineGlobal => (1, -1),
        OpCode::Negate | OpCode::Not | OpCode::SetLocal | OpCode::SetGlobal | OpCode::JumpIfFalse => (1, 0),
        _ => (0, 0),
    }
}

#[test]
fn compiled_code_has_one_stack_depth_per_instruction() {
    let source = "var g = 1; { var a = 2; var i = 0; while (i < 3) { var t = i * a; if (t > 2 and a == 2 or false) print t; else { var u = -t; print u; } i = i + 1; } }
                  for (var j = 0; j < 2; j = j + 1) { var k = j; switch (k) { case 0: { var z = k; print z; } case 1: print \"one\"; default: print k; } }
                  g = g + 1; print g;";
    let (chunk, _, _) = compile_ok(source);
    let infos = chunk.disassembly();
    let mut depth: Vec<Option<i64>> = vec![None; chunk.code.len() + 1];
    depth[0] = Some(0);
    let mut changed = true;
    while changed {
        changed = false;
        for info in &infos {
            let d = match depth[info.offset] {
                Some(d) => d,
                None => continue,
            };
            let (need, net) = stack_effect(info.opcode);
            assert!(d >= need, "instruction at {} reads {} of {}", info.offset, need, d);
            if info.opcode == OpCode::GetLocal || info.opcode == OpCode::SetLocal {
                assert!((chunk.code[info.offset + 1] as i64) < d, "slot past the top at {}", info.offset);
            }
            let after = info.offset + 3;
            let mut next = Vec::new();
            match info.opcode {
                OpCode::Jump => next.push((after + chunk.read_short(info.offset + 1) as usize, d)),
                OpCode::Loop => next.push((after - chunk.read_short(info.offset + 1) as usize, d)),
                OpCode::JumpIfFalse => {
                    next.push((after + chunk.read_short(info.offset + 1) as usize, d));
                    next.push((after, d));
                }
                OpCode::Return => {}
                _ => next.push((info.offset + 1 + info.operand_count, d + net)),
            }
            for (t, nd) in next {
                match depth[t] {
                    Some(old) => assert_eq!(old, nd, "offset {} is reached at two depths", t),
                    None => {
                        depth[t] = Some(nd);
                        changed = true;
                    }
                }
            }
        }
    }
    let last = infos.last().unwrap();
    assert_eq!(last.opcode, OpCode::Return);
    assert_eq!(depth[last.offset], Some(0));
}

#[test]
fn nesting_past_the_scope_counter_is_an_error() {
    let source = format!("{}var x = 1;{}", "{".repeat(256), "}".repeat(256));
    let errors = compile_errors(&source);
    assert_eq!(errors[0].message, "Too many nested scopes.");
}

#[test]
fn the_deepest_nesting_the_scope_counter_holds_compiles() {
    let source = format!("{}print 1;{}", "{".repeat(255), "}".repeat(255));
    let (chunk, _, _) = compile_ok(&source);
    assert_eq!(chunk.code.last(), Some(&op(OpCode::Return)));
}

#[test]
fn unary_binds_tighter_than_binary_operators() {
    let (chunk, _, _) = compile_ok("-1 + 2;");
    assert_eq!(
        chunk.code,
        vec![op(OpCode::Constant), 0, op(OpCode::Negate), op(OpCode::Constant), 1, op(OpCode::Add), op(OpCode::Pop), op(OpCode::Return)]
    );
    let (chunk, _, _) = compile_ok("!true == false;");
    assert_eq!(chunk.code[..3], [op(OpCode::True), op(OpCode::Not), op(OpCode::False)]);
}
