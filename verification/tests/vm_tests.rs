use rlox::common::Value;
use rlox::vm::vm::{Action, Arith, Fault, VMError, VMResult};
use rlox::vm::VM;

/// Runs the machine to the end, doing the number work it hands out with
/// `f64`, and appending what it prints to `out`.
fn interpret(vm: &mut VM<f64>, source: &str, out: &mut String) -> VMResult {
    vm.load(source)?;
    loop {
        match vm.step() {
            Action::Continue => {}
            Action::Print(v) => {
                out.push_str(&show(vm, v));
                out.push('\n');
            }
            Action::ParseNumber(k) => {
                let digits = vm.number_digits(k).unwrap();
                let n: f64 = std::str::from_utf8(digits).unwrap().parse().unwrap();
                vm.push_number(n);
            }
            Action::Negate(x) => vm.push_number(-x),
            Action::Arithmetic(op, a, b) => match op {
                Arith::Add => vm.push_number(a + b),
                Arith::Subtract => vm.push_number(a - b),
                Arith::Multiply => vm.push_number(a * b),
                Arith::Divide => vm.push_number(a / b),
                Arith::Greater => vm.push_bool(a > b),
                Arith::Less => vm.push_bool(a < b),
                Arith::Equal => vm.push_bool(a == b),
            },
            Action::Done => return Ok(()),
            Action::Error(fault, line) => return Err(VMError::RuntimeError(fault.report(line))),
        }
    }
}

fn show(vm: &VM<f64>, v: Value<f64>) -> String {
    match v {
        Value::Nil => "nil".to_string(),
        Value::Bool(b) => b.to_string(),
        Value::Number(n) => n.to_string(),
        Value::String(id) => String::from_utf8_lossy(vm.string_text(id).unwrap()).into_owned(),
    }
}

fn run(source: &str) -> String {
    let mut output = String::new();
    let mut vm = VM::new();
    interpret(&mut vm, source, &mut output).unwrap();
    output
}

fn run_repl(lines: &[&str]) -> String {
    let mut output = String::new();
    let mut vm = VM::new();
    for line in lines {
        interpret(&mut vm, line, &mut output).unwrap();
    }
    output
}

fn run_result(source: &str) -> VMResult {
    let mut output = String::new();
    let mut vm = VM::new();
    interpret(&mut vm, source, &mut output)
}

fn runtime_message(r: VMResult) -> String {
    match r {
        Err(VMError::RuntimeError(m)) => m,
        Err(VMError::CompileError(_)) => panic!("expected a runtime error, got a compile error"),
        Ok(()) => panic!("expected a runtime error"),
    }
}

#[test]
fn test_string_interning() {
    let output = run(r#"
        var x = "hello";
        var y = "hello";
        print x == y;
    "#);
    assert_eq!(output.trim(), "true");
}

#[test]
fn test_global_variable_definition() {
    let output = run_repl(&["var x = 1+2;", "print x;"]);
    assert_eq!(output.trim(), "3");
}

#[test]
fn test_global_variable_reassignment() {
    let output = run_repl(&["var x = 1;", "x = 2;", "print x;"]);
    assert_eq!(output.trim(), "2");
}

#[test]
fn test_global_variable_uninitialized() {
    let output = run(r#"
        var x;
        print x;
    "#);
    assert_eq!(output.trim(), "nil")
}

#[test]
fn test_undefined_variable_is_runtime_error() {
    let result = run_result("print undefined;");
    assert!(result.is_err());
}

#[test]
fn test_type_error_in_arithmetic() {
    let result = run_result(r#"print "string" - 1;"#);
    assert!(result.is_err());
}

#[test]
fn test_local_variable_scoping() {
    let output = run(r#"
        var x = "global";
        {
            var x = "local";
            print x;
        }
        print x;
    "#);
    assert_eq!(output, "local\nglobal\n");
}

#[test]
fn test_local_variable_not_visible_outside_scope() {
    let result = run_result(
        r#"
        {
            var x = "local";
        }
        print x;
    "#,
    );
    assert!(result.is_err());
}

#[test]
fn test_string_concatenation() {
    let output = run(r#"
        var a = "hello";
        var b = " world";
        print a + b;
    "#);
    assert_eq!(output.trim(), "hello world");
}

#[test]
fn test_if_else() {
    let output = run(r#"
        if (true) print "yes"; else print "no";
        if (false) print "yes"; else print "no";
    "#);
    assert_eq!(output, "yes\nno\n");
}

#[test]
fn test_while_loop() {
    let output = run(r#"
        var i = 0;
        while (i < 3) {
            print i;
            i = i + 1;
        }
    "#);
    assert_eq!(output, "0\n1\n2\n");
}

#[test]
fn test_for_loop() {
    let output = run(r#"
        for (var i = 0; i < 3; i = i + 1) {
            print i;
        }
    "#);
    assert_eq!(output, "0\n1\n2\n");
}

#[test]
fn test_switch_basic_match() {
    let output = run(r#"
        switch(1+2) {
            case 1: print "one";
            case 2: print "two";
            case 3: print "three";
            case 4: print "four";
            default: print "default";
        }
    "#);
    assert_eq!(output.trim(), "three");
}

#[test]
fn test_switch_no_fallthrough() {
    let output = run(r#"
        switch (1) {
            case 1: print "one";
            case 1: print "also one";
        }
    "#);
    assert_eq!(output.trim(), "one");
}

#[test]
fn test_switch_no_match_no_default() {
    let output = run(r#"
        switch (3) {
            case 1: print "one";
            case 2: print "two";
        }
    "#);
    assert_eq!(output.trim(), "");
}

#[test]
fn test_switch_default() {
    let output = run(r#"
        switch (3) {
            case 1: print "one";
            case 2: print "two";
            default: print "other";
        }
    "#);
    assert_eq!(output.trim(), "other");
}

#[test]
fn test_switch_only_default() {
    let output = run(r#"
        switch (1) {
            default: print "default";
        }
    "#);
    assert_eq!(output.trim(), "default");
}

#[test]
fn test_switch_multiple_statements_in_case() {
    let output = run(r#"
        switch (1) {
            case 1:
                print "a";
                print "b";
                print "c";
            case 2: print "two";
        }
    "#);
    assert_eq!(output, "a\nb\nc\n");
}

#[test]
fn test_switch_does_not_affect_stack() {
    let output = run(r#"
        var x = 1;
        switch (x) {
            case 1: print "one";
        }
        print x;
    "#);
    assert_eq!(output, "one\n1\n");
}

#[test]
fn runtime_error_names_the_line() {
    let m = runtime_message(run_result("var a = 1;\n\nprint -\"x\";"));
    assert_eq!(m, "Operand must be a number.\n[line 3] in script.\n");
}

#[test]
fn adding_a_number_to_a_string_is_an_error() {
    let m = runtime_message(run_result("print 1 + \"a\";"));
    assert!(m.starts_with("Operands must be two numbers or two strings."));
}

#[test]
fn assigning_an_undefined_global_is_an_error() {
    let m = runtime_message(run_result("y = 1;"));
    assert!(m.starts_with("Undefined variable."));
}

#[test]
fn equality_across_kinds() {
    let output = run("print nil == nil; print true == true; print 1 == \"1\"; print nil == false; print 2 == 2; print !nil;");
    assert_eq!(output, "true\ntrue\nfalse\nfalse\ntrue\ntrue\n");
}

#[test]
fn comparisons_and_arithmetic() {
    let output = run("print 1 < 2; print 2 <= 1; print 3 >= 3; print 10 / 4; print 2 * 3 - 1;");
    assert_eq!(output, "true\nfalse\ntrue\n2.5\n5\n");
}

#[test]
fn logical_operators_short_circuit() {
    let output = run("print nil or \"default\"; print false and undefinedname; print 1 and 2;");
    assert_eq!(output, "default\nfalse\n2\n");
}

#[test]
fn fault_empties_the_stack_and_the_machine_runs_again() {
    let mut vm: VM<f64> = VM::new();
    let mut out = String::new();
    assert!(interpret(&mut vm, "var a = 1; print a - \"x\";", &mut out).is_err());
    assert_eq!(vm.stack_len(), 0);
    interpret(&mut vm, "print a;", &mut out).unwrap();
    assert_eq!(out, "1\n");
}

#[test]
fn compile_errors_leave_the_machine_usable() {
    let mut vm: VM<f64> = VM::new();
    let mut out = String::new();
    match interpret(&mut vm, "print ;", &mut out) {
        Err(VMError::CompileError(errors)) => assert_eq!(errors.len(), 1),
        _ => panic!("expected a compile error"),
    }
    interpret(&mut vm, "print 7;", &mut out).unwrap();
    assert_eq!(out, "7\n");
}

#[test]
fn a_step_past_the_end_is_a_fault() {
    let mut vm: VM<f64> = VM::new();
    match vm.step() {
        Action::Error(f, line) => {
            assert_eq!(f, Fault::EndOfCode);
            assert_eq!(line, 0);
        }
        _ => panic!("expected a fault"),
    }
    assert_eq!(Fault::EndOfCode.message(), "Unexpected end of code.");
}

#[test]
fn strings_join_into_one_interned_text() {
    let output = run("var a = \"ab\"; var b = \"a\" + \"b\"; print a == b;");
    assert_eq!(output, "true\n");
}

#[test]
fn fault_report_names_the_line() {
    assert_eq!(Fault::StackOverflow.report(12), "Stack overflow.\n[line 12] in script.\n");
    assert_eq!(Fault::UndefinedVariable.report(0), "Undefined variable.\n[line 0] in script.\n");
}

#[test]
fn compile_errors_are_shown_one_per_line() {
    let mut vm: VM<f64> = VM::new();
    let mut out = String::new();
    let err = interpret(&mut vm, "print ;\nprint 1", &mut out).unwrap_err();
    assert_eq!(
        err.to_text(),
        "[line 1] Error at ';': Expected expression.\n[line 2] Error at '1': Expected ';' after value.\n"
    );
    let rt = VMError::RuntimeError("boom".to_string());
    assert_eq!(rt.to_text(), "boom");
}


#[test]
fn loops_keep_the_stack_level() {
    let source = "{ var a = 1; var i = 0; while (i < 100) { switch (i) { case 1: print a; default: { var b = i; } }
                  if (i < 50 and a == 1 or false) { var c = i + 1; i = c; } else { i = i + 2; } } print i; }";
    let mut vm: VM<f64> = VM::new();
    vm.load(source).unwrap();
    let mut out = String::new();
    let mut deepest = 0;
    loop {
        deepest = deepest.max(vm.stack_len());
        match vm.step() {
            Action::Continue => {}
            Action::Print(v) => out.push_str(&format!("{}\n", show(&vm, v))),
            Action::ParseNumber(k) => {
                let n: f64 = std::str::from_utf8(vm.number_digits(k).unwrap()).unwrap().parse().unwrap();
                vm.push_number(n);
            }
            Action::Negate(x) => vm.push_number(-x),
            Action::Arithmetic(op, a, b) => match op {
                Arith::Add => vm.push_number(a + b),
                Arith::Subtract => vm.push_number(a - b),
                Arith::Multiply => vm.push_number(a * b),
                Arith::Divide => vm.push_number(a / b),
                Arith::Greater => vm.push_bool(a > b),
                Arith::Less => vm.push_bool(a < b),
                Arith::Equal => vm.push_bool(a == b),
            },
            Action::Done => break,
            Action::Error(f, _) => panic!("fault {:?}", f),
        }
    }
    assert_eq!(out, "1\n100\n");
    assert!(deepest <= 6, "the stack reached {}", deepest);
}

#[test]
fn assigning_a_global_is_checked_against_the_table_length_only() {
    // past the globals table an assignment is an error ...
    let message = runtime_message(run_result("x = 3;"));
    assert!(message.starts_with("Undefined variable."), "{}", message);
    // ... while a slot below a defined one is assigned, as the slot table does
    assert_eq!(run("false and a; var b = 1; a = 2; print a;"), "2\n");
}

#[test]
fn load_starts_the_next_run_on_an_empty_stack() {
    let mut vm: VM<f64> = VM::new();
    vm.load("print \"a\" + \"b\";").unwrap();
    // two constants pushed, then the run is left unfinished
    assert!(matches!(vm.step(), Action::Continue));
    assert!(matches!(vm.step(), Action::Continue));
    assert_eq!(vm.stack_len(), 2);
    vm.load("print 1;").unwrap();
    assert_eq!(vm.stack_len(), 0);
    // a compile error leaves the machine as it was
    assert!(vm.load("print ;").is_err());
    assert_eq!(vm.stack_len(), 0);
}
