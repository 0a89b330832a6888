use rox_lib::chunk::{Chunk, OpCode};
use rox_lib::value::Value;
use rox_lib::vm::{Action, Globals, InterpretResult, VM};

fn to_bits(text: String) -> u64 {
    text.parse::<f64>().unwrap().to_bits()
}

fn bits(x: f64) -> u64 {
    x.to_bits()
}

fn show(value: &Value) -> String {
    match value {
        Value::Number(pattern) => format!("{}", f64::from_bits(*pattern)),
        other => other.to_text().unwrap(),
    }
}

fn apply(op: OpCode, left: u64, right: u64) -> u64 {
    let a = f64::from_bits(left);
    let b = f64::from_bits(right);
    let result = match op {
        OpCode::Add => a + b,
        OpCode::Subtract => a - b,
        OpCode::Multiple => a * b,
        OpCode::Divide => a / b,
        other => panic!("no arithmetic: {:?}", other),
    };
    result.to_bits()
}

struct Run {
    result: InterpretResult,
    out: String,
    err: String,
}

/// Plays the host: prints into a string, does the arithmetic on doubles, and
/// resumes the machine until the program ends.
fn interpret(vm: &mut VM, source: &str) -> Run {
    let mut out = String::new();
    let mut err = String::new();
    let mut action = vm.interpret(source, &to_bits, 64);
    loop {
        action = match action {
            Action::Print(value) => {
                out.push_str(&show(&value));
                out.push('\n');
                vm.run(None, 64)
            }
            Action::Arithmetic { op, left, right } => vm.run(Some(apply(op, left, right)), 64),
            Action::Pause | Action::Continue => vm.run(None, 64),
            Action::Stuck => panic!("the machine is stuck at {}", vm.ip),
            ended => {
                let result = ended.result().unwrap();
                match ended {
                    Action::Fault { message, line } => {
                        err = format!("{}\n[line {}] in script\n", message, line);
                    }
                    Action::Rejected(errors) => {
                        for error in errors {
                            err.push_str(&error.render());
                            err.push('\n');
                        }
                    }
                    _ => {}
                }
                return Run { result, out, err };
            }
        };
    }
}

fn run(source: &str) -> Run {
    let mut vm = VM::new();
    interpret(&mut vm, source)
}

fn machine(code: Vec<u8>, constants: Vec<Value>) -> VM {
    let mut vm = VM::new();
    let lines = vec![1; code.len()];
    vm.chunk = Chunk { code, constants, lines };
    vm
}

#[test]
fn vm_push() {
    let mut vm = VM::new();

    vm.push(Value::Number(bits(1.0)));

    assert_eq!(vm.stack.len(), 1);
    assert_eq!(vm.stack[0], Value::Number(bits(1.0)));
}

#[test]
fn vm_pop() {
    let mut vm = VM::new();
    vm.push(Value::Number(bits(1.0)));

    let result = vm.pop();

    assert_eq!(vm.stack.len(), 0);
    assert_eq!(result, Value::Number(bits(1.0)));
}

#[test]
fn vm_read_byte() {
    let mut vm = VM::new();
    vm.chunk = Chunk {
        code: vec![0],
        constants: Vec::new(),
        lines: Vec::new(),
    };

    let result = vm.read_byte();

    assert_eq!(result, 0);
}

#[test]
fn vm_read_constant() {
    let mut vm = VM::new();
    vm.chunk = Chunk {
        code: vec![0],
        constants: vec![Value::Number(bits(1.0))],
        lines: Vec::new(),
    };

    let result = vm.read_constant();

    assert_eq!(result, Value::Number(bits(1.0)));
}

#[test]
fn vm_read_short() {
    let mut vm = VM::new();
    vm.chunk = Chunk {
        code: vec![255, 1],
        constants: Vec::new(),
        lines: Vec::new(),
    };

    let result = vm.read_short();

    assert_eq!(result, 65281);
}

#[test]
fn vm_interpret_compile_error() {
    let mut vm = VM::new();

    let result = interpret(&mut vm, "+1").result;
    assert_eq!(result, InterpretResult::CompileError);
}

#[test]
fn vm_interpret_get_local() {
    let mut vm = VM::new();

    let result = interpret(&mut vm, "{var a = 1; a;}").result;
    assert_eq!(result, InterpretResult::Success);
}

#[test]
fn vm_interpret_set_local() {
    let mut vm = VM::new();

    let result = interpret(&mut vm, "{var a = 1; a = 2;}").result;
    assert_eq!(result, InterpretResult::Success);
}

#[test]
fn vm_interpret_mismatching_block() {
    let mut vm = VM::new();

    let result = interpret(&mut vm, "{").result;
    assert_eq!(result, InterpretResult::CompileError);
}

#[test]
fn vm_interpret_same_name_same_scope() {
    let mut vm = VM::new();

    let result = interpret(&mut vm, "{var a; var a;}").result;
    assert_eq!(result, InterpretResult::CompileError);
}

#[test]
fn vm_interpret_cannot_read_local_variable_in_own_initializer() {
    let mut vm = VM::new();

    let result = interpret(&mut vm, "{var a = a;}").result;
    assert_eq!(result, InterpretResult::CompileError);
}

#[test]
fn vm_interpret_define_global() {
    let mut vm = VM::new();

    let result = interpret(&mut vm, "var a = 1;").result;
    assert_eq!(result, InterpretResult::Success);
}

#[test]
fn vm_interpret_define_global_no_value() {
    let mut vm = VM::new();

    let result = interpret(&mut vm, "var a;").result;
    assert_eq!(result, InterpretResult::Success);
}

#[test]
fn vm_interpret_define_global_no_semicolon() {
    let mut vm = VM::new();

    let result = interpret(&mut vm, "var a").result;
    assert_eq!(result, InterpretResult::CompileError);
}

#[test]
fn vm_interpret_define_global_no_identifier() {
    let mut vm = VM::new();

    let result = interpret(&mut vm, "var = 1;").result;
    assert_eq!(result, InterpretResult::CompileError);
}

#[test]
fn vm_interpret_get_global() {
    let mut vm = VM::new();

    let result = interpret(&mut vm, "var a = 1; a;").result;
    assert_eq!(result, InterpretResult::Success);
}

#[test]
fn vm_interpret_get_global_undefined() {
    let mut vm = VM::new();

    let result = interpret(&mut vm, "a;").result;
    assert_eq!(result, InterpretResult::RuntimeError);
}

#[test]
fn vm_interpret_set_global() {
    let mut vm = VM::new();

    let result = interpret(&mut vm, "var a = 1; a = 2;").result;
    assert_eq!(result, InterpretResult::Success);
}

#[test]
fn vm_interpret_set_global_undefined() {
    let mut vm = VM::new();

    let result = interpret(&mut vm, "a = 1;").result;
    assert_eq!(result, InterpretResult::RuntimeError);
}

#[test]
fn vm_interpret_set_global_invalid_target() {
    let mut vm = VM::new();

    let result = interpret(&mut vm, "true = 1;").result;
    assert_eq!(result, InterpretResult::CompileError);
}

#[test]
fn vm_interpret_negate() {
    let mut vm = VM::new();

    let result = interpret(&mut vm, "-1;").result;
    assert_eq!(result, InterpretResult::Success);
}

#[test]
fn vm_interpret_negate_not_number() {
    let mut vm = VM::new();

    let result = interpret(&mut vm, "-false;").result;
    assert_eq!(result, InterpretResult::RuntimeError);
}

#[test]
fn vm_interpret_equal() {
    let mut vm = VM::new();

    let result = interpret(&mut vm, "true == nil;").result;
    assert_eq!(result, InterpretResult::Success);

    let result = interpret(&mut vm, "1.0 == 1.0;").result;
    assert_eq!(result, InterpretResult::Success);
}

#[test]
fn vm_interpret_not() {
    let mut vm = VM::new();

    let result = interpret(&mut vm, "!true;").result;
    assert_eq!(result, InterpretResult::Success);
}

#[test]
fn vm_interpret_not_equal() {
    let mut vm = VM::new();

    let result = interpret(&mut vm, "true != false;").result;
    assert_eq!(result, InterpretResult::Success);
}

#[test]
fn vm_interpret_greater() {
    let mut vm = VM::new();

    let result = interpret(&mut vm, "2 > 1;").result;
    assert_eq!(result, InterpretResult::Success);
}

#[test]
fn vm_interpret_greater_equal() {
    let mut vm = VM::new();

    let result = interpret(&mut vm, "1 >= 1;").result;
    assert_eq!(result, InterpretResult::Success);
}

#[test]
fn vm_interpret_less() {
    let mut vm = VM::new();

    let result = interpret(&mut vm, "2 < 1;").result;
    assert_eq!(result, InterpretResult::Success);
}

#[test]
fn vm_interpret_less_equal() {
    let mut vm = VM::new();

    let result = interpret(&mut vm, "1 <= 1;").result;
    assert_eq!(result, InterpretResult::Success);
}

#[test]
fn vm_interpret_binary_op_wrong_types() {
    let mut vm = VM::new();

    let result = interpret(&mut vm, "1 + true;").result;
    assert_eq!(result, InterpretResult::RuntimeError);

    let result = interpret(&mut vm, "false / 0;").result;
    assert_eq!(result, InterpretResult::RuntimeError);
}

#[test]
fn vm_interpret_add() {
    let mut vm = VM::new();

    let result = interpret(&mut vm, "1 + 2;").result;
    assert_eq!(result, InterpretResult::Success);
}

#[test]
fn vm_interpret_add_strings() {
    let mut vm = VM::new();

    let result = interpret(&mut vm, "\"hello\" + \" \" + \"world\";").result;
    assert_eq!(result, InterpretResult::Success);
}

#[test]
fn vm_interpret_can_not_add_string_and_number() {
    let mut vm = VM::new();

    let result = interpret(&mut vm, "\"hello\" + 123;").result;
    assert_eq!(result, InterpretResult::RuntimeError);
}

#[test]
fn vm_interpret_subtract() {
    let mut vm = VM::new();

    let result = interpret(&mut vm, "1 - 0.5;").result;
    assert_eq!(result, InterpretResult::Success);
}

#[test]
fn vm_interpret_multiply() {
    let mut vm = VM::new();

    let result = interpret(&mut vm, "1 * 10;").result;
    assert_eq!(result, InterpretResult::Success);
}

#[test]
fn vm_interpret_divide() {
    let mut vm = VM::new();

    let result = interpret(&mut vm, "1 / 0;").result;
    assert_eq!(result, InterpretResult::Success);
}

#[test]
fn vm_interpret_print() {
    let mut vm = VM::new();

    let result = interpret(&mut vm, "print \"hello world\";").result;
    assert_eq!(result, InterpretResult::Success);
}

#[test]
fn vm_interpret_print_with_no_semicolon() {
    let mut vm = VM::new();

    let result = interpret(&mut vm, "print \"hello world\"").result;
    assert_eq!(result, InterpretResult::CompileError);
}

#[test]
fn vm_interpret_if() {
    let mut vm = VM::new();

    let result = interpret(&mut vm, "if(true){1;}").result;
    assert_eq!(result, InterpretResult::Success);
}

#[test]
fn vm_interpret_if_no_paren() {
    let mut vm = VM::new();

    let result = interpret(&mut vm, "if false {0;}").result;
    assert_eq!(result, InterpretResult::CompileError);
}

#[test]
fn vm_interpret_if_else() {
    let mut vm = VM::new();

    let result = interpret(&mut vm, "if(false){0;}else{1;}").result;
    assert_eq!(result, InterpretResult::Success);
}

#[test]
fn vm_interpret_and() {
    let mut vm = VM::new();

    let result = interpret(&mut vm, "true and true;").result;
    assert_eq!(result, InterpretResult::Success);
}

#[test]
fn vm_interpret_or() {
    let mut vm = VM::new();

    let result = interpret(&mut vm, "true or true;").result;
    assert_eq!(result, InterpretResult::Success);
}

#[test]
fn vm_interpret_while() {
    let mut vm = VM::new();

    let result = interpret(&mut vm, "while(false){0;}").result;
    assert_eq!(result, InterpretResult::Success);
}

#[test]
fn vm_interpret_while_no_paren() {
    let mut vm = VM::new();

    let result = interpret(&mut vm, "while false {0;}").result;
    assert_eq!(result, InterpretResult::CompileError);
}

#[test]
fn vm_interpret_for() {
    let mut vm = VM::new();

    let result = interpret(&mut vm, "for(var i=0;i<5;i=i+1){i;}").result;
    assert_eq!(result, InterpretResult::Success);
}

#[test]
fn vm_interpret_for_syntax_error() {
    let mut vm = VM::new();

    let result = interpret(&mut vm, "for{0;}").result;
    assert_eq!(result, InterpretResult::CompileError);
}

// Programs and what they print.

#[test]
fn print_arithmetic() {
    let run = run("print 1 + 2 * 3;");
    assert_eq!(run.out, "7\n");
    assert_eq!(run.err, "");
    assert_eq!(run.result, InterpretResult::Success);
}

#[test]
fn print_string_concatenation() {
    let run = run("var a = \"hi\"; var b = \" there\"; print a + b;");
    assert_eq!(run.out, "hi there\n");
    assert_eq!(run.result, InterpretResult::Success);
}

#[test]
fn print_shadowed_locals() {
    let run = run("{var a = 1; {var a = 2; print a;} print a;}");
    assert_eq!(run.out, "2\n1\n");
    assert_eq!(run.result, InterpretResult::Success);
}

#[test]
fn print_while_loop() {
    let run = run("var i = 0; while (i < 3) { print i; i = i + 1; }");
    assert_eq!(run.out, "0\n1\n2\n");
    assert_eq!(run.result, InterpretResult::Success);
}

#[test]
fn print_equality() {
    let run = run("print \"a\" == \"a\"; print 1 == \"1\"; print nil == false;");
    assert_eq!(run.out, "true\nfalse\nfalse\n");
    assert_eq!(run.result, InterpretResult::Success);
}

#[test]
fn negate_a_boolean_fails() {
    let run = run("print -true;");
    assert_eq!(run.out, "");
    assert_eq!(run.err, "Operand must be a number.\n[line 1] in script\n");
    assert_eq!(run.result, InterpretResult::RuntimeError);
}

#[test]
fn invalid_assignment_target_is_rejected() {
    let run = run("(a) = 3;");
    assert_eq!(run.err, "[line 1] Error at '=': Invalid assignment target.\n");
    assert_eq!(run.out, "");
    assert_eq!(run.result, InterpretResult::CompileError);
}

#[test]
fn print_uninitialised_global() {
    let run = run("var a; print a;");
    assert_eq!(run.out, "nil\n");
    assert_eq!(run.result, InterpretResult::Success);
}

#[test]
fn read_local_in_own_initializer_is_rejected() {
    let run = run("{var a = a;}");
    assert_eq!(
        run.err,
        "[line 1] Error at 'a': Cannot read local variable in its own initializer.\n"
    );
    assert_eq!(run.result, InterpretResult::CompileError);
}

#[test]
fn print_is_the_value_of_the_expression() {
    let cases = [
        ("1 + 2 * 3", "7"),
        ("(1 + 2) * 3", "9"),
        ("10 - 4 - 3", "3"),
        ("8 / 2 / 2", "2"),
        ("-0.001", "-0.001"),
        ("123", "123"),
        ("1 / 0", "inf"),
        ("0.5 + 0.25", "0.75"),
        ("- - 3", "3"),
        ("!nil", "true"),
        ("!0", "false"),
        ("!\"\"", "false"),
        ("1 < 2", "true"),
        ("2 <= 2", "true"),
        ("1 > 2", "false"),
        ("2 >= 3", "false"),
        ("1 != 2", "true"),
        ("nil == nil", "true"),
        ("\"a\" + \"b\" + \"c\"", "abc"),
        ("\"a\" == \"b\"", "false"),
        ("true and 1", "1"),
        ("false and 1", "false"),
        ("nil or \"x\"", "x"),
        ("1 or 2", "1"),
        ("nil and 1 or 2", "2"),
        ("1 + 2 == 3", "true"),
        ("1 < 2 == true", "true"),
    ];
    for (expression, expected) in cases {
        let run = run(&format!("print {};", expression));
        assert_eq!(run.out, format!("{}\n", expected), "print {};", expression);
        assert_eq!(run.result, InterpretResult::Success);
    }
}

#[test]
fn if_else_branches() {
    assert_eq!(run("if (true) print 1; else print 2;").out, "1\n");
    assert_eq!(run("if (false) print 1; else print 2;").out, "2\n");
    assert_eq!(run("if (nil) print 1;").out, "");
    assert_eq!(run("if (0) print 1;").out, "1\n");
}

#[test]
fn for_loop() {
    assert_eq!(
        run("for (var i = 0; i < 3; i = i + 1) print i;").out,
        "0\n1\n2\n"
    );
    assert_eq!(
        run("var i = 0; for (; i < 2;) { print i; i = i + 1; } print i;").out,
        "0\n1\n2\n"
    );
}

#[test]
fn globals_outlive_a_run() {
    let mut vm = VM::new();
    assert_eq!(
        interpret(&mut vm, "var a = 1;").result,
        InterpretResult::Success
    );
    let again = interpret(&mut vm, "a = a + 1; print a;");
    assert_eq!(again.out, "2\n");
    assert_eq!(again.result, InterpretResult::Success);
}

#[test]
fn rejected_source_leaves_the_machine_alone() {
    let mut vm = VM::new();
    interpret(&mut vm, "var a = 1;");
    let code = vm.chunk.code.clone();
    let ip = vm.ip;

    let run = interpret(&mut vm, "print ;");

    assert_eq!(run.result, InterpretResult::CompileError);
    assert_eq!(vm.chunk.code, code);
    assert_eq!(vm.ip, ip);
    assert_eq!(interpret(&mut vm, "print a;").out, "1\n");
}

#[test]
fn statements_leave_the_stack_as_it_was() {
    let mut vm = VM::new();
    for source in [
        "1 + 2;",
        "var a = 1;",
        "a = 2;",
        "print a;",
        "if (a) a = 3; else a = 4;",
        "while (a < 5) a = a + 1;",
        "for (var i = 0; i < 2; i = i + 1) a = a + i;",
        "{ var b = a; var c = b; print b + c; }",
        "a and a or a;",
    ] {
        assert_eq!(
            interpret(&mut vm, source).result,
            InterpretResult::Success,
            "{}",
            source
        );
        assert_eq!(vm.stack.len(), 0, "{}", source);
    }
}

#[test]
fn runtime_errors() {
    let undefined = run("var a = 1;\nprint b;");
    assert_eq!(undefined.err, "Undefined variable 'b'.\n[line 2] in script\n");
    assert_eq!(undefined.result, InterpretResult::RuntimeError);

    let assign = run("b = 1;");
    assert_eq!(assign.err, "Undefined variable 'b'.\n[line 1] in script\n");

    let compare = run("print 1 < \"a\";");
    assert_eq!(compare.err, "Operands must be numbers.\n[line 1] in script\n");

    let greater = run("\n\nprint nil > 1;");
    assert_eq!(greater.err, "Operands must be numbers.\n[line 3] in script\n");

    let add = run("print 1 + \"a\";");
    assert_eq!(
        add.err,
        "Operands must be two numbers or two strings.\n[line 1] in script\n"
    );

    let subtract = run("print \"a\" - \"b\";");
    assert_eq!(subtract.err, "Operands must be numbers.\n[line 1] in script\n");
    assert_eq!(run("print true * 2;").result, InterpretResult::RuntimeError);
    assert_eq!(run("print nil / 2;").result, InterpretResult::RuntimeError);
}

#[test]
fn runtime_error_clears_the_stack() {
    let mut vm = VM::new();
    let run = interpret(&mut vm, "{ var a = 1; var b = 2; print -nil; }");
    assert_eq!(run.result, InterpretResult::RuntimeError);
    assert!(vm.stack.is_empty());
}

#[test]
fn runtime_error_after_multiline_string() {
    let run = run("var a = \"1\n2\n3\n\";\n\nerr;");
    assert_eq!(run.err, "Undefined variable 'err'.\n[line 6] in script\n");
}

// The machine, one step at a time.

#[test]
fn step_pushes_and_pops() {
    let mut vm = machine(
        vec![0, 0, 1, 2, 3, 4, 23],
        vec![Value::String(String::from("k"))],
    );
    assert!(matches!(vm.step(None), Action::Continue));
    assert_eq!(vm.ip, 2);
    assert!(matches!(vm.step(None), Action::Continue));
    assert!(matches!(vm.step(None), Action::Continue));
    assert!(matches!(vm.step(None), Action::Continue));
    assert_eq!(
        vm.stack,
        vec![
            Value::String(String::from("k")),
            Value::Nil,
            Value::Boolean(true),
            Value::Boolean(false)
        ]
    );
    assert!(matches!(vm.step(None), Action::Continue));
    assert_eq!(vm.stack.len(), 3);
    assert!(matches!(vm.step(None), Action::Finished));
    assert_eq!(vm.ip, 7);
}

#[test]
fn step_locals() {
    // GetLocal 0; SetLocal 1
    let mut vm = machine(vec![5, 0, 6, 1], vec![]);
    vm.push(Value::Boolean(true));
    vm.push(Value::Nil);
    vm.step(None);
    assert_eq!(
        vm.stack,
        vec![Value::Boolean(true), Value::Nil, Value::Boolean(true)]
    );
    vm.step(None);
    assert_eq!(
        vm.stack,
        vec![
            Value::Boolean(true),
            Value::Boolean(true),
            Value::Boolean(true)
        ]
    );
}

#[test]
fn step_globals() {
    // DefineGlobal 0; GetGlobal 0; SetGlobal 0; GetGlobal 1
    let mut vm = machine(
        vec![8, 0, 7, 0, 9, 0, 7, 1],
        vec![
            Value::String(String::from("a")),
            Value::String(String::from("b")),
        ],
    );
    vm.push(Value::Number(bits(1.0)));
    vm.step(None);
    assert!(vm.stack.is_empty());
    assert_eq!(
        vm.globals.get(&String::from("a")),
        Some(Value::Number(bits(1.0)))
    );
    vm.step(None);
    assert_eq!(vm.stack, vec![Value::Number(bits(1.0))]);
    vm.stack[0] = Value::Nil;
    vm.step(None);
    assert_eq!(vm.stack, vec![Value::Nil]);
    assert_eq!(vm.globals.get(&String::from("a")), Some(Value::Nil));
    match vm.step(None) {
        Action::Fault { message, line } => {
            assert_eq!(message, "Undefined variable 'b'.");
            assert_eq!(line, 1);
        }
        other => panic!("{:?}", other),
    }
    assert!(vm.stack.is_empty());
}

#[test]
fn step_asks_for_arithmetic_and_takes_the_reply() {
    for (op, expected) in [
        (OpCode::Add, 8.0),
        (OpCode::Subtract, 4.0),
        (OpCode::Multiple, 12.0),
        (OpCode::Divide, 3.0),
    ] {
        let mut vm = machine(vec![op.byte()], vec![]);
        vm.push(Value::Number(bits(6.0)));
        vm.push(Value::Number(bits(2.0)));

        let reply = match vm.step(None) {
            Action::Arithmetic { op: asked, left, right } => {
                assert_eq!(asked, op);
                assert_eq!(left, bits(6.0));
                assert_eq!(right, bits(2.0));
                apply(asked, left, right)
            }
            other => panic!("{:?}", other),
        };
        // Nothing has moved while the host computes.
        assert_eq!(vm.ip, 0);
        assert_eq!(vm.stack.len(), 2);

        assert!(matches!(vm.step(Some(reply)), Action::Continue));
        assert_eq!(vm.ip, 1);
        assert_eq!(vm.stack, vec![Value::Number(bits(expected))]);
    }
}

#[test]
fn step_add_joins_strings() {
    let mut vm = machine(vec![13], vec![]);
    vm.push(Value::String(String::from("ab")));
    vm.push(Value::String(String::from("cd")));
    assert!(matches!(vm.step(None), Action::Continue));
    assert_eq!(vm.stack, vec![Value::String(String::from("abcd"))]);
}

#[test]
fn step_compares() {
    // Equal, Greater, Less
    for (op, a, b, expected) in [
        (10u8, 1.0, 1.0, true),
        (10, 1.0, 2.0, false),
        (11, 2.0, 1.0, true),
        (11, 1.0, 2.0, false),
        (11, 1.0, 1.0, false),
        (12, 1.0, 2.0, true),
        (12, 2.0, 1.0, false),
        (12, -0.0, 0.0, false),
        (10, -0.0, 0.0, true),
        (10, f64::NAN, f64::NAN, false),
        (12, f64::NAN, 1.0, false),
    ] {
        let mut vm = machine(vec![op], vec![]);
        vm.push(Value::Number(bits(a)));
        vm.push(Value::Number(bits(b)));
        assert!(matches!(vm.step(None), Action::Continue));
        assert_eq!(vm.stack, vec![Value::Boolean(expected)], "{} {} {}", op, a, b);
    }
}

#[test]
fn step_not_and_negate() {
    let mut vm = machine(vec![17, 17, 18], vec![]);
    vm.push(Value::Nil);
    vm.step(None);
    assert_eq!(vm.stack, vec![Value::Boolean(true)]);
    vm.step(None);
    assert_eq!(vm.stack, vec![Value::Boolean(false)]);
    vm.stack[0] = Value::Number(bits(2.5));
    vm.step(None);
    assert_eq!(vm.stack, vec![Value::Number(bits(-2.5))]);
}

#[test]
fn step_print_hands_the_value_out() {
    let mut vm = machine(vec![19], vec![]);
    vm.push(Value::String(String::from("out")));
    match vm.step(None) {
        Action::Print(value) => assert_eq!(value, Value::String(String::from("out"))),
        other => panic!("{:?}", other),
    }
    assert!(vm.stack.is_empty());
    assert_eq!(vm.ip, 1);
}

#[test]
fn step_jumps() {
    // Jump +2 over [Nil, Nil]; JumpIfFalse +1; Nil; Loop -9
    let mut vm = machine(vec![20, 0, 2, 1, 1, 21, 0, 1, 1, 22, 0, 12], vec![]);
    vm.step(None);
    assert_eq!(vm.ip, 5);
    vm.push(Value::Boolean(false));
    vm.step(None);
    assert_eq!(vm.ip, 9);
    assert_eq!(vm.stack, vec![Value::Boolean(false)]);
    vm.step(None);
    assert_eq!(vm.ip, 0);

    vm.ip = 5;
    vm.stack[0] = Value::Number(bits(0.0));
    vm.step(None);
    assert_eq!(vm.ip, 8);
    assert_eq!(vm.stack.len(), 1);
}

#[test]
fn is_ready_refuses_what_cannot_run() {
    // Past the end.
    assert!(!machine(vec![], vec![]).is_ready());
    // Unknown opcode.
    assert!(!machine(vec![24], vec![]).is_ready());
    // Operand missing.
    assert!(!machine(vec![0], vec![Value::Nil]).is_ready());
    assert!(!machine(vec![20, 0], vec![]).is_ready());
    // No such constant.
    assert!(!machine(vec![0, 1], vec![Value::Nil]).is_ready());
    assert!(machine(vec![0, 0], vec![Value::Nil]).is_ready());
    // Empty stack.
    assert!(!machine(vec![4], vec![]).is_ready());
    assert!(!machine(vec![13], vec![]).is_ready());
    assert!(!machine(vec![5, 0], vec![]).is_ready());
    // A name that is no string.
    assert!(!machine(vec![7, 0], vec![Value::Nil]).is_ready());
    assert!(machine(vec![7, 0], vec![Value::String(String::from("a"))]).is_ready());
    // Jumps out of the code.
    assert!(!machine(vec![20, 0, 1], vec![]).is_ready());
    assert!(machine(vec![20, 0, 0], vec![]).is_ready());
    assert!(!machine(vec![22, 0, 4], vec![]).is_ready());
    assert!(machine(vec![22, 0, 3], vec![]).is_ready());
    // Lines that do not cover the code.
    let mut vm = machine(vec![1], vec![]);
    vm.chunk.lines.clear();
    assert!(!vm.is_ready());
}

#[test]
fn run_stops_when_stuck() {
    let mut vm = machine(vec![1, 4, 4], vec![]);
    assert!(matches!(vm.run(None, 10), Action::Stuck));
    assert_eq!(vm.ip, 2);
    assert!(vm.stack.is_empty());
}

#[test]
fn run_pauses_when_the_budget_is_spent() {
    // Nil; Pop; Loop back to the start.
    let mut vm = machine(vec![1, 4, 22, 0, 5], vec![]);
    assert!(matches!(vm.run(None, 0), Action::Pause));
    assert_eq!(vm.ip, 0);
    assert!(matches!(vm.run(None, 1), Action::Pause));
    assert_eq!(vm.ip, 1);
    assert_eq!(vm.stack.len(), 1);
    assert!(matches!(vm.run(None, 2), Action::Pause));
    assert_eq!(vm.ip, 0);
    assert!(matches!(vm.run(None, 300), Action::Pause));
    assert_eq!(vm.ip, 0);
    assert!(vm.stack.is_empty());
}

#[test]
fn run_goes_on_after_a_pause() {
    let mut vm = VM::new();
    let mut action = vm.interpret("var i = 0; while (i < 10) i = i + 1; print i;", &to_bits, 1);
    let mut pauses = 0;
    let printed;
    loop {
        action = match action {
            Action::Pause => {
                pauses += 1;
                vm.run(None, 1)
            }
            Action::Arithmetic { op, left, right } => vm.run(Some(apply(op, left, right)), 1),
            Action::Print(value) => {
                printed = show(&value);
                break;
            }
            other => panic!("{:?}", other),
        };
    }
    assert_eq!(printed, "10");
    assert!(pauses > 50);
}

#[test]
fn action_result() {
    assert_eq!(Action::Finished.result(), Some(InterpretResult::Success));
    assert_eq!(
        Action::Rejected(Vec::new()).result(),
        Some(InterpretResult::CompileError)
    );
    assert_eq!(
        Action::Fault { message: String::new(), line: 1 }.result(),
        Some(InterpretResult::RuntimeError)
    );
    assert_eq!(Action::Pause.result(), None);
    assert_eq!(Action::Stuck.result(), None);
    assert_eq!(Action::Continue.result(), None);
    assert_eq!(Action::Print(Value::Nil).result(), None);
}

#[test]
fn globals_table() {
    let mut globals = Globals::new();
    let a = String::from("a");
    let b = String::from("b");
    assert!(!globals.contains(&a));
    assert_eq!(globals.get(&a), None);
    globals.insert(a.clone(), Value::Nil);
    globals.insert(b.clone(), Value::Boolean(true));
    assert!(globals.contains(&a));
    assert_eq!(globals.get(&a), Some(Value::Nil));
    assert_eq!(globals.get(&b), Some(Value::Boolean(true)));
    globals.insert(a.clone(), Value::Number(bits(2.0)));
    assert_eq!(globals.get(&a), Some(Value::Number(bits(2.0))));
    assert_eq!(globals.get(&b), Some(Value::Boolean(true)));
    assert!(!globals.contains(&String::from("c")));
}

#[test]
fn peek_and_runtime_error() {
    let mut vm = VM::new();
    vm.push(Value::Nil);
    vm.push(Value::Boolean(true));
    assert_eq!(*vm.peek(0), Value::Boolean(true));
    assert_eq!(*vm.peek(1), Value::Nil);
    match vm.runtime_error(String::from("Broken."), 7) {
        Action::Fault { message, line } => {
            assert_eq!(message, "Broken.");
            assert_eq!(line, 7);
        }
        other => panic!("{:?}", other),
    }
    assert!(vm.stack.is_empty());
}
