use rox_lib::chunk::OpCode;
use rox_lib::compiler::{
    advance, compile, consume, get_rule, match_token, synchronise, Compiler, Depth, Handler,
    Local, Parser, Precedence,
};
use rox_lib::scanner::{Scanner, Token, TokenType};
use rox_lib::value::Value;
use rox_lib::RoxError;

fn to_bits(text: String) -> u64 {
    text.parse::<f64>().unwrap().to_bits()
}

fn bits(x: f64) -> u64 {
    x.to_bits()
}

fn code_of(source: &str) -> Vec<u8> {
    compile(source, &to_bits).unwrap().code
}

fn first_error(source: &str) -> RoxError {
    compile(source, &to_bits).err().unwrap().remove(0)
}

#[test]
fn compiler_advance() {
    let mut parser = Parser::new();
    let mut scanner = Scanner::new("1");

    advance(&mut parser, &mut scanner);

    assert_eq!(parser.current.token_type, TokenType::Number);
}

#[test]
fn compiler_advance_with_error() {
    let mut parser = Parser::new();
    let mut scanner = Scanner::new("\"Hello World");

    advance(&mut parser, &mut scanner);

    assert!(parser.had_error);
    assert!(parser.panic_mode);
}

#[test]
fn compiler_consume() {
    let mut parser = Parser::new();
    let mut scanner = Scanner::new("");
    parser.current = Token::new(&scanner, TokenType::EOF);

    let result = consume(&mut parser, &mut scanner, TokenType::EOF, "Error");

    assert!(result.is_ok());
}

#[test]
fn compiler_consume_error() {
    let mut parser = Parser::new();
    let mut scanner = Scanner::new("");
    parser.current = Token::new(&scanner, TokenType::Number);

    let result = consume(&mut parser, &mut scanner, TokenType::EOF, "Error");

    assert!(result.is_err());
}

#[test]
fn compiler_compile() {
    let result = compile("1 + 1;", &to_bits);

    assert!(result.is_ok());
}

#[test]
fn compiler_compile_with_error() {
    let result = compile("(-1", &to_bits);
    assert!(result.is_err());

    let result = compile("1 +", &to_bits);
    assert!(result.is_err());
}

#[test]
fn precedence_next() {
    assert_eq!(Precedence::Lowest.next(), Precedence::Assignment);
    assert_eq!(Precedence::Assignment.next(), Precedence::Or);
    assert_eq!(Precedence::Or.next(), Precedence::And);
    assert_eq!(Precedence::And.next(), Precedence::Equality);
    assert_eq!(Precedence::Equality.next(), Precedence::Comparison);
    assert_eq!(Precedence::Comparison.next(), Precedence::Term);
    assert_eq!(Precedence::Term.next(), Precedence::Factor);
    assert_eq!(Precedence::Factor.next(), Precedence::Unary);
    assert_eq!(Precedence::Unary.next(), Precedence::Call);
    assert_eq!(Precedence::Call.next(), Precedence::Primary);
}

#[test]
fn parser_emit_byte() {
    let mut parser = Parser::new();

    parser.emit_byte(0);

    assert_eq!(parser.current_chunk.code[0], 0);
}

#[test]
fn parser_emit_byte2() {
    let mut parser = Parser::new();

    parser.emit_bytes(0, 1);

    assert_eq!(parser.current_chunk.code[0], 0);
    assert_eq!(parser.current_chunk.code[1], 1);
}

#[test]
fn parser_make_constant() {
    let mut parser = Parser::new();

    let result = parser.make_constant(Value::Number(bits(1.0)));

    assert_eq!(result, 0);
}

#[test]
fn parser_make_constant_max_num() {
    let mut parser = Parser::new();
    parser.current_chunk.constants = vec![Value::Number(bits(0.0)); std::u8::MAX as usize + 1];

    parser.make_constant(Value::Number(bits(1.0)));

    assert!(parser.had_error);
}

#[test]
fn parser_emit_constant() {
    let mut parser = Parser::new();

    parser.emit_constant(Value::Number(bits(1.0)));

    assert_eq!(parser.current_chunk.code[0], OpCode::Constant.byte());
    assert_eq!(parser.current_chunk.constants[0], Value::Number(bits(1.0)));
}

#[test]
fn parser_end_compiler() {
    let mut parser = Parser::new();

    parser.end_compiler();

    assert_eq!(parser.current_chunk.code[0], OpCode::Return.byte());
}

#[test]
fn compiler_add_local_max_num() {
    let mut compiler = Compiler::new();
    compiler.locals = vec![
        Local {
            name: Token::default(),
            depth: Depth::Uninitialised,
        };
        std::u8::MAX as usize + 1
    ];

    let result = compiler.add_local(Token::default());

    assert!(result.is_err());
}

// Limits.

#[test]
fn parser_make_constant_last_slot_is_fine() {
    let mut parser = Parser::new();
    parser.current_chunk.constants = vec![Value::Nil; 255];

    let index = parser.make_constant(Value::Nil);

    assert_eq!(index, 255);
    assert!(!parser.had_error);
    assert!(parser.errors.is_empty());
}

#[test]
fn parser_make_constant_over_limit_reports() {
    let mut parser = Parser::new();
    parser.current_chunk.constants = vec![Value::Nil; 256];

    let index = parser.make_constant(Value::Nil);

    assert_eq!(index, 0);
    assert!(parser.had_error);
    assert!(parser.panic_mode);
    assert_eq!(parser.errors.len(), 1);
    assert_eq!(parser.errors[0].message, "Too many constants in one chunk.");
}

#[test]
fn compile_too_many_constants() {
    let mut source = String::new();
    for i in 0..257 {
        source.push_str(&format!("{};\n", i));
    }
    let error = first_error(&source);
    assert_eq!(error.message, "Too many constants in one chunk.");
    assert_eq!(error.line, 257);
    assert_eq!(error.token, "256");

    let mut source = String::new();
    for i in 0..256 {
        source.push_str(&format!("{};\n", i));
    }
    let chunk = compile(&source, &to_bits).unwrap();
    assert_eq!(chunk.constants.len(), 256);
}

#[test]
fn compiler_add_local_up_to_the_limit() {
    let mut compiler = Compiler::new();
    for _ in 0..256 {
        assert!(compiler.add_local(Token::default()).is_ok());
    }
    assert_eq!(compiler.locals.len(), 256);
    let error = compiler.add_local(Token::default()).err().unwrap();
    assert_eq!(error.message, "Too many local variables in function.");
    assert_eq!(compiler.locals.len(), 256);
}

#[test]
fn compile_too_many_locals() {
    let mut source = String::from("{\n");
    for i in 0..257 {
        source.push_str(&format!("var v{};\n", i));
    }
    source.push_str("}\n");
    let error = first_error(&source);
    assert_eq!(error.message, "Too many local variables in function.");
    assert_eq!(error.token, "v256");
    assert_eq!(error.line, 258);

    let mut source = String::from("{\n");
    for i in 0..256 {
        source.push_str(&format!("var v{};\n", i));
    }
    source.push_str("}\n");
    assert!(compile(&source, &to_bits).is_ok());
}

#[test]
fn parser_patch_jump_writes_big_endian_distance() {
    let mut parser = Parser::new();
    let offset = parser.emit_jump(OpCode::Jump.byte());
    assert_eq!(offset, 1);
    assert_eq!(parser.current_chunk.code, vec![20, 0xFF, 0xFF]);
    for _ in 0..258 {
        parser.emit_byte(OpCode::Nil.byte());
    }

    assert!(parser.patch_jump(offset).is_ok());

    assert_eq!(parser.current_chunk.code[1], 1);
    assert_eq!(parser.current_chunk.code[2], 2);
    assert_eq!(parser.current_chunk.code.len(), 261);
}

#[test]
fn parser_patch_jump_longest_distance() {
    let mut parser = Parser::new();
    let offset = parser.emit_jump(OpCode::JumpIfFalse.byte());
    for _ in 0..65535 {
        parser.emit_byte(OpCode::Nil.byte());
    }

    assert!(parser.patch_jump(offset).is_ok());
    assert_eq!(parser.current_chunk.code[1], 0xFF);
    assert_eq!(parser.current_chunk.code[2], 0xFF);
}

#[test]
fn parser_patch_jump_too_far() {
    let mut parser = Parser::new();
    let offset = parser.emit_jump(OpCode::JumpIfFalse.byte());
    for _ in 0..65536 {
        parser.emit_byte(OpCode::Nil.byte());
    }
    let before = parser.current_chunk.code.clone();

    let error = parser.patch_jump(offset).err().unwrap();

    assert_eq!(error.message, "Too much code to jump over.");
    assert_eq!(parser.current_chunk.code, before);
}

#[test]
fn parser_emit_loop_writes_big_endian_distance() {
    let mut parser = Parser::new();
    for _ in 0..300 {
        parser.emit_byte(OpCode::Nil.byte());
    }

    assert!(parser.emit_loop(0).is_ok());

    // 300 bytes of body and the three bytes of the instruction itself.
    assert_eq!(parser.current_chunk.code[300], OpCode::Loop.byte());
    assert_eq!(parser.current_chunk.code[301], 1);
    assert_eq!(parser.current_chunk.code[302], 47);
    assert_eq!(parser.current_chunk.code.len(), 303);
    assert_eq!(parser.current_chunk.lines.len(), 303);
}

#[test]
fn parser_emit_loop_longest_and_too_large() {
    let mut parser = Parser::new();
    for _ in 0..65532 {
        parser.emit_byte(OpCode::Nil.byte());
    }
    assert!(parser.emit_loop(0).is_ok());
    assert_eq!(parser.current_chunk.code[65533], 0xFF);
    assert_eq!(parser.current_chunk.code[65534], 0xFF);

    let mut parser = Parser::new();
    for _ in 0..65533 {
        parser.emit_byte(OpCode::Nil.byte());
    }
    let error = parser.emit_loop(0).err().unwrap();
    assert_eq!(error.message, "Loop body too large.");
    assert_eq!(parser.current_chunk.code.len(), 65534);
}

#[test]
fn compile_loop_body_too_large() {
    // 2351 lines: thirty bytes of code on each line of the body.
    let mut body = String::new();
    for _ in 0..2349 {
        body.push_str("  nil;nil;nil;nil;nil;nil;nil;nil;nil;nil;nil;nil;nil;nil;nil;\n");
    }
    let source = format!("while (false) {{\n{}}}", body);
    let error = first_error(&source);
    assert_eq!(error.message, "Loop body too large.");
    assert_eq!(error.token, "}");
    assert_eq!(error.line, 2351);
    assert_eq!(
        error.render(),
        "[line 2351] Error at '}': Loop body too large."
    );
}

#[test]
fn compile_too_much_code_to_jump_over() {
    let mut body = String::new();
    for _ in 0..2349 {
        body.push_str("  nil;nil;nil;nil;nil;nil;nil;nil;nil;nil;nil;nil;nil;nil;nil;\n");
    }
    let source = format!("if (false) {{\n{}}}", body);
    let error = first_error(&source);
    assert_eq!(error.message, "Too much code to jump over.");
    assert_eq!(error.line, 2351);
}

// What the compiler emits.

#[test]
fn compile_arithmetic_respects_precedence() {
    let chunk = compile("print 1 + 2 * 3;", &to_bits).unwrap();
    assert_eq!(chunk.code, vec![0, 0, 0, 1, 0, 2, 15, 13, 19, 23]);
    assert_eq!(
        chunk.constants,
        vec![
            Value::Number(bits(1.0)),
            Value::Number(bits(2.0)),
            Value::Number(bits(3.0))
        ]
    );
    assert_eq!(chunk.lines, vec![1; 10]);
}

#[test]
fn compile_binary_operators_are_left_associative() {
    // (1 - 2) - 3
    assert_eq!(code_of("1 - 2 - 3;"), vec![0, 0, 0, 1, 14, 0, 2, 14, 4, 23]);
}

#[test]
fn compile_comparison_operators() {
    assert_eq!(code_of("1 == 2;"), vec![0, 0, 0, 1, 10, 4, 23]);
    assert_eq!(code_of("1 != 2;"), vec![0, 0, 0, 1, 10, 17, 4, 23]);
    assert_eq!(code_of("1 > 2;"), vec![0, 0, 0, 1, 11, 4, 23]);
    assert_eq!(code_of("1 < 2;"), vec![0, 0, 0, 1, 12, 4, 23]);
    assert_eq!(code_of("1 >= 2;"), vec![0, 0, 0, 1, 12, 17, 4, 23]);
    assert_eq!(code_of("1 <= 2;"), vec![0, 0, 0, 1, 11, 17, 4, 23]);
    assert_eq!(code_of("1 / 2;"), vec![0, 0, 0, 1, 16, 4, 23]);
}

#[test]
fn compile_literals_and_unary() {
    assert_eq!(code_of("nil;"), vec![1, 4, 23]);
    assert_eq!(code_of("true;"), vec![2, 4, 23]);
    assert_eq!(code_of("false;"), vec![3, 4, 23]);
    assert_eq!(code_of("!true;"), vec![2, 17, 4, 23]);
    assert_eq!(code_of("-1;"), vec![0, 0, 18, 4, 23]);
    assert_eq!(code_of("(nil);"), vec![1, 4, 23]);
}

#[test]
fn compile_string_strips_quotes() {
    let chunk = compile("\"hi there\";", &to_bits).unwrap();
    assert_eq!(chunk.code, vec![0, 0, 4, 23]);
    assert_eq!(chunk.constants, vec![Value::String(String::from("hi there"))]);

    let chunk = compile("\"\";", &to_bits).unwrap();
    assert_eq!(chunk.constants, vec![Value::String(String::new())]);
}

#[test]
fn compile_global_variable() {
    let chunk = compile("var a = 1; a = 2; print a;", &to_bits).unwrap();
    assert_eq!(
        chunk.code,
        vec![0, 1, 8, 0, 0, 3, 9, 2, 4, 7, 4, 19, 23]
    );
    assert_eq!(chunk.constants[0], Value::String(String::from("a")));
    assert_eq!(chunk.constants[1], Value::Number(bits(1.0)));
    assert_eq!(chunk.constants[2], Value::String(String::from("a")));
    assert_eq!(chunk.constants[3], Value::Number(bits(2.0)));
    assert_eq!(chunk.constants[4], Value::String(String::from("a")));
}

#[test]
fn compile_global_without_initializer_is_nil() {
    assert_eq!(code_of("var a;"), vec![1, 8, 0, 23]);
}

#[test]
fn compile_local_variables_use_slots() {
    // {var a = 1; {var a = 2; print a;} print a;}
    assert_eq!(
        code_of("{var a = 1; {var a = 2; print a;} print a;}"),
        vec![0, 0, 0, 1, 5, 1, 19, 4, 5, 0, 19, 4, 23]
    );
    assert_eq!(code_of("{var a = 1; a = 2;}"), vec![0, 0, 0, 1, 6, 0, 4, 4, 23]);
}

#[test]
fn compile_and_or() {
    // JumpIfFalse over [Pop, right side]
    assert_eq!(code_of("true and false;"), vec![2, 21, 0, 2, 4, 3, 4, 23]);
    // JumpIfFalse over the Jump; Jump over [Pop, right side]
    assert_eq!(
        code_of("true or false;"),
        vec![2, 21, 0, 3, 20, 0, 2, 4, 3, 4, 23]
    );
}

#[test]
fn compile_if_else() {
    assert_eq!(
        code_of("if (true) nil; else false;"),
        vec![2, 21, 0, 6, 4, 1, 4, 20, 0, 3, 4, 3, 4, 23]
    );
    assert_eq!(
        code_of("if (true) nil;"),
        vec![2, 21, 0, 6, 4, 1, 4, 20, 0, 1, 4, 23]
    );
}

#[test]
fn compile_while() {
    assert_eq!(
        code_of("while (true) nil;"),
        vec![2, 21, 0, 6, 4, 1, 4, 22, 0, 10, 4, 23]
    );
}

#[test]
fn compile_for() {
    // for (;;) nil;
    assert_eq!(code_of("for (;;) nil;"), vec![1, 4, 22, 0, 5, 23]);
    // for (var i = 0; i < 1; i = i + 1) nil;
    assert_eq!(
        code_of("for (var i = 0; i < 1; i = i + 1) nil;"),
        vec![
            0, 0, // i = 0
            5, 0, 0, 1, 12, // i < 1
            21, 0, 20, // exit if false
            4,  // drop the condition
            20, 0, 11, // over the increment
            5, 0, 0, 2, 13, 6, 0, 4, // i = i + 1; drop
            22, 0, 23, // back to the condition
            1, 4, // body
            22, 0, 16, // back to the increment
            4,  // drop the condition
            4,  // drop i
            23
        ]
    );
}

#[test]
fn compile_records_lines() {
    // The final `Return` is on the line where the source ends.
    let chunk = compile("nil;\n\ntrue;\n", &to_bits).unwrap();
    assert_eq!(chunk.code, vec![1, 4, 2, 4, 23]);
    assert_eq!(chunk.lines, vec![1, 1, 3, 3, 4]);
}

#[test]
fn compile_code_and_lines_have_the_same_length() {
    for source in [
        "",
        "print 1 + 2 * 3;",
        "var a = \"hi\"; var b = \" there\"; print a + b;",
        "{var a = 1; {var a = 2; print a;} print a;}",
        "var i = 0; while (i < 3) { print i; i = i + 1; }",
        "for (var i = 0; i < 3; i = i + 1) { if (i == 1) print i; else print -i; }",
        "print true and false or nil;",
    ] {
        let chunk = compile(source, &to_bits).unwrap();
        assert_eq!(chunk.code.len(), chunk.lines.len(), "{}", source);
        assert_eq!(*chunk.code.last().unwrap(), OpCode::Return.byte());
    }
}

fn jumps_land(code: &[u8]) -> bool {
    let mut at = 0;
    while at < code.len() {
        let op = match OpCode::decode(code[at]) {
            Some(op) => op,
            None => return false,
        };
        let operands = op.operand_count();
        if at + 1 + operands > code.len() {
            return false;
        }
        if operands == 2 {
            let distance = code[at + 1] as usize * 256 + code[at + 2] as usize;
            if op == OpCode::Loop {
                if distance > at + 3 {
                    return false;
                }
            } else if at + 3 + distance > code.len() {
                return false;
            }
        }
        at += 1 + operands;
    }
    at == code.len()
}

#[test]
fn compile_jumps_land_inside_the_code() {
    for source in [
        "if (true) nil; else false;",
        "while (true) { if (false) nil; }",
        "for (var i = 0; i < 3; i = i + 1) { print i and true or false; }",
        "var a = 1 or 2; var b = a and nil; if (a) { while (b) b = !b; }",
        "{ var i = 0; for (; i < 2;) { i = i + 1; } }",
    ] {
        assert!(jumps_land(&code_of(source)), "{}", source);
    }
    assert!(!jumps_land(&[20, 0xFF, 0xFF]));
    assert!(!jumps_land(&[22, 0, 4]));
    assert!(!jumps_land(&[20, 0]));
}

// Errors.

#[test]
fn compile_invalid_assignment_target() {
    let error = first_error("(a) = 3;");
    assert_eq!(
        error.render(),
        "[line 1] Error at '=': Invalid assignment target."
    );
    assert_eq!(first_error("true = 1;").message, "Invalid assignment target.");
    assert_eq!(first_error("a + b = 1;").message, "Invalid assignment target.");
}

#[test]
fn compile_own_initializer() {
    let error = first_error("{var a = a;}");
    assert_eq!(
        error.message,
        "Cannot read local variable in its own initializer."
    );
    assert_eq!(error.token, "a");
    assert_eq!(error.line, 1);
}

#[test]
fn compile_duplicate_local() {
    let error = first_error("{var a; var a;}");
    assert_eq!(
        error.message,
        "Variable with this name already declared in this scope."
    );
    assert_eq!(error.token, "a");
    assert!(compile("{var a; {var a;}}", &to_bits).is_ok());
    assert!(compile("var a; var a;", &to_bits).is_ok());
}

#[test]
fn compile_expect_expression() {
    let error = first_error("+1");
    assert_eq!(error.render(), "[line 1] Error at '+': Expect expression.");
    let error = first_error("while (true) var a;");
    assert_eq!(error.message, "Expect expression.");
    assert_eq!(error.token, "var");
}

#[test]
fn compile_missing_tokens() {
    assert_eq!(first_error("(1;").message, "Expect ')' after expression.");
    assert_eq!(first_error("print 1").message, "Expect ';' after value.");
    assert_eq!(first_error("1").message, "Expect ';' after expression.");
    assert_eq!(first_error("var = 1;").message, "Expect variable name.");
    assert_eq!(first_error("var a").message, "Expect ';' variable declaration.");
    assert_eq!(first_error("{").message, "Expect '}' after block.");
    assert_eq!(first_error("if true").message, "Expect '(' after 'if'.");
    assert_eq!(first_error("if (true").message, "Expect ')' after condition.");
    assert_eq!(first_error("while true").message, "Expect '(' after 'while'.");
    assert_eq!(first_error("for {").message, "Expect '(' after 'for'.");
    assert_eq!(
        first_error("for (;true").message,
        "Expect ';' after loop condition."
    );
    assert_eq!(
        first_error("for (;;nil {").message,
        "Expect ')' after for clauses."
    );
}

#[test]
fn compile_unterminated_string() {
    let errors = compile("\n\"this string has no close quote", &to_bits)
        .err()
        .unwrap();
    assert_eq!(
        errors[0].render(),
        "[line 2] Error at '\"this string has no close quote': Unterminated string."
    );
}

#[test]
fn compile_unterminated_string_reports_the_opening_line() {
    let error = first_error("nil;\n\"one\ntwo\nthree");
    assert_eq!(error.message, "Unterminated string.");
    assert_eq!(error.line, 2);
    assert_eq!(error.token, "\"one\ntwo\nthree");
}

#[test]
fn compile_unexpected_character() {
    let error = first_error("nil;\n  @");
    assert_eq!(error.render(), "[line 2] Error at '@': Unexpected character.");
}

#[test]
fn compile_reports_one_error_per_statement() {
    let errors = compile("print ;\nprint ;\nvar a = 1;\n+;", &to_bits)
        .err()
        .unwrap();
    assert_eq!(errors.len(), 3);
    assert_eq!(errors[0].line, 1);
    assert_eq!(errors[1].line, 2);
    assert_eq!(errors[2].line, 4);
}

#[test]
fn rox_error_render() {
    let error = RoxError::new("Message.", String::from("tok"), 12);
    assert_eq!(error.message, "Message.");
    assert_eq!(error.token, "tok");
    assert_eq!(error.line, 12);
    assert_eq!(error.render(), "[line 12] Error at 'tok': Message.");
    let error = RoxError::new("m", String::new(), -5);
    assert_eq!(error.render(), "[line -5] Error at '': m");
    let error = RoxError::new("m", String::new(), 0);
    assert_eq!(error.render(), "[line 0] Error at '': m");
    let error = RoxError::new("m", String::new(), i32::MIN);
    assert_eq!(error.render(), "[line -2147483648] Error at '': m");
}

// Tokens and rules.

#[test]
fn parser_handle_error_swallows_in_panic_mode() {
    let mut parser = Parser::new();
    parser.handle_error(RoxError::new("first", String::new(), 1));
    parser.handle_error(RoxError::new("second", String::new(), 2));

    assert!(parser.had_error);
    assert!(parser.panic_mode);
    assert_eq!(parser.errors.len(), 1);
    assert_eq!(parser.errors[0].message, "first");
}

#[test]
fn compiler_match_token() {
    let mut parser = Parser::new();
    let mut scanner = Scanner::new("var a");
    advance(&mut parser, &mut scanner);

    assert!(!match_token(&mut parser, &mut scanner, TokenType::Print));
    assert_eq!(parser.current.token_type, TokenType::Var);
    assert!(match_token(&mut parser, &mut scanner, TokenType::Var));
    assert_eq!(parser.previous.token_type, TokenType::Var);
    assert_eq!(parser.current.token_type, TokenType::Identifier);
    assert_eq!(parser.current.lexeme, "a");
    assert!(parser.check(TokenType::Identifier));
}

#[test]
fn compiler_advance_skips_rejected_lexemes() {
    let mut parser = Parser::new();
    let mut scanner = Scanner::new("@ # 1");

    advance(&mut parser, &mut scanner);

    assert_eq!(parser.current.token_type, TokenType::Number);
    assert_eq!(parser.errors.len(), 1);
    assert_eq!(parser.errors[0].token, "@");
}

#[test]
fn compiler_synchronise() {
    let mut parser = Parser::new();
    let mut scanner = Scanner::new("1 2 ; 3 print 4");
    advance(&mut parser, &mut scanner);
    parser.panic_mode = true;

    synchronise(&mut parser, &mut scanner);

    assert!(!parser.panic_mode);
    assert_eq!(parser.previous.token_type, TokenType::Semicolon);
    assert_eq!(parser.current.lexeme, "3");

    advance(&mut parser, &mut scanner);
    synchronise(&mut parser, &mut scanner);
    assert_eq!(parser.current.token_type, TokenType::Print);
}

#[test]
fn rule_table() {
    let rule = get_rule(TokenType::Minus);
    assert_eq!(rule.prefix, Some(Handler::Unary));
    assert_eq!(rule.infix, Some(Handler::Binary));
    assert_eq!(rule.precedence, Precedence::Term);
    let rule = get_rule(TokenType::Star);
    assert_eq!(rule.prefix, None);
    assert_eq!(rule.precedence, Precedence::Factor);
    assert_eq!(get_rule(TokenType::And).infix, Some(Handler::And));
    assert_eq!(get_rule(TokenType::Or).precedence, Precedence::Or);
    assert_eq!(get_rule(TokenType::LeftParen).prefix, Some(Handler::Grouping));
    assert_eq!(get_rule(TokenType::EOF).precedence, Precedence::Lowest);
    assert_eq!(get_rule(TokenType::Semicolon).prefix, None);
    assert!(Precedence::Assignment.at_most(Precedence::Assignment));
    assert!(!Precedence::Unary.at_most(Precedence::Term));
}

// Scopes.

fn named(name: &str) -> Token {
    Token {
        token_type: TokenType::Identifier,
        lexeme: String::from(name),
        line: 1,
    }
}

#[test]
fn compiler_scopes() {
    let mut compiler = Compiler::new();
    assert_eq!(compiler.scope_depth, Depth::Global);
    compiler.begin_scope();
    assert_eq!(compiler.scope_depth, Depth::Block(1));
    compiler.begin_scope();
    assert_eq!(compiler.scope_depth, Depth::Block(2));

    let mut parser = Parser::new();
    compiler.end_scope(&mut parser);
    assert_eq!(compiler.scope_depth, Depth::Block(1));
    compiler.end_scope(&mut parser);
    assert_eq!(compiler.scope_depth, Depth::Global);
    assert!(parser.current_chunk.code.is_empty());
}

#[test]
fn compiler_end_scope_pops_the_locals_of_the_scope() {
    let mut compiler = Compiler::new();
    let mut parser = Parser::new();
    compiler.begin_scope();
    compiler.locals.push(Local { name: named("a"), depth: Depth::Block(1) });
    compiler.begin_scope();
    compiler.locals.push(Local { name: named("b"), depth: Depth::Block(2) });
    compiler.locals.push(Local { name: named("c"), depth: Depth::Block(2) });

    compiler.end_scope(&mut parser);

    assert_eq!(compiler.locals.len(), 1);
    assert_eq!(compiler.locals[0].name.lexeme, "a");
    assert_eq!(parser.current_chunk.code, vec![4, 4]);
    assert_eq!(parser.current_chunk.lines, vec![0, 0]);
}

#[test]
fn compiler_resolve_local() {
    let mut compiler = Compiler::new();
    compiler.locals.push(Local { name: named("a"), depth: Depth::Block(1) });
    compiler.locals.push(Local { name: named("b"), depth: Depth::Block(1) });
    compiler.locals.push(Local { name: named("a"), depth: Depth::Block(2) });

    assert_eq!(compiler.resolve_local(&named("a")).unwrap(), Some(2));
    assert_eq!(compiler.resolve_local(&named("b")).unwrap(), Some(1));
    assert_eq!(compiler.resolve_local(&named("c")).unwrap(), None);

    compiler.locals.push(Local { name: named("b"), depth: Depth::Uninitialised });
    let error = compiler.resolve_local(&named("b")).err().unwrap();
    assert_eq!(
        error.message,
        "Cannot read local variable in its own initializer."
    );
}

#[test]
fn compiler_declare_variable() {
    let mut compiler = Compiler::new();
    let mut parser = Parser::new();
    parser.previous = named("a");

    // Globals are not declared.
    assert!(compiler.declare_variable(&mut parser).is_ok());
    assert!(compiler.locals.is_empty());

    compiler.begin_scope();
    assert!(compiler.declare_variable(&mut parser).is_ok());
    assert_eq!(compiler.locals.len(), 1);
    assert_eq!(compiler.locals[0].depth, Depth::Uninitialised);
    compiler.locals[0].depth = Depth::Block(1);

    let error = compiler.declare_variable(&mut parser).err().unwrap();
    assert_eq!(
        error.message,
        "Variable with this name already declared in this scope."
    );

    // Shadowing in an inner scope is fine.
    compiler.begin_scope();
    assert!(compiler.declare_variable(&mut parser).is_ok());
    assert_eq!(compiler.locals.len(), 2);
}

#[test]
fn depth_arithmetic() {
    let mut depth = Depth::Global;
    depth.add_assign(1);
    assert_eq!(depth, Depth::Block(1));
    depth.add_assign(2);
    assert_eq!(depth, Depth::Block(3));
    depth.sub_assign(1);
    assert_eq!(depth, Depth::Block(2));
    depth.sub_assign(2);
    assert_eq!(depth, Depth::Global);
    depth.sub_assign(1);
    assert_eq!(depth, Depth::Uninitialised);
    assert!(Depth::Uninitialised.below(Depth::Global));
    assert!(Depth::Global.below(Depth::Block(1)));
    assert!(Depth::Block(1).below(Depth::Block(2)));
    assert!(!Depth::Block(2).below(Depth::Block(2)));
    assert!(!Depth::Global.below(Depth::Uninitialised));
}

#[test]
fn compile_first_error_is_at_the_lexeme_read_last() {
    let error = first_error("print 1\nprint 2;");
    assert_eq!(
        error.render(),
        "[line 2] Error at 'print': Expect ';' after value."
    );
    let error = first_error("var a = 1;\nprint a");
    assert_eq!(error.render(), "[line 2] Error at '': Expect ';' after value.");
    let error = first_error("if (true)\n  print 1;\nelse +;");
    assert_eq!(error.render(), "[line 3] Error at '+': Expect expression.");
}

#[test]
fn compile_rejected_lexeme_comes_before_the_invalid_assignment() {
    let errors = compile("(a) = @;", &to_bits).err().unwrap();
    assert_eq!(
        errors[0].render(),
        "[line 1] Error at '@': Unexpected character."
    );
    assert_eq!(errors.len(), 1);
}

#[test]
fn compile_own_initializer_is_reported_at_the_declaration() {
    let error = first_error("{\n  var a =\n\n    a;\n}");
    assert_eq!(
        error.render(),
        "[line 2] Error at 'a': Cannot read local variable in its own initializer."
    );
}

#[test]
fn compile_first_error_stays_first() {
    let errors = compile("var 1;\n{ var a; var a; }\nprint @;", &to_bits)
        .err()
        .unwrap();
    assert_eq!(errors[0].render(), "[line 1] Error at '1': Expect variable name.");
    assert!(errors.len() > 1);
}

#[test]
fn compiler_synchronise_records_the_first_rejected_lexeme() {
    let mut parser = Parser::new();
    let mut scanner = Scanner::new("1 @\n# 2 ; 3");
    advance(&mut parser, &mut scanner);
    parser.panic_mode = true;

    synchronise(&mut parser, &mut scanner);

    assert!(parser.panic_mode);
    assert!(parser.had_error);
    assert_eq!(parser.errors.len(), 1);
    assert_eq!(
        parser.errors[0].render(),
        "[line 1] Error at '@': Unexpected character."
    );
    assert_eq!(parser.previous.token_type, TokenType::Semicolon);
    assert_eq!(parser.current.lexeme, "3");
}

#[test]
fn compiler_synchronise_stays_where_a_statement_begins() {
    let mut parser = Parser::new();
    let mut scanner = Scanner::new("var a; b");
    advance(&mut parser, &mut scanner);
    parser.panic_mode = true;

    synchronise(&mut parser, &mut scanner);

    assert!(!parser.panic_mode);
    assert_eq!(parser.current.token_type, TokenType::Var);
    assert_eq!(scanner.current, 3);
}
