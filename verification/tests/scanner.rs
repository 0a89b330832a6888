use rox_lib::scanner::{Scanner, TokenType};

#[test]
fn scanner_advance() {
    let mut scanner = Scanner::new("1");

    let result = scanner.advance();

    assert_eq!(result, '1');
}

#[test]
fn scanner_get_token() {
    let mut scanner = Scanner::new("123");
    scanner.advance();
    scanner.advance();

    let result = scanner.get_token();

    assert_eq!(result, "12");
}

#[test]
fn scanner_peek() {
    let scanner = Scanner::new("1");

    let result = scanner.peek();

    assert_eq!(result, Some('1'));
}

#[test]
fn scanner_is_at_end() {
    let mut scanner = Scanner::new("1");
    assert_eq!(scanner.is_at_end(), false);

    scanner.advance();
    assert_eq!(scanner.is_at_end(), true);
}

#[test]
fn scanner_peek_next() {
    let scanner = Scanner::new("12");

    let result = scanner.peek_next();

    assert_eq!(result, Some('2'));
}

#[test]
fn scanner_peek_next_when_at_end() {
    let scanner = Scanner::new("1");

    let result = scanner.peek_next();

    assert_eq!(result, None);
}

#[test]
fn scanner_skip_whitespace() {
    let mut scanner = Scanner::new(" \t\r1");

    scanner.skip_whitespace();

    assert_eq!(scanner.current, 3);
}

#[test]
fn scanner_skip_whitespace_counts_newlines() {
    let mut scanner = Scanner::new("\n\n1");

    scanner.skip_whitespace();

    assert_eq!(scanner.current, 2);
    assert_eq!(scanner.line, 3);
}

#[test]
fn scanner_skip_whitespace_ignores_comments() {
    let mut scanner = Scanner::new("//Hello world");

    scanner.skip_whitespace();

    assert_eq!(scanner.current, 13);
}

#[test]
fn scanner_skip_whitespace_ignores_comments_ending_in_new_line() {
    let mut scanner = Scanner::new("//Hello world\n1");

    scanner.skip_whitespace();

    assert_eq!(scanner.current, 14);
    assert_eq!(scanner.line, 2);
}

#[test]
fn scanner_skip_whitespace_does_not_skip_division() {
    let mut scanner = Scanner::new("/ 0");

    scanner.skip_whitespace();

    assert_eq!(scanner.current, 0);
}

#[test]
fn scanner_number() {
    let mut scanner = Scanner::new("1");

    let result = scanner.number();

    assert_eq!(result.token_type, TokenType::Number);
    assert_eq!(result.lexeme, "1");
}

#[test]
fn scanner_fractional_number() {
    let mut scanner = Scanner::new("1.5");

    let result = scanner.number();

    assert_eq!(result.token_type, TokenType::Number);
    assert_eq!(result.lexeme, "1.5");
}

#[test]
fn scanner_number_ignores_dot_if_not_number() {
    let mut scanner = Scanner::new("1.half");

    let result = scanner.number();

    assert_eq!(result.token_type, TokenType::Number);
    assert_eq!(result.lexeme, "1");
}

#[test]
fn scanner_number_ignores_dot_if_nothing_after() {
    let mut scanner = Scanner::new("1.");

    let result = scanner.number();

    assert_eq!(result.token_type, TokenType::Number);
    assert_eq!(result.lexeme, "1");
}

#[test]
fn scanner_string() {
    let mut scanner = Scanner::new("\"Hello World\"");
    scanner.advance();

    let result = scanner.string().unwrap();

    assert_eq!(result.token_type, TokenType::RoxString);
    assert_eq!(result.lexeme, "\"Hello World\"");
}

#[test]
fn scanner_string_multiline() {
    let mut scanner = Scanner::new("\"Hello\nWorld\"");
    scanner.advance();

    let result = scanner.string().unwrap();

    assert_eq!(result.token_type, TokenType::RoxString);
    assert_eq!(result.lexeme, "\"Hello\nWorld\"");
    assert_eq!(scanner.line, 2)
}

#[test]
fn scanner_string_unterminated() {
    let mut scanner = Scanner::new("\"Hello World");
    scanner.advance();

    let result = scanner.string();

    assert!(result.is_err());
}

#[test]
fn scanner_match_token() {
    let mut scanner = Scanner::new("1");

    let result = scanner.match_token('1');

    assert!(result);
}

#[test]
fn scanner_match_token_not_expected() {
    let mut scanner = Scanner::new("1");

    let result = scanner.match_token('2');

    assert_eq!(result, false);
}

#[test]
fn scanner_match_token_when_at_end() {
    let mut scanner = Scanner::new("");

    let result = scanner.match_token('1');

    assert_eq!(result, false);
}

#[test]
fn scanner_identifier() {
    let mut scanner = Scanner::new("foo");

    let result = scanner.identifier();

    assert_eq!(result.token_type, TokenType::Identifier);
    assert_eq!(result.lexeme, "foo");
}

#[test]
fn scanner_identify_keywords() {
    let mut scanner = Scanner::new("and");
    let result = scanner.identifier();
    assert_eq!(result.token_type, TokenType::And);

    let mut scanner = Scanner::new("class");
    let result = scanner.identifier();
    assert_eq!(result.token_type, TokenType::Class);

    let mut scanner = Scanner::new("else");
    let result = scanner.identifier();
    assert_eq!(result.token_type, TokenType::Else);

    let mut scanner = Scanner::new("false");
    let result = scanner.identifier();
    assert_eq!(result.token_type, TokenType::False);

    let mut scanner = Scanner::new("for");
    let result = scanner.identifier();
    assert_eq!(result.token_type, TokenType::For);

    let mut scanner = Scanner::new("fun");
    let result = scanner.identifier();
    assert_eq!(result.token_type, TokenType::Fun);

    let mut scanner = Scanner::new("if");
    let result = scanner.identifier();
    assert_eq!(result.token_type, TokenType::If);

    let mut scanner = Scanner::new("nil");
    let result = scanner.identifier();
    assert_eq!(result.token_type, TokenType::Nil);

    let mut scanner = Scanner::new("or");
    let result = scanner.identifier();
    assert_eq!(result.token_type, TokenType::Or);

    let mut scanner = Scanner::new("print");
    let result = scanner.identifier();
    assert_eq!(result.token_type, TokenType::Print);

    let mut scanner = Scanner::new("return");
    let result = scanner.identifier();
    assert_eq!(result.token_type, TokenType::Return);

    let mut scanner = Scanner::new("super");
    let result = scanner.identifier();
    assert_eq!(result.token_type, TokenType::Super);

    let mut scanner = Scanner::new("this");
    let result = scanner.identifier();
    assert_eq!(result.token_type, TokenType::This);

    let mut scanner = Scanner::new("true");
    let result = scanner.identifier();
    assert_eq!(result.token_type, TokenType::True);

    let mut scanner = Scanner::new("var");
    let result = scanner.identifier();
    assert_eq!(result.token_type, TokenType::Var);

    let mut scanner = Scanner::new("while");
    let result = scanner.identifier();
    assert_eq!(result.token_type, TokenType::While);
}

#[test]
fn scanner_scan_identifier() {
    let mut scanner = Scanner::new("bar");

    let result = scanner.scan_token().unwrap();

    assert_eq!(result.token_type, TokenType::Identifier);
    assert_eq!(result.lexeme, "bar");
}

#[test]
fn scanner_scan_with_whitespace() {
    let mut scanner = Scanner::new("    baz");

    let result = scanner.scan_token().unwrap();

    assert_eq!(result.token_type, TokenType::Identifier);
    assert_eq!(result.lexeme, "baz");
}

#[test]
fn scanner_scan_number() {
    let mut scanner = Scanner::new("42");

    let result = scanner.scan_token().unwrap();

    assert_eq!(result.token_type, TokenType::Number);
    assert_eq!(result.lexeme, "42");
}

#[test]
fn scanner_scan_string() {
    let mut scanner = Scanner::new("\"Hello World\"");

    let result = scanner.scan_token().unwrap();

    assert_eq!(result.token_type, TokenType::RoxString);
    assert_eq!(result.lexeme, "\"Hello World\"");
}

#[test]
fn scanner_scan_at_end() {
    let mut scanner = Scanner::new("");

    let result = scanner.scan_token().unwrap();

    assert_eq!(result.token_type, TokenType::EOF);
}

#[test]
fn scanner_scan_unexpected_character() {
    let mut scanner = Scanner::new("🤔");

    let result = scanner.scan_token();

    assert!(result.is_err());
}

#[test]
fn scanner_scan_one_character_tokens() {
    let mut scanner = Scanner::new("(");
    let result = scanner.scan_token().unwrap();
    assert_eq!(result.token_type, TokenType::LeftParen);

    let mut scanner = Scanner::new(")");
    let result = scanner.scan_token().unwrap();
    assert_eq!(result.token_type, TokenType::RightParen);

    let mut scanner = Scanner::new("{");
    let result = scanner.scan_token().unwrap();
    assert_eq!(result.token_type, TokenType::LeftBrace);

    let mut scanner = Scanner::new("}");
    let result = scanner.scan_token().unwrap();
    assert_eq!(result.token_type, TokenType::RightBrace);

    let mut scanner = Scanner::new(";");
    let result = scanner.scan_token().unwrap();
    assert_eq!(result.token_type, TokenType::Semicolon);

    let mut scanner = Scanner::new(",");
    let result = scanner.scan_token().unwrap();
    assert_eq!(result.token_type, TokenType::Comma);

    let mut scanner = Scanner::new(".");
    let result = scanner.scan_token().unwrap();
    assert_eq!(result.token_type, TokenType::Dot);

    let mut scanner = Scanner::new("-");
    let result = scanner.scan_token().unwrap();
    assert_eq!(result.token_type, TokenType::Minus);

    let mut scanner = Scanner::new("+");
    let result = scanner.scan_token().unwrap();
    assert_eq!(result.token_type, TokenType::Plus);

    let mut scanner = Scanner::new("/");
    let result = scanner.scan_token().unwrap();
    assert_eq!(result.token_type, TokenType::Slash);

    let mut scanner = Scanner::new("*");
    let result = scanner.scan_token().unwrap();
    assert_eq!(result.token_type, TokenType::Star);

    let mut scanner = Scanner::new("!");
    let result = scanner.scan_token().unwrap();
    assert_eq!(result.token_type, TokenType::Bang);

    let mut scanner = Scanner::new("=");
    let result = scanner.scan_token().unwrap();
    assert_eq!(result.token_type, TokenType::Equal);

    let mut scanner = Scanner::new("<");
    let result = scanner.scan_token().unwrap();
    assert_eq!(result.token_type, TokenType::Less);

    let mut scanner = Scanner::new(">");
    let result = scanner.scan_token().unwrap();
    assert_eq!(result.token_type, TokenType::Greater);
}

#[test]
fn scanner_scan_two_character_tokens() {
    let mut scanner = Scanner::new("!=");
    let result = scanner.scan_token().unwrap();
    assert_eq!(result.token_type, TokenType::BangEqual);

    let mut scanner = Scanner::new("==");
    let result = scanner.scan_token().unwrap();
    assert_eq!(result.token_type, TokenType::EqualEqual);

    let mut scanner = Scanner::new("<=");
    let result = scanner.scan_token().unwrap();
    assert_eq!(result.token_type, TokenType::LessEqual);

    let mut scanner = Scanner::new(">=");
    let result = scanner.scan_token().unwrap();
    assert_eq!(result.token_type, TokenType::GreaterEqual);
}

fn lexemes(source: &str) -> String {
    let mut scanner = Scanner::new(source);
    let mut joined = String::new();
    loop {
        match scanner.scan_token() {
            Ok(token) => {
                if token.token_type == TokenType::EOF {
                    return joined;
                }
                joined.push_str(&token.lexeme);
            }
            Err(_) => {}
        }
    }
}

fn visible(text: &str) -> String {
    text.chars()
        .filter(|c| !matches!(c, ' ' | '\r' | '\t' | '\n'))
        .collect()
}

#[test]
fn scanner_lexemes_hold_every_visible_character() {
    for source in [
        "",
        "   \n\t ",
        "print 1 + 2 * 3;",
        "var a = \"hi there\";\nvar b=a+\"\n\";",
        "for(var i=0;i<10;i=i+1){print i;}",
        "a.b(c,d) != e >= f <= g == !h",
        "1.5.x 12. .5 1.",
        "class fun super this return _x9 nil_ ",
    ] {
        assert_eq!(visible(&lexemes(source)), visible(source), "{:?}", source);
    }
}

#[test]
fn scanner_comments_and_rejected_characters_give_no_lexeme() {
    assert_eq!(lexemes("// nothing here"), "");
    assert_eq!(lexemes("1 // one\n2"), "12");
    assert_eq!(lexemes("1 @ 2"), "12");
    assert_eq!(lexemes("1 \"open"), "1");
}

#[test]
fn scanner_scan_token_lines() {
    let mut scanner = Scanner::new("a\n// c\n\"x\ny\"\n  b");
    let a = scanner.scan_token().unwrap();
    assert_eq!((a.lexeme.as_str(), a.line), ("a", 1));
    let text = scanner.scan_token().unwrap();
    assert_eq!(text.token_type, TokenType::RoxString);
    assert_eq!((text.lexeme.as_str(), text.line), ("\"x\ny\"", 4));
    let b = scanner.scan_token().unwrap();
    assert_eq!((b.lexeme.as_str(), b.line), ("b", 5));
    assert_eq!(scanner.start, 15);
    assert_eq!(scanner.current, 16);
    let end = scanner.scan_token().unwrap();
    assert_eq!(end.token_type, TokenType::EOF);
    assert_eq!(end.lexeme, "");
    assert_eq!(end.line, 5);
    assert_eq!(scanner.scan_token().unwrap().token_type, TokenType::EOF);
}

#[test]
fn scanner_scan_errors() {
    let mut scanner = Scanner::new("\n @");
    let error = scanner.scan_token().err().unwrap();
    assert_eq!(error.message, "Unexpected character.");
    assert_eq!(error.token, "@");
    assert_eq!(error.line, 2);

    let mut scanner = Scanner::new("\n\"a\nb");
    let error = scanner.scan_token().err().unwrap();
    assert_eq!(error.message, "Unterminated string.");
    assert_eq!(error.token, "\"a\nb");
    assert_eq!(error.line, 2);
    assert_eq!(scanner.line, 3);
    assert!(scanner.is_at_end());
}

#[test]
fn scanner_check_keyword() {
    let mut scanner = Scanner::new("while");
    scanner.current = 5;
    assert_eq!(scanner.check_keyword(1, "hile", TokenType::While), TokenType::While);
    assert_eq!(scanner.check_keyword(1, "hil", TokenType::While), TokenType::Identifier);
    assert_eq!(scanner.check_keyword(2, "ile", TokenType::While), TokenType::While);
    assert_eq!(scanner.check_keyword(1, "hale", TokenType::While), TokenType::Identifier);
    assert_eq!(scanner.identifier_type(), TokenType::While);
    scanner.current = 4;
    assert_eq!(scanner.identifier_type(), TokenType::Identifier);
}

#[test]
fn scanner_keyword_prefixes_are_identifiers() {
    for word in ["an", "andy", "f", "fo", "fals", "t", "th", "tru", "truee", "printer", "_if", "If"] {
        let mut scanner = Scanner::new(word);
        let token = scanner.scan_token().unwrap();
        assert_eq!(token.token_type, TokenType::Identifier, "{}", word);
        assert_eq!(token.lexeme, word);
    }
}
