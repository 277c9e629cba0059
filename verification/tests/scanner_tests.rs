use rlox::compiler::scanner::{Scanner, Token, TokenType};

fn scan_all(source: &str) -> Vec<(TokenType, String, usize)> {
    let mut scanner = Scanner::new(source);
    let mut out = Vec::new();
    loop {
        let t: Token = scanner.scan_token();
        out.push((t.kind, String::from_utf8_lossy(t.lexeme).into_owned(), t.line));
        if t.kind == TokenType::EOF {
            break;
        }
    }
    out
}

fn kinds(source: &str) -> Vec<TokenType> {
    scan_all(source).into_iter().map(|t| t.0).collect()
}

#[test]
fn scans_a_declaration() {
    let toks = scan_all("var x = 1;");
    let expected = vec![
        (TokenType::Var, "var", 1),
        (TokenType::Identifier, "x", 1),
        (TokenType::Equal, "=", 1),
        (TokenType::Number, "1", 1),
        (TokenType::Semicolon, ";", 1),
        (TokenType::EOF, "", 1),
    ];
    assert_eq!(toks.len(), expected.len());
    for (t, e) in toks.iter().zip(expected.iter()) {
        assert_eq!(t.0, e.0);
        assert_eq!(t.1, e.1);
        assert_eq!(t.2, e.2);
    }
}

#[test]
fn scans_every_keyword() {
    assert_eq!(
        kinds("and class else false for fun if nil or print return super this true var while switch case default delete"),
        vec![
            TokenType::And,
            TokenType::Class,
            TokenType::Else,
            TokenType::False,
            TokenType::For,
            TokenType::Fun,
            TokenType::If,
            TokenType::Nil,
            TokenType::Or,
            TokenType::Print,
            TokenType::Return,
            TokenType::Super,
            TokenType::This,
            TokenType::True,
            TokenType::Var,
            TokenType::While,
            TokenType::Switch,
            TokenType::Case,
            TokenType::Default,
            TokenType::Delete,
            TokenType::EOF,
        ]
    );
}

#[test]
fn keyword_prefixes_are_identifiers() {
    assert_eq!(
        kinds("classy fork thisx _var v4r"),
        vec![
            TokenType::Identifier,
            TokenType::Identifier,
            TokenType::Identifier,
            TokenType::Identifier,
            TokenType::Identifier,
            TokenType::EOF,
        ]
    );
}

#[test]
fn scans_one_and_two_byte_operators() {
    assert_eq!(
        kinds("! != = == < <= > >= ( ) { } [ ] , . - + : ; / *"),
        vec![
            TokenType::Bang,
            TokenType::BangEqual,
            TokenType::Equal,
            TokenType::EqualEqual,
            TokenType::Less,
            TokenType::LessEqual,
            TokenType::Greater,
            TokenType::GreaterEqual,
            TokenType::LeftParen,
            TokenType::RightParen,
            TokenType::LeftBrace,
            TokenType::RightBrace,
            TokenType::LeftBracket,
            TokenType::RightBracket,
            TokenType::Comma,
            TokenType::Dot,
            TokenType::Minus,
            TokenType::Plus,
            TokenType::Colon,
            TokenType::Semicolon,
            TokenType::Slash,
            TokenType::Star,
            TokenType::EOF,
        ]
    );
}

#[test]
fn scans_numbers_with_and_without_fraction() {
    let toks = scan_all("12.5 7. 3");
    assert_eq!(toks[0].0, TokenType::Number);
    assert_eq!(toks[0].1, "12.5");
    assert_eq!(toks[1].0, TokenType::Number);
    assert_eq!(toks[1].1, "7");
    assert_eq!(toks[2].0, TokenType::Dot);
    assert_eq!(toks[3].0, TokenType::Number);
    assert_eq!(toks[3].1, "3");
}

#[test]
fn string_spans_lines_and_keeps_quotes() {
    let toks = scan_all("\"a\nb\" x");
    assert_eq!(toks[0].0, TokenType::String);
    assert_eq!(toks[0].1, "\"a\nb\"");
    assert_eq!(toks[0].2, 2);
    assert_eq!(toks[1].0, TokenType::Identifier);
    assert_eq!(toks[1].2, 2);
}

#[test]
fn unterminated_string_is_an_error() {
    let toks = scan_all("\"abc");
    assert_eq!(toks[0].0, TokenType::Error);
    assert_eq!(toks[1].0, TokenType::EOF);
}

#[test]
fn unknown_byte_is_an_error() {
    let toks = scan_all("@ 1");
    assert_eq!(toks[0].0, TokenType::Error);
    assert_eq!(toks[0].1, "@");
    assert_eq!(toks[1].0, TokenType::Number);
}

#[test]
fn comments_and_newlines_are_skipped() {
    let toks = scan_all("// note\n  \t 1 // tail\n\n2");
    assert_eq!(toks[0].0, TokenType::Number);
    assert_eq!(toks[0].2, 2);
    assert_eq!(toks[1].0, TokenType::Number);
    assert_eq!(toks[1].2, 4);
    assert_eq!(toks[2].0, TokenType::EOF);
}

#[test]
fn end_of_input_repeats() {
    let mut scanner = Scanner::new("x");
    assert_eq!(scanner.scan_token().kind, TokenType::Identifier);
    assert_eq!(scanner.scan_token().kind, TokenType::EOF);
    assert_eq!(scanner.scan_token().kind, TokenType::EOF);
    assert_eq!(scanner.scan_token().kind, TokenType::EOF);
}

#[test]
fn make_token_spans_from_start_to_position() {
    let mut scanner = Scanner::new("foo bar");
    let first = scanner.scan_token();
    assert_eq!(first.lexeme, b"foo");
    let again = scanner.make_token(TokenType::Identifier);
    assert_eq!(again.lexeme, b"foo");
    assert_eq!(again.line, 1);
}

#[test]
fn scanner_from_bytes_matches_str() {
    let mut a = Scanner::from_bytes(b"print 1;");
    let mut b = Scanner::new("print 1;");
    for _ in 0..4 {
        let x = a.scan_token();
        let y = b.scan_token();
        assert_eq!(x.kind, y.kind);
        assert_eq!(x.lexeme, y.lexeme);
    }
}

#[test]
fn underscore_starts_an_identifier_but_does_not_continue_one() {
    assert_eq!(
        scan_all("foo_bar _x1"),
        vec![
            (TokenType::Identifier, "foo".to_string(), 1),
            (TokenType::Identifier, "_bar".to_string(), 1),
            (TokenType::Identifier, "_x1".to_string(), 1),
            (TokenType::EOF, "".to_string(), 1),
        ]
    );
}

#[test]
fn an_unknown_character_is_one_error_token() {
    let mut scanner = Scanner::new("é");
    let t = scanner.scan_token();
    assert_eq!(t.kind, TokenType::Error);
    assert_eq!(t.lexeme, "é".as_bytes());
    assert_eq!(t.line, 1);
    assert_eq!(scanner.scan_token().kind, TokenType::EOF);
    assert_eq!(kinds("a€b"), vec![TokenType::Identifier, TokenType::Error, TokenType::Identifier, TokenType::EOF]);
}
