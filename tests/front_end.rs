use lambda_front::error::ParserError;
use lambda_front::lexer::{tokenize, Lexer, Token};
use lambda_front::parser::{Expression, Parser};

fn ident(s: &str) -> Token {
    Token::Identifier(s.to_string())
}

fn punct(s: &str) -> Token {
    Token::Punctuation(s.to_string())
}

fn id(s: &str) -> Expression {
    Expression::Identifier(s.to_string())
}

fn app(f: Expression, a: Expression) -> Expression {
    Expression::FunctionApplication(Box::new(f), Box::new(a))
}

fn def(p: Expression, b: Expression) -> Expression {
    Expression::FunctionDefinition(Box::new(p), Box::new(b))
}

fn group(e: Expression) -> Expression {
    Expression::ExpressionGroup(Box::new(e))
}

fn parse_text(text: &str) -> Result<Vec<Expression>, ParserError> {
    let tokens = tokenize(text).expect("text holds only known characters");
    Parser::new(tokens).parse_all()
}

fn text_of(t: &Token) -> String {
    match t {
        Token::Identifier(s) | Token::Punctuation(s) | Token::Comment(s) => s.clone(),
        Token::Newline | Token::EOF => String::new(),
    }
}

#[test]
fn comment_runs_to_newline() {
    let tokens = Lexer::new("a # comment\nb").lex_all();
    assert_eq!(
        tokens,
        vec![
            ident("a"),
            Token::Comment(" comment".to_string()),
            Token::Newline,
            ident("b"),
            Token::EOF
        ]
    );
}

#[test]
fn lex_one_token_per_call() {
    let mut lexer = Lexer::new("\\x.x");
    assert_eq!(lexer.lex(), punct("\\"));
    assert_eq!(lexer.lex(), ident("x"));
    assert_eq!(lexer.lex(), punct("."));
    assert_eq!(lexer.lex(), ident("x"));
    assert_eq!(lexer.lex(), Token::EOF);
    assert_eq!(lexer.lex(), Token::EOF);
}

#[test]
fn lex_all_on_empty_input_is_end_marker() {
    assert_eq!(Lexer::new("").lex_all(), vec![Token::EOF]);
    assert_eq!(Lexer::new(" \t\r ").lex_all(), vec![Token::EOF]);
}

#[test]
fn single_end_marker_and_no_layout_tokens() {
    let tokens = tokenize("  f\t(x  y)\r\n").unwrap();
    assert_eq!(
        tokens,
        vec![
            ident("f"),
            punct("("),
            ident("x"),
            ident("y"),
            punct(")"),
            Token::Newline,
            Token::EOF
        ]
    );
    assert_eq!(tokens.iter().filter(|t| **t == Token::EOF).count(), 1);
    assert_eq!(tokens.last(), Some(&Token::EOF));
}

#[test]
fn punctuation_is_not_merged() {
    assert_eq!(
        tokenize("((..\\\\))").unwrap(),
        vec![
            punct("("),
            punct("("),
            punct("."),
            punct("."),
            punct("\\"),
            punct("\\"),
            punct(")"),
            punct(")"),
            Token::EOF
        ]
    );
}

#[test]
fn identifiers_take_letters_then_digits() {
    assert_eq!(
        tokenize("ab12 c3d x").unwrap(),
        vec![ident("ab12"), ident("c3d"), ident("x"), Token::EOF]
    );
    assert_eq!(tokenize("λx").unwrap(), vec![ident("λx"), Token::EOF]);
}

#[test]
fn token_texts_rebuild_input_without_layout() {
    let tokens = tokenize("(\\x . y) # hi there\n z").unwrap();
    let joined: String = tokens.iter().map(text_of).collect();
    assert_eq!(joined, "(\\x.y) hi therez");
}

#[test]
fn unknown_character_is_refused() {
    assert_eq!(tokenize("1"), None);
    assert_eq!(tokenize("a % b"), None);
    assert_eq!(tokenize("a # 1 % still a comment"), Some(vec![
        ident("a"),
        Token::Comment(" 1 % still a comment".to_string()),
        Token::EOF
    ]));
}

#[test]
fn application_is_left_associative() {
    assert_eq!(
        parse_text("a b c"),
        Ok(vec![app(app(id("a"), id("b")), id("c"))])
    );
}

#[test]
fn lambda_body_is_one_element() {
    let parsed = parse_text("\\x.a b").unwrap();
    assert_eq!(parsed, vec![app(def(id("x"), id("a")), id("b"))]);
    assert_ne!(parsed, vec![def(id("x"), app(id("a"), id("b")))]);
}

#[test]
fn grouping_is_kept() {
    let parsed = parse_text("(a b)").unwrap();
    assert_eq!(parsed, vec![group(app(id("a"), id("b")))]);
    assert_ne!(parsed, parse_text("a b").unwrap());
}

#[test]
fn group_restores_full_body() {
    assert_eq!(
        parse_text("\\x.(a b)"),
        Ok(vec![def(id("x"), group(app(id("a"), id("b"))))])
    );
}

#[test]
fn nested_definitions() {
    assert_eq!(
        parse_text("\\x.\\y.x y"),
        Ok(vec![app(def(id("x"), def(id("y"), id("x"))), id("y"))])
    );
}

#[test]
fn missing_dot_reports_dot() {
    let err = parse_text("\\x").unwrap_err();
    assert_eq!(err.expected, punct("."));
    assert_eq!(err.found, Some(Token::EOF));
    assert_eq!(err, ParserError::new(punct("."), Some(Token::EOF)));
}

#[test]
fn missing_parameter_reports_identifier() {
    assert_eq!(
        parse_text("\\.a"),
        Err(ParserError::new(ident(""), Some(punct("."))))
    );
}

#[test]
fn first_failing_part_is_reported() {
    // Both the parameter and the dot are missing: the parameter comes first.
    assert_eq!(
        parse_text("\\(x"),
        Err(ParserError::new(ident(""), Some(punct("("))))
    );
}

#[test]
fn unclosed_group_reports_paren() {
    assert_eq!(
        parse_text("(a"),
        Err(ParserError::new(punct(")"), Some(Token::EOF)))
    );
}

#[test]
fn stray_close_paren_is_an_error() {
    assert_eq!(
        parse_text("a)"),
        Err(ParserError::new(Token::Newline, Some(punct(")"))))
    );
}

#[test]
fn token_that_starts_no_element() {
    assert_eq!(parse_text("a ."), Err(ParserError::new(punct("."), None)));
    assert_eq!(
        parse_text("a # c"),
        Err(ParserError::new(Token::Comment(" c".to_string()), None))
    );
}

#[test]
fn element_at_end_of_stream() {
    let mut parser = Parser::new(vec![punct("\\"), ident("x"), punct(".")]);
    assert_eq!(parser.parse_all(), Err(ParserError::new(Token::EOF, None)));
}

#[test]
fn one_node_per_line() {
    assert_eq!(parse_text("a\nb\n"), Ok(vec![id("a"), id("b")]));
    assert_eq!(parse_text("a b\n\n\nc"), Ok(vec![app(id("a"), id("b")), id("c")]));
}

#[test]
fn parse_takes_one_node_and_its_newlines() {
    let tokens = tokenize("a\n\nb").unwrap();
    let mut parser = Parser::new(tokens);
    assert_eq!(parser.parse(), Ok(id("a")));
    assert_eq!(parser.parse(), Ok(id("b")));
    assert_eq!(parser.parse_all(), Ok(vec![]));
}

#[test]
fn empty_line_is_one_empty_node() {
    assert_eq!(parse_text(""), Ok(vec![Expression::Empty]));
    assert_eq!(parse_text("\n"), Ok(vec![Expression::Empty]));
    assert_eq!(parse_text("()"), Ok(vec![group(Expression::Empty)]));
}

#[test]
fn stream_without_end_marker() {
    let mut parser = Parser::new(vec![ident("f"), ident("x")]);
    assert_eq!(parser.parse_all(), Ok(vec![app(id("f"), id("x"))]));
    assert_eq!(Parser::new(vec![]).parse_all(), Ok(vec![]));
}

#[test]
fn parser_error_holds_its_fields() {
    let e = ParserError::new(ident("x"), None);
    assert_eq!(e.expected, ident("x"));
    assert_eq!(e.found, None);
}

#[test]
fn failed_definition_still_runs_its_later_parts() {
    let mut parser = Parser::new(tokenize("\\.x").unwrap());
    assert_eq!(
        parser.parse(),
        Err(ParserError::new(ident(""), Some(punct("."))))
    );
    // The dot step took `x`; only the end marker is left.
    assert_eq!(parser.parse_all(), Ok(vec![Expression::Empty]));
}

#[test]
fn failed_identifier_consumes_its_token() {
    let mut parser = Parser::new(vec![punct("."), ident("y"), Token::EOF]);
    assert_eq!(
        parser.parse(),
        Err(ParserError::new(punct("."), None))
    );
    let mut parser = Parser::new(vec![punct("\\"), punct("."), ident("y"), Token::EOF]);
    assert_eq!(
        parser.parse(),
        Err(ParserError::new(ident(""), Some(punct("."))))
    );
    assert_eq!(parser.parse_all(), Ok(vec![Expression::Empty]));
}

#[test]
fn token_that_starts_no_element_stays() {
    let mut parser = Parser::new(tokenize("a .").unwrap());
    assert_eq!(parser.parse(), Err(ParserError::new(punct("."), None)));
    // The dot is still the next token.
    assert_eq!(parser.parse(), Err(ParserError::new(punct("."), None)));
}

#[test]
fn stray_close_paren_stays() {
    let mut parser = Parser::new(tokenize("a)").unwrap());
    assert_eq!(
        parser.parse(),
        Err(ParserError::new(Token::Newline, Some(punct(")"))))
    );
    assert_eq!(
        parser.parse(),
        Err(ParserError::new(Token::Newline, Some(punct(")"))))
    );
}
