use kvs::lexer::{tokenize, LexError, Lexer, Token};
use kvs::parser::{parse, JSONValue, ParseError, Parser};

fn s(text: &str) -> String {
    text.to_string()
}

#[test]
fn lexer_current_and_peek() {
    let mut lex = Lexer::new("ab");
    assert_eq!(lex.current(), Some('a'));
    assert_eq!(lex.peek(), Some('b'));
    lex.advance();
    assert_eq!(lex.current(), Some('b'));
    assert_eq!(lex.peek(), None);
    lex.advance();
    assert_eq!(lex.current(), None);
}

#[test]
fn lexer_reads_literal() {
    let mut lex = Lexer::new("true,");
    assert_eq!(lex.read_literal("true"), Ok(()));
    assert_eq!(lex.current(), Some(','));
}

#[test]
fn lexer_literal_mismatch() {
    let mut lex = Lexer::new("trxe");
    assert_eq!(
        lex.read_literal("true"),
        Err(LexError::UnexpectedKeywordChar { found: 'x', expected: 'u' })
    );
    let mut lex = Lexer::new("nu");
    assert_eq!(lex.read_literal("null"), Err(LexError::UnexpectedKeywordEnd { expected: 'l' }));
}

#[test]
fn lexer_reads_string() {
    let mut lex = Lexer::new("\"héllo\" x");
    assert_eq!(lex.read_string(), Ok(s("héllo")));
    assert_eq!(lex.current(), Some(' '));
}

#[test]
fn lexer_string_escaped_quote_ends_string() {
    let mut lex = Lexer::new("\"a\\\"b\"");
    assert_eq!(lex.read_string(), Ok(s("a\"")));
    assert_eq!(lex.current(), Some('b'));
}

#[test]
fn lexer_string_errors() {
    assert_eq!(Lexer::new("\"abc").read_string(), Err(LexError::UnterminatedString));
    assert_eq!(Lexer::new("\"a\\n\"").read_string(), Err(LexError::InvalidEscape('n')));
    assert_eq!(Lexer::new("\"a\\").read_string(), Err(LexError::UnterminatedEscape));
}

#[test]
fn lexer_reads_numbers() {
    let mut lex = Lexer::new("-12.5,");
    assert_eq!(lex.read_number(), Ok(s("-12.5")));
    assert_eq!(lex.current(), Some(','));
    assert_eq!(Lexer::new(".5").read_number(), Ok(s("0.5")));
    assert_eq!(Lexer::new("7.}").read_number(), Ok(s("7.")));
}

#[test]
fn lexer_rejects_bad_numbers() {
    assert_eq!(Lexer::new("1.2.3").read_number(), Err(LexError::InvalidNumber(s("1.2.3"))));
    assert_eq!(Lexer::new("-x").read_number(), Err(LexError::InvalidNumber(s("-"))));
    assert_eq!(Lexer::new("-.").read_number(), Err(LexError::InvalidNumber(s("-."))));
}

#[test]
fn tokenize_sample() {
    let tokens = tokenize("{\"a\": [1, -2.5], \"b\": null}").unwrap();
    assert_eq!(
        tokens,
        vec![
            Token::LeftBrace,
            Token::StringToken(s("a")),
            Token::Colon,
            Token::LeftBracket,
            Token::NumToken(s("1")),
            Token::Comma,
            Token::NumToken(s("-2.5")),
            Token::RightBracket,
            Token::Comma,
            Token::StringToken(s("b")),
            Token::Colon,
            Token::Null,
            Token::RightBrace,
        ]
    );
}

#[test]
fn tokenize_errors() {
    assert_eq!(tokenize("{x}").err(), Some(LexError::UnexpectedChar('x')));
    assert_eq!(tokenize(" .5").err(), Some(LexError::UnexpectedChar('.')));
    assert_eq!(tokenize("fals").err(), Some(LexError::UnexpectedKeywordEnd { expected: 'e' }));
}

#[test]
fn token_text_forms() {
    assert_eq!(Token::StringToken(s("k")).text(), "\"k\"");
    assert_eq!(Token::NumToken(s("4.5")).text(), "4.5");
    assert_eq!(Token::False.text(), "false");
    assert_eq!(Token::Colon.text(), ":");
}

#[test]
fn parse_sample_document() {
    let input = r#"{"name": "alice", "age": 30.4, "active": true}"#;
    let value = parse(tokenize(input).unwrap()).unwrap();
    assert_eq!(
        value,
        JSONValue::Object(vec![
            (s("name"), JSONValue::Str(s("alice"))),
            (s("age"), JSONValue::Num(s("30.4"))),
            (s("active"), JSONValue::Bool(false)),
        ])
    );
    assert_eq!(value.to_json(), r#"{"name":"alice","age":30.4,"active":false}"#);
}

#[test]
fn parse_nested() {
    let value = parse(tokenize("{\"a\": [{}, [null]], \"b\": false}").unwrap()).unwrap();
    assert_eq!(
        value,
        JSONValue::Object(vec![
            (
                s("a"),
                JSONValue::Array(vec![
                    JSONValue::Object(vec![]),
                    JSONValue::Array(vec![JSONValue::Null]),
                ])
            ),
            (s("b"), JSONValue::Bool(true)),
        ])
    );
    assert_eq!(value.to_json(), "{\"a\":[{},[null]],\"b\":true}");
}

#[test]
fn parse_errors() {
    let p = |t: &str| parse(tokenize(t).unwrap());
    assert_eq!(p("{\"a\": []}"), Err(ParseError::UnexpectedRightBracket));
    assert_eq!(p("{1: 2}"), Err(ParseError::ExpectedKey));
    assert_eq!(p("{\"a\" 2}"), Err(ParseError::ExpectedColon));
    assert_eq!(p("{\"a\": 2 \"b\"}"), Err(ParseError::ExpectedCommaOrBrace));
    assert_eq!(p("{\"a\": [1 2]}"), Err(ParseError::ExpectedCommaOrBracket));
    assert_eq!(p("{\"a\": ,}"), Err(ParseError::UnexpectedComma));
    assert_eq!(p("{\"a\": :}"), Err(ParseError::UnexpectedColon));
    assert_eq!(p("{\"a\": }"), Err(ParseError::UnexpectedRightBrace));
    assert_eq!(p("{\"a\": 1"), Err(ParseError::UnexpectedEnd));
    assert_eq!(p(""), Err(ParseError::UnexpectedEnd));
}

#[test]
fn parse_ignores_trailing_tokens() {
    assert_eq!(parse(tokenize("{} ]").unwrap()), Ok(JSONValue::Object(vec![])));
}

#[test]
fn parser_new_parses_object() {
    let mut parser = Parser::new(tokenize("{\"k\": \"v\"}").unwrap());
    assert_eq!(
        parser.parse_object(),
        Ok(JSONValue::Object(vec![(s("k"), JSONValue::Str(s("v")))]))
    );
}

#[test]
fn render_scalars() {
    assert_eq!(JSONValue::Null.to_json(), "null");
    assert_eq!(JSONValue::Bool(true).to_json(), "true");
    assert_eq!(JSONValue::Str(s("x y")).to_json(), "\"x y\"");
    assert_eq!(JSONValue::Array(vec![JSONValue::Num(s("1")), JSONValue::Num(s("2"))]).to_json(), "[1,2]");
}

#[test]
fn roundtrip_plain_object() {
    let value = JSONValue::Object(vec![
        (s("n"), JSONValue::Num(s("-0.25"))),
        (s("list"), JSONValue::Array(vec![JSONValue::Null, JSONValue::Str(s("x")), JSONValue::Object(vec![])])),
        (s(""), JSONValue::Str(s(""))),
        (s("deep"), JSONValue::Object(vec![(s("k"), JSONValue::Array(vec![JSONValue::Num(s("3"))]))])),
    ]);
    let text = value.to_json();
    assert_eq!(text, "{\"n\":-0.25,\"list\":[null,\"x\",{}],\"\":\"\",\"deep\":{\"k\":[3]}}");
    assert_eq!(parse(tokenize(&text).unwrap()), Ok(value));
}

#[test]
fn roundtrip_flips_booleans() {
    let value = JSONValue::Object(vec![(s("a"), JSONValue::Bool(true)), (s("b"), JSONValue::Bool(false))]);
    let back = parse(tokenize(&value.to_json()).unwrap()).unwrap();
    assert_eq!(back, JSONValue::Object(vec![(s("a"), JSONValue::Bool(false)), (s("b"), JSONValue::Bool(true))]));
}

#[test]
fn lexing_rendered_value_gives_its_tokens() {
    let value = JSONValue::Array(vec![JSONValue::Bool(true), JSONValue::Num(s("10."))]);
    assert_eq!(
        tokenize(&value.to_json()).unwrap(),
        vec![Token::LeftBracket, Token::True, Token::Comma, Token::NumToken(s("10.")), Token::RightBracket]
    );
}

#[test]
fn tokenize_join_at_white_space() {
    let a = "{\"a\": 12}";
    let b = "[true, \"x\"]";
    for w in [" ", "\n", "\r", "\t"] {
        let mut expected = tokenize(a).unwrap();
        expected.extend(tokenize(b).unwrap());
        assert_eq!(tokenize(&format!("{}{}{}", a, w, b)).unwrap(), expected);
    }
    assert_eq!(tokenize("").unwrap(), vec![]);
    assert_eq!(tokenize(" ").unwrap(), vec![]);
}

#[test]
fn literal_read_in_two_parts() {
    let mut whole = Lexer::new("true!");
    let mut parts = Lexer::new("true!");
    assert_eq!(whole.read_literal("true"), Ok(()));
    assert_eq!(parts.read_literal("tr"), Ok(()));
    assert_eq!(parts.read_literal("ue"), Ok(()));
    assert_eq!(whole.current(), parts.current());
    let mut bad = Lexer::new("trxe");
    assert_eq!(bad.read_literal("tr"), Ok(()));
    assert_eq!(
        bad.read_literal("ue"),
        Lexer::new("trxe").read_literal("true")
    );
}
