use aoi::number::Number;
use aoi::token::{LexErrorKind, Token, TokenType, Tokensizer};
use aoi::value::Value;

fn scan(src: &str) -> (Vec<Token>, Vec<aoi::token::LexError>) {
    let mut t = Tokensizer::new(src.to_string());
    let tokens = t.tokenize();
    let errors = t.errors().clone();
    (tokens, errors)
}

fn kinds(tokens: &[Token]) -> Vec<TokenType> {
    tokens.iter().map(|t| t.token_type).collect()
}

fn number_of(t: &Token) -> (i64, i64) {
    match &t.literal {
        Some(Value::Number(n)) => (n.numerator(), n.denominator()),
        _ => panic!("not a number literal"),
    }
}

#[test]
fn tokenize_one_plus_two() {
    let (tokens, errors) = scan("1+2;");
    assert!(errors.is_empty());
    assert_eq!(
        kinds(&tokens),
        vec![TokenType::NUMBER, TokenType::PLUS, TokenType::NUMBER, TokenType::SEMICOLON, TokenType::EOF]
    );
    assert_eq!(number_of(&tokens[0]), (1, 1));
    assert_eq!(number_of(&tokens[2]), (2, 1));
    assert_eq!(tokens[1].lexeme, "+");
    assert_eq!(tokens[4].lexeme, "");
}

#[test]
fn empty_source_gives_only_eof() {
    let (tokens, errors) = scan("");
    assert!(errors.is_empty());
    assert_eq!(kinds(&tokens), vec![TokenType::EOF]);
    assert_eq!(tokens[0].line, 1);
}

#[test]
fn two_character_operators() {
    let (tokens, _) = scan("! != = == < <= > >=");
    assert_eq!(
        kinds(&tokens),
        vec![
            TokenType::BANG,
            TokenType::BANG_EQUAL,
            TokenType::EQUAL,
            TokenType::EQUAL_EQUAL,
            TokenType::LESS,
            TokenType::LESS_EQUAL,
            TokenType::GREATER,
            TokenType::GREATER_EQUAL,
            TokenType::EOF
        ]
    );
    assert_eq!(tokens[3].lexeme, "==");
}

#[test]
fn keywords_and_identifiers() {
    let (tokens, _) = scan("and class else false fun for if nil or print return super this true var while foo _bar x1");
    assert_eq!(
        kinds(&tokens),
        vec![
            TokenType::AND,
            TokenType::CLASS,
            TokenType::ELSE,
            TokenType::FALSE,
            TokenType::FUN,
            TokenType::FOR,
            TokenType::IF,
            TokenType::NIL,
            TokenType::OR,
            TokenType::PRINT,
            TokenType::RETURN,
            TokenType::SUPER,
            TokenType::THIS,
            TokenType::TRUE,
            TokenType::VAR,
            TokenType::WHILE,
            TokenType::IDENTIFIER,
            TokenType::IDENTIFIER,
            TokenType::IDENTIFIER,
            TokenType::EOF
        ]
    );
    assert!(matches!(tokens[3].literal, Some(Value::Boolean(false))));
    assert!(matches!(tokens[7].literal, Some(Value::Nil)));
    assert!(matches!(tokens[13].literal, Some(Value::Boolean(true))));
    assert!(tokens[16].literal.is_none());
    assert_eq!(tokens[17].lexeme, "_bar");
}

#[test]
fn string_literal_and_lines() {
    let (tokens, errors) = scan("\"ab\ncd\" x");
    assert!(errors.is_empty());
    assert_eq!(kinds(&tokens), vec![TokenType::STRING, TokenType::IDENTIFIER, TokenType::EOF]);
    match &tokens[0].literal {
        Some(Value::Text(s)) => assert_eq!(s, "ab\ncd"),
        _ => panic!("string literal expected"),
    }
    assert_eq!(tokens[0].lexeme, "\"ab\ncd\"");
    assert_eq!(tokens[1].line, 2);
}

#[test]
fn comments_and_whitespace_are_skipped() {
    let (tokens, errors) = scan("// a comment ( ) \n\t 1 / 2 // another");
    assert!(errors.is_empty());
    assert_eq!(kinds(&tokens), vec![TokenType::NUMBER, TokenType::SLASH, TokenType::NUMBER, TokenType::EOF]);
    assert_eq!(tokens[0].line, 2);
}

#[test]
fn decimal_number_literal() {
    let (tokens, _) = scan("45.67 2.50 7.");
    assert_eq!(number_of(&tokens[0]), (4567, 100));
    assert_eq!(number_of(&tokens[1]), (5, 2));
    assert_eq!(number_of(&tokens[2]), (7, 1));
    assert_eq!(tokens[3].token_type, TokenType::DOT);
}

#[test]
fn unexpected_character_is_reported_and_skipped() {
    let (tokens, errors) = scan("1 @ 2\n#");
    assert_eq!(kinds(&tokens), vec![TokenType::NUMBER, TokenType::NUMBER, TokenType::EOF]);
    assert_eq!(errors.len(), 2);
    assert_eq!(errors[0].kind, LexErrorKind::UnexpectedCharacter('@'));
    assert_eq!(errors[0].line, 1);
    assert_eq!(errors[1].kind, LexErrorKind::UnexpectedCharacter('#'));
    assert_eq!(errors[1].line, 2);
}

#[test]
fn unterminated_string_is_reported() {
    let (tokens, errors) = scan("\"open\n");
    assert_eq!(kinds(&tokens), vec![TokenType::EOF]);
    assert_eq!(errors.len(), 1);
    assert_eq!(errors[0].kind, LexErrorKind::UnterminatedString);
    assert_eq!(errors[0].line, 2);
}

#[test]
fn long_number_literals_are_read() {
    let (tokens, errors) = scan("1234567890123456789 1.0000000000000000000 0.00000000000000000000000000000000000000000");
    assert!(errors.is_empty());
    assert_eq!(kinds(&tokens), vec![TokenType::NUMBER, TokenType::NUMBER, TokenType::NUMBER, TokenType::EOF]);
    assert_eq!(number_of(&tokens[0]), (1234567890123456789, 1));
    assert_eq!(number_of(&tokens[1]), (1, 1));
    assert_eq!(number_of(&tokens[2]), (0, 1));
}

#[test]
fn out_of_range_number_is_reported() {
    let (tokens, errors) = scan("99999999999999999999 7");
    assert_eq!(errors.len(), 1);
    assert_eq!(errors[0].kind, LexErrorKind::NumberOutOfRange);
    assert_eq!(kinds(&tokens), vec![TokenType::NUMBER, TokenType::EOF]);
    assert_eq!(number_of(&tokens[0]), (7, 1));
}

#[test]
fn token_description() {
    let (tokens, _) = scan("x = 2.5;");
    assert_eq!(tokens[0].describe(), "IDENTIFIER x");
    assert_eq!(tokens[2].describe(), "NUMBER 2.5 2.5");
    assert_eq!(tokens[4].describe(), "EOF ");
}

#[test]
fn number_arithmetic_is_exact() {
    let a = Number::new(1, 3).unwrap();
    let b = Number::new(1, 6).unwrap();
    let s = a.add(&b).unwrap();
    assert_eq!((s.numerator(), s.denominator()), (1, 2));
    let d = Number::new(6, -4).unwrap();
    assert_eq!((d.numerator(), d.denominator()), (-3, 2));
    assert!(Number::new(1, 0).is_none());
    let big = Number::from_int(i64::MAX);
    assert!(big.add(&Number::from_int(1)).is_none());
    assert!(Number::from_int(i64::MIN).neg().is_none());
}

#[test]
fn number_text_forms() {
    let text = |n: &Number| {
        let mut out = Vec::new();
        n.push_text(&mut out);
        out.into_iter().collect::<String>()
    };
    assert_eq!(text(&Number::from_int(7)), "7");
    assert_eq!(text(&Number::new(-7, 2).unwrap()), "-3.5");
    assert_eq!(text(&Number::new(1, 3).unwrap()), "0.3333333333333333");
    assert_eq!(text(&Number::from_int(0)), "0");
    assert_eq!(text(&Number::from_int(i64::MIN)), "-9223372036854775808");
}
