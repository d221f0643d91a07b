use rslox::error::LoxError;
use rslox::lexer::{Literal, Scanner, Token};
use rslox::model::TokenType;

fn scan(src: &str) -> Result<Vec<Token>, LoxError> {
    Scanner::new(src.to_string()).scan_tokens()
}

fn kinds(tokens: &[Token]) -> Vec<TokenType> {
    tokens.iter().map(|t| t.token_type).collect()
}

fn lexemes(tokens: &[Token]) -> Vec<String> {
    tokens.iter().map(|t| t.lexeme.clone()).collect()
}

fn number_value(t: &Token) -> f64 {
    match &t.literal {
        Some(Literal::Number(text)) => text.parse::<f64>().unwrap(),
        other => panic!("not a number literal: {:?}", other),
    }
}

#[test]
fn empty_source_gives_only_eof() {
    let tokens = scan("").unwrap();
    assert_eq!(kinds(&tokens), vec![TokenType::Eof]);
    assert_eq!(tokens[0].lexeme, "");
    assert!(tokens[0].literal.is_none());
    assert_eq!(tokens[0].line, 0);
}

#[test]
fn whitespace_only_gives_only_eof() {
    let tokens = scan("  \t\r\n \n\t").unwrap();
    assert_eq!(kinds(&tokens), vec![TokenType::Eof]);
    assert_eq!(tokens[0].line, 2);
}

#[test]
fn two_character_operators() {
    let cases = [
        ("!=", TokenType::BangEqual, "!", TokenType::Bang),
        ("==", TokenType::EqualEqual, "=", TokenType::Equal),
        ("<=", TokenType::LessEqual, "<", TokenType::Less),
        (">=", TokenType::GreaterEqual, ">", TokenType::Greater),
    ];
    for (two, two_kind, one, one_kind) in cases {
        let tokens = scan(two).unwrap();
        assert_eq!(kinds(&tokens), vec![two_kind, TokenType::Eof]);
        assert_eq!(tokens[0].lexeme, two);
        let tokens = scan(one).unwrap();
        assert_eq!(kinds(&tokens), vec![one_kind, TokenType::Eof]);
        assert_eq!(tokens[0].lexeme, one);
    }
}

#[test]
fn operator_followed_by_other_character() {
    let tokens = scan("!a = =<>").unwrap();
    assert_eq!(
        kinds(&tokens),
        vec![
            TokenType::Bang,
            TokenType::Identifier,
            TokenType::Equal,
            TokenType::Equal,
            TokenType::Less,
            TokenType::Greater,
            TokenType::Eof
        ]
    );
}

#[test]
fn single_character_punctuation() {
    let tokens = scan("(){},.-+;*/").unwrap();
    assert_eq!(
        kinds(&tokens),
        vec![
            TokenType::LeftParen,
            TokenType::RightParen,
            TokenType::LeftBrace,
            TokenType::RightBrace,
            TokenType::Comma,
            TokenType::Dot,
            TokenType::Minus,
            TokenType::Plus,
            TokenType::Semicolon,
            TokenType::Star,
            TokenType::Slash,
            TokenType::Eof
        ]
    );
}

#[test]
fn lexemes_rejoin_with_blanks_to_source() {
    let src = "var a = (1.5 + b) // sum\n  print \"s t\";\t// end";
    let tokens = scan(src).unwrap();
    let mut rebuilt = String::new();
    let mut rest = src;
    for t in &tokens[..tokens.len() - 1] {
        let at = rest.find(t.lexeme.as_str()).unwrap();
        let gap = &rest[..at];
        for piece in gap.split('\n') {
            let trimmed = piece.trim_matches(|c| c == ' ' || c == '\t' || c == '\r');
            assert!(trimmed.is_empty() || trimmed.starts_with("//"), "gap {:?}", gap);
        }
        rebuilt.push_str(gap);
        rebuilt.push_str(&t.lexeme);
        rest = &rest[at + t.lexeme.len()..];
    }
    assert!(rest.trim_start().starts_with("//"));
    rebuilt.push_str(rest);
    assert_eq!(rebuilt, src);
    assert_eq!(
        lexemes(&tokens),
        vec!["var", "a", "=", "(", "1.5", "+", "b", ")", "print", "\"s t\"", ";", ""]
    );
}

#[test]
fn first_line_is_numbered_zero() {
    let tokens = scan("x").unwrap();
    assert_eq!(tokens[0].line, 0);
    assert_eq!(tokens[1].line, 0);
}

#[test]
fn lines_count_preceding_newlines() {
    let tokens = scan("a\nb\n\n  c\n").unwrap();
    assert_eq!(lexemes(&tokens), vec!["a", "b", "c", ""]);
    let lines: Vec<usize> = tokens.iter().map(|t| t.line).collect();
    assert_eq!(lines, vec![0, 1, 3, 4]);
}

#[test]
fn multiline_string_reports_line_of_its_opening_quote() {
    let tokens = scan("\"a\nb\" x").unwrap();
    assert_eq!(kinds(&tokens), vec![TokenType::String, TokenType::Identifier, TokenType::Eof]);
    assert_eq!(tokens[0].line, 0);
    assert_eq!(tokens[1].line, 1);
    assert_eq!(tokens[2].line, 1);
    match &tokens[0].literal {
        Some(Literal::String(v)) => assert_eq!(v, "a\nb"),
        other => panic!("unexpected literal {:?}", other),
    }
}

#[test]
fn comment_yields_no_token() {
    let tokens = scan("// @ \" # anything ~\nx // more @").unwrap();
    assert_eq!(kinds(&tokens), vec![TokenType::Identifier, TokenType::Eof]);
    assert_eq!(tokens[0].lexeme, "x");
    assert_eq!(tokens[0].line, 1);
}

#[test]
fn comment_only_source() {
    let tokens = scan("//@@@").unwrap();
    assert_eq!(kinds(&tokens), vec![TokenType::Eof]);
    assert_eq!(tokens[0].line, 0);
}

#[test]
fn classroom_is_one_identifier() {
    let tokens = scan("classroom").unwrap();
    assert_eq!(kinds(&tokens), vec![TokenType::Identifier, TokenType::Eof]);
    assert_eq!(tokens[0].lexeme, "classroom");
    assert!(tokens[0].literal.is_none());
}

#[test]
fn reserved_words() {
    let src = "and class else false for fun if nil or print return super this true var while";
    let tokens = scan(src).unwrap();
    assert_eq!(
        kinds(&tokens),
        vec![
            TokenType::And,
            TokenType::Class,
            TokenType::Else,
            TokenType::False,
            TokenType::For,
            TokenType::Fun,
            TokenType::If,
            TokenType::Nil,
            TokenType::Or,
            TokenType::Print,
            TokenType::Return,
            TokenType::Super,
            TokenType::This,
            TokenType::True,
            TokenType::Var,
            TokenType::While,
            TokenType::Eof
        ]
    );
}

#[test]
fn reserved_words_are_case_sensitive() {
    let tokens = scan("And VAR whilex _if").unwrap();
    assert_eq!(
        kinds(&tokens),
        vec![
            TokenType::Identifier,
            TokenType::Identifier,
            TokenType::Identifier,
            TokenType::Identifier,
            TokenType::Eof
        ]
    );
}

#[test]
fn identifier_continues_over_letters_and_digits() {
    let tokens = scan("abc123 x9y").unwrap();
    assert_eq!(lexemes(&tokens), vec!["abc123", "x9y", ""]);
}

#[test]
fn identifier_continues_over_unicode_letters() {
    let tokens = scan("caf\u{e9}s").unwrap();
    assert_eq!(kinds(&tokens), vec![TokenType::Identifier, TokenType::Eof]);
    assert_eq!(tokens[0].lexeme, "caf\u{e9}s");
}

#[test]
fn underscore_only_begins_an_identifier() {
    let tokens = scan("a_b").unwrap();
    assert_eq!(lexemes(&tokens), vec!["a", "_b", ""]);
}

#[test]
fn var_declaration_example() {
    let tokens = scan("var x = 12.5;\n").unwrap();
    assert_eq!(
        kinds(&tokens),
        vec![
            TokenType::Var,
            TokenType::Identifier,
            TokenType::Equal,
            TokenType::Number,
            TokenType::Semicolon,
            TokenType::Eof
        ]
    );
    assert_eq!(tokens[1].lexeme, "x");
    assert_eq!(number_value(&tokens[3]), 12.5);
    for t in &tokens[..5] {
        assert_eq!(t.line, 0);
    }
    assert_eq!(tokens[5].line, 1);
}

#[test]
fn unterminated_string_is_an_error() {
    let e = scan("\"unterminated").unwrap_err();
    assert_eq!(e.line, 0);
    assert_eq!(e.message, "Unterminated string");
}

#[test]
fn unterminated_string_reports_line_at_end_of_source() {
    let e = scan("x\n\"open\nmore").unwrap_err();
    assert_eq!(e.line, 2);
    assert_eq!(e.message, "Unterminated string");
}

#[test]
fn unterminated_string_counts_its_line_breaks() {
    let e = scan("\"a\nb").unwrap_err();
    assert_eq!(e.line, 1);
    assert_eq!(e.message, "Unterminated string");
}

#[test]
fn unexpected_character_is_an_error() {
    let e = scan("@").unwrap_err();
    assert_eq!(e.line, 0);
    assert_eq!(e.message, "Unexpected character");
}

#[test]
fn unexpected_character_after_newlines() {
    let e = scan("a\n\nb # c").unwrap_err();
    assert_eq!(e.line, 2);
    assert_eq!(e.message, "Unexpected character");
}

#[test]
fn first_error_stops_scanning() {
    let e = scan("@ \"open").unwrap_err();
    assert_eq!(e.message, "Unexpected character");
}

#[test]
fn non_ascii_character_cannot_begin_a_token() {
    let e = scan("\u{e9}").unwrap_err();
    assert_eq!(e.message, "Unexpected character");
}

#[test]
fn number_then_trailing_dot() {
    let tokens = scan("1.").unwrap();
    assert_eq!(kinds(&tokens), vec![TokenType::Number, TokenType::Dot, TokenType::Eof]);
    assert_eq!(tokens[0].lexeme, "1");
    assert_eq!(number_value(&tokens[0]), 1.0);
    assert_eq!(tokens[1].lexeme, ".");
}

#[test]
fn number_literals() {
    let tokens = scan("123 3.14 0.5.x").unwrap();
    assert_eq!(lexemes(&tokens), vec!["123", "3.14", "0.5", ".", "x", ""]);
    assert_eq!(number_value(&tokens[0]), 123.0);
    assert_eq!(number_value(&tokens[1]), 3.14);
    assert_eq!(number_value(&tokens[2]), 0.5);
}

#[test]
fn string_literal_value_excludes_quotes() {
    let tokens = scan("\"a \\n b\"").unwrap();
    assert_eq!(kinds(&tokens), vec![TokenType::String, TokenType::Eof]);
    assert_eq!(tokens[0].lexeme, "\"a \\n b\"");
    match &tokens[0].literal {
        Some(Literal::String(v)) => assert_eq!(v, "a \\n b"),
        other => panic!("unexpected literal {:?}", other),
    }
}

#[test]
fn only_literals_carry_values() {
    let tokens = scan("x + \"s\" 2").unwrap();
    assert!(tokens[0].literal.is_none());
    assert!(tokens[1].literal.is_none());
    assert!(tokens[2].literal.is_some());
    assert!(tokens[3].literal.is_some());
    assert!(tokens[4].literal.is_none());
}

#[test]
fn error_keeps_line_and_message() {
    let e = LoxError::new(7, "oops".to_string());
    assert_eq!(e.line, 7);
    assert_eq!(e.message, "oops");
}

#[test]
fn removing_a_comment_keeps_tokens_and_lines() {
    let with = scan("x = 1;\n// @ \"open\n\"s\" y").unwrap();
    let without = scan("x = 1;\n\n\"s\" y").unwrap();
    assert_eq!(kinds(&with), kinds(&without));
    assert_eq!(lexemes(&with), lexemes(&without));
    let lines_with: Vec<usize> = with.iter().map(|t| t.line).collect();
    let lines_without: Vec<usize> = without.iter().map(|t| t.line).collect();
    assert_eq!(lines_with, lines_without);
    assert_eq!(lines_with, vec![0, 0, 0, 0, 2, 2, 2]);
}

#[test]
fn removing_a_comment_keeps_the_error() {
    let with = scan("// ok\n@").unwrap_err();
    let without = scan("\n@").unwrap_err();
    assert_eq!(with.line, without.line);
    assert_eq!(with.line, 1);
    assert_eq!(with.message, without.message);
}
