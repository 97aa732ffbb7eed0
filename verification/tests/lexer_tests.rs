use calculator::lexer::Lexer;
use calculator::lexer::LexError;
use calculator::lexer::Token;
use calculator::lexer::tokenize;

/// The numeric value a `Number` token carries, read from its digit text.
fn number_value(t: &Token) -> f64 {
    match t {
        Token::Number(lit) => {
            let text: String = lit.text.iter().collect();
            text.parse::<f64>().unwrap()
        },
        _ => panic!("expected a number token"),
    }
}

fn chars(s: &str) -> Vec<char> {
    s.chars().collect()
}

#[test]
fn all_tokens() {
    let mut my_lexer = Lexer::new("{[( )]} 4646 + - * / 565.788");
    let tokens = my_lexer.get_tokens().unwrap();
    assert_eq!(tokens.len(), 13);
    assert!(matches!(tokens[0], Token::LParen));
    assert!(matches!(tokens[1], Token::LParen));
    assert!(matches!(tokens[2], Token::LParen));
    assert!(matches!(tokens[3], Token::RParen));
    assert!(matches!(tokens[4], Token::RParen));
    assert!(matches!(tokens[5], Token::RParen));
    assert_eq!(number_value(&tokens[6]), 4646.0);
    assert!(matches!(tokens[7], Token::Plus));
    assert!(matches!(tokens[8], Token::Minus));
    assert!(matches!(tokens[9], Token::Star));
    assert!(matches!(tokens[10], Token::Slash));
    assert_eq!(number_value(&tokens[11]), 565.788);
    assert!(matches!(tokens[12], Token::EndOfInput));
}

#[test]
fn invalid_characters() {
    let mut my_lexer = Lexer::new("$#@");
    assert!(my_lexer.get_tokens().is_err())
}

#[test]
fn bad_decimal() {
    let mut my_lexer = Lexer::new("2.2.2");
    assert!(my_lexer.get_tokens().is_err())
}

#[test]
fn unsupported_character_reported_with_its_character() {
    assert_eq!(tokenize("$#@").unwrap_err(), LexError::UnsupportedCharacter('$'));
    assert_eq!(tokenize("1 + x").unwrap_err(), LexError::UnsupportedCharacter('x'));
}

#[test]
fn bad_decimal_reports_whole_accumulated_text() {
    assert_eq!(tokenize("2.2.2").unwrap_err(), LexError::NumberFormatError(chars("2.2.2")));
}

#[test]
fn leading_dot_reads_as_zero_point() {
    let tokens = tokenize(".5").unwrap();
    assert_eq!(tokens.len(), 2);
    assert_eq!(number_value(&tokens[0]), 0.5);
    assert_eq!(tokens[0], Token::Number(calculator::lexer::NumberLit { text: chars("0.5") }));
    assert!(matches!(tokens[1], Token::EndOfInput));
}

#[test]
fn empty_and_blank_inputs_lex_to_end_of_input_alone() {
    let tokens = tokenize("").unwrap();
    assert_eq!(tokens, vec![Token::EndOfInput]);
    let tokens = tokenize(" \t\n").unwrap();
    assert_eq!(tokens, vec![Token::EndOfInput]);
}

#[test]
fn trailing_dot_is_kept_and_still_reads() {
    let tokens = tokenize("2.").unwrap();
    assert_eq!(number_value(&tokens[0]), 2.0);
    assert_eq!(tokens[0], Token::Number(calculator::lexer::NumberLit { text: chars("2.") }));
}

#[test]
fn number_error_comes_before_later_unsupported_character() {
    assert_eq!(tokenize("3.1.4$").unwrap_err(), LexError::NumberFormatError(chars("3.1.4")));
}

#[test]
fn lone_dot_reads_as_zero() {
    let tokens = tokenize(".").unwrap();
    assert_eq!(number_value(&tokens[0]), 0.0);
    assert_eq!(tokens[0], Token::Number(calculator::lexer::NumberLit { text: chars("0.") }));
}
