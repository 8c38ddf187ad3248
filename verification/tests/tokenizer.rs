use sexpr_tokenizer::tokenizer::{
    consume_input, is_digit, is_ident, is_ident_first, tokenize, tokenize_close_parens,
    tokenize_ident, tokenize_number, tokenize_open_parens, Token,
};

#[test]
fn digit() {
    let input = "0";
    let expected = vec![Token::Number("0".to_string())];
    let actual = tokenize(input);
    assert_eq!(expected, actual);
}

#[test]
fn indent() {
    let input = "an-identifier-123";
    let expected = vec![Token::Identifier("an-identifier-123".to_string())];
    let actual = tokenize(input);
    assert_eq!(expected, actual);
}

#[test]
fn empty_sexpr() {
    let input = "()";
    let expected = vec![Token::OpenParens, Token::CloseParens];
    let actual = tokenize(input);
    assert_eq!(expected, actual);
}

#[test]
fn simple_sexpr() {
    let input = "(+ 1 1)";
    let expected = vec![
        Token::OpenParens,
        Token::Identifier("+".to_string()),
        Token::Number("1".to_string()),
        Token::Number("1".to_string()),
        Token::CloseParens,
    ];
    let actual = tokenize(input);
    assert_eq!(expected, actual);
}

#[test]
fn generic_sexpr() {
    let input = "(operation operand0 0987654321 operand1)";
    let expected = vec![
        Token::OpenParens,
        Token::Identifier("operation".to_string()),
        Token::Identifier("operand0".to_string()),
        Token::Number("0987654321".to_string()),
        Token::Identifier("operand1".to_string()),
        Token::CloseParens,
    ];
    let actual = tokenize(input);
    assert_eq!(expected, actual);
}

#[test]
fn empty_input() {
    let actual = tokenize("");
    assert_eq!(actual, Vec::new());
}

#[test]
fn all_digits_one_number_with_leading_zeros() {
    let actual = tokenize("0007");
    assert_eq!(actual, vec![Token::Number("0007".to_string())]);
}

#[test]
fn all_ident_chars_one_identifier() {
    let actual = tokenize("*a-1/b+2");
    assert_eq!(actual, vec![Token::Identifier("*a-1/b+2".to_string())]);
}

#[test]
fn spaces_are_skipped_not_emitted() {
    let actual = tokenize("  a  1  ");
    assert_eq!(
        actual,
        vec![
            Token::Identifier("a".to_string()),
            Token::Number("1".to_string()),
        ]
    );
}

#[test]
fn digit_run_ends_where_identifier_starts() {
    let actual = tokenize("12ab");
    assert_eq!(
        actual,
        vec![
            Token::Number("12".to_string()),
            Token::Identifier("ab".to_string()),
        ]
    );
}

fn token_text(t: &Token) -> String {
    match t {
        Token::OpenParens => "(".to_string(),
        Token::CloseParens => ")".to_string(),
        Token::Number(text) => text.clone(),
        Token::Identifier(text) => text.clone(),
    }
}

#[test]
fn retokenizing_rendered_tokens_gives_same_tokens() {
    let first = tokenize("(operation operand0 0987654321 (+ 1 1))");
    let rendered = first
        .iter()
        .map(token_text)
        .collect::<Vec<String>>()
        .join(" ");
    let second = tokenize(&rendered);
    assert_eq!(first, second);
}

#[test]
fn unrecognized_character_stops_the_scan() {
    let actual = tokenize("ab,cd");
    assert_eq!(actual, vec![Token::Identifier("ab".to_string())]);
}

#[test]
fn tab_is_not_whitespace_here_and_stops_the_scan() {
    let actual = tokenize("(a\tb)");
    assert_eq!(
        actual,
        vec![Token::OpenParens, Token::Identifier("a".to_string())]
    );
}

#[test]
fn open_parens_rule_consumes_one_character() {
    let (token, rest) = tokenize_open_parens("(+ 1)");
    assert_eq!(token, Token::OpenParens);
    assert_eq!(rest, "+ 1)");
}

#[test]
fn close_parens_rule_consumes_one_character() {
    let (token, rest) = tokenize_close_parens(") a");
    assert_eq!(token, Token::CloseParens);
    assert_eq!(rest, " a");
}

#[test]
fn ident_rule_takes_longest_run() {
    let (token, rest) = tokenize_ident("a1+ b");
    assert_eq!(token, Token::Identifier("a1+".to_string()));
    assert_eq!(rest, " b");
}

#[test]
fn number_rule_takes_longest_run() {
    let (token, rest) = tokenize_number("042)x");
    assert_eq!(token, Token::Number("042".to_string()));
    assert_eq!(rest, ")x");
}

#[test]
fn consume_input_appends_the_token() {
    let mut tokens = Vec::new();
    let rest = consume_input("(1)", tokenize_open_parens, &mut tokens);
    assert_eq!(tokens, vec![Token::OpenParens]);
    assert_eq!(rest, "1)");
}

#[test]
fn character_classes() {
    assert!(is_digit('0') && is_digit('9'));
    assert!(!is_digit('a') && !is_digit(' ') && !is_digit('/'));
    assert!(is_ident_first('a') && is_ident_first('Z'));
    assert!(is_ident_first('+') && is_ident_first('-') && is_ident_first('*') && is_ident_first('/'));
    assert!(!is_ident_first('0') && !is_ident_first('(') && !is_ident_first(' '));
    assert!(is_ident('0') && is_ident('q') && is_ident('-'));
    assert!(!is_ident('(') && !is_ident(')') && !is_ident(',') && !is_ident(' '));
}
