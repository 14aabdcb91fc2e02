use calc_lexer::error::TokenizeError;
use calc_lexer::lexer::{
    literals_fit, skip_whitespaces, token_fits, tokenize, tokenize_number, tokenize_single_token,
    Token, TokenKind,
};
use calc_lexer::text::take_while;

fn spans(tokens: &[Token]) -> Vec<(usize, usize)> {
    tokens.iter().map(|t| (t.span.start, t.span.end)).collect()
}

fn is_float(kind: &TokenKind, text: &str) -> bool {
    matches!(kind, TokenKind::Float(s) if s == text)
}

#[test]
fn integer_literal() {
    let tokens = tokenize("123").unwrap();
    assert_eq!(tokens.len(), 1);
    assert!(matches!(tokens[0].kind, TokenKind::Integer(123)));
    assert_eq!(spans(&tokens), vec![(0, 3)]);
}

#[test]
fn float_literal() {
    let tokens = tokenize("123.45").unwrap();
    assert_eq!(tokens.len(), 1);
    assert!(is_float(&tokens[0].kind, "123.45"));
    if let TokenKind::Float(s) = &tokens[0].kind {
        assert_eq!(s.parse::<f64>().unwrap(), 123.45);
    }
    assert_eq!(spans(&tokens), vec![(0, 6)]);
}

#[test]
fn second_dot_is_left_for_the_next_scan() {
    let (kind, read) = tokenize_number("1.2.3").unwrap();
    assert!(is_float(&kind, "1.2"));
    assert_eq!(read, 3);
    assert!(matches!(tokenize_single_token(".3"), Err(TokenizeError::UnknownChar(s)) if s == "."));
    assert!(matches!(tokenize("1.2.3"), Err(TokenizeError::UnknownChar(s)) if s == "."));
}

#[test]
fn expression_with_parentheses() {
    let tokens = tokenize("1 + 2 * (3 - 4)").unwrap();
    assert_eq!(tokens.len(), 9);
    assert!(matches!(tokens[0].kind, TokenKind::Integer(1)));
    assert!(matches!(tokens[1].kind, TokenKind::Plus));
    assert!(matches!(tokens[2].kind, TokenKind::Integer(2)));
    assert!(matches!(tokens[3].kind, TokenKind::Multiply));
    assert!(matches!(tokens[4].kind, TokenKind::Open));
    assert!(matches!(tokens[5].kind, TokenKind::Integer(3)));
    assert!(matches!(tokens[6].kind, TokenKind::Minus));
    assert!(matches!(tokens[7].kind, TokenKind::Integer(4)));
    assert!(matches!(tokens[8].kind, TokenKind::Close));
    assert_eq!(
        spans(&tokens),
        vec![(0, 1), (2, 3), (4, 5), (6, 7), (8, 9), (9, 10), (11, 12), (13, 14), (14, 15)]
    );
}

#[test]
fn unknown_character() {
    assert!(matches!(tokenize("5 @ 3"), Err(TokenizeError::UnknownChar(s)) if s == "@"));
}

#[test]
fn empty_input() {
    assert_eq!(tokenize("").unwrap().len(), 0);
}

#[test]
fn whitespace_only_input() {
    assert_eq!(tokenize(" \t\n\r ").unwrap().len(), 0);
    assert_eq!(tokenize("\u{3000}\u{A0}\u{2029}").unwrap().len(), 0);
}

#[test]
fn trailing_dot() {
    let tokens = tokenize("42.").unwrap();
    assert_eq!(tokens.len(), 1);
    assert!(is_float(&tokens[0].kind, "42."));
    if let TokenKind::Float(s) = &tokens[0].kind {
        assert_eq!(s.parse::<f64>().unwrap(), 42.0);
    }
    assert_eq!(spans(&tokens), vec![(0, 3)]);
}

#[test]
fn leading_dot_literal() {
    let (kind, read) = tokenize_number(".5+").unwrap();
    assert!(is_float(&kind, ".5"));
    assert_eq!(read, 2);
}

#[test]
fn spans_are_ordered_and_gaps_are_whitespace() {
    let src = "  12*( 3.5 /7 ) ";
    let tokens = tokenize(src).unwrap();
    let mut last = 0;
    let mut rebuilt = String::new();
    for t in &tokens {
        assert!(last <= t.span.start && t.span.start < t.span.end);
        let gap = &src[last..t.span.start];
        assert!(gap.chars().all(char::is_whitespace));
        rebuilt.push_str(gap);
        rebuilt.push_str(&src[t.span.start..t.span.end]);
        last = t.span.end;
    }
    assert!(src[last..].chars().all(char::is_whitespace));
    rebuilt.push_str(&src[last..]);
    assert_eq!(rebuilt, src);
}

#[test]
fn token_text_rescans_to_the_same_kind() {
    let src = "10 + 2.5*(7-8)/ 9.";
    let tokens = tokenize(src).unwrap();
    for t in &tokens {
        let piece = &src[t.span.start..t.span.end];
        assert!(literals_fit(piece));
        let again = tokenize(piece).unwrap();
        assert_eq!(again.len(), 1);
        assert_eq!(again[0].kind, t.kind);
        assert_eq!((again[0].span.start, again[0].span.end), (0, t.span.end - t.span.start));
    }
}

#[test]
fn spans_count_bytes() {
    let tokens = tokenize("\u{3000}7\u{2003}+").unwrap();
    assert_eq!(spans(&tokens), vec![(3, 4), (7, 8)]);
}

#[test]
fn take_while_reports_no_matches() {
    assert!(matches!(take_while("", |c| c == 'a'), Err(TokenizeError::NoMatches)));
    assert!(matches!(take_while("ba", |c| c == 'a'), Err(TokenizeError::NoMatches)));
    let (p, n) = take_while("aaé", |c| c == 'a' || c == 'é').unwrap();
    assert_eq!(p, "aaé");
    assert_eq!(n, 4);
}

#[test]
fn number_needs_a_digit_or_point() {
    assert!(matches!(tokenize_number("x1"), Err(TokenizeError::NoMatches)));
    assert!(matches!(tokenize_number(""), Err(TokenizeError::NoMatches)));
}

#[test]
fn single_token_at_end_of_input() {
    assert!(matches!(tokenize_single_token(""), Err(TokenizeError::UnexpectedEOF)));
}

#[test]
fn single_token_operators() {
    assert!(matches!(tokenize_single_token("/2"), Ok((TokenKind::Divide, 1))));
    assert!(matches!(tokenize_single_token(")"), Ok((TokenKind::Close, 1))));
    assert!(matches!(tokenize_single_token("907 "), Ok((TokenKind::Integer(907), 3))));
}

#[test]
fn skip_whitespaces_counts_bytes() {
    assert_eq!(skip_whitespaces("\u{A0} x"), 3);
    assert_eq!(skip_whitespaces("x "), 0);
    assert_eq!(skip_whitespaces(""), 0);
}

#[test]
fn literal_size_check() {
    assert!(literals_fit("1 + 18446744073709551615"));
    assert!(!literals_fit("1 + 18446744073709551616"));
    assert!(literals_fit("0.184467440737095516160000"));
    assert!(literals_fit("1 @ 99999999999999999999999"));
    assert!(token_fits("+"));
    assert!(!token_fits("99999999999999999999999"));
}

#[test]
fn describe_shows_kind() {
    let tokens = tokenize("907 + 1.50").unwrap();
    assert_eq!(tokens[0].describe(), "[Integer: 907]");
    assert_eq!(tokens[1].describe(), "[Plus: +]");
    assert_eq!(tokens[2].describe(), "[Float: 1.50]");
    assert_eq!(tokenize("0").unwrap()[0].describe(), "[Integer: 0]");
    assert_eq!(tokenize("(").unwrap()[0].describe(), "[Open: (]");
}

#[test]
fn kinds_and_errors_compare_by_value() {
    let kinds: Vec<TokenKind> = tokenize("1 + 2 * (3 - 4)").unwrap().into_iter().map(|t| t.kind).collect();
    assert_eq!(
        kinds,
        vec![
            TokenKind::Integer(1),
            TokenKind::Plus,
            TokenKind::Integer(2),
            TokenKind::Multiply,
            TokenKind::Open,
            TokenKind::Integer(3),
            TokenKind::Minus,
            TokenKind::Integer(4),
            TokenKind::Close,
        ]
    );
    assert_eq!(tokenize("5 @ 3").unwrap_err(), TokenizeError::UnknownChar("@".to_string()));
    assert_ne!(TokenKind::Float("1.0".to_string()), TokenKind::Float("1.00".to_string()));
    assert_eq!(tokenize("2.5 / x").unwrap_err(), TokenizeError::UnknownChar("x".to_string()));
    assert_eq!(tokenize(" 8 /3").unwrap(), tokenize(" 8 /3").unwrap());
}
