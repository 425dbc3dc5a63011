use jsonpath_lib::parser::tokenizer::{Token, TokenError, TokenReader, Tokenizer};

fn collect_token(input: &str) -> (Vec<Token>, Option<TokenError>) {
    let mut tokenizer = Tokenizer::new(input);
    let mut vec = vec![];
    loop {
        match tokenizer.next_token() {
            Ok(t) => vec.push(t),
            Err(e) => return (vec, Some(e)),
        }
    }
}

fn run(input: &str, expected: (Vec<Token>, Option<TokenError>)) {
    let (vec, err) = collect_token(input);
    assert_eq!((vec, err), expected, "\"{}\"", input);
}

#[test]
fn mod_peek() {
    let mut tokenizer = TokenReader::new("$.a");
    match tokenizer.next_token() {
        Ok(t) => assert_eq!(Token::Absolute(0), t),
        _ => panic!(),
    }

    match tokenizer.peek_token() {
        Ok(t) => assert_eq!(&Token::Dot(1), t),
        _ => panic!(),
    }

    match tokenizer.peek_token() {
        Ok(t) => assert_eq!(&Token::Dot(1), t),
        _ => panic!(),
    }

    match tokenizer.next_token() {
        Ok(t) => assert_eq!(Token::Dot(1), t),
        _ => panic!(),
    }
}

#[test]
fn mod_token() {
    run(
        "$.01.a",
        (
            vec![
                Token::Absolute(0),
                Token::Dot(1),
                Token::Key(2, "01".to_string()),
                Token::Dot(4),
                Token::Key(5, "a".to_string()),
            ],
            Some(TokenError::Eof),
        ),
    );

    run(
        "$.   []",
        (
            vec![
                Token::Absolute(0),
                Token::Dot(1),
                Token::Whitespace(2, 2),
                Token::OpenArray(5),
                Token::CloseArray(6),
            ],
            Some(TokenError::Eof),
        ),
    );

    run(
        "$..",
        (
            vec![Token::Absolute(0), Token::Dot(1), Token::Dot(2)],
            Some(TokenError::Eof),
        ),
    );

    run(
        "$..ab",
        (
            vec![
                Token::Absolute(0),
                Token::Dot(1),
                Token::Dot(2),
                Token::Key(3, "ab".to_string()),
            ],
            Some(TokenError::Eof),
        ),
    );

    run(
        "$..가 [",
        (
            vec![
                Token::Absolute(0),
                Token::Dot(1),
                Token::Dot(2),
                Token::Key(3, "가".to_string()),
                Token::Whitespace(6, 0),
                Token::OpenArray(7),
            ],
            Some(TokenError::Eof),
        ),
    );

    run(
        "[-1, 2 ]",
        (
            vec![
                Token::OpenArray(0),
                Token::Key(1, "-1".to_string()),
                Token::Comma(3),
                Token::Whitespace(4, 0),
                Token::Key(5, "2".to_string()),
                Token::Whitespace(6, 0),
                Token::CloseArray(7),
            ],
            Some(TokenError::Eof),
        ),
    );

    run(
        "[ 1 2 , 3 \"abc\" : -10 ]",
        (
            vec![
                Token::OpenArray(0),
                Token::Whitespace(1, 0),
                Token::Key(2, "1".to_string()),
                Token::Whitespace(3, 0),
                Token::Key(4, "2".to_string()),
                Token::Whitespace(5, 0),
                Token::Comma(6),
                Token::Whitespace(7, 0),
                Token::Key(8, "3".to_string()),
                Token::Whitespace(9, 0),
                Token::DoubleQuoted(10, "abc".to_string()),
                Token::Whitespace(15, 0),
                Token::Split(16),
                Token::Whitespace(17, 0),
                Token::Key(18, "-10".to_string()),
                Token::Whitespace(21, 0),
                Token::CloseArray(22),
            ],
            Some(TokenError::Eof),
        ),
    );

    run(
        "?(@.a가 <41.01)",
        (
            vec![
                Token::Question(0),
                Token::OpenParenthesis(1),
                Token::At(2),
                Token::Dot(3),
                Token::Key(4, "a가".to_string()),
                Token::Whitespace(8, 0),
                Token::Little(9),
                Token::Key(10, "41".to_string()),
                Token::Dot(12),
                Token::Key(13, "01".to_string()),
                Token::CloseParenthesis(15),
            ],
            Some(TokenError::Eof),
        ),
    );

    run(
        "?(@.a <4a.01)",
        (
            vec![
                Token::Question(0),
                Token::OpenParenthesis(1),
                Token::At(2),
                Token::Dot(3),
                Token::Key(4, "a".to_string()),
                Token::Whitespace(5, 0),
                Token::Little(6),
                Token::Key(7, "4a".to_string()),
                Token::Dot(9),
                Token::Key(10, "01".to_string()),
                Token::CloseParenthesis(12),
            ],
            Some(TokenError::Eof),
        ),
    );

    run(
        "?($.c>@.d)",
        (
            vec![
                Token::Question(0),
                Token::OpenParenthesis(1),
                Token::Absolute(2),
                Token::Dot(3),
                Token::Key(4, "c".to_string()),
                Token::Greater(5),
                Token::At(6),
                Token::Dot(7),
                Token::Key(8, "d".to_string()),
                Token::CloseParenthesis(9),
            ],
            Some(TokenError::Eof),
        ),
    );

    run(
        "$[:]",
        (
            vec![
                Token::Absolute(0),
                Token::OpenArray(1),
                Token::Split(2),
                Token::CloseArray(3),
            ],
            Some(TokenError::Eof),
        ),
    );

    run(
        r#"$['single\'quote']"#,
        (
            vec![
                Token::Absolute(0),
                Token::OpenArray(1),
                Token::SingleQuoted(2, "single\'quote".to_string()),
                Token::CloseArray(17),
            ],
            Some(TokenError::Eof),
        ),
    );

    run(
        r#"$['single\'1','single\'2']"#,
        (
            vec![
                Token::Absolute(0),
                Token::OpenArray(1),
                Token::SingleQuoted(2, "single\'1".to_string()),
                Token::Comma(13),
                Token::SingleQuoted(14, "single\'2".to_string()),
                Token::CloseArray(25),
            ],
            Some(TokenError::Eof),
        ),
    );

    run(
        r#"$["double\"quote"]"#,
        (
            vec![
                Token::Absolute(0),
                Token::OpenArray(1),
                Token::DoubleQuoted(2, "double\"quote".to_string()),
                Token::CloseArray(17),
            ],
            Some(TokenError::Eof),
        ),
    );
}

#[test]
fn tokenizer_operator_errors() {
    run("=", (vec![], Some(TokenError::Eof)));
    run("=a", (vec![], Some(TokenError::Position(0))));
    run("a!=b", (vec![Token::Key(0, "a".to_string()), Token::NotEqual(1), Token::Key(3, "b".to_string())], Some(TokenError::Eof)));
    run("&a", (vec![], Some(TokenError::Position(0))));
    run("|", (vec![], Some(TokenError::Eof)));
    run("<", (vec![], Some(TokenError::Eof)));
    run("<a", (vec![Token::Little(0), Token::Key(1, "a".to_string())], Some(TokenError::Eof)));
    run(">=1", (vec![Token::GreaterOrEqual(0), Token::Key(2, "1".to_string())], Some(TokenError::Eof)));
    run("&&||==", (vec![Token::And(0), Token::Or(2), Token::Equal(4)], Some(TokenError::Eof)));
    run("'abc", (vec![], Some(TokenError::Eof)));
}

#[test]
fn token_reader_error_message() {
    let mut reader = TokenReader::new("$.a");
    assert_eq!(reader.err_msg(), "$.a\n^^^");
    let _ = reader.next_token();
    assert_eq!(reader.err_msg(), "$.a\n^");
    assert_eq!(reader.err_msg_with_pos(2), "$.a\n^^");
    assert!(reader.peek_is("."));
    assert!(!reader.peek_is("$"));
    let _ = reader.next_token();
    let _ = reader.next_token();
    assert_eq!(reader.next_token(), Err(TokenError::Eof));
    assert_eq!(reader.peek_token(), Err(TokenError::Eof));
}

#[test]
fn token_partial_and_simple_eq() {
    assert!(Token::Key(0, "a".to_string()).partial_eq(Token::Key(5, "b".to_string())));
    assert!(!Token::Dot(0).partial_eq(Token::Comma(0)));
    assert!(Token::Comma(3).simple_eq(","));
    assert!(Token::Key(1, "x".to_string()).simple_eq("Key"));
    assert!(!Token::Whitespace(1, 0).simple_eq(""));
}

#[test]
fn token_reader_tokens_end_in_order() {
    // Each token ends after the one before it: the caret count of the
    // message, which points past the last token taken, grows.
    let mut reader = TokenReader::new("$.store[?(@.price < 10)]");
    let mut last = 0;
    let mut count = 0;
    while reader.next_token().is_ok() {
        let msg = reader.err_msg();
        let carets = msg.chars().filter(|c| *c == '^').count();
        assert!(carets > last, "{}", msg);
        assert!(carets <= "$.store[?(@.price < 10)]".len());
        last = carets;
        count += 1;
    }
    assert!(count > 5);
}
