use jsonpath_lib::jsonpath::path_reader::{Error, PathReader};
use jsonpath_lib::jsonpath::tokenizer::{self, Token, Tokenizer};

fn collect_token(input: &str) -> (Vec<Token>, Option<Error>) {
    let mut tokenizer = Tokenizer::new(input);
    let mut vec = vec![];
    loop {
        match tokenizer.next_token() {
            Ok(t) => {
                if !t.alias_of(tokenizer::WHITESPACE) {
                    vec.push(t)
                }
            }
            Err(e) => return (vec, Some(e)),
        }
    }
}

fn run(input: &str, expected: (Vec<Token>, Option<Error>)) {
    let (vec, err) = collect_token(input);
    assert_eq!((vec, err), expected, "\"{}\"", input);
}

#[test]
fn tokenizer_token() {
    run(
        "$. []",
        (vec![Token::Absolute(0), Token::Relative(1)], Some(Error::Position(2))),
    );

    run(
        "$..",
        (
            vec![Token::Absolute(0), Token::Relative(1), Token::Relative(2)],
            Some(Error::Eof),
        ),
    );

    run(
        "[-1, 2 ]",
        (
            vec![
                Token::OpenArray(0),
                Token::Key(1, vec!['-', '1']),
                Token::Comma(3),
                Token::Key(5, vec!['2']),
                Token::CloseArray(7),
            ],
            Some(Error::Eof),
        ),
    );

    run(
        "[ 1 2 , 3 \"abc\" : -10 ]",
        (
            vec![
                Token::OpenArray(0),
                Token::Key(2, vec!['1']),
                Token::Key(4, vec!['2']),
                Token::Comma(6),
                Token::Key(8, vec!['3']),
                Token::DoubleQuoted(10, vec!['a', 'b', 'c']),
                Token::Split(16),
                Token::Key(18, vec!['-', '1', '0']),
                Token::CloseArray(22),
            ],
            Some(Error::Eof),
        ),
    );

    run(
        "?(@.a <41.01)",
        (
            vec![
                Token::Question(0),
                Token::OpenParenthesis(1),
                Token::At(2),
                Token::Relative(3),
                Token::Key(4, vec!['a']),
                Token::Little(6),
                Token::Key(7, vec!['4', '1', '.', '0', '1']),
                Token::CloseParenthesis(12),
            ],
            Some(Error::Eof),
        ),
    );

    run(
        "?(@.a <4a.01)",
        (
            vec![
                Token::Question(0),
                Token::OpenParenthesis(1),
                Token::At(2),
                Token::Relative(3),
                Token::Key(4, vec!['a']),
                Token::Little(6),
                Token::Key(7, vec!['4', 'a']),
                Token::Relative(9),
                Token::Key(10, vec!['0', '1']),
                Token::CloseParenthesis(12),
            ],
            Some(Error::Eof),
        ),
    );
}

#[test]
fn jsonpath_tokenizer_key_at_end_reports_length() {
    // A key of two or more characters that runs to the end of the input
    // makes the reader report the input's length.
    run("$.ab", (vec![Token::Absolute(0), Token::Relative(1)], Some(Error::Position(4))));
    let mut t = Tokenizer::new("a");
    assert_eq!(t.next_token(), Ok(Token::Key(0, vec!['a'])));
    assert_eq!(t.next_token(), Err(Error::Eof));
    assert_eq!(t.get_error(), None);
}

#[test]
fn jsonpath_tokenizer_operators() {
    run(
        "== != >= <= && || > 1 < '",
        (
            vec![
                Token::Equal(0),
                Token::NotEqual(3),
                Token::GreaterOrEqual(6),
                Token::LittleOrEqual(9),
                Token::And(12),
                Token::Or(15),
                Token::Greater(18),
                Token::Key(20, vec!['1']),
                Token::Little(22),
            ],
            Some(Error::Eof),
        ),
    );
    run("=a", (vec![], Some(Error::Position(0))));
    run(">a", (vec![], Some(Error::Position(0))));
    run("1.", (vec![], Some(Error::Position(2))));
    let mut t = Tokenizer::new("&x");
    assert_eq!(t.next(), None);
    assert_eq!(t.get_error(), Some(&Error::Position(0)));
}

#[test]
fn jsonpath_token_alias() {
    assert!(Token::OpenParenthesis(0).alias_of(tokenizer::OPEN_ARRAY));
    assert!(!Token::OpenParenthesis(0).alias_of(tokenizer::OPEN_PARENTHESIS));
    assert!(Token::Key(0, vec![]).alias_of(tokenizer::KEY));
    assert!(Token::DoubleQuoted(0, vec![]).alias_of(tokenizer::STRING));
    assert!(!Token::Comma(0).alias_of(tokenizer::SPLIT));
}

#[test]
fn jsonpath_path_reader() {
    let mut r = PathReader::new("a가b");
    assert_eq!(r.peek_char(), Ok((0, 'a')));
    assert_eq!(r.look_next_char(), Ok((1, '가')));
    assert_eq!(r.next_char(), Ok((0, 'a')));
    assert_eq!(r.next_char(), Ok((1, '가')));
    assert_eq!(r.look_next_char(), Err(Error::Position(4)));
    assert_eq!(r.take_while(|c| *c != 'x'), Err(Error::Position(5)));
    let mut r = PathReader::new("ab c");
    assert_eq!(r.take_while(|c| *c != ' '), Ok((2, vec!['a', 'b'])));
    assert_eq!(r.take_while(|c| *c == 'x'), Ok((2, vec![])));
    assert_eq!(r.next_char(), Ok((2, ' ')));
    assert_eq!(r.peek_char(), Ok((3, 'c')));
}
