use ualfmt::Token;
use ualfmt::lexer::tokenize;

fn kinds_and_texts(source: &[u8]) -> Vec<(Token, Vec<u8>)> {
    tokenize(source)
        .unwrap()
        .into_iter()
        .map(|(t, sp)| (t, source[sp.start as usize..sp.end as usize].to_vec()))
        .collect()
}

#[test]
fn lexes_instruction() {
    assert_eq!(
        kinds_and_texts(b"mov r0, #-1"),
        vec![
            (Token::Identifier, b"mov".to_vec()),
            (Token::Identifier, b"r0".to_vec()),
            (Token::Comma, b",".to_vec()),
            (Token::MiscUnaryOperator, b"#".to_vec()),
            (Token::MiscBinaryOrUnaryOperator, b"-".to_vec()),
            (Token::Number, b"1".to_vec()),
        ]
    );
}

#[test]
fn lexes_numbers() {
    assert_eq!(kinds_and_texts(b"0x1F"), vec![(Token::Number, b"0x1F".to_vec())]);
    assert_eq!(kinds_and_texts(b"0b101"), vec![(Token::Number, b"0b101".to_vec())]);
    assert_eq!(kinds_and_texts(b"0o17"), vec![(Token::Number, b"0o17".to_vec())]);
    assert_eq!(kinds_and_texts(b"1.5e+3"), vec![(Token::Number, b"1.5e+3".to_vec())]);
    assert_eq!(kinds_and_texts(b".5"), vec![(Token::Number, b".5".to_vec())]);
    assert_eq!(kinds_and_texts(b"1e9"), vec![(Token::Number, b"1e9".to_vec())]);
    // A broken radix prefix falls back to a decimal and an identifier.
    assert_eq!(
        kinds_and_texts(b"0b2"),
        vec![(Token::Number, b"0".to_vec()), (Token::Identifier, b"b2".to_vec())]
    );
    // Maximal munch stops the first number at the second dot.
    assert_eq!(
        kinds_and_texts(b"1..2"),
        vec![(Token::Number, b"1.".to_vec()), (Token::Number, b".2".to_vec())]
    );
}

#[test]
fn lexes_dots() {
    assert_eq!(kinds_and_texts(b".word"), vec![(Token::Directive, b".word".to_vec())]);
    assert_eq!(kinds_and_texts(b"."), vec![(Token::Identifier, b".".to_vec())]);
    assert_eq!(kinds_and_texts(b"a.b"), vec![(Token::Identifier, b"a.b".to_vec())]);
}

#[test]
fn lexes_comments() {
    assert_eq!(
        kinds_and_texts(b"// rest of line\nx"),
        vec![
            (Token::LineComment, b"// rest of line".to_vec()),
            (Token::Identifier, b"x".to_vec()),
        ]
    );
    assert_eq!(
        kinds_and_texts(b"# hash comment"),
        vec![(Token::LineComment, b"# hash comment".to_vec())]
    );
    // A hash not followed by a space is the unary operator.
    assert_eq!(
        kinds_and_texts(b"#1"),
        vec![
            (Token::MiscUnaryOperator, b"#".to_vec()),
            (Token::Number, b"1".to_vec()),
        ]
    );
    assert_eq!(
        kinds_and_texts(b"/* a\nb */ x"),
        vec![
            (Token::BlockComment, b"/* a\nb */".to_vec()),
            (Token::Identifier, b"x".to_vec()),
        ]
    );
    // The block comment ends at the first closing delimiter.
    assert_eq!(
        kinds_and_texts(b"/*a*/b*/"),
        vec![
            (Token::BlockComment, b"/*a*/".to_vec()),
            (Token::Identifier, b"b".to_vec()),
            (Token::MiscBinaryOperator, b"*".to_vec()),
            (Token::MiscBinaryOperator, b"/".to_vec()),
        ]
    );
    // An unterminated opener falls back to the division operator.
    assert_eq!(
        kinds_and_texts(b"/*x"),
        vec![
            (Token::MiscBinaryOperator, b"/".to_vec()),
            (Token::MiscBinaryOperator, b"*".to_vec()),
            (Token::Identifier, b"x".to_vec()),
        ]
    );
}

#[test]
fn lexes_strings() {
    assert_eq!(kinds_and_texts(b"\"abc\""), vec![(Token::String, b"\"abc\"".to_vec())]);
    // An escaped quote does not end the string.
    assert_eq!(
        kinds_and_texts(b"\"a\\\"b\""),
        vec![(Token::String, b"\"a\\\"b\"".to_vec())]
    );
    // With no closing quote later, the backslash counts as a plain byte and
    // the quote after it closes the string.
    assert_eq!(
        kinds_and_texts(b"\"a\\\" x"),
        vec![
            (Token::String, b"\"a\\\"".to_vec()),
            (Token::Identifier, b"x".to_vec()),
        ]
    );
}

#[test]
fn lexes_operators() {
    assert_eq!(
        kinds_and_texts(b"a|b<<2>>c&d+e*f/g~h=\\i-j"),
        vec![
            (Token::Identifier, b"a".to_vec()),
            (Token::MiscBinaryOperator, b"|".to_vec()),
            (Token::Identifier, b"b".to_vec()),
            (Token::MiscBinaryOperator, b"<<".to_vec()),
            (Token::Number, b"2".to_vec()),
            (Token::MiscBinaryOperator, b">>".to_vec()),
            (Token::Identifier, b"c".to_vec()),
            (Token::MiscBinaryOperator, b"&".to_vec()),
            (Token::Identifier, b"d".to_vec()),
            (Token::MiscBinaryOperator, b"+".to_vec()),
            (Token::Identifier, b"e".to_vec()),
            (Token::MiscBinaryOperator, b"*".to_vec()),
            (Token::Identifier, b"f".to_vec()),
            (Token::MiscBinaryOperator, b"/".to_vec()),
            (Token::Identifier, b"g".to_vec()),
            (Token::MiscUnaryOperator, b"~".to_vec()),
            (Token::Identifier, b"h".to_vec()),
            (Token::MiscUnaryOperator, b"=".to_vec()),
            (Token::MiscUnaryOperator, b"\\".to_vec()),
            (Token::Identifier, b"i".to_vec()),
            (Token::MiscBinaryOrUnaryOperator, b"-".to_vec()),
            (Token::Identifier, b"j".to_vec()),
        ]
    );
    assert_eq!(
        kinds_and_texts(b"[x](y):"),
        vec![
            (Token::OpenSquare, b"[".to_vec()),
            (Token::Identifier, b"x".to_vec()),
            (Token::CloseSquare, b"]".to_vec()),
            (Token::OpenRound, b"(".to_vec()),
            (Token::Identifier, b"y".to_vec()),
            (Token::CloseRound, b")".to_vec()),
            (Token::Colon, b":".to_vec()),
        ]
    );
}

#[test]
fn rejects_unrecognized_bytes() {
    // A lone angle bracket matches no token pattern.
    let err = tokenize(b"a < b").unwrap_err();
    assert_eq!(err.start, 2);
    let err = tokenize(b"@").unwrap_err();
    assert_eq!(err.start, 0);
    // An unterminated string with no fallback end is an error at its quote.
    let err = tokenize(b"\"abc").unwrap_err();
    assert_eq!(err.start, 0);
}

#[test]
fn skips_whitespace_between_tokens() {
    let toks = tokenize(b"  a \t b\n\nc  ").unwrap();
    let spans: Vec<(u32, u32)> = toks.iter().map(|(_, sp)| (sp.start, sp.end)).collect();
    assert_eq!(spans, vec![(2, 3), (6, 7), (9, 10)]);
}
