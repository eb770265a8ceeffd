use expr_calc::tokenizer::{tokenize, Token, TokenizeError};

#[test]
fn test_tokenize() {
    assert_eq!(
        tokenize(String::from("1+123*(12/234)")).unwrap(),
        vec![
            Token::Number(1),
            Token::Plus,
            Token::Number(123),
            Token::Mult,
            Token::LeftPar,
            Token::Number(12),
            Token::Div,
            Token::Number(234),
            Token::RightPar
        ]
    );
}

#[test]
fn test_error() {
    assert_eq!(
        tokenize(String::from("1+asd*(12/234)")),
        Err(TokenizeError { index: 3 })
    );
}

#[test]
fn digits_only_is_one_number() {
    assert_eq!(tokenize(String::from("12345")), Ok(vec![Token::Number(12345)]));
    assert_eq!(tokenize(String::from("007")), Ok(vec![Token::Number(7)]));
    assert_eq!(tokenize(String::from("0")), Ok(vec![Token::Number(0)]));
}

#[test]
fn largest_number_fits() {
    assert_eq!(
        tokenize(String::from("18446744073709551615")),
        Ok(vec![Token::Number(u64::MAX)])
    );
}

#[test]
fn number_past_u64_fails_at_its_first_digit() {
    assert_eq!(
        tokenize(String::from("18446744073709551616")),
        Err(TokenizeError { index: 1 })
    );
    assert_eq!(
        tokenize(String::from("1 + 99999999999999999999999 * 2")),
        Err(TokenizeError { index: 5 })
    );
}

#[test]
fn overflow_is_reported_before_a_later_bad_character() {
    assert_eq!(
        tokenize(String::from("99999999999999999999999x")),
        Err(TokenizeError { index: 1 })
    );
}

#[test]
fn white_space_is_skipped() {
    assert_eq!(
        tokenize(String::from(" 1\t+\u{3000}2 \n")),
        Ok(vec![Token::Number(1), Token::Plus, Token::Number(2)])
    );
    assert_eq!(tokenize(String::from("")), Ok(vec![]));
    assert_eq!(tokenize(String::from("   ")), Ok(vec![]));
}

#[test]
fn numbers_split_by_space_stay_apart() {
    assert_eq!(
        tokenize(String::from("12 34")),
        Ok(vec![Token::Number(12), Token::Number(34)])
    );
}

#[test]
fn unknown_character_index_counts_characters() {
    assert_eq!(tokenize(String::from("1 $")), Err(TokenizeError { index: 3 }));
    assert_eq!(tokenize(String::from("é+1")), Err(TokenizeError { index: 1 }));
    assert_eq!(tokenize(String::from("éé")), Err(TokenizeError { index: 1 }));
    assert_eq!(tokenize(String::from("\u{3000}x")), Err(TokenizeError { index: 2 }));
    assert_eq!(tokenize(String::from("1\0")), Err(TokenizeError { index: 2 }));
}

fn render(tokens: &[Token]) -> String {
    let mut out = String::new();
    for t in tokens {
        match t {
            Token::Number(v) => out.push_str(&v.to_string()),
            Token::Plus => out.push('+'),
            Token::Minus => out.push('-'),
            Token::Mult => out.push('*'),
            Token::Div => out.push('/'),
            Token::LeftPar => out.push('('),
            Token::RightPar => out.push(')'),
        }
        out.push(' ');
    }
    out
}

#[test]
fn tokenizing_rendered_tokens_gives_them_back() {
    let tokens = vec![
        Token::RightPar,
        Token::Number(0),
        Token::Number(u64::MAX),
        Token::Minus,
        Token::Mult,
        Token::Div,
        Token::LeftPar,
        Token::Plus,
        Token::Number(42),
    ];
    assert_eq!(tokenize(render(&tokens)), Ok(tokens.clone()));
    let again = tokenize(render(&tokens)).unwrap();
    assert_eq!(tokenize(render(&again)), Ok(tokens));
}
