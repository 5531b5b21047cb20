use brainfuck::lex::Token;
use brainfuck::parse::{parse, Expr, ParseError};

#[test]
fn test_parse() {
    let tokens = vec![
        Token::Increment,
        Token::Loop,
        Token::Increment,
        Token::Increment,
        Token::Increment,
        Token::EndLoop,
    ];
    let parsed = parse(&tokens).unwrap();
    assert_eq!(
        vec![
            Expr::Add(1),
            Expr::Loop(vec![Expr::Add(1), Expr::Add(1), Expr::Add(1)])
        ],
        parsed
    );
}

#[test]
fn test_no_loop() {
    let tokens = vec![
        Token::Increment,
        Token::Increment,
        Token::Increment,
        Token::Increment,
    ];
    let parsed = parse(&tokens).unwrap();
    assert_eq!(
        vec![Expr::Add(1), Expr::Add(1), Expr::Add(1), Expr::Add(1)],
        parsed
    );
}

#[test]
fn parse_empty() {
    assert_eq!(Ok(Vec::<Expr>::new()), parse(&[]));
}

#[test]
fn parse_every_token() {
    let tokens = vec![
        Token::MoveRight,
        Token::MoveLeft,
        Token::Increment,
        Token::Decrement,
        Token::Output,
        Token::Input,
        Token::Loop,
        Token::EndLoop,
    ];
    assert_eq!(
        Ok(vec![
            Expr::Move(1),
            Expr::Move(-1),
            Expr::Add(1),
            Expr::Add(-1),
            Expr::Output,
            Expr::Input,
            Expr::Loop(vec![]),
        ]),
        parse(&tokens)
    );
}

#[test]
fn parse_nested_loops() {
    let tokens = vec![
        Token::Loop,
        Token::Loop,
        Token::Decrement,
        Token::EndLoop,
        Token::MoveRight,
        Token::Loop,
        Token::EndLoop,
        Token::EndLoop,
        Token::Output,
    ];
    assert_eq!(
        Ok(vec![
            Expr::Loop(vec![
                Expr::Loop(vec![Expr::Add(-1)]),
                Expr::Move(1),
                Expr::Loop(vec![]),
            ]),
            Expr::Output,
        ]),
        parse(&tokens)
    );
}

#[test]
fn parse_unclosed_loop() {
    assert_eq!(
        Err(ParseError::UnmatchedBracket),
        parse(&[Token::Increment, Token::Loop, Token::Increment])
    );
    assert_eq!(Err(ParseError::UnmatchedBracket), parse(&[Token::Loop]));
}

#[test]
fn parse_unopened_loop() {
    assert_eq!(Err(ParseError::UnmatchedBracket), parse(&[Token::EndLoop]));
    assert_eq!(
        Err(ParseError::UnmatchedBracket),
        parse(&[Token::Increment, Token::EndLoop, Token::Loop])
    );
    assert_eq!(
        Err(ParseError::UnmatchedBracket),
        parse(&[Token::Loop, Token::EndLoop, Token::EndLoop, Token::Loop, Token::EndLoop])
    );
}

#[test]
fn parse_error_message() {
    assert_eq!("Unmatched Bracket", ParseError::UnmatchedBracket.message());
}

#[test]
fn expr_clone_is_deep() {
    let e = Expr::Loop(vec![
        Expr::Move(2),
        Expr::Loop(vec![Expr::Add(-3), Expr::Input]),
        Expr::Output,
    ]);
    assert_eq!(e, e.clone());
}
