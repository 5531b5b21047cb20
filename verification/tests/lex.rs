use brainfuck::lex::{tokenize, tokenize_char, Token};

#[test]
fn tokenize_all_instructions() {
    assert_eq!(
        vec![
            Token::MoveRight,
            Token::MoveLeft,
            Token::Increment,
            Token::Decrement,
            Token::Output,
            Token::Input,
            Token::Loop,
            Token::EndLoop,
        ],
        tokenize("><+-.,[]")
    );
}

#[test]
fn tokenize_drops_comments() {
    assert_eq!(
        vec![Token::Increment, Token::Loop, Token::Decrement, Token::EndLoop],
        tokenize("set to one: + then clear\n[ - ] (done) \u{e9}\u{4e16}")
    );
    assert_eq!(Vec::<Token>::new(), tokenize(""));
    assert_eq!(Vec::<Token>::new(), tokenize("no instructions here"));
}

#[test]
fn tokenize_char_classifies() {
    assert_eq!(Some(Token::MoveRight), tokenize_char('>'));
    assert_eq!(Some(Token::MoveLeft), tokenize_char('<'));
    assert_eq!(Some(Token::Increment), tokenize_char('+'));
    assert_eq!(Some(Token::Decrement), tokenize_char('-'));
    assert_eq!(Some(Token::Output), tokenize_char('.'));
    assert_eq!(Some(Token::Input), tokenize_char(','));
    assert_eq!(Some(Token::Loop), tokenize_char('['));
    assert_eq!(Some(Token::EndLoop), tokenize_char(']'));
    assert_eq!(None, tokenize_char('a'));
    assert_eq!(None, tokenize_char(' '));
    assert_eq!(None, tokenize_char('('));
}
