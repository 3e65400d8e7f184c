use pattern_parser::lexer::{lex, LexError, Token};

#[test]
fn lex_reads_every_kind_of_token() {
    let tokens = lex("u32le 1 width\n{ } * _ TAKE_N TAKE_OVER TAKE_UNTIL char\tname").unwrap();
    assert_eq!(
        tokens,
        vec![
            Token::DType("u32le".to_string()),
            Token::Number(1),
            Token::Identifier("width".to_string()),
            Token::LeftBrace,
            Token::RightBrace,
            Token::Wildcard,
            Token::Placeholder,
            Token::TakeN,
            Token::TakeOver,
            Token::TakeUntil,
            Token::DType("char".to_string()),
            Token::Identifier("name".to_string()),
        ]
    );
}

#[test]
fn lex_empty_and_blank_text() {
    assert_eq!(lex("").unwrap(), vec![]);
    assert_eq!(lex(" \t\r\n").unwrap(), vec![]);
}

#[test]
fn lex_unknown_type_name_is_an_identifier() {
    assert_eq!(lex("u24le").unwrap(), vec![Token::Identifier("u24le".to_string())]);
}

#[test]
fn lex_longest_word_wins() {
    assert_eq!(
        lex("TAKE_Nx u8x u128be_2").unwrap(),
        vec![
            Token::Identifier("TAKE_Nx".to_string()),
            Token::Identifier("u8x".to_string()),
            Token::Identifier("u128be_2".to_string()),
        ]
    );
}

#[test]
fn lex_all_type_names() {
    let names = [
        "u8", "u16le", "u16be", "u32le", "u32be", "u64le", "u64be", "u128le", "u128be", "char",
    ];
    for n in names {
        assert_eq!(lex(n).unwrap(), vec![Token::DType(n.to_string())]);
    }
}

#[test]
fn lex_number_then_word() {
    assert_eq!(
        lex("12ab{").unwrap(),
        vec![Token::Number(12), Token::Identifier("ab".to_string()), Token::LeftBrace]
    );
}

#[test]
fn lex_placeholder_before_word() {
    assert_eq!(
        lex("_abc").unwrap(),
        vec![Token::Placeholder, Token::Identifier("abc".to_string())]
    );
}

#[test]
fn lex_largest_number() {
    assert_eq!(lex("18446744073709551615").unwrap(), vec![Token::Number(u64::MAX)]);
}

#[test]
fn lex_rejects_number_above_u64() {
    assert_eq!(lex("u8 18446744073709551616 x"), Err(LexError { start: 3, end: 23 }));
}

#[test]
fn lex_rejects_unknown_character() {
    assert_eq!(lex("u8 1 x $"), Err(LexError { start: 7, end: 8 }));
    assert_eq!(lex("\u{e9}"), Err(LexError { start: 0, end: 1 }));
}
