use pattern_parser::lexer::{lex, Token};
use pattern_parser::parser::{
    compile_pattern, parse_pattern, CompileError, Count, DType, Endianness, Expected, Expr,
};

#[test]
fn parse_primitive_declarations() {
    let p = compile_pattern("u32le 1 width u8 width _ u16be * rest").unwrap();
    assert_eq!(p.len(), 3);
    match &p[0] {
        Expr::Primative { dtype, count, identifier } => {
            assert_eq!(*dtype, DType::U32(Endianness::Little));
            assert!(matches!(count, Count::Number(1)));
            assert_eq!(identifier.as_deref(), Some("width"));
        }
        _ => panic!("expected a primitive"),
    }
    match &p[1] {
        Expr::Primative { dtype, count, identifier } => {
            assert_eq!(*dtype, DType::U8);
            assert!(matches!(count, Count::Identifier(s) if s == "width"));
            assert!(identifier.is_none());
        }
        _ => panic!("expected a primitive"),
    }
    match &p[2] {
        Expr::Primative { dtype, count, identifier } => {
            assert_eq!(*dtype, DType::U16(Endianness::Big));
            assert!(matches!(count, Count::Infinite));
            assert_eq!(identifier.as_deref(), Some("rest"));
        }
        _ => panic!("expected a primitive"),
    }
}

#[test]
fn parse_nested_blocks() {
    let p = compile_pattern("TAKE_UNTIL { TAKE_N 2 { u8 1 a } TAKE_OVER a i { char i _ } }").unwrap();
    assert_eq!(p.len(), 1);
    match &p[0] {
        Expr::TakeUntil(body) => {
            assert_eq!(body.len(), 2);
            match &body[0] {
                Expr::TakeN { count, exprs } => {
                    assert!(matches!(count, Count::Number(2)));
                    assert_eq!(exprs.len(), 1);
                }
                _ => panic!("expected TAKE_N"),
            }
            match &body[1] {
                Expr::TakeOver { iter_identifier, index_identifier, exprs } => {
                    assert_eq!(iter_identifier, "a");
                    assert_eq!(index_identifier, "i");
                    assert!(matches!(
                        &exprs[0],
                        Expr::Primative { dtype: DType::Char, count: Count::Identifier(c), identifier: None } if c == "i"
                    ));
                }
                _ => panic!("expected TAKE_OVER"),
            }
        }
        _ => panic!("expected TAKE_UNTIL"),
    }
}

#[test]
fn parse_empty_pattern() {
    assert_eq!(compile_pattern("").unwrap().len(), 0);
    assert_eq!(compile_pattern("TAKE_UNTIL { }").unwrap().len(), 1);
}

#[test]
fn unknown_type_name_fails_at_parse_time() {
    match compile_pattern("u24le 4 x") {
        Err(CompileError::Parse(e)) => {
            assert_eq!(e.position, 0);
            assert_eq!(e.expected, Expected::Declaration);
            assert_eq!(e.found, Some(Token::Identifier("u24le".to_string())));
        }
        other => panic!("expected a parse error, got {:?}", other),
    }
}

#[test]
fn unknown_type_token_is_refused() {
    let tokens = vec![Token::DType("u24le".to_string()), Token::Number(1), Token::Placeholder];
    let e = parse_pattern(&tokens).unwrap_err();
    assert_eq!(e.position, 0);
    assert_eq!(e.expected, Expected::TypeName);
}

#[test]
fn missing_closing_brace() {
    let e = parse_pattern(&lex("TAKE_N 2 { u8 1 x").unwrap()).unwrap_err();
    assert_eq!(e.position, 6);
    assert_eq!(e.expected, Expected::RightBrace);
    assert_eq!(e.found, None);
}

#[test]
fn stray_closing_brace() {
    let e = parse_pattern(&lex("u8 1 x }").unwrap()).unwrap_err();
    assert_eq!(e.position, 3);
    assert_eq!(e.expected, Expected::Declaration);
    assert_eq!(e.found, Some(Token::RightBrace));
}

#[test]
fn missing_parts_of_declarations() {
    let e = parse_pattern(&lex("u8 x").unwrap()).unwrap_err();
    assert_eq!((e.position, e.expected), (2, Expected::Binding));
    let e = parse_pattern(&lex("u8 { x").unwrap()).unwrap_err();
    assert_eq!((e.position, e.expected), (1, Expected::Count));
    let e = parse_pattern(&lex("TAKE_OVER a 3 { }").unwrap()).unwrap_err();
    assert_eq!((e.position, e.expected), (2, Expected::Name));
    let e = parse_pattern(&lex("TAKE_UNTIL u8 1 x").unwrap()).unwrap_err();
    assert_eq!((e.position, e.expected), (1, Expected::LeftBrace));
}

#[test]
fn lex_error_is_reported_by_compile() {
    assert!(matches!(compile_pattern("u8 1 x #"), Err(CompileError::Lex(_))));
}
