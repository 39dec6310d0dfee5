use monkey_interpreter::token::{lookup_ident, Token};

#[test]
fn test() {
    assert_eq!(lookup_ident("fn"), Token::Function);
    assert_eq!(lookup_ident("test"), Token::Identifier("test"));
}

#[test]
fn every_keyword_is_recognised() {
    assert_eq!(lookup_ident("fn"), Token::Function);
    assert_eq!(lookup_ident("let"), Token::Let);
    assert_eq!(lookup_ident("true"), Token::True);
    assert_eq!(lookup_ident("false"), Token::False);
    assert_eq!(lookup_ident("if"), Token::If);
    assert_eq!(lookup_ident("else"), Token::Else);
    assert_eq!(lookup_ident("return"), Token::Return);
}

#[test]
fn near_keywords_stay_identifiers() {
    for text in ["f", "fnn", "Let", "lets", "tru", "falsey", "iff", "els", "returns", "_", "x1"] {
        assert_eq!(lookup_ident(text), Token::Identifier(text));
    }
}

#[test]
fn identifier_payload_borrows_the_same_text() {
    let text = String::from("counter");
    match lookup_ident(&text) {
        Token::Identifier(s) => assert!(std::ptr::eq(s, text.as_str())),
        other => panic!("unexpected token {:?}", other),
    }
}

#[test]
fn tokens_compare_by_kind_and_text() {
    assert_eq!(Token::Integer("5"), Token::Integer("5"));
    assert_ne!(Token::Integer("5"), Token::Integer("6"));
    assert_ne!(Token::Integer("5"), Token::Identifier("5"));
    assert_ne!(Token::Assign, Token::Equal);
    assert_eq!(Token::EndOfFile, Token::EndOfFile);
}
