use vstd::prelude::*;

verus! {

/// A lexical category. Identifier and integer payloads borrow the exact text
/// they were scanned from.
#[derive(Debug, Clone, Copy)]
pub enum Token<'source> {
    /// Any character the language does not know.
    Illegal,
    /// The end of the input.
    EndOfFile,
    Identifier(&'source str),
    Integer(&'source str),
    Assign,
    Plus,
    Minus,
    Bang,
    Asterisk,
    Slash,
    LessThan,
    GreaterThan,
    Equal,
    NotEqual,
    Comma,
    Semicolon,
    LeftParenthesis,
    RightParenthesis,
    LeftBrace,
    RightBrace,
    Function,
    Let,
    True,
    False,
    If,
    Else,
    Return,
}

/// The mathematical model of a token: its category, and for identifiers and
/// integers the characters of the payload.
pub enum TokenView {
    Illegal,
    EndOfFile,
    Identifier(Seq<char>),
    Integer(Seq<char>),
    Assign,
    Plus,
    Minus,
    Bang,
    Asterisk,
    Slash,
    LessThan,
    GreaterThan,
    Equal,
    NotEqual,
    Comma,
    Semicolon,
    LeftParenthesis,
    RightParenthesis,
    LeftBrace,
    RightBrace,
    Function,
    Let,
    True,
    False,
    If,
    Else,
    Return,
}

impl<'source> View for Token<'source> {
    type V = TokenView;

    open spec fn view(&self) -> TokenView {
        match *self {
            Token::Illegal => TokenView::Illegal,
            Token::EndOfFile => TokenView::EndOfFile,
            Token::Identifier(s) => TokenView::Identifier(s@),
            Token::Integer(s) => TokenView::Integer(s@),
            Token::Assign => TokenView::Assign,
            Token::Plus => TokenView::Plus,
            Token::Minus => TokenView::Minus,
            Token::Bang => TokenView::Bang,
            Token::Asterisk => TokenView::Asterisk,
            Token::Slash => TokenView::Slash,
            Token::LessThan => TokenView::LessThan,
            Token::GreaterThan => TokenView::GreaterThan,
            Token::Equal => TokenView::Equal,
            Token::NotEqual => TokenView::NotEqual,
            Token::Comma => TokenView::Comma,
            Token::Semicolon => TokenView::Semicolon,
            Token::LeftParenthesis => TokenView::LeftParenthesis,
            Token::RightParenthesis => TokenView::RightParenthesis,
            Token::LeftBrace => TokenView::LeftBrace,
            Token::RightBrace => TokenView::RightBrace,
            Token::Function => TokenView::Function,
            Token::Let => TokenView::Let,
            Token::True => TokenView::True,
            Token::False => TokenView::False,
            Token::If => TokenView::If,
            Token::Else => TokenView::Else,
            Token::Return => TokenView::Return,
        }
    }
}

/// Whether two texts hold the same characters.
fn same_text(a: &str, b: &str) -> (r: bool)
    ensures
        r == (a@ == b@),
{
    let len: usize = a.unicode_len();
    if len != b.unicode_len() {
        return false;
    }
    let mut i: usize = 0;
    while i < len
        invariant
            len == a@.len(),
            len == b@.len(),
            i <= len,
            forall|j: int| 0 <= j < i ==> a@[j] == b@[j],
        decreases len - i,
    {
        if a.get_char(i) != b.get_char(i) {
            return false;
        }
        i = i + 1;
    }
    assert(a@ =~= b@);
    true
}

/// Two tokens are equal when they have the same category and, for
/// identifiers and integers, the same text.
impl<'source> PartialEq for Token<'source> {
    fn eq(&self, other: &Token<'source>) -> bool {
        match (*self, *other) {
            (Token::Identifier(a), Token::Identifier(b)) => same_text(a, b),
            (Token::Integer(a), Token::Integer(b)) => same_text(a, b),
            (Token::Illegal, Token::Illegal) => true,
            (Token::EndOfFile, Token::EndOfFile) => true,
            (Token::Assign, Token::Assign) => true,
            (Token::Plus, Token::Plus) => true,
            (Token::Minus, Token::Minus) => true,
            (Token::Bang, Token::Bang) => true,
            (Token::Asterisk, Token::Asterisk) => true,
            (Token::Slash, Token::Slash) => true,
            (Token::LessThan, Token::LessThan) => true,
            (Token::GreaterThan, Token::GreaterThan) => true,
            (Token::Equal, Token::Equal) => true,
            (Token::NotEqual, Token::NotEqual) => true,
            (Token::Comma, Token::Comma) => true,
            (Token::Semicolon, Token::Semicolon) => true,
            (Token::LeftParenthesis, Token::LeftParenthesis) => true,
            (Token::RightParenthesis, Token::RightParenthesis) => true,
            (Token::LeftBrace, Token::LeftBrace) => true,
            (Token::RightBrace, Token::RightBrace) => true,
            (Token::Function, Token::Function) => true,
            (Token::Let, Token::Let) => true,
            (Token::True, Token::True) => true,
            (Token::False, Token::False) => true,
            (Token::If, Token::If) => true,
            (Token::Else, Token::Else) => true,
            (Token::Return, Token::Return) => true,
            _ => false,
        }
    }
}

impl<'source> vstd::std_specs::cmp::PartialEqSpecImpl for Token<'source> {
    open spec fn obeys_eq_spec() -> bool {
        true
    }

    open spec fn eq_spec(&self, other: &Token<'source>) -> bool {
        self@ == other@
    }
}

/// The keyword spelled by `text`, if it spells one of the seven keywords.
pub open spec fn keyword(text: Seq<char>) -> Option<TokenView> {
    if text == seq!['f', 'n'] {
        Some(TokenView::Function)
    } else if text == seq!['l', 'e', 't'] {
        Some(TokenView::Let)
    } else if text == seq!['t', 'r', 'u', 'e'] {
        Some(TokenView::True)
    } else if text == seq!['f', 'a', 'l', 's', 'e'] {
        Some(TokenView::False)
    } else if text == seq!['i', 'f'] {
        Some(TokenView::If)
    } else if text == seq!['e', 'l', 's', 'e'] {
        Some(TokenView::Else)
    } else if text == seq!['r', 'e', 't', 'u', 'r', 'n'] {
        Some(TokenView::Return)
    } else {
        None
    }
}

/// The token for a run of identifier characters: its keyword if it spells
/// one, otherwise an identifier carrying the text.
pub open spec fn classify(text: Seq<char>) -> TokenView {
    match keyword(text) {
        Some(k) => k,
        None => TokenView::Identifier(text),
    }
}

/// Whether `s`, whose length is `len`, spells exactly `word`.
fn spells(s: &str, len: usize, word: &[char]) -> (r: bool)
    requires
        len == s@.len(),
    ensures
        r == (s@ == word@),
{
    if len != word.len() {
        return false;
    }
    let mut i: usize = 0;
    while i < len
        invariant
            len == s@.len(),
            len == word@.len(),
            i <= len,
            forall|j: int| 0 <= j < i ==> s@[j] == word@[j],
        decreases len - i,
    {
        if s.get_char(i) != word[i] {
            return false;
        }
        i = i + 1;
    }
    assert(s@ =~= word@);
    true
}

/// Maps identifier text to its keyword token when it spells one of `fn`,
/// `let`, `true`, `false`, `if`, `else`, `return`, and otherwise to an
/// identifier token that borrows the text unchanged.
pub fn lookup_ident<'source>(ident: &'source str) -> (r: Token<'source>)
    ensures
        r@ == classify(ident@),
        keyword(ident@) is None ==> r == Token::Identifier(ident),
{
    let len: usize = ident.unicode_len();
    if spells(ident, len, &['f', 'n']) {
        Token::Function
    } else if spells(ident, len, &['l', 'e', 't']) {
        Token::Let
    } else if spells(ident, len, &['t', 'r', 'u', 'e']) {
        Token::True
    } else if spells(ident, len, &['f', 'a', 'l', 's', 'e']) {
        Token::False
    } else if spells(ident, len, &['i', 'f']) {
        Token::If
    } else if spells(ident, len, &['e', 'l', 's', 'e']) {
        Token::Else
    } else if spells(ident, len, &['r', 'e', 't', 'u', 'r', 'n']) {
        Token::Return
    } else {
        Token::Identifier(ident)
    }
}

} // verus!
