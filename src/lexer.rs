use vstd::prelude::*;
use vstd::string::StrSliceExecFns;

use crate::token::{classify, lookup_ident, Token, TokenView};

verus! {

/// A character that may start an identifier: an ASCII letter or `_`.
pub open spec fn is_letter_char(c: char) -> bool {
    ('a' <= c && c <= 'z') || ('A' <= c && c <= 'Z') || c == '_'
}

/// A decimal digit.
pub open spec fn is_digit_char(c: char) -> bool {
    '0' <= c && c <= '9'
}

/// A character that may continue an identifier.
pub open spec fn is_identifier_char(c: char) -> bool {
    is_letter_char(c) || is_digit_char(c)
}

/// The whitespace the lexer skips between tokens.
pub open spec fn is_whitespace_char(c: char) -> bool {
    c == ' ' || c == '\t' || c == '\n' || c == '\r' || c == '\x0B' || c == '\x0C'
}

/// The first position at or after `i` that does not hold whitespace.
pub open spec fn skip_whitespace_from(s: Seq<char>, i: int) -> int
    decreases s.len() - i,
{
    if 0 <= i < s.len() && is_whitespace_char(s[i]) {
        skip_whitespace_from(s, i + 1)
    } else {
        i
    }
}

/// The end of the run of identifier characters that starts at `i`.
pub open spec fn identifier_end(s: Seq<char>, i: int) -> int
    decreases s.len() - i,
{
    if 0 <= i < s.len() && is_identifier_char(s[i]) {
        identifier_end(s, i + 1)
    } else {
        i
    }
}

/// The end of the run of digits that starts at `i`.
pub open spec fn number_end(s: Seq<char>, i: int) -> int
    decreases s.len() - i,
{
    if 0 <= i < s.len() && is_digit_char(s[i]) {
        number_end(s, i + 1)
    } else {
        i
    }
}

/// The token whose first character stands at `i` (a character that is not
/// whitespace), and the position just past its last character.
pub open spec fn scan_token(s: Seq<char>, i: int) -> (TokenView, int) {
    let c = s[i];
    let then_eq = i + 1 < s.len() && s[i + 1] == '=';
    if c == '=' {
        if then_eq {
            (TokenView::Equal, i + 2)
        } else {
            (TokenView::Assign, i + 1)
        }
    } else if c == '!' {
        if then_eq {
            (TokenView::NotEqual, i + 2)
        } else {
            (TokenView::Bang, i + 1)
        }
    } else if c == '+' {
        (TokenView::Plus, i + 1)
    } else if c == '-' {
        (TokenView::Minus, i + 1)
    } else if c == '*' {
        (TokenView::Asterisk, i + 1)
    } else if c == '/' {
        (TokenView::Slash, i + 1)
    } else if c == '<' {
        (TokenView::LessThan, i + 1)
    } else if c == '>' {
        (TokenView::GreaterThan, i + 1)
    } else if c == ',' {
        (TokenView::Comma, i + 1)
    } else if c == ';' {
        (TokenView::Semicolon, i + 1)
    } else if c == '(' {
        (TokenView::LeftParenthesis, i + 1)
    } else if c == ')' {
        (TokenView::RightParenthesis, i + 1)
    } else if c == '{' {
        (TokenView::LeftBrace, i + 1)
    } else if c == '}' {
        (TokenView::RightBrace, i + 1)
    } else if is_letter_char(c) {
        let e = identifier_end(s, i + 1);
        (classify(s.subrange(i, e)), e)
    } else if is_digit_char(c) {
        let e = number_end(s, i + 1);
        (TokenView::Integer(s.subrange(i, e)), e)
    } else {
        (TokenView::Illegal, i + 1)
    }
}

/// The token that the lexer yields when its cursor stands at `i`, and where
/// the cursor stands afterwards.
pub open spec fn next_token_at(s: Seq<char>, i: int) -> (TokenView, int) {
    let j = skip_whitespace_from(s, i);
    if j < s.len() {
        scan_token(s, j)
    } else {
        (TokenView::EndOfFile, j)
    }
}

/// The tokens that follow position `i`, up to the end of the input (the
/// end-of-file sentinel is not among them).
pub open spec fn tokens_from(s: Seq<char>, i: int) -> Seq<TokenView>
    decreases s.len() - i,
    via tokens_from_decreases
{
    let j = skip_whitespace_from(s, i);
    if 0 <= i && j < s.len() {
        let (t, k) = scan_token(s, j);
        seq![t] + tokens_from(s, k)
    } else {
        seq![]
    }
}

/// The tokens of a whole text.
pub open spec fn tokens_of(s: Seq<char>) -> Seq<TokenView> {
    tokens_from(s, 0)
}

#[via_fn]
proof fn tokens_from_decreases(s: Seq<char>, i: int) {
    let j = skip_whitespace_from(s, i);
    if 0 <= i && j < s.len() {
        lemma_skip_whitespace_bounds(s, i);
        lemma_scan_token_advances(s, j);
    }
}

/// Skipping whitespace stops at the first character that is not
/// whitespace, or at the end.
proof fn lemma_skip_whitespace_bounds(s: Seq<char>, i: int)
    requires
        0 <= i,
    ensures
        i <= skip_whitespace_from(s, i),
        i <= s.len() ==> skip_whitespace_from(s, i) <= s.len(),
        skip_whitespace_from(s, i) < s.len() ==> !is_whitespace_char(
            s[skip_whitespace_from(s, i)],
        ),
        forall|k: int| i <= k < skip_whitespace_from(s, i) ==> is_whitespace_char(#[trigger] s[k]),
    decreases s.len() - i,
{
    if 0 <= i < s.len() && is_whitespace_char(s[i]) {
        lemma_skip_whitespace_bounds(s, i + 1);
    }
}

/// An identifier's run ends within the text, at a character that cannot
/// continue it.
proof fn lemma_identifier_end_bounds(s: Seq<char>, i: int)
    requires
        0 <= i <= s.len(),
    ensures
        i <= identifier_end(s, i) <= s.len(),
        identifier_end(s, i) < s.len() ==> !is_identifier_char(s[identifier_end(s, i)]),
        forall|k: int| i <= k < identifier_end(s, i) ==> is_identifier_char(#[trigger] s[k]),
    decreases s.len() - i,
{
    if i < s.len() && is_identifier_char(s[i]) {
        lemma_identifier_end_bounds(s, i + 1);
    }
}

/// A number's run ends within the text, at a character that is not a digit.
proof fn lemma_number_end_bounds(s: Seq<char>, i: int)
    requires
        0 <= i <= s.len(),
    ensures
        i <= number_end(s, i) <= s.len(),
        number_end(s, i) < s.len() ==> !is_digit_char(s[number_end(s, i)]),
        forall|k: int| i <= k < number_end(s, i) ==> is_digit_char(#[trigger] s[k]),
    decreases s.len() - i,
{
    if i < s.len() && is_digit_char(s[i]) {
        lemma_number_end_bounds(s, i + 1);
    }
}

/// Every token covers at least one character and ends within the text.
pub proof fn lemma_scan_token_advances(s: Seq<char>, i: int)
    requires
        0 <= i < s.len(),
    ensures
        i < scan_token(s, i).1 <= s.len(),
{
    lemma_identifier_end_bounds(s, i + 1);
    lemma_number_end_bounds(s, i + 1);
}

/// The end-of-file sentinel is never among the tokens of a text.
pub proof fn lemma_tokens_exclude_end_of_file(s: Seq<char>, i: int)
    ensures
        forall|k: int|
            0 <= k < tokens_from(s, i).len() ==> !(#[trigger] tokens_from(s, i)[k] is EndOfFile),
    decreases s.len() - i,
{
    let j = skip_whitespace_from(s, i);
    if 0 <= i && j < s.len() {
        lemma_skip_whitespace_bounds(s, i);
        lemma_scan_token_advances(s, j);
        let (t, k) = scan_token(s, j);
        lemma_tokens_exclude_end_of_file(s, k);
        assert forall|m: int| 0 <= m < tokens_from(s, i).len() implies !(
        #[trigger] tokens_from(s, i)[m] is EndOfFile) by {
            if m > 0 {
                assert(tokens_from(s, i)[m] == tokens_from(s, k)[m - 1]);
            }
        }
    }
}

/// A run of identifier characters that reaches the end of the text ends
/// there.
proof fn lemma_identifier_end_of_run(u: Seq<char>, m: int)
    requires
        0 <= m <= u.len(),
        forall|k: int| m <= k < u.len() ==> is_identifier_char(#[trigger] u[k]),
    ensures
        identifier_end(u, m) == u.len(),
    decreases u.len() - m,
{
    if m < u.len() {
        lemma_identifier_end_of_run(u, m + 1);
    }
}

/// A run of digits that reaches the end of the text ends there.
proof fn lemma_number_end_of_run(u: Seq<char>, m: int)
    requires
        0 <= m <= u.len(),
        forall|k: int| m <= k < u.len() ==> is_digit_char(#[trigger] u[k]),
    ensures
        number_end(u, m) == u.len(),
    decreases u.len() - m,
{
    if m < u.len() {
        lemma_number_end_of_run(u, m + 1);
    }
}

/// A text made only of digits is a single integer token that spans all of
/// it.
pub proof fn lemma_digits_are_one_integer(s: Seq<char>)
    requires
        s.len() > 0,
        forall|k: int| 0 <= k < s.len() ==> is_digit_char(#[trigger] s[k]),
    ensures
        tokens_of(s) == seq![TokenView::Integer(s)],
{
    assert(is_digit_char(s[0]));
    lemma_number_end_of_run(s, 1);
    assert(s.subrange(0, s.len() as int) =~= s);
    assert(tokens_from(s, s.len() as int) == Seq::<TokenView>::empty());
    assert(tokens_of(s) =~= seq![TokenView::Integer(s)]);
}

/// Scanning, on its own, the text that one token covers gives back that
/// token and nothing else: a token's meaning never depends on what
/// surrounds it.
pub proof fn lemma_token_round_trip(s: Seq<char>, j: int)
    requires
        0 <= j < s.len(),
        !is_whitespace_char(s[j]),
    ensures
        tokens_of(s.subrange(j, scan_token(s, j).1)) == seq![scan_token(s, j).0],
{
    let (t, k) = scan_token(s, j);
    lemma_scan_token_advances(s, j);
    let u = s.subrange(j, k);
    assert(u[0] == s[j]);
    let c = s[j];
    if is_letter_char(c) && !(c == '=' || c == '!') {
        lemma_identifier_end_bounds(s, j + 1);
        assert forall|m: int| 1 <= m < u.len() implies is_identifier_char(#[trigger] u[m]) by {
            assert(u[m] == s[j + m]);
        }
        lemma_identifier_end_of_run(u, 1);
        assert(u.subrange(0, u.len() as int) =~= u);
    } else if is_digit_char(c) {
        lemma_number_end_bounds(s, j + 1);
        assert forall|m: int| 1 <= m < u.len() implies is_digit_char(#[trigger] u[m]) by {
            assert(u[m] == s[j + m]);
        }
        lemma_number_end_of_run(u, 1);
        assert(u.subrange(0, u.len() as int) =~= u);
    } else if k == j + 2 {
        assert(u[1] == s[j + 1]);
    }
    assert(scan_token(u, 0) == (t, u.len() as int));
    assert(tokens_from(u, u.len() as int) == Seq::<TokenView>::empty());
    assert(tokens_of(u) =~= seq![t]);
}

/// A forward-only tokenizer over a borrowed source text.
pub struct Lexer<'source> {
    input: &'source str,
    chars: Vec<char>,
    pos: usize,
}

impl<'source> Lexer<'source> {
    /// The characters of the source text.
    pub closed spec fn source(&self) -> Seq<char> {
        self.input@
    }

    /// The index of the next character to be read.
    pub closed spec fn position(&self) -> int {
        self.pos as int
    }

    pub closed spec fn wf(&self) -> bool {
        &&& self.chars@ == self.input@
        &&& self.pos <= self.chars@.len()
    }

    /// The tokens still to come, up to the end of the input.
    pub open spec fn remaining(&self) -> Seq<TokenView> {
        tokens_from(self.source(), self.position())
    }

    /// A lexer at the start of `input`.
    pub fn new(input: &'source str) -> (r: Self)
        ensures
            r.wf(),
            r.source() == input@,
            r.position() == 0,
    {
        let mut chars: Vec<char> = Vec::new();
        for c in it: input.chars()
            invariant
                chars@ == it.seq().take(it.index() as int),
                it.seq() == input@,
        {
            chars.push(c);
        }
        assert(chars@ =~= input@);
        Lexer { input, chars, pos: 0 }
    }

    /// Consumes the next character, if any.
    fn read_char(&mut self) -> (r: Option<char>)
        requires
            old(self).wf(),
        ensures
            final(self).wf(),
            final(self).source() == old(self).source(),
            old(self).position() < old(self).source().len() ==> r == Some(
                old(self).source()[old(self).position()],
            ) && final(self).position() == old(self).position() + 1,
            old(self).position() >= old(self).source().len() ==> r is None && final(self).position()
                == old(self).position(),
    {
        if self.pos < self.chars.len() {
            let c = self.chars[self.pos];
            self.pos = self.pos + 1;
            Some(c)
        } else {
            None
        }
    }

    /// The next character, without consuming it.
    fn peek_char(&self) -> (r: Option<char>)
        requires
            self.wf(),
        ensures
            self.position() < self.source().len() ==> r == Some(self.source()[self.position()]),
            self.position() >= self.source().len() ==> r is None,
    {
        if self.pos < self.chars.len() {
            Some(self.chars[self.pos])
        } else {
            None
        }
    }

    /// Whether the next character is `eq`.
    fn peek_char_eq(&self, eq: char) -> (r: bool)
        requires
            self.wf(),
        ensures
            r == (self.position() < self.source().len() && self.source()[self.position()] == eq),
    {
        match self.peek_char() {
            Some(ch) => ch == eq,
            None => false,
        }
    }

    /// Whether the next character may continue an identifier.
    fn peek_is_letter(&self) -> (r: bool)
        requires
            self.wf(),
        ensures
            r == (self.position() < self.source().len() && is_identifier_char(
                self.source()[self.position()],
            )),
    {
        match self.peek_char() {
            Some(ch) => is_letter(ch) || is_number(ch),
            None => false,
        }
    }

    /// Whether the next character is a digit.
    fn peek_is_number(&self) -> (r: bool)
        requires
            self.wf(),
        ensures
            r == (self.position() < self.source().len() && is_digit_char(
                self.source()[self.position()],
            )),
    {
        match self.peek_char() {
            Some(ch) => is_number(ch),
            None => false,
        }
    }

    /// Consumes the rest of an identifier whose first character stands at
    /// `start`, and returns the text of the whole identifier.
    fn read_identifier(&mut self, start: usize) -> (r: &'source str)
        requires
            old(self).wf(),
            start < old(self).position(),
        ensures
            final(self).wf(),
            final(self).source() == old(self).source(),
            final(self).position() == identifier_end(old(self).source(), old(self).position()),
            r@ == old(self).source().subrange(start as int, final(self).position()),
    {
        proof {
            lemma_identifier_end_bounds(self.source(), self.position());
        }
        while self.peek_is_letter()
            invariant
                self.wf(),
                self.source() == old(self).source(),
                start < self.position() <= self.source().len(),
                identifier_end(self.source(), self.position()) == identifier_end(
                    old(self).source(),
                    old(self).position(),
                ),
            decreases self.source().len() - self.position(),
        {
            self.read_char();
        }
        self.input.substring_char(start, self.pos)
    }

    /// Consumes the rest of a number whose first digit stands at `start`, and
    /// returns the text of the whole number.
    fn read_number(&mut self, start: usize) -> (r: &'source str)
        requires
            old(self).wf(),
            start < old(self).position(),
        ensures
            final(self).wf(),
            final(self).source() == old(self).source(),
            final(self).position() == number_end(old(self).source(), old(self).position()),
            r@ == old(self).source().subrange(start as int, final(self).position()),
    {
        proof {
            lemma_number_end_bounds(self.source(), self.position());
        }
        while self.peek_is_number()
            invariant
                self.wf(),
                self.source() == old(self).source(),
                start < self.position() <= self.source().len(),
                number_end(self.source(), self.position()) == number_end(
                    old(self).source(),
                    old(self).position(),
                ),
            decreases self.source().len() - self.position(),
        {
            self.read_char();
        }
        self.input.substring_char(start, self.pos)
    }

    /// Consumes the whitespace in front of the cursor.
    fn skip_whitespace(&mut self)
        requires
            old(self).wf(),
        ensures
            final(self).wf(),
            final(self).source() == old(self).source(),
            final(self).position() == skip_whitespace_from(old(self).source(), old(self).position()),
    {
        loop
            invariant
                self.wf(),
                self.source() == old(self).source(),
                skip_whitespace_from(self.source(), self.position()) == skip_whitespace_from(
                    old(self).source(),
                    old(self).position(),
                ),
            ensures
                self.wf(),
                self.source() == old(self).source(),
                self.position() == skip_whitespace_from(old(self).source(), old(self).position()),
            decreases self.source().len() - self.position(),
        {
            match self.peek_char() {
                Some(peek) => {
                    if !is_whitespace(peek) {
                        break;
                    }
                },
                None => break,
            }
            self.read_char();
        }
    }

    /// Scans and returns the next token. At the end of the input it returns
    /// `EndOfFile`, and keeps doing so.
    pub fn next_token(&mut self) -> (r: Token<'source>)
        requires
            old(self).wf(),
        ensures
            final(self).wf(),
            final(self).source() == old(self).source(),
            (r@, final(self).position()) == next_token_at(old(self).source(), old(self).position()),
            0 <= final(self).position() <= final(self).source().len(),
    {
        self.skip_whitespace();
        let start: usize = self.pos;
        let tok = self.read_char();
        match tok {
            Some('=') => {
                if self.peek_char_eq('=') {
                    self.read_char();
                    Token::Equal
                } else {
                    Token::Assign
                }
            },
            Some('+') => Token::Plus,
            Some('-') => Token::Minus,
            Some('!') => {
                if self.peek_char_eq('=') {
                    self.read_char();
                    Token::NotEqual
                } else {
                    Token::Bang
                }
            },
            Some('*') => Token::Asterisk,
            Some('/') => Token::Slash,
            Some('<') => Token::LessThan,
            Some('>') => Token::GreaterThan,
            Some(',') => Token::Comma,
            Some(';') => Token::Semicolon,
            Some('(') => Token::LeftParenthesis,
            Some(')') => Token::RightParenthesis,
            Some('{') => Token::LeftBrace,
            Some('}') => Token::RightBrace,
            Some(ch) => {
                if is_letter(ch) {
                    let literal = self.read_identifier(start);
                    lookup_ident(literal)
                } else if is_number(ch) {
                    Token::Integer(self.read_number(start))
                } else {
                    Token::Illegal
                }
            },
            None => Token::EndOfFile,
        }
    }

    /// The next token, or `None` once the input is used up: the token
    /// sequence seen as a stream that stops at the end-of-file sentinel.
    pub fn next(&mut self) -> (r: Option<Token<'source>>)
        requires
            old(self).wf(),
        ensures
            final(self).wf(),
            final(self).source() == old(self).source(),
            final(self).position() == next_token_at(old(self).source(), old(self).position()).1,
            r is None <==> next_token_at(old(self).source(), old(self).position()).0 is EndOfFile,
            r matches Some(t) ==> t@ == next_token_at(old(self).source(), old(self).position()).0,
            old(self).remaining().len() == 0 ==> r is None && final(self).remaining().len() == 0,
            old(self).remaining().len() > 0 ==> (r matches Some(t) && t@ == old(self).remaining()[0]
                && final(self).remaining() == old(self).remaining().drop_first()),
    {
        let tok = self.next_token();
        match tok {
            Token::EndOfFile => None,
            _ => Some(tok),
        }
    }

    /// A well-formed lexer's cursor lies within its source text.
    pub proof fn lemma_position_in_bounds(&self)
        requires
            self.wf(),
        ensures
            0 <= self.position() <= self.source().len(),
    {
    }
}

/// Whether `ch` may start an identifier.
fn is_letter(ch: char) -> (r: bool)
    ensures
        r == is_letter_char(ch),
{
    ('a' <= ch && ch <= 'z') || ('A' <= ch && ch <= 'Z') || ch == '_'
}

/// Whether `ch` is a decimal digit.
fn is_number(ch: char) -> (r: bool)
    ensures
        r == is_digit_char(ch),
{
    '0' <= ch && ch <= '9'
}

/// Whether `ch` is whitespace between tokens.
fn is_whitespace(ch: char) -> (r: bool)
    ensures
        r == is_whitespace_char(ch),
{
    ch == ' ' || ch == '\t' || ch == '\n' || ch == '\r' || ch == '\x0B' || ch == '\x0C'
}

} // verus!
