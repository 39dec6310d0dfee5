use vstd::prelude::*;
use vstd::string::StrSliceExecFns;

use crate::ast::{
    Expression, ExpressionView, InfixOperator, PrefixOperator, Program, Statement, StatementView,
};
use crate::lexer::{lemma_tokens_exclude_end_of_file, is_digit_char, Lexer};
use crate::token::{Token, TokenView};

verus! {

/// The diagnostic for a token that cannot start an expression.
pub const EXPECTED_EXPRESSION: &'static str = "expected an expression";

/// The diagnostic for an integer literal that does not fit in an `i32`.
pub const INTEGER_OUT_OF_RANGE: &'static str = "integer literal does not fit in i32";

/// Why a statement could not be parsed. Each `Expected...` variant carries
/// the token that was found instead.
#[derive(Debug, PartialEq, Clone, Copy)]
pub enum ParserError<'source> {
    ExpectedLet(Token<'source>),
    ExpectedIdentifier(Token<'source>),
    ExpectedAssign(Token<'source>),
    ExpectedLParenthesis(Token<'source>),
    ExpectedRParenthesis(Token<'source>),
    ExpectedLeftBrace(Token<'source>),
    ExpectedRightBrace(Token<'source>),
    ExpectedSemiColon(Token<'source>),
    ExpectedComma(Token<'source>),
    /// A mismatch that none of the variants above names.
    ExpectedToken { expected: Token<'source>, got: Token<'source> },
    /// A diagnostic that has no structured form yet.
    Unknown(&'source str),
}

/// The model of a parse error.
pub enum ParserErrorView {
    ExpectedLet(TokenView),
    ExpectedIdentifier(TokenView),
    ExpectedAssign(TokenView),
    ExpectedLParenthesis(TokenView),
    ExpectedRParenthesis(TokenView),
    ExpectedLeftBrace(TokenView),
    ExpectedRightBrace(TokenView),
    ExpectedSemiColon(TokenView),
    ExpectedComma(TokenView),
    ExpectedToken { expected: TokenView, got: TokenView },
    Unknown(Seq<char>),
}

impl<'source> View for ParserError<'source> {
    type V = ParserErrorView;

    open spec fn view(&self) -> ParserErrorView {
        match *self {
            ParserError::ExpectedLet(t) => ParserErrorView::ExpectedLet(t@),
            ParserError::ExpectedIdentifier(t) => ParserErrorView::ExpectedIdentifier(t@),
            ParserError::ExpectedAssign(t) => ParserErrorView::ExpectedAssign(t@),
            ParserError::ExpectedLParenthesis(t) => ParserErrorView::ExpectedLParenthesis(t@),
            ParserError::ExpectedRParenthesis(t) => ParserErrorView::ExpectedRParenthesis(t@),
            ParserError::ExpectedLeftBrace(t) => ParserErrorView::ExpectedLeftBrace(t@),
            ParserError::ExpectedRightBrace(t) => ParserErrorView::ExpectedRightBrace(t@),
            ParserError::ExpectedSemiColon(t) => ParserErrorView::ExpectedSemiColon(t@),
            ParserError::ExpectedComma(t) => ParserErrorView::ExpectedComma(t@),
            ParserError::ExpectedToken { expected, got } => ParserErrorView::ExpectedToken {
                expected: expected@,
                got: got@,
            },
            ParserError::Unknown(text) => ParserErrorView::Unknown(text@),
        }
    }
}

/// The token at index `i` of a token sequence; past its end, the end-of-file
/// sentinel.
pub open spec fn token_at(ts: Seq<TokenView>, i: int) -> TokenView {
    if 0 <= i < ts.len() {
        ts[i]
    } else {
        TokenView::EndOfFile
    }
}

/// The tokens that remain once the first `n` have been consumed.
pub open spec fn after(ts: Seq<TokenView>, n: int) -> Seq<TokenView> {
    if n <= 0 {
        ts
    } else if n <= ts.len() {
        ts.subrange(n, ts.len() as int)
    } else {
        Seq::empty()
    }
}

/// The index after reading the token at `i`: one further, unless the input
/// has already ended (reading at the end consumes nothing).
pub open spec fn advance(ts: Seq<TokenView>, i: int) -> int {
    if i < ts.len() {
        i + 1
    } else {
        i
    }
}

/// Whether every character of `d` is a decimal digit.
pub open spec fn all_digits(d: Seq<char>) -> bool {
    forall|k: int| 0 <= k < d.len() ==> is_digit_char(#[trigger] d[k])
}

/// The number that a run of decimal digits denotes.
pub open spec fn decimal_value(d: Seq<char>) -> int
    decreases d.len(),
{
    if d.len() == 0 {
        0
    } else {
        decimal_value(d.drop_last()) * 10 + (d.last() as u32 - '0' as u32)
    }
}

/// The `i32` that an integer literal denotes, if it is made of digits and
/// fits.
pub open spec fn integer_value(d: Seq<char>) -> Option<i32> {
    if all_digits(d) && decimal_value(d) <= i32::MAX {
        Some(decimal_value(d) as i32)
    } else {
        None
    }
}

/// The binding power of an operand of `!` and unary `-`: tighter than any
/// infix operator.
pub const PREFIX: u8 = 5;

/// The binding power below every infix operator, with which a whole
/// initializer is parsed.
pub const LOWEST: u8 = 0;

/// The infix operator a token stands for, with its binding power: `==` and
/// `!=` bind loosest, then `<` and `>`, then `+` and `-`, then `*` and `/`.
pub open spec fn infix_binding(t: TokenView) -> Option<(InfixOperator, u8)> {
    match t {
        TokenView::Equal => Some((InfixOperator::Equal, 1)),
        TokenView::NotEqual => Some((InfixOperator::NotEqual, 1)),
        TokenView::LessThan => Some((InfixOperator::LessThan, 2)),
        TokenView::GreaterThan => Some((InfixOperator::GreaterThan, 2)),
        TokenView::Plus => Some((InfixOperator::Add, 3)),
        TokenView::Minus => Some((InfixOperator::Subtract, 3)),
        TokenView::Asterisk => Some((InfixOperator::Multiply, 4)),
        TokenView::Slash => Some((InfixOperator::Divide, 4)),
        _ => None,
    }
}

/// Wraps a parsed operand in a prefix operator.
pub open spec fn prefixed(op: PrefixOperator, operand: (Result<ExpressionView, ParserErrorView>, int)) -> (
    Result<ExpressionView, ParserErrorView>,
    int,
) {
    match operand.0 {
        Ok(e) => (Ok(ExpressionView::Prefix(op, Box::new(e))), operand.1),
        Err(err) => (Err(err), operand.1),
    }
}

/// An expression starting at index `i` whose infix operators all bind more
/// tightly than `min`: the outcome, and the index just past the last token
/// consumed. (The test `i < j` always holds, see `lemma_prefix_bounds`; it
/// lets termination be checked without that lemma.)
pub open spec fn parse_expression_at(ts: Seq<TokenView>, i: int, min: u8) -> (
    Result<ExpressionView, ParserErrorView>,
    int,
)
    decreases after(ts, i).len(), 2nat,
{
    let (first, j) = parse_prefix_at(ts, i);
    match first {
        Ok(left) => if i < j {
            parse_infix_from(ts, j, left, min)
        } else {
            (Ok(left), j)
        },
        Err(err) => (Err(err), j),
    }
}

/// The operand that starts at index `i`: an identifier, an integer literal,
/// `!` or `-` applied to an operand, or a parenthesised expression.
pub open spec fn parse_prefix_at(ts: Seq<TokenView>, i: int) -> (
    Result<ExpressionView, ParserErrorView>,
    int,
)
    decreases after(ts, i).len(), 1nat,
{
    match token_at(ts, i) {
        TokenView::Identifier(name) => (Ok(ExpressionView::Identifier(name)), i + 1),
        TokenView::Integer(digits) => match integer_value(digits) {
            Some(v) => (Ok(ExpressionView::Integer(v)), i + 1),
            None => (Err(ParserErrorView::Unknown(INTEGER_OUT_OF_RANGE@)), i + 1),
        },
        TokenView::Bang => prefixed(PrefixOperator::Not, parse_expression_at(ts, i + 1, PREFIX)),
        TokenView::Minus => prefixed(PrefixOperator::Negate, parse_expression_at(ts, i + 1, PREFIX)),
        TokenView::LeftParenthesis => {
            let (inner, j) = parse_expression_at(ts, i + 1, LOWEST);
            match inner {
                Ok(e) => if token_at(ts, j) is RightParenthesis {
                    (Ok(e), j + 1)
                } else {
                    (Err(ParserErrorView::ExpectedRParenthesis(token_at(ts, j))), advance(ts, j))
                },
                Err(err) => (Err(err), j),
            }
        },
        _ => (Err(ParserErrorView::Unknown(EXPECTED_EXPRESSION@)), advance(ts, i)),
    }
}

/// Extends `left`, which ends just before index `j`, with each following
/// infix operator that binds more tightly than `min` and its right operand;
/// operators of equal power associate to the left. (The test `k > j` always
/// holds, see `lemma_expression_bounds`.)
pub open spec fn parse_infix_from(ts: Seq<TokenView>, j: int, left: ExpressionView, min: u8) -> (
    Result<ExpressionView, ParserErrorView>,
    int,
)
    decreases after(ts, j).len(), 0nat,
{
    match infix_binding(token_at(ts, j)) {
        Some((op, power)) => if power > min {
            let (right, k) = parse_expression_at(ts, j + 1, power);
            match right {
                Ok(r) => if k > j {
                    parse_infix_from(ts, k, ExpressionView::Infix(Box::new(left), op, Box::new(r)), min)
                } else {
                    (Ok(left), k)
                },
                Err(err) => (Err(err), k),
            }
        } else {
            (Ok(left), j)
        },
        None => (Ok(left), j),
    }
}

/// An expression never moves backwards, nor past the end of the tokens.
pub proof fn lemma_expression_bounds(ts: Seq<TokenView>, i: int, min: u8)
    requires
        0 <= i <= ts.len(),
    ensures
        i <= parse_expression_at(ts, i, min).1 <= ts.len(),
    decreases after(ts, i).len(), 2nat,
{
    lemma_prefix_bounds(ts, i);
    let (first, j) = parse_prefix_at(ts, i);
    if first is Ok && i < j {
        lemma_infix_bounds(ts, j, first->Ok_0, min);
    }
}

/// An operand consumes at least one token unless the input has ended.
pub proof fn lemma_prefix_bounds(ts: Seq<TokenView>, i: int)
    requires
        0 <= i <= ts.len(),
    ensures
        i <= parse_prefix_at(ts, i).1 <= ts.len(),
        i < ts.len() ==> i < parse_prefix_at(ts, i).1,
    decreases after(ts, i).len(), 1nat,
{
    match token_at(ts, i) {
        TokenView::Bang => lemma_expression_bounds(ts, i + 1, PREFIX),
        TokenView::Minus => lemma_expression_bounds(ts, i + 1, PREFIX),
        TokenView::LeftParenthesis => lemma_expression_bounds(ts, i + 1, LOWEST),
        _ => {},
    }
}

/// Extending an expression with infix operators never moves backwards.
pub proof fn lemma_infix_bounds(ts: Seq<TokenView>, j: int, left: ExpressionView, min: u8)
    requires
        0 <= j <= ts.len(),
    ensures
        j <= parse_infix_from(ts, j, left, min).1 <= ts.len(),
    decreases after(ts, j).len(), 0nat,
{
    match infix_binding(token_at(ts, j)) {
        Some((op, power)) => if power > min {
            lemma_expression_bounds(ts, j + 1, power);
            let (right, k) = parse_expression_at(ts, j + 1, power);
            if right is Ok && k > j {
                lemma_infix_bounds(
                    ts,
                    k,
                    ExpressionView::Infix(Box::new(left), op, Box::new(right->Ok_0)),
                    min,
                );
            }
        },
        None => {},
    }
}

/// The rest of a `let` statement whose `let` token stands just before index
/// `i`: the outcome, and the index just past the last token consumed. The
/// initializer is an expression, and a `;` must follow it.
pub open spec fn parse_let_at(ts: Seq<TokenView>, i: int) -> (
    Result<StatementView, ParserErrorView>,
    int,
) {
    match token_at(ts, i) {
        TokenView::Identifier(name) => {
            if token_at(ts, i + 1) is Assign {
                let (value, j) = parse_expression_at(ts, i + 2, LOWEST);
                match value {
                    Ok(e) => if token_at(ts, j) is Semicolon {
                        (Ok(StatementView::Let(name, e)), j + 1)
                    } else {
                        (Err(ParserErrorView::ExpectedSemiColon(token_at(ts, j))), advance(ts, j))
                    },
                    Err(err) => (Err(err), j),
                }
            } else {
                (Err(ParserErrorView::ExpectedAssign(token_at(ts, i + 1))), advance(ts, i + 1))
            }
        },
        t => (Err(ParserErrorView::ExpectedIdentifier(t)), advance(ts, i)),
    }
}

/// The statement that starts at index `i`: the outcome, and the index just
/// past the last token consumed.
pub open spec fn parse_statement_at(ts: Seq<TokenView>, i: int) -> (
    Result<StatementView, ParserErrorView>,
    int,
) {
    match token_at(ts, i) {
        TokenView::Let => parse_let_at(ts, i + 1),
        t => (Err(ParserErrorView::ExpectedLet(t)), advance(ts, i)),
    }
}

/// The index just past the first `;` at or after `j`, or the end of the
/// tokens if none follows.
pub open spec fn skip_past_semicolon(ts: Seq<TokenView>, j: int) -> int
    decreases ts.len() - j,
{
    if 0 <= j < ts.len() {
        if ts[j] is Semicolon {
            j + 1
        } else {
            skip_past_semicolon(ts, j + 1)
        }
    } else {
        j
    }
}

/// Where parsing resumes after a failed statement that consumed the tokens
/// before index `j`: at once if the last of them was `;`, else past the next
/// `;`.
pub open spec fn resume_at(ts: Seq<TokenView>, j: int) -> int {
    if token_at(ts, j - 1) is Semicolon {
        j
    } else {
        skip_past_semicolon(ts, j)
    }
}

/// The statements parsed and the errors recorded from index `i` to the end
/// of the tokens. After an error is recorded, the tokens up to the end of
/// the failed statement are discarded.
pub open spec fn parse_from(ts: Seq<TokenView>, i: int) -> (Seq<StatementView>, Seq<ParserErrorView>)
    decreases after(ts, i).len(),
    via parse_from_decreases
{
    if 0 <= i < ts.len() {
        let (r, j) = parse_statement_at(ts, i);
        match r {
            Ok(s) => {
                let (ss, es) = parse_from(ts, j);
                (seq![s] + ss, es)
            },
            Err(e) => {
                let (ss, es) = parse_from(ts, resume_at(ts, j));
                (ss, seq![e] + es)
            },
        }
    } else {
        (Seq::empty(), Seq::empty())
    }
}

/// Skipping to past the next `;` never moves backwards.
proof fn lemma_skip_past_semicolon_bounds(ts: Seq<TokenView>, j: int)
    ensures
        j <= skip_past_semicolon(ts, j),
    decreases ts.len() - j,
{
    if 0 <= j < ts.len() && !(ts[j] is Semicolon) {
        lemma_skip_past_semicolon_bounds(ts, j + 1);
    }
}

/// A statement that starts within the tokens consumes at least one of them,
/// and recovery after it never moves backwards.
pub proof fn lemma_statement_advances(ts: Seq<TokenView>, i: int)
    requires
        0 <= i < ts.len(),
    ensures
        i < parse_statement_at(ts, i).1 <= ts.len(),
        parse_statement_at(ts, i).1 <= resume_at(ts, parse_statement_at(ts, i).1),
{
    if token_at(ts, i) is Let && token_at(ts, i + 1) is Identifier && token_at(ts, i + 2) is Assign {
        lemma_expression_bounds(ts, i + 3, LOWEST);
    }
    lemma_skip_past_semicolon_bounds(ts, parse_statement_at(ts, i).1);
}

#[via_fn]
proof fn parse_from_decreases(ts: Seq<TokenView>, i: int) {
    if 0 <= i < ts.len() {
        lemma_statement_advances(ts, i);
    }
}

/// A decimal value is never below the value of any of its prefixes.
proof fn lemma_decimal_value_prefix(d: Seq<char>, k: int)
    requires
        all_digits(d),
        0 <= k <= d.len(),
    ensures
        0 <= decimal_value(d.take(k)) <= decimal_value(d),
    decreases d.len(),
{
    if k < d.len() {
        let p = d.drop_last();
        assert(all_digits(p)) by {
            assert forall|m: int| 0 <= m < p.len() implies is_digit_char(#[trigger] p[m]) by {
                assert(p[m] == d[m]);
            }
        }
        lemma_decimal_value_prefix(p, k);
        assert(p.take(k) =~= d.take(k));
        lemma_decimal_value_prefix(p, p.len() as int);
        assert(p.take(p.len() as int) =~= p);
        assert(is_digit_char(d[d.len() - 1]));
    } else {
        assert(d.take(k) =~= d);
        if d.len() > 0 {
            let p = d.drop_last();
            assert(all_digits(p)) by {
                assert forall|m: int| 0 <= m < p.len() implies is_digit_char(#[trigger] p[m]) by {
                    assert(p[m] == d[m]);
                }
            }
            lemma_decimal_value_prefix(p, p.len() as int);
            assert(p.take(p.len() as int) =~= p);
            assert(is_digit_char(d[d.len() - 1]));
        }
    }
}

/// The value of an integer literal, or `None` when it holds a character that
/// is not a digit or does not fit in an `i32`.
fn parse_integer(text: &str) -> (r: Option<i32>)
    ensures
        r == integer_value(text@),
{
    let n: usize = text.unicode_len();
    let mut acc: i64 = 0;
    let mut i: usize = 0;
    while i < n
        invariant
            n == text@.len(),
            i <= n,
            all_digits(text@.take(i as int)),
            acc == decimal_value(text@.take(i as int)),
            0 <= acc <= i32::MAX,
        decreases n - i,
    {
        let c = text.get_char(i);
        if !('0' <= c && c <= '9') {
            assert(!all_digits(text@));
            return None;
        }
        let digit: i64 = (c as u32 - '0' as u32) as i64;
        acc = acc * 10 + digit;
        proof {
            let next = text@.take(i + 1);
            assert(next.drop_last() =~= text@.take(i as int));
            assert(all_digits(next)) by {
                assert forall|m: int| 0 <= m < next.len() implies is_digit_char(#[trigger] next[m]) by {
                    if m < i {
                        assert(next[m] == text@.take(i as int)[m]);
                    }
                }
            }
        }
        if acc > 2147483647 {
            proof {
                if all_digits(text@) {
                    lemma_decimal_value_prefix(text@, i + 1);
                }
            }
            return None;
        }
        i = i + 1;
    }
    assert(text@.take(n as int) =~= text@);
    Some(acc as i32)
}

/// The infix operator a token stands for, with its binding power.
fn infix_binding_of(t: &Token) -> (r: Option<(InfixOperator, u8)>)
    ensures
        r == infix_binding(t@),
{
    match t {
        Token::Equal => Some((InfixOperator::Equal, 1)),
        Token::NotEqual => Some((InfixOperator::NotEqual, 1)),
        Token::LessThan => Some((InfixOperator::LessThan, 2)),
        Token::GreaterThan => Some((InfixOperator::GreaterThan, 2)),
        Token::Plus => Some((InfixOperator::Add, 3)),
        Token::Minus => Some((InfixOperator::Subtract, 3)),
        Token::Asterisk => Some((InfixOperator::Multiply, 4)),
        Token::Slash => Some((InfixOperator::Divide, 4)),
        _ => None,
    }
}

/// A recursive-descent parser over the tokens of a lexer, with one token of
/// lookahead. Statements that fail to parse are recorded as errors, and
/// parsing resumes after the next `;`.
pub struct Parser<'source> {
    lexer: Lexer<'source>,
    peeked: Option<Token<'source>>,
    errors: Vec<ParserError<'source>>,
    previous_was_semicolon: bool,
    stream: Ghost<Seq<TokenView>>,
    consumed: Ghost<int>,
}

impl<'source> Parser<'source> {
    /// All tokens the parser was handed, from its creation on.
    pub closed spec fn stream(&self) -> Seq<TokenView> {
        self.stream@
    }

    /// How many of those tokens have been consumed.
    pub closed spec fn consumed(&self) -> int {
        self.consumed@
    }

    /// The errors recorded so far, in order.
    pub closed spec fn errors_view(&self) -> Seq<ParserErrorView> {
        self.errors@.map_values(|e: ParserError<'source>| e@)
    }

    /// The tokens not yet consumed, as the buffer and the lexer hold them.
    closed spec fn upcoming(&self) -> Seq<TokenView> {
        match self.peeked {
            None => self.lexer.remaining(),
            Some(t) => if t@ is EndOfFile {
                Seq::empty()
            } else {
                seq![t@] + self.lexer.remaining()
            },
        }
    }

    pub closed spec fn wf(&self) -> bool {
        &&& self.lexer.wf()
        &&& 0 <= self.consumed@ <= self.stream@.len()
        &&& forall|k: int|
            0 <= k < self.stream@.len() ==> !(#[trigger] self.stream@[k] is EndOfFile)
        &&& (self.peeked matches Some(t) && t@ is EndOfFile ==> self.lexer.remaining().len() == 0)
        &&& self.upcoming() == after(self.stream@, self.consumed@)
        &&& self.previous_was_semicolon == (self.consumed@ >= 1 && self.stream@[self.consumed@
            - 1] is Semicolon)
    }

    /// A well-formed parser has consumed no more tokens than it was handed.
    pub proof fn lemma_consumed_in_bounds(&self)
        requires
            self.wf(),
        ensures
            0 <= self.consumed() <= self.stream().len(),
    {
    }

    /// A parser over the tokens that `lexer` has still to yield.
    pub fn new(lexer: Lexer<'source>) -> (r: Self)
        requires
            lexer.wf(),
        ensures
            r.wf(),
            r.stream() == lexer.remaining(),
            r.consumed() == 0,
            r.errors_view() == Seq::<ParserErrorView>::empty(),
    {
        proof {
            lemma_tokens_exclude_end_of_file(lexer.source(), lexer.position());
        }
        let r = Self {
            lexer,
            peeked: None,
            errors: Vec::new(),
            previous_was_semicolon: false,
            stream: Ghost(lexer.remaining()),
            consumed: Ghost(0),
        };
        assert(r.errors_view() =~= Seq::<ParserErrorView>::empty());
        r
    }

    /// The errors recorded so far, in order.
    pub fn errors(&self) -> (r: &Vec<ParserError<'source>>)
        ensures
            r@.map_values(|e: ParserError<'source>| e@) == self.errors_view(),
    {
        &self.errors
    }

    /// Consumes the next token; at the end of the input, returns the
    /// end-of-file sentinel and consumes nothing.
    fn read_token(&mut self) -> (r: Token<'source>)
        requires
            old(self).wf(),
        ensures
            final(self).wf(),
            final(self).stream() == old(self).stream(),
            final(self).consumed() == advance(old(self).stream(), old(self).consumed()),
            final(self).errors == old(self).errors,
            r@ == token_at(old(self).stream(), old(self).consumed()),
    {
        let ghost up = self.upcoming();
        let ghost ts = self.stream@;
        let ghost c = self.consumed@;
        let buffered = self.peeked;
        self.peeked = None;
        let r = match buffered {
            Some(t) => t,
            None => match self.lexer.next() {
                Some(t) => t,
                None => Token::EndOfFile,
            },
        };
        proof {
            if up.len() > 0 {
                assert(c < ts.len());
                assert(after(ts, c)[0] == ts[c]);
                assert(after(ts, c).drop_first() =~= after(ts, c + 1));
                if buffered is Some {
                    assert(up.drop_first() =~= self.lexer.remaining());
                }
            } else {
                assert(c >= ts.len()) by {
                    if c < ts.len() {
                        assert(after(ts, c).len() > 0);
                    }
                }
            }
        }
        if r != Token::EndOfFile {
            self.previous_was_semicolon = r == Token::Semicolon;
            proof {
                self.consumed = Ghost(c + 1);
            }
        }
        r
    }

    /// The next token, without consuming it.
    fn peek_token(&mut self) -> (r: Token<'source>)
        requires
            old(self).wf(),
        ensures
            final(self).wf(),
            final(self).stream() == old(self).stream(),
            final(self).consumed() == old(self).consumed(),
            final(self).errors == old(self).errors,
            r@ == token_at(old(self).stream(), old(self).consumed()),
    {
        match self.peeked {
            Some(t) => {
                proof {
                    let ts = self.stream@;
                    let c = self.consumed@;
                    if !(t@ is EndOfFile) {
                        assert(self.upcoming()[0] == t@);
                        assert(after(ts, c).len() > 0);
                        assert(after(ts, c)[0] == ts[c]);
                    } else if c < ts.len() {
                        assert(after(ts, c).len() > 0);
                    }
                }
                t
            },
            None => {
                let t = match self.lexer.next() {
                    Some(t) => t,
                    None => Token::EndOfFile,
                };
                self.peeked = Some(t);
                proof {
                    let ts = self.stream@;
                    let c = self.consumed@;
                    if c < ts.len() {
                        assert(after(ts, c)[0] == ts[c]);
                        assert(seq![t@] + after(ts, c).drop_first() =~= after(ts, c));
                    }
                }
                t
            },
        }
    }

    /// Consumes the next token and checks that it equals `eq`; otherwise
    /// returns the token found. One token is consumed whether or not it
    /// matches; at the end of the input nothing is, and the result is an
    /// error.
    fn expect_peek(&mut self, eq: Token<'source>) -> (r: Result<(), Token<'source>>)
        requires
            old(self).wf(),
        ensures
            final(self).wf(),
            final(self).stream() == old(self).stream(),
            final(self).consumed() == advance(old(self).stream(), old(self).consumed()),
            final(self).errors == old(self).errors,
            r is Ok <==> (old(self).consumed() < old(self).stream().len() && old(self).stream()[old(
                self,
            ).consumed()] == eq@),
            r matches Err(got) ==> got@ == token_at(old(self).stream(), old(self).consumed()),
    {
        let peek = self.peek_token();
        self.read_token();
        if peek != Token::EndOfFile && peek == eq {
            Ok(())
        } else {
            Err(peek)
        }
    }

    /// Discards tokens up to and including the next `;`, stopping early at
    /// the end of the input.
    fn synchronize(&mut self)
        requires
            old(self).wf(),
        ensures
            final(self).wf(),
            final(self).stream() == old(self).stream(),
            final(self).consumed() == skip_past_semicolon(old(self).stream(), old(self).consumed()),
            final(self).errors == old(self).errors,
    {
        let ghost ts = self.stream@;
        let ghost c0 = self.consumed@;
        loop
            invariant_except_break
                skip_past_semicolon(ts, self.consumed()) == skip_past_semicolon(ts, c0),
            invariant
                self.wf(),
                self.stream() == ts,
                self.errors == old(self).errors,
            ensures
                self.wf(),
                self.stream() == ts,
                self.errors == old(self).errors,
                self.consumed() == skip_past_semicolon(ts, c0),
            decreases after(ts, self.consumed()).len(),
        {
            let t = self.peek_token();
            if t == Token::EndOfFile {
                break;
            }
            self.read_token();
            if t == Token::Semicolon {
                break;
            }
        }
    }

    /// Parses an expression whose infix operators all bind more tightly than
    /// `precedence`, by precedence climbing.
    fn parse_expression(&mut self, precedence: u8) -> (r: Result<
        Expression<'source>,
        ParserError<'source>,
    >)
        requires
            old(self).wf(),
        ensures
            final(self).wf(),
            final(self).stream() == old(self).stream(),
            final(self).errors == old(self).errors,
            (expression_outcome(r), final(self).consumed()) == parse_expression_at(
                old(self).stream(),
                old(self).consumed(),
                precedence,
            ),
        decreases after(old(self).stream(), old(self).consumed()).len(),
    {
        let ghost ts = self.stream@;
        let ghost start = self.consumed@;
        proof {
            lemma_prefix_bounds(ts, start);
        }
        let tok = self.read_token();
        let mut left = match tok {
            Token::Identifier(name) => Expression::Identifier(name),
            Token::Integer(digits) => match parse_integer(digits) {
                Some(v) => Expression::Integer(v),
                None => {
                    return Err(ParserError::Unknown(INTEGER_OUT_OF_RANGE));
                },
            },
            Token::Bang => match self.parse_expression(PREFIX) {
                Ok(operand) => Expression::Prefix(PrefixOperator::Not, Box::new(operand)),
                Err(e) => {
                    return Err(e);
                },
            },
            Token::Minus => match self.parse_expression(PREFIX) {
                Ok(operand) => Expression::Prefix(PrefixOperator::Negate, Box::new(operand)),
                Err(e) => {
                    return Err(e);
                },
            },
            Token::LeftParenthesis => {
                let inner = match self.parse_expression(LOWEST) {
                    Ok(e) => e,
                    Err(e) => {
                        return Err(e);
                    },
                };
                match self.expect_peek(Token::RightParenthesis) {
                    Ok(()) => inner,
                    Err(found) => {
                        return Err(ParserError::ExpectedRParenthesis(found));
                    },
                }
            },
            _ => {
                return Err(ParserError::Unknown(EXPECTED_EXPRESSION));
            },
        };
        assert(parse_prefix_at(ts, start) == (Ok::<ExpressionView, ParserErrorView>(left@), self.consumed()));
        loop
            invariant
                self.wf(),
                self.stream() == ts,
                self.errors == old(self).errors,
                ts == old(self).stream(),
                start == old(self).consumed(),
                start < self.consumed(),
                parse_infix_from(ts, self.consumed(), left@, precedence) == parse_expression_at(
                    ts,
                    start,
                    precedence,
                ),
            decreases after(ts, self.consumed()).len(),
        {
            let peek = self.peek_token();
            match infix_binding_of(&peek) {
                None => {
                    return Ok(left);
                },
                Some((op, power)) => {
                    if power <= precedence {
                        return Ok(left);
                    }
                    let ghost j = self.consumed();
                    self.read_token();
                    proof {
                        lemma_expression_bounds(ts, j + 1, power);
                    }
                    let right = match self.parse_expression(power) {
                        Ok(e) => e,
                        Err(e) => {
                            return Err(e);
                        },
                    };
                    left = Expression::Infix(Box::new(left), op, Box::new(right));
                },
            }
        }
    }

    /// Parses the rest of a `let` statement, whose `let` token has been
    /// consumed.
    fn parse_let_statement(&mut self) -> (r: Result<Statement<'source>, ParserError<'source>>)
        requires
            old(self).wf(),
        ensures
            final(self).wf(),
            final(self).stream() == old(self).stream(),
            final(self).errors == old(self).errors,
            (outcome_view(r), final(self).consumed()) == parse_let_at(
                old(self).stream(),
                old(self).consumed(),
            ),
    {
        let got = self.read_token();
        let identifier = match got {
            Token::Identifier(ident) => ident,
            _ => {
                return Err(ParserError::ExpectedIdentifier(got));
            },
        };
        match self.expect_peek(Token::Assign) {
            Ok(()) => {},
            Err(found) => {
                return Err(ParserError::ExpectedAssign(found));
            },
        }
        let value = match self.parse_expression(LOWEST) {
            Ok(e) => e,
            Err(e) => {
                return Err(e);
            },
        };
        match self.expect_peek(Token::Semicolon) {
            Ok(()) => Ok(Statement::Let(identifier, value)),
            Err(found) => Err(ParserError::ExpectedSemiColon(found)),
        }
    }

    /// Parses one statement. On an error, only the tokens read up to the
    /// offending one are consumed.
    pub fn parse_statement(&mut self) -> (r: Result<Statement<'source>, ParserError<'source>>)
        requires
            old(self).wf(),
        ensures
            final(self).wf(),
            final(self).stream() == old(self).stream(),
            final(self).errors_view() == old(self).errors_view(),
            (outcome_view(r), final(self).consumed()) == parse_statement_at(
                old(self).stream(),
                old(self).consumed(),
            ),
    {
        let tok = self.read_token();
        match tok {
            Token::Let => self.parse_let_statement(),
            _ => Err(ParserError::ExpectedLet(tok)),
        }
    }

    /// Parses statements up to the end of the input. Statements that parse
    /// are returned in source order; the error of each other one is appended
    /// to the parser's errors, after which the tokens up to the end of that
    /// statement are discarded.
    pub fn parse_program(&mut self) -> (r: Program<'source>)
        requires
            old(self).wf(),
        ensures
            final(self).wf(),
            final(self).stream() == old(self).stream(),
            final(self).consumed() == final(self).stream().len(),
            r@ == parse_from(old(self).stream(), old(self).consumed()).0,
            final(self).errors_view() == old(self).errors_view() + parse_from(
                old(self).stream(),
                old(self).consumed(),
            ).1,
    {
        let mut program: Program<'source> = Program::new();
        let ghost ts = self.stream@;
        let ghost c0 = self.consumed@;
        let ghost e0 = self.errors_view();
        assert(program@ + parse_from(ts, c0).0 =~= parse_from(ts, c0).0);
        assert(e0 + parse_from(ts, c0).1 =~= self.errors_view() + parse_from(ts, c0).1);
        loop
            invariant
                self.wf(),
                self.stream() == ts,
                parse_from(ts, c0).0 == program@ + parse_from(ts, self.consumed()).0,
                e0 + parse_from(ts, c0).1 == self.errors_view() + parse_from(ts, self.consumed()).1,
            ensures
                self.wf(),
                self.stream() == ts,
                self.consumed() == ts.len(),
                parse_from(ts, c0).0 == program@,
                e0 + parse_from(ts, c0).1 == self.errors_view(),
            decreases after(ts, self.consumed()).len(),
        {
            let peek = self.peek_token();
            if peek == Token::EndOfFile {
                assert(program@ + parse_from(ts, self.consumed()).0 =~= program@);
                assert(self.errors_view() + parse_from(ts, self.consumed()).1 =~= self.errors_view());
                break;
            }
            let ghost c = self.consumed@;
            let ghost before = program@;
            let ghost errors_before = self.errors_view();
            proof {
                lemma_statement_advances(ts, c);
            }
            match self.parse_statement() {
                Ok(statement) => {
                    let ghost s = statement@;
                    program.statements.push(statement);
                    assert(program@ =~= before.push(s));
                    assert(before + parse_from(ts, c).0 =~= program@ + parse_from(
                        ts,
                        self.consumed(),
                    ).0);
                },
                Err(err) => {
                    self.errors.push(err);
                    assert(self.errors_view() =~= errors_before.push(err@));
                    let ghost j = self.consumed();
                    if !self.previous_was_semicolon {
                        self.synchronize();
                    }
                    assert(errors_before + parse_from(ts, c).1 =~= self.errors_view() + parse_from(
                        ts,
                        self.consumed(),
                    ).1);
                },
            }
        }
        program
    }
}

/// The model of an expression parse's outcome.
pub open spec fn expression_outcome<'source>(
    r: Result<Expression<'source>, ParserError<'source>>,
) -> Result<ExpressionView, ParserErrorView> {
    match r {
        Ok(e) => Ok(e@),
        Err(e) => Err(e@),
    }
}

/// The model of a statement parse's outcome.
pub open spec fn outcome_view<'source>(
    r: Result<Statement<'source>, ParserError<'source>>,
) -> Result<StatementView, ParserErrorView> {
    match r {
        Ok(s) => Ok(s@),
        Err(e) => Err(e@),
    }
}

} // verus!
