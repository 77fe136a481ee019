//! The recursive-descent parser, and its mathematical model.
//!
//! The model is a family of spec functions over a pending token stream. Each
//! mirrors one parsing routine and returns what that routine produces and the
//! stream it leaves behind. The functions carry a fuel parameter so that
//! Verus accepts their recursion; `lemma_*_total` shows that one unit of fuel
//! per pending token (plus one) is always enough, and `lemma_*_fuel` that the
//! result does not depend on the fuel beyond that, so the `*_result`
//! wrappers below are well defined. The executable parser is proved to return
//! exactly what the wrappers say, for every input.

use vstd::prelude::*;
use vstd::assert_seqs_equal;
use vstd::string::StringExecFns;
use crate::token::{Token, TokenV};
use crate::error::{Error, ErrorV};
use crate::parse_node::{
    GrammarItem,
    GrammarItemV,
    ParseNode,
    ParseNodeV,
    Type,
    TypeV,
    deep_nodes,
    lemma_deep_nodes_push,
};
use crate::lexer::{
    Lexer,
    stream_head,
    stream_rest,
    stream_exhausted,
    tokens_of,
    is_digit_char,
};

verus! {

pub type ParseError = Error;

pub type ParseResult = Result<ParseNode, ParseError>;

/// What one parsing step produces, and the stream it leaves behind.
pub type ParseOutcome = (Result<ParseNodeV, ErrorV>, Seq<TokenV>);

/// An AST node as the parser builds it: the type slot is always `Unknown`.
pub open spec fn untyped(entry: GrammarItemV) -> ParseNodeV {
    ParseNodeV { entry: entry, node_type: TypeV::Unknown }
}

/// The view of a parse result.
pub open spec fn res_view(r: Result<ParseNode, Error>) -> Result<ParseNodeV, ErrorV> {
    match r {
        Ok(n) => Ok(n@),
        Err(e) => Err(e@),
    }
}

pub open spec fn outcome_of(o: Option<ParseOutcome>) -> ParseOutcome {
    match o {
        Some(p) => p,
        None => (Err(ErrorV::UnexpectedEndOfInput), Seq::empty()),
    }
}

pub open spec fn outcome_is_ok(p: ParseOutcome) -> bool {
    match p.0 {
        Ok(_) => true,
        Err(_) => false,
    }
}

/// The tokens on which a base expression can start: `(`, `\`, a lower-case
/// identifier, or an integer literal.
pub open spec fn starts_base_expr(t: TokenV) -> bool {
    match t {
        TokenV::LParen => true,
        TokenV::Backslash => true,
        TokenV::LowerIdentifier(_) => true,
        TokenV::IntegerLiteral(_) => true,
        _ => false,
    }
}

/// The numeric value of a digit character.
pub open spec fn digit_value(c: char) -> int {
    c as u32 - '0' as u32
}

pub open spec fn is_digit_seq(s: Seq<char>) -> bool {
    forall|i: int| 0 <= i < s.len() ==> is_digit_char(s[i])
}

/// The value of digit text read in base ten.
pub open spec fn digits_value(s: Seq<char>) -> int
    decreases s.len(),
{
    if s.len() == 0 {
        0
    } else {
        digits_value(s.drop_last()) * 10 + digit_value(s.last())
    }
}

/// What converting integer-literal text yields: its value as a 32-bit signed
/// integer, or `IntegerParseError` for empty text, a non-digit, or overflow.
pub open spec fn literal_int_result(text: Seq<char>) -> Result<ParseNodeV, ErrorV> {
    if text.len() > 0 && is_digit_seq(text) && digits_value(text) <= i32::MAX {
        Ok(untyped(GrammarItemV::LiteralInt(digits_value(text))))
    } else {
        Err(ErrorV::IntegerParseError)
    }
}

/// One base expression: a parenthesized expression, a variable, an integer
/// literal, or an abstraction. Any other token fails; one that is neither
/// `Illegal` nor `EndOfInput` is pushed back as well.
pub open spec fn base_expr_fuel(s: Seq<TokenV>, fuel: nat) -> Option<ParseOutcome>
    decreases fuel, 0int,
{
    let t = stream_head(s);
    let r = stream_rest(s);
    match t {
        TokenV::LParen => if fuel == 0 {
            None
        } else {
            paren_expr_fuel(r, (fuel - 1) as nat)
        },
        TokenV::LowerIdentifier(id) => Some((Ok(untyped(GrammarItemV::Variable(id))), r)),
        TokenV::IntegerLiteral(text) => Some((literal_int_result(text), r)),
        TokenV::Backslash => if fuel == 0 {
            None
        } else {
            abstraction_expr_fuel(r, (fuel - 1) as nat)
        },
        TokenV::Illegal => Some((Err(ErrorV::IllegalToken(TokenV::Illegal)), r)),
        TokenV::EndOfInput => Some((Err(ErrorV::UnexpectedEndOfInput), r)),
        _ => Some((Err(ErrorV::IllegalToken(t)), seq![t] + r)),
    }
}

/// The tail of an application chain: while the next token can start a base
/// expression, parse one and fold it to the left into an `Application`; the
/// first token that cannot is pushed back and the accumulated expression is
/// returned.
pub open spec fn expr_prime_fuel(left: ParseNodeV, s: Seq<TokenV>, fuel: nat) -> Option<
    ParseOutcome,
>
    decreases fuel, 1int,
{
    let t = stream_head(s);
    let r = stream_rest(s);
    if starts_base_expr(t) {
        match base_expr_fuel(s, fuel) {
            None => None,
            Some((res, s1)) => match res {
                Err(e) => Some((Err(e), s1)),
                Ok(right) => if fuel == 0 {
                    None
                } else {
                    expr_prime_fuel(
                        untyped(
                            GrammarItemV::Application(Box::new(left), Box::new(right)),
                        ),
                        s1,
                        (fuel - 1) as nat,
                    )
                },
            },
        }
    } else {
        Some((Ok(left), seq![t] + r))
    }
}

/// One expression: a base expression followed by the application-chain tail.
pub open spec fn expr_fuel(s: Seq<TokenV>, fuel: nat) -> Option<ParseOutcome>
    decreases fuel, 2int,
{
    match base_expr_fuel(s, fuel) {
        None => None,
        Some((res, s1)) => match res {
            Err(e) => Some((Err(e), s1)),
            Ok(n) => expr_prime_fuel(n, s1, fuel),
        },
    }
}

/// The remainder of a parenthesized expression after its `(` was consumed.
pub open spec fn paren_expr_fuel(s: Seq<TokenV>, fuel: nat) -> Option<ParseOutcome>
    decreases fuel, 3int,
{
    match expr_fuel(s, fuel) {
        None => None,
        Some((res, s1)) => match res {
            Err(e) => Some((Err(e), s1)),
            Ok(n) => {
                let t = stream_head(s1);
                let r = stream_rest(s1);
                if t == TokenV::RParen {
                    Some((Ok(n), r))
                } else {
                    Some((Err(ErrorV::ExpectedToken(TokenV::RParen, t)), r))
                }
            },
        },
    }
}

/// The remainder of an abstraction after its `\` was consumed: the bound
/// identifier, the type-annotation slot (a no-op, always `Unknown`), the dot,
/// then the body, which extends as far as an expression can.
pub open spec fn abstraction_expr_fuel(s: Seq<TokenV>, fuel: nat) -> Option<ParseOutcome>
    decreases fuel, 3int,
{
    let t = stream_head(s);
    let r = stream_rest(s);
    match t {
        TokenV::LowerIdentifier(id) => {
            let t2 = stream_head(r);
            let r2 = stream_rest(r);
            if t2 == TokenV::Dot {
                match expr_fuel(r2, fuel) {
                    None => None,
                    Some((res, s1)) => match res {
                        Err(e) => Some((Err(e), s1)),
                        Ok(body) => Some(
                            (
                                Ok(untyped(GrammarItemV::Abstraction(id, Box::new(body)))),
                                s1,
                            ),
                        ),
                    },
                }
            } else {
                Some((Err(ErrorV::ExpectedToken(TokenV::Dot, t2)), r2))
            }
        },
        _ => Some(
            (Err(ErrorV::ExpectedToken(TokenV::LowerIdentifier(Seq::empty()), t)), r),
        ),
    }
}

/// One top-level assignment: a lower-case identifier, `=`, an expression.
pub open spec fn toplevel_assignment_fuel(s: Seq<TokenV>, fuel: nat) -> Option<ParseOutcome>
    decreases fuel, 3int,
{
    let t = stream_head(s);
    let r = stream_rest(s);
    match t {
        TokenV::LowerIdentifier(id) => {
            let t2 = stream_head(r);
            let r2 = stream_rest(r);
            if t2 == TokenV::Assign {
                match expr_fuel(r2, fuel) {
                    None => None,
                    Some((res, s1)) => match res {
                        Err(e) => Some((Err(e), s1)),
                        Ok(e) => Some(
                            (Ok(untyped(GrammarItemV::Assignment(id, Box::new(e)))), s1),
                        ),
                    },
                }
            } else {
                Some((Err(ErrorV::ExpectedToken(TokenV::Assign, t2)), r2))
            }
        },
        _ => Some(
            (Err(ErrorV::ExpectedToken(TokenV::LowerIdentifier(Seq::empty()), t)), r),
        ),
    }
}

/// The program loop: collect assignments until one fails (the failed attempt
/// keeps whatever it consumed), then require end of input, else fail with
/// `ExpectedEndOfInput` carrying the token found.
pub open spec fn program_fuel(acc: Seq<ParseNodeV>, s: Seq<TokenV>, fuel: nat) -> Option<
    ParseOutcome,
>
    decreases fuel, 4int,
{
    match toplevel_assignment_fuel(s, fuel) {
        None => None,
        Some((res, s1)) => match res {
            Ok(n) => if fuel == 0 {
                None
            } else {
                program_fuel(acc.push(n), s1, (fuel - 1) as nat)
            },
            Err(_) => {
                let t = stream_head(s1);
                let r = stream_rest(s1);
                if t == TokenV::EndOfInput {
                    Some((Ok(untyped(GrammarItemV::Program(acc))), r))
                } else {
                    Some((Err(ErrorV::ExpectedEndOfInput(t)), r))
                }
            },
        },
    }
}

/// Fuel that always suffices: one unit per pending token, plus one.
pub open spec fn enough_fuel(s: Seq<TokenV>) -> nat {
    (s.len() + 1) as nat
}

pub open spec fn base_expr_result(s: Seq<TokenV>) -> ParseOutcome {
    outcome_of(base_expr_fuel(s, enough_fuel(s)))
}

pub open spec fn expr_prime_result(left: ParseNodeV, s: Seq<TokenV>) -> ParseOutcome {
    outcome_of(expr_prime_fuel(left, s, enough_fuel(s)))
}

pub open spec fn expr_result(s: Seq<TokenV>) -> ParseOutcome {
    outcome_of(expr_fuel(s, enough_fuel(s)))
}

pub open spec fn paren_expr_result(s: Seq<TokenV>) -> ParseOutcome {
    outcome_of(paren_expr_fuel(s, enough_fuel(s)))
}

pub open spec fn abstraction_expr_result(s: Seq<TokenV>) -> ParseOutcome {
    outcome_of(abstraction_expr_fuel(s, enough_fuel(s)))
}

pub open spec fn toplevel_assignment_result(s: Seq<TokenV>) -> ParseOutcome {
    outcome_of(toplevel_assignment_fuel(s, enough_fuel(s)))
}

pub open spec fn program_result(acc: Seq<ParseNodeV>, s: Seq<TokenV>) -> ParseOutcome {
    outcome_of(program_fuel(acc, s, enough_fuel(s)))
}

pub proof fn lemma_base_expr_total(s: Seq<TokenV>, fuel: nat)
    requires
        fuel >= s.len() + 1,
    ensures
        base_expr_fuel(s, fuel) == Some(outcome_of(base_expr_fuel(s, fuel))),
        outcome_of(base_expr_fuel(s, fuel)).1.len() <= s.len(),
        outcome_is_ok(outcome_of(base_expr_fuel(s, fuel))) ==> outcome_of(
            base_expr_fuel(s, fuel),
        ).1.len() < s.len(),
    decreases fuel, s.len(), 0int,
{
    let t = stream_head(s);
    let r = stream_rest(s);
    match t {
        TokenV::LParen => {
            lemma_paren_expr_total(r, (fuel - 1) as nat);
        },
        TokenV::Backslash => {
            lemma_abstraction_expr_total(r, (fuel - 1) as nat);
        },
        _ => {},
    }
}

pub proof fn lemma_expr_prime_total(left: ParseNodeV, s: Seq<TokenV>, fuel: nat)
    requires
        fuel >= s.len() + 1,
    ensures
        expr_prime_fuel(left, s, fuel) == Some(outcome_of(expr_prime_fuel(left, s, fuel))),
        s.len() > 0 ==> outcome_of(expr_prime_fuel(left, s, fuel)).1.len() <= s.len(),
        s.len() == 0 ==> outcome_of(expr_prime_fuel(left, s, fuel)).1.len() <= 1,
    decreases fuel, s.len(), 1int,
{
    let t = stream_head(s);
    if starts_base_expr(t) {
        lemma_base_expr_total(s, fuel);
        let (res, s1) = outcome_of(base_expr_fuel(s, fuel));
        match res {
            Ok(right) => {
                let app = untyped(
                    GrammarItemV::Application(Box::new(left), Box::new(right)),
                );
                lemma_expr_prime_total(app, s1, (fuel - 1) as nat);
            },
            Err(_) => {},
        }
    }
}

pub proof fn lemma_expr_total(s: Seq<TokenV>, fuel: nat)
    requires
        fuel >= s.len() + 1,
    ensures
        expr_fuel(s, fuel) == Some(outcome_of(expr_fuel(s, fuel))),
        outcome_of(expr_fuel(s, fuel)).1.len() <= s.len(),
    decreases fuel, s.len(), 2int,
{
    lemma_base_expr_total(s, fuel);
    let (res, s1) = outcome_of(base_expr_fuel(s, fuel));
    match res {
        Ok(n) => {
            lemma_expr_prime_total(n, s1, fuel);
        },
        Err(_) => {},
    }
}

pub proof fn lemma_paren_expr_total(s: Seq<TokenV>, fuel: nat)
    requires
        fuel >= s.len() + 1,
    ensures
        paren_expr_fuel(s, fuel) == Some(outcome_of(paren_expr_fuel(s, fuel))),
        outcome_of(paren_expr_fuel(s, fuel)).1.len() <= s.len(),
        outcome_is_ok(outcome_of(paren_expr_fuel(s, fuel))) ==> outcome_of(
            paren_expr_fuel(s, fuel),
        ).1.len() < s.len(),
    decreases fuel, s.len(), 3int,
{
    lemma_expr_total(s, fuel);
}

pub proof fn lemma_abstraction_expr_total(s: Seq<TokenV>, fuel: nat)
    requires
        fuel >= s.len() + 1,
    ensures
        abstraction_expr_fuel(s, fuel) == Some(outcome_of(abstraction_expr_fuel(s, fuel))),
        outcome_of(abstraction_expr_fuel(s, fuel)).1.len() <= s.len(),
        outcome_is_ok(outcome_of(abstraction_expr_fuel(s, fuel))) ==> outcome_of(
            abstraction_expr_fuel(s, fuel),
        ).1.len() < s.len(),
    decreases fuel, s.len(), 3int,
{
    let t = stream_head(s);
    let r = stream_rest(s);
    match t {
        TokenV::LowerIdentifier(_) => {
            let t2 = stream_head(r);
            let r2 = stream_rest(r);
            if t2 == TokenV::Dot {
                lemma_expr_total(r2, fuel);
            }
        },
        _ => {},
    }
}

pub proof fn lemma_toplevel_assignment_total(s: Seq<TokenV>, fuel: nat)
    requires
        fuel >= s.len() + 1,
    ensures
        toplevel_assignment_fuel(s, fuel) == Some(
            outcome_of(toplevel_assignment_fuel(s, fuel)),
        ),
        outcome_of(toplevel_assignment_fuel(s, fuel)).1.len() <= s.len(),
        outcome_is_ok(outcome_of(toplevel_assignment_fuel(s, fuel))) ==> outcome_of(
            toplevel_assignment_fuel(s, fuel),
        ).1.len() < s.len(),
    decreases fuel, s.len(), 3int,
{
    let t = stream_head(s);
    let r = stream_rest(s);
    match t {
        TokenV::LowerIdentifier(_) => {
            let t2 = stream_head(r);
            let r2 = stream_rest(r);
            if t2 == TokenV::Assign {
                lemma_expr_total(r2, fuel);
            }
        },
        _ => {},
    }
}

pub proof fn lemma_program_total(acc: Seq<ParseNodeV>, s: Seq<TokenV>, fuel: nat)
    requires
        fuel >= s.len() + 1,
    ensures
        program_fuel(acc, s, fuel) == Some(outcome_of(program_fuel(acc, s, fuel))),
    decreases fuel, s.len(), 4int,
{
    lemma_toplevel_assignment_total(s, fuel);
    let (res, s1) = outcome_of(toplevel_assignment_fuel(s, fuel));
    match res {
        Ok(n) => {
            lemma_program_total(acc.push(n), s1, (fuel - 1) as nat);
        },
        Err(_) => {},
    }
}

pub proof fn lemma_base_expr_fuel(s: Seq<TokenV>, f1: nat, f2: nat)
    requires
        f1 >= s.len() + 1,
        f2 >= s.len() + 1,
    ensures
        base_expr_fuel(s, f1) == base_expr_fuel(s, f2),
    decreases f1 + f2, s.len(), 0int,
{
    let t = stream_head(s);
    let r = stream_rest(s);
    match t {
        TokenV::LParen => {
            lemma_paren_expr_fuel(r, (f1 - 1) as nat, (f2 - 1) as nat);
        },
        TokenV::Backslash => {
            lemma_abstraction_expr_fuel(r, (f1 - 1) as nat, (f2 - 1) as nat);
        },
        _ => {},
    }
}

pub proof fn lemma_expr_prime_fuel(left: ParseNodeV, s: Seq<TokenV>, f1: nat, f2: nat)
    requires
        f1 >= s.len() + 1,
        f2 >= s.len() + 1,
    ensures
        expr_prime_fuel(left, s, f1) == expr_prime_fuel(left, s, f2),
    decreases f1 + f2, s.len(), 1int,
{
    let t = stream_head(s);
    if starts_base_expr(t) {
        lemma_base_expr_fuel(s, f1, f2);
        lemma_base_expr_total(s, f1);
        let (res, s1) = outcome_of(base_expr_fuel(s, f1));
        match res {
            Ok(right) => {
                let app = untyped(
                    GrammarItemV::Application(Box::new(left), Box::new(right)),
                );
                lemma_expr_prime_fuel(app, s1, (f1 - 1) as nat, (f2 - 1) as nat);
            },
            Err(_) => {},
        }
    }
}

pub proof fn lemma_expr_fuel(s: Seq<TokenV>, f1: nat, f2: nat)
    requires
        f1 >= s.len() + 1,
        f2 >= s.len() + 1,
    ensures
        expr_fuel(s, f1) == expr_fuel(s, f2),
    decreases f1 + f2, s.len(), 2int,
{
    lemma_base_expr_fuel(s, f1, f2);
    lemma_base_expr_total(s, f1);
    let (res, s1) = outcome_of(base_expr_fuel(s, f1));
    match res {
        Ok(n) => {
            lemma_expr_prime_fuel(n, s1, f1, f2);
        },
        Err(_) => {},
    }
}

pub proof fn lemma_paren_expr_fuel(s: Seq<TokenV>, f1: nat, f2: nat)
    requires
        f1 >= s.len() + 1,
        f2 >= s.len() + 1,
    ensures
        paren_expr_fuel(s, f1) == paren_expr_fuel(s, f2),
    decreases f1 + f2, s.len(), 3int,
{
    lemma_expr_fuel(s, f1, f2);
}

pub proof fn lemma_abstraction_expr_fuel(s: Seq<TokenV>, f1: nat, f2: nat)
    requires
        f1 >= s.len() + 1,
        f2 >= s.len() + 1,
    ensures
        abstraction_expr_fuel(s, f1) == abstraction_expr_fuel(s, f2),
    decreases f1 + f2, s.len(), 3int,
{
    let t = stream_head(s);
    let r = stream_rest(s);
    match t {
        TokenV::LowerIdentifier(_) => {
            let t2 = stream_head(r);
            let r2 = stream_rest(r);
            if t2 == TokenV::Dot {
                lemma_expr_fuel(r2, f1, f2);
            }
        },
        _ => {},
    }
}

pub proof fn lemma_toplevel_assignment_fuel(s: Seq<TokenV>, f1: nat, f2: nat)
    requires
        f1 >= s.len() + 1,
        f2 >= s.len() + 1,
    ensures
        toplevel_assignment_fuel(s, f1) == toplevel_assignment_fuel(s, f2),
    decreases f1 + f2, s.len(), 3int,
{
    let t = stream_head(s);
    let r = stream_rest(s);
    match t {
        TokenV::LowerIdentifier(_) => {
            let t2 = stream_head(r);
            let r2 = stream_rest(r);
            if t2 == TokenV::Assign {
                lemma_expr_fuel(r2, f1, f2);
            }
        },
        _ => {},
    }
}

pub proof fn lemma_program_fuel(acc: Seq<ParseNodeV>, s: Seq<TokenV>, f1: nat, f2: nat)
    requires
        f1 >= s.len() + 1,
        f2 >= s.len() + 1,
    ensures
        program_fuel(acc, s, f1) == program_fuel(acc, s, f2),
    decreases f1 + f2, s.len(), 4int,
{
    lemma_toplevel_assignment_fuel(s, f1, f2);
    lemma_toplevel_assignment_total(s, f1);
    let (res, s1) = outcome_of(toplevel_assignment_fuel(s, f1));
    match res {
        Ok(n) => {
            lemma_program_fuel(acc.push(n), s1, (f1 - 1) as nat, (f2 - 1) as nat);
        },
        Err(_) => {},
    }
}

pub proof fn lemma_digits_value_nonneg(s: Seq<char>)
    requires
        is_digit_seq(s),
    ensures
        digits_value(s) >= 0,
    decreases s.len(),
{
    if s.len() > 0 {
        assert(is_digit_seq(s.drop_last()));
        lemma_digits_value_nonneg(s.drop_last());
    }
}

/// Reading more digits can only grow the value.
pub proof fn lemma_digits_value_prefix_le(s: Seq<char>, i: int)
    requires
        is_digit_seq(s),
        0 <= i <= s.len(),
    ensures
        digits_value(s.take(i)) <= digits_value(s),
    decreases s.len() - i,
{
    if i < s.len() {
        assert(s.take(i + 1).drop_last() =~= s.take(i));
        assert(s.take(i + 1).last() == s[i]);
        assert(is_digit_seq(s.take(i)));
        lemma_digits_value_nonneg(s.take(i));
        assert(digits_value(s.take(i + 1)) == digits_value(s.take(i)) * 10 + digit_value(s[i]));
        lemma_digits_value_prefix_le(s, i + 1);
    } else {
        assert(s.take(i) =~= s);
    }
}

/// The recursive-descent parser. It owns exactly one lexer; all backtracking
/// goes through the lexer's pushback stack. On failure a routine does not
/// rewind what it consumed (except the documented pushback on the
/// unhandled-symbol path): a caller that needs a fresh start rewinds the
/// whole lexer with `reset_lexer`.
pub struct Parser {
    lexer: Lexer,
}

impl Parser {
    pub closed spec fn wf(&self) -> bool {
        self.lexer.wf()
    }

    /// The pending token stream of the owned lexer.
    pub closed spec fn stream(&self) -> Seq<TokenV> {
        self.lexer.stream()
    }

    /// The characters of the owned lexer's source text.
    pub closed spec fn src(&self) -> Seq<char> {
        self.lexer.src()
    }

    pub fn new(input: Lexer) -> (p: Parser)
        ensures
            p.wf() <==> input.wf(),
            p.stream() == input.stream(),
            p.src() == input.src(),
    {
        Parser { lexer: input }
    }

    /// Rewind the lexer to the start of its source text, for the two-attempt
    /// protocol: try the program grammar, rewind, try a bare expression.
    pub fn reset_lexer(&mut self)
        ensures
            final(self).wf(),
            final(self).src() == old(self).src(),
            final(self).stream() == tokens_of(old(self).src()),
    {
        self.lexer.reset();
    }

    /// True when nothing but end-of-input remains: used to detect trailing
    /// garbage after `parse_expr`, which does not itself require it.
    pub fn is_empty(&mut self) -> (r: bool)
        requires
            old(self).wf(),
        ensures
            *final(self) == *old(self),
            r == stream_exhausted(old(self).stream()),
    {
        self.lexer.is_empty()
    }

    /// Read one token; succeed exactly when it equals the expected one, else
    /// fail with `ExpectedToken(expected, found)`. Consumes the token either
    /// way.
    fn consume(&mut self, tok: Token) -> (r: Result<Token, ParseError>)
        requires
            old(self).wf(),
        ensures
            final(self).wf(),
            final(self).src() == old(self).src(),
            final(self).stream() == stream_rest(old(self).stream()),
            ({
                let t = stream_head(old(self).stream());
                match r {
                    Ok(got) => t == tok@ && got@ == t,
                    Err(e) => t != tok@ && e@ == ErrorV::ExpectedToken(tok@, t),
                }
            }),
    {
        let new_tok = self.lexer.next_token();
        if new_tok.matches(&tok) {
            Ok(new_tok)
        } else {
            Err(Error::ExpectedToken(tok, new_tok))
        }
    }

    /// The type-annotation step: the grammar reserves the slot, but reading
    /// one is deliberately a no-op that consumes nothing and always yields
    /// `Unknown`.
    fn parse_type(&mut self) -> (r: Result<Type, ParseError>)
        ensures
            *final(self) == *old(self),
            r == Ok::<Type, ParseError>(Type::Unknown),
    {
        Ok(Type::Unknown)
    }

    fn parse_identifier_expr(&mut self, id: String) -> (r: ParseResult)
        ensures
            *final(self) == *old(self),
            res_view(r) == Ok::<ParseNodeV, ErrorV>(untyped(GrammarItemV::Variable(id@))),
    {
        Ok(ParseNode::new(GrammarItem::Variable(id), Type::Unknown))
    }

    /// Convert integer-literal text to a 32-bit value; empty text, a
    /// non-digit, or overflow fails with `IntegerParseError`.
    fn parse_literal_int(&mut self, num_string: String) -> (r: ParseResult)
        ensures
            *final(self) == *old(self),
            res_view(r) == literal_int_result(num_string@),
    {
        let s = num_string.as_str();
        let n = s.unicode_len();
        if n == 0 {
            return Err(Error::IntegerParseError);
        }
        let mut val: u64 = 0;
        let mut i: usize = 0;
        while i < n
            invariant
                i <= n,
                n == num_string@.len(),
                s@ == num_string@,
                is_digit_seq(num_string@.take(i as int)),
                val == digits_value(num_string@.take(i as int)),
                val <= i32::MAX as u64,
            decreases n - i,
        {
            let c = s.get_char(i);
            let u = c as u32;
            if !('0' as u32 <= u && u <= '9' as u32) {
                proof {
                    assert(!is_digit_char(num_string@[i as int]));
                }
                return Err(Error::IntegerParseError);
            }
            let d = (u - '0' as u32) as u64;
            proof {
                assert(num_string@.take(i + 1).drop_last() =~= num_string@.take(i as int));
                assert(num_string@.take(i + 1).last() == num_string@[i as int]);
                assert(forall|j: int|
                    0 <= j < i + 1 ==> is_digit_char(#[trigger] num_string@.take(i + 1)[j]));
            }
            val = val * 10 + d;
            if val > i32::MAX as u64 {
                proof {
                    if is_digit_seq(num_string@) {
                        lemma_digits_value_prefix_le(num_string@, i + 1);
                    }
                }
                return Err(Error::IntegerParseError);
            }
            i += 1;
        }
        proof {
            assert(num_string@.take(n as int) =~= num_string@);
        }
        Ok(ParseNode::new(GrammarItem::LiteralInt(val as i32), Type::Unknown))
    }

    fn parse_base_expr(&mut self) -> (r: ParseResult)
        requires
            old(self).wf(),
        ensures
            final(self).wf(),
            final(self).src() == old(self).src(),
            res_view(r) == base_expr_result(old(self).stream()).0,
            final(self).stream() == base_expr_result(old(self).stream()).1,
        decreases old(self).stream().len(), 0int,
    {
        let ghost s = old(self).stream();
        let tok = self.lexer.next_token();
        match tok {
            Token::LParen => {
                proof {
                    assert(stream_rest(s).len() == s.len() - 1);
                    assert((enough_fuel(s) - 1) as nat == enough_fuel(stream_rest(s)));
                }
                self.parse_paren_expr()
            },
            Token::LowerIdentifier(id) => self.parse_identifier_expr(id),
            Token::IntegerLiteral(text) => self.parse_literal_int(text),
            Token::Backslash => {
                proof {
                    assert(stream_rest(s).len() == s.len() - 1);
                    assert((enough_fuel(s) - 1) as nat == enough_fuel(stream_rest(s)));
                }
                self.parse_abstraction_expr()
            },
            Token::Illegal => Err(Error::IllegalToken(Token::Illegal)),
            Token::EndOfInput => Err(Error::UnexpectedEndOfInput),
            Token::RParen => {
                self.lexer.put_back(Token::RParen);
                proof {
                    assert(final(self).stream() == seq![stream_head(s)] + stream_rest(s));
                }
                Err(Error::IllegalToken(Token::RParen))
            },
            Token::Dot => {
                self.lexer.put_back(Token::Dot);
                Err(Error::IllegalToken(Token::Dot))
            },
            Token::Colon => {
                self.lexer.put_back(Token::Colon);
                Err(Error::IllegalToken(Token::Colon))
            },
            Token::Assign => {
                self.lexer.put_back(Token::Assign);
                Err(Error::IllegalToken(Token::Assign))
            },
            Token::UpperIdentifier(text) => {
                let dup = String::from_str(text.as_str());
                self.lexer.put_back(Token::UpperIdentifier(dup));
                Err(Error::IllegalToken(Token::UpperIdentifier(text)))
            },
        }
    }

    fn parse_paren_expr(&mut self) -> (r: ParseResult)
        requires
            old(self).wf(),
        ensures
            final(self).wf(),
            final(self).src() == old(self).src(),
            res_view(r) == paren_expr_result(old(self).stream()).0,
            final(self).stream() == paren_expr_result(old(self).stream()).1,
        decreases old(self).stream().len(), 3int,
    {
        let expr = self.parse_expr();
        match expr {
            Err(e) => Err(e),
            Ok(n) => {
                let tok = self.lexer.next_token();
                match tok {
                    Token::RParen => Ok(n),
                    _ => Err(Error::ExpectedToken(Token::RParen, tok)),
                }
            },
        }
    }

    fn parse_abstraction_expr(&mut self) -> (r: ParseResult)
        requires
            old(self).wf(),
        ensures
            final(self).wf(),
            final(self).src() == old(self).src(),
            res_view(r) == abstraction_expr_result(old(self).stream()).0,
            final(self).stream() == abstraction_expr_result(old(self).stream()).1,
        decreases old(self).stream().len(), 3int,
    {
        let ghost s = old(self).stream();
        let tok = self.lexer.next_token();
        match tok {
            Token::LowerIdentifier(id) => {
                let t = match self.parse_type() {
                    Ok(t) => t,
                    Err(e) => {
                        return Err(e);
                    },
                };
                match self.consume(Token::Dot) {
                    Err(e) => Err(e),
                    Ok(_) => {
                        let ghost r2 = self.stream();
                        proof {
                            lemma_expr_fuel(r2, enough_fuel(s), enough_fuel(r2));
                        }
                        match self.parse_expr() {
                            Err(e) => Err(e),
                            Ok(body) => Ok(
                                ParseNode::new(
                                    GrammarItem::Abstraction(id, Box::new(body)),
                                    t,
                                ),
                            ),
                        }
                    },
                }
            },
            _ => Err(Error::ExpectedToken(Token::LowerIdentifier(String::new()), tok)),
        }
    }

    /// The application-chain tail: while the next token can start a base
    /// expression, push it back, parse one, and fold it to the left into an
    /// `Application`; the first token that cannot is pushed back and the
    /// accumulated expression is returned. This makes application
    /// left-associative.
    fn parse_expr_prime(&mut self, left: ParseNode) -> (r: ParseResult)
        requires
            old(self).wf(),
        ensures
            final(self).wf(),
            final(self).src() == old(self).src(),
            res_view(r) == expr_prime_result(left@, old(self).stream()).0,
            final(self).stream() == expr_prime_result(left@, old(self).stream()).1,
        decreases old(self).stream().len(), 1int,
    {
        let ghost s = old(self).stream();
        let tok = self.lexer.next_token();
        let is_start = match &tok {
            Token::LParen => true,
            Token::Backslash => true,
            Token::LowerIdentifier(_) => true,
            Token::IntegerLiteral(_) => true,
            _ => false,
        };
        self.lexer.put_back(tok);
        proof {
            if s.len() > 0 {
                assert_seqs_equal!(seq![stream_head(s)] + stream_rest(s) == s);
            }
        }
        if is_start {
            proof {
                assert(s.len() > 0);
                assert(self.stream() == s);
            }
            let base = self.parse_base_expr();
            match base {
                Err(e) => Err(e),
                Ok(right) => {
                    let ghost s1 = self.stream();
                    let ghost app_v = untyped(
                        GrammarItemV::Application(Box::new(left@), Box::new(right@)),
                    );
                    proof {
                        lemma_base_expr_total(s, enough_fuel(s));
                        lemma_expr_prime_fuel(
                            app_v,
                            s1,
                            (enough_fuel(s) - 1) as nat,
                            enough_fuel(s1),
                        );
                    }
                    let app = ParseNode::new(
                        GrammarItem::Application(Box::new(left), Box::new(right)),
                        Type::Unknown,
                    );
                    self.parse_expr_prime(app)
                },
            }
        } else {
            Ok(left)
        }
    }

    /// One expression: a base expression extended by the application chain.
    /// Does not require trailing end-of-input; callers that need it check
    /// `is_empty` themselves.
    pub fn parse_expr(&mut self) -> (r: ParseResult)
        requires
            old(self).wf(),
        ensures
            final(self).wf(),
            final(self).src() == old(self).src(),
            res_view(r) == expr_result(old(self).stream()).0,
            final(self).stream() == expr_result(old(self).stream()).1,
        decreases old(self).stream().len(), 2int,
    {
        let ghost s = old(self).stream();
        let base = self.parse_base_expr();
        match base {
            Err(e) => Err(e),
            Ok(n) => {
                let ghost s1 = self.stream();
                proof {
                    lemma_base_expr_total(s, enough_fuel(s));
                    lemma_expr_prime_fuel(n@, s1, enough_fuel(s), enough_fuel(s1));
                }
                self.parse_expr_prime(n)
            },
        }
    }

    /// One top-level assignment: a lower-case identifier, `=`, an
    /// expression. Any other leading token fails with `ExpectedToken`
    /// carrying an empty-named identifier placeholder; on failure nothing
    /// consumed is rewound.
    pub fn parse_toplevel_assignment(&mut self) -> (r: ParseResult)
        requires
            old(self).wf(),
        ensures
            final(self).wf(),
            final(self).src() == old(self).src(),
            res_view(r) == toplevel_assignment_result(old(self).stream()).0,
            final(self).stream() == toplevel_assignment_result(old(self).stream()).1,
    {
        let ghost s = old(self).stream();
        let tok = self.lexer.next_token();
        match tok {
            Token::LowerIdentifier(id) => {
                match self.consume(Token::Assign) {
                    Err(e) => Err(e),
                    Ok(_) => {
                        let ghost r2 = self.stream();
                        proof {
                            lemma_expr_fuel(r2, enough_fuel(s), enough_fuel(r2));
                        }
                        match self.parse_expr() {
                            Err(e) => Err(e),
                            Ok(expr) => Ok(
                                ParseNode::new(
                                    GrammarItem::Assignment(id, Box::new(expr)),
                                    Type::Unknown,
                                ),
                            ),
                        }
                    },
                }
            },
            _ => Err(Error::ExpectedToken(Token::LowerIdentifier(String::new()), tok)),
        }
    }

    fn parse_program_rest(&mut self, assignments: Vec<ParseNode>) -> (r: ParseResult)
        requires
            old(self).wf(),
        ensures
            final(self).wf(),
            final(self).src() == old(self).src(),
            res_view(r) == program_result(deep_nodes(assignments@), old(self).stream()).0,
            final(self).stream() == program_result(
                deep_nodes(assignments@),
                old(self).stream(),
            ).1,
        decreases old(self).stream().len(),
    {
        let ghost s = old(self).stream();
        let ghost acc = deep_nodes(assignments@);
        let attempt = self.parse_toplevel_assignment();
        match attempt {
            Ok(n) => {
                let ghost s1 = self.stream();
                proof {
                    lemma_toplevel_assignment_total(s, enough_fuel(s));
                    lemma_program_fuel(
                        acc.push(n@),
                        s1,
                        (enough_fuel(s) - 1) as nat,
                        enough_fuel(s1),
                    );
                    lemma_deep_nodes_push(assignments@, n);
                }
                let mut rest = assignments;
                rest.push(n);
                let r = self.parse_program_rest(rest);
                proof {
                    assert(deep_nodes(rest@) == acc.push(n@));
                    assert(toplevel_assignment_fuel(s, enough_fuel(s)) == Some(
                        (Ok::<ParseNodeV, ErrorV>(n@), s1),
                    ));
                    assert(program_fuel(acc, s, enough_fuel(s)) == program_fuel(
                        acc.push(n@),
                        s1,
                        (enough_fuel(s) - 1) as nat,
                    ));
                    assert(program_fuel(acc.push(n@), s1, (enough_fuel(s) - 1) as nat)
                        == program_fuel(acc.push(n@), s1, enough_fuel(s1)));
                }
                r
            },
            Err(_) => {
                proof {
                    lemma_toplevel_assignment_total(s, enough_fuel(s));
                }
                let tok = self.lexer.next_token();
                match tok {
                    Token::EndOfInput => Ok(
                        ParseNode::new(GrammarItem::Program(assignments), Type::Unknown),
                    ),
                    _ => Err(Error::ExpectedEndOfInput(tok)),
                }
            },
        }
    }

    /// The program grammar: collect top-level assignments until one fails
    /// (the failed attempt keeps whatever it consumed), then require end of
    /// input, else fail with `ExpectedEndOfInput` carrying the token found.
    /// A trailing bare expression is not folded in: callers wanting
    /// program-or-expression rewind with `reset_lexer` and retry with
    /// `parse_expr`.
    pub fn parse(&mut self) -> (r: ParseResult)
        requires
            old(self).wf(),
        ensures
            final(self).wf(),
            final(self).src() == old(self).src(),
            res_view(r) == program_result(Seq::empty(), old(self).stream()).0,
            final(self).stream() == program_result(Seq::empty(), old(self).stream()).1,
    {
        let assignments: Vec<ParseNode> = Vec::new();
        proof {
            assert(deep_nodes(assignments@) =~= Seq::<ParseNodeV>::empty());
        }
        self.parse_program_rest(assignments)
    }
}

} // verus!
