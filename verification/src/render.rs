//! Rendering expression trees back to surface syntax, and the round-trip
//! law: parsing the rendering of a well-formed expression tree yields a
//! structurally equal tree.
//!
//! The rendering parenthesizes every application and abstraction that stands
//! in argument or function position, so each subterm is self-delimiting, and
//! joins the resulting tokens with single spaces.

use vstd::prelude::*;
use vstd::string::StringExecFns;
use vstd::string::StrSliceExecFns;
use crate::token::{Token, TokenV};
use crate::error::ErrorV;
use crate::parse_node::{GrammarItem, GrammarItemV, ParseNode, ParseNodeV, Type, TypeV};
use crate::lexer::{
    is_digit_char,
    is_ident_char,
    is_lowercase_char,
    is_uppercase_char,
    is_whitespace_char,
    next_token_of,
    tokens_of,
    whitespace_run,
    stream_exhausted,
    lemma_ident_run_concat,
    lemma_digit_run_concat,
    lemma_whitespace_run_le,
    lemma_next_token_of_bounds,
    token_views,
    push_char,
};
use crate::parser::{
    base_expr_fuel,
    abstraction_expr_fuel,
    expr_fuel,
    expr_prime_fuel,
    paren_expr_fuel,
    expr_result,
    enough_fuel,
    starts_base_expr,
    untyped,
    digit_value,
    digits_value,
    is_digit_seq,
    literal_int_result,
};

verus! {

/// Text that can stand as a lower-case identifier: nonempty, starting with a
/// lower-case letter, continuing with letters, digits and underscores.
pub open spec fn valid_lower_ident(x: Seq<char>) -> bool {
    &&& x.len() > 0
    &&& is_lowercase_char(x[0])
    &&& forall|i: int| 0 <= i < x.len() ==> is_ident_char(x[i])
}

/// The expression subset that can be rendered and parsed back: variables and
/// abstraction parameters carry valid identifier text, integer literals are
/// in range (they are never negative: the grammar has no minus sign), every
/// type slot is `Unknown`, and assignments and programs do not occur.
pub open spec fn wf_expr(n: ParseNodeV) -> bool
    decreases n,
{
    &&& n.node_type == TypeV::Unknown
    &&& match n.entry {
        GrammarItemV::LiteralInt(v) => 0 <= v <= i32::MAX,
        GrammarItemV::Variable(x) => valid_lower_ident(x),
        GrammarItemV::Application(f, a) => wf_expr(*f) && wf_expr(*a),
        GrammarItemV::Abstraction(x, b) => valid_lower_ident(x) && wf_expr(*b),
        GrammarItemV::Assignment(_, _) => false,
        GrammarItemV::Program(_) => false,
    }
}

/// The decimal digit characters, by value.
pub open spec fn digit_char(d: int) -> char {
    if d == 0 {
        '0'
    } else if d == 1 {
        '1'
    } else if d == 2 {
        '2'
    } else if d == 3 {
        '3'
    } else if d == 4 {
        '4'
    } else if d == 5 {
        '5'
    } else if d == 6 {
        '6'
    } else if d == 7 {
        '7'
    } else if d == 8 {
        '8'
    } else {
        '9'
    }
}

/// The decimal digits of a nonnegative value, most significant first.
pub open spec fn int_digits(v: int) -> Seq<char>
    decreases v,
{
    if v < 10 {
        seq![digit_char(v)]
    } else {
        int_digits(v / 10).push(digit_char(v % 10))
    }
}

pub proof fn lemma_int_digits_value(v: int)
    requires
        v >= 0,
    ensures
        int_digits(v).len() > 0,
        is_digit_seq(int_digits(v)),
        digits_value(int_digits(v)) == v,
    decreases v,
{
    if v < 10 {
        let c = digit_char(v);
        assert(seq![c].drop_last() =~= Seq::<char>::empty());
        assert(seq![c].last() == c);
        assert(digits_value(Seq::<char>::empty()) == 0);
        assert(digit_value(c) == v);
    } else {
        lemma_int_digits_value(v / 10);
        let pre = int_digits(v / 10);
        let c = digit_char(v % 10);
        assert(pre.push(c).drop_last() =~= pre);
        assert(pre.push(c).last() == c);
        assert(digit_value(c) == v % 10);
        assert(forall|i: int|
            0 <= i < pre.push(c).len() ==> is_digit_char(#[trigger] pre.push(c)[i]));
    }
}

/// The surface text of one token. `Illegal` and `EndOfInput` have none; a
/// renderable token is never one of them.
pub open spec fn token_text(t: TokenV) -> Seq<char> {
    match t {
        TokenV::LowerIdentifier(x) => x,
        TokenV::UpperIdentifier(x) => x,
        TokenV::IntegerLiteral(d) => d,
        TokenV::Assign => seq!['='],
        TokenV::Dot => seq!['.'],
        TokenV::LParen => seq!['('],
        TokenV::RParen => seq![')'],
        TokenV::Backslash => seq!['\\'],
        TokenV::Colon => seq![':'],
        TokenV::Illegal => Seq::empty(),
        TokenV::EndOfInput => Seq::empty(),
    }
}

/// A token whose text lexes back to exactly itself.
pub open spec fn renderable_token(t: TokenV) -> bool {
    match t {
        TokenV::LowerIdentifier(x) => valid_lower_ident(x),
        TokenV::UpperIdentifier(x) => x.len() > 0 && is_uppercase_char(x[0]) && forall|i: int|
            0 <= i < x.len() ==> is_ident_char(x[i]),
        TokenV::IntegerLiteral(d) => d.len() > 0 && is_digit_seq(d),
        TokenV::Illegal => false,
        TokenV::EndOfInput => false,
        _ => true,
    }
}

/// Token texts joined with single spaces.
pub open spec fn tokens_text(ts: Seq<TokenV>) -> Seq<char>
    decreases ts.len(),
{
    if ts.len() == 0 {
        Seq::empty()
    } else if ts.len() == 1 {
        token_text(ts[0])
    } else {
        token_text(ts[0]) + seq![' '] + tokens_text(ts.drop_first())
    }
}

/// The tokens of a rendered expression. Function and argument positions are
/// rendered by `atom_tokens`, which parenthesizes anything that is not a
/// single token, so application chains rebuild one node per pair of tokens.
pub open spec fn expr_tokens(n: ParseNodeV) -> Seq<TokenV>
    decreases n, 0int,
{
    match n.entry {
        GrammarItemV::LiteralInt(v) => seq![TokenV::IntegerLiteral(int_digits(v))],
        GrammarItemV::Variable(x) => seq![TokenV::LowerIdentifier(x)],
        GrammarItemV::Application(f, a) => atom_tokens(*f) + atom_tokens(*a),
        GrammarItemV::Abstraction(x, b) => seq![
            TokenV::Backslash,
            TokenV::LowerIdentifier(x),
            TokenV::Dot,
        ] + expr_tokens(*b),
        GrammarItemV::Assignment(_, _) => Seq::empty(),
        GrammarItemV::Program(_) => Seq::empty(),
    }
}

/// A subterm in function or argument position: bare when it is a single
/// token, parenthesized otherwise.
pub open spec fn atom_tokens(n: ParseNodeV) -> Seq<TokenV>
    decreases n, 1int,
{
    match n.entry {
        GrammarItemV::LiteralInt(_) => expr_tokens(n),
        GrammarItemV::Variable(_) => expr_tokens(n),
        _ => seq![TokenV::LParen] + expr_tokens(n) + seq![TokenV::RParen],
    }
}

/// The surface text of a rendered expression tree.
pub open spec fn render_expr(n: ParseNodeV) -> Seq<char> {
    tokens_text(expr_tokens(n))
}

proof fn lemma_whitespace_run_concat_all(a: Seq<char>, b: Seq<char>)
    requires
        forall|i: int| 0 <= i < a.len() ==> is_whitespace_char(a[i]),
    ensures
        whitespace_run(a + b) == a.len() + whitespace_run(b),
    decreases a.len(),
{
    if a.len() == 0 {
        assert(a + b =~= b);
    } else {
        assert((a + b)[0] == a[0]);
        assert((a + b).skip(1) =~= a.skip(1) + b);
        lemma_whitespace_run_concat_all(a.skip(1), b);
    }
}

/// A renderable token's text, before a space or the end, lexes to exactly
/// that token.
proof fn lemma_next_token_of_rendered(t: TokenV, tail: Seq<char>)
    requires
        renderable_token(t),
        tail.len() > 0 ==> tail[0] == ' ',
    ensures
        next_token_of(token_text(t) + tail).0 == t,
        next_token_of(token_text(t) + tail).1 == token_text(t).len(),
{
    let text = token_text(t);
    let s = text + tail;
    assert(s[0] == text[0]);
    assert(whitespace_run(s) == 0);
    assert(s.skip(0) =~= s);
    match t {
        TokenV::LowerIdentifier(x) => {
            assert(s.skip(1) =~= x.skip(1) + tail);
            lemma_ident_run_concat(x.skip(1), tail);
            assert(s.take(x.len() as int) =~= x);
        },
        TokenV::UpperIdentifier(x) => {
            assert(s.skip(1) =~= x.skip(1) + tail);
            lemma_ident_run_concat(x.skip(1), tail);
            assert(s.take(x.len() as int) =~= x);
        },
        TokenV::IntegerLiteral(d) => {
            assert(s.skip(1) =~= d.skip(1) + tail);
            lemma_digit_run_concat(d.skip(1), tail);
            assert(s.take(d.len() as int) =~= d);
        },
        _ => {},
    }
}

/// A whitespace prefix changes no token.
proof fn lemma_tokens_of_ws_prefix(w: Seq<char>, u: Seq<char>)
    requires
        forall|i: int| 0 <= i < w.len() ==> is_whitespace_char(w[i]),
    ensures
        tokens_of(w + u) == tokens_of(u),
{
    let wu = w + u;
    lemma_whitespace_run_concat_all(w, u);
    lemma_whitespace_run_le(u);
    let wr = whitespace_run(u);
    assert(wu.skip((w.len() + wr) as int) =~= u.skip(wr as int));
    lemma_next_token_of_bounds(u);
    assert(next_token_of(wu).0 == next_token_of(u).0);
    assert(next_token_of(wu).1 == w.len() + next_token_of(u).1);
    if next_token_of(u).0 != TokenV::EndOfInput {
        assert(wu.skip(next_token_of(wu).1 as int) =~= u.skip(next_token_of(u).1 as int));
    }
}

/// A sequence of renderable tokens, rendered to text with single spaces
/// between, lexes back to exactly that sequence.
pub proof fn lemma_lex_rendered(ts: Seq<TokenV>)
    requires
        forall|i: int| 0 <= i < ts.len() ==> renderable_token(#[trigger] ts[i]),
    ensures
        tokens_of(tokens_text(ts)) == ts,
    decreases ts.len(),
{
    if ts.len() == 0 {
        assert(tokens_of(tokens_text(ts)) =~= ts);
    } else if ts.len() == 1 {
        let t = ts[0];
        let text = token_text(t);
        assert(text + Seq::<char>::empty() =~= text);
        lemma_next_token_of_rendered(t, Seq::empty());
        assert(text.skip(text.len() as int) =~= Seq::<char>::empty());
        assert(tokens_of(Seq::<char>::empty()) =~= Seq::<TokenV>::empty());
        assert(tokens_of(tokens_text(ts)) =~= ts);
    } else {
        let t = ts[0];
        let text = token_text(t);
        let rest = ts.drop_first();
        let tail = seq![' '] + tokens_text(rest);
        assert(tokens_text(ts) =~= text + tail);
        assert(tail[0] == ' ');
        lemma_next_token_of_rendered(t, tail);
        assert((text + tail).skip(text.len() as int) =~= tail);
        lemma_tokens_of_ws_prefix(seq![' '], tokens_text(rest));
        assert(forall|i: int| 0 <= i < rest.len() ==> renderable_token(#[trigger] rest[i]));
        lemma_lex_rendered(rest);
        assert(tokens_of(text + tail) =~= seq![t] + rest);
        assert(seq![t] + rest =~= ts);
    }
}

/// What remains pending after an expression was parsed off the front: the
/// lookahead that ended it is pushed back, so an empty remainder leaves one
/// pushed-back `EndOfInput`.
pub open spec fn pending_after(rest: Seq<TokenV>) -> Seq<TokenV> {
    if rest.len() == 0 {
        seq![TokenV::EndOfInput]
    } else {
        rest
    }
}

/// Every token of a rendered well-formed expression is renderable; the
/// rendering is never empty; and an atom starts with a token on which a base
/// expression starts.
pub proof fn lemma_expr_tokens_renderable(n: ParseNodeV)
    requires
        wf_expr(n),
    ensures
        expr_tokens(n).len() > 0,
        forall|i: int|
            0 <= i < expr_tokens(n).len() ==> renderable_token(#[trigger] expr_tokens(n)[i]),
        atom_tokens(n).len() > 0,
        forall|i: int|
            0 <= i < atom_tokens(n).len() ==> renderable_token(#[trigger] atom_tokens(n)[i]),
        starts_base_expr(atom_tokens(n)[0]),
    decreases n,
{
    match n.entry {
        GrammarItemV::LiteralInt(v) => {
            lemma_int_digits_value(v);
        },
        GrammarItemV::Variable(_) => {},
        GrammarItemV::Application(f, a) => {
            lemma_expr_tokens_renderable(*f);
            lemma_expr_tokens_renderable(*a);
        },
        GrammarItemV::Abstraction(_, b) => {
            lemma_expr_tokens_renderable(*b);
        },
        _ => {},
    }
}

/// A rendered atom parses as one base expression to exactly the tree it was
/// rendered from, leaving the remainder untouched: an atom is
/// self-delimiting, whatever follows it.
proof fn lemma_parse_atom_tokens(n: ParseNodeV, rest: Seq<TokenV>, fuel: nat)
    requires
        wf_expr(n),
        fuel >= atom_tokens(n).len() + rest.len() + 1,
    ensures
        base_expr_fuel(atom_tokens(n) + rest, fuel) == Some(
            (Ok::<ParseNodeV, ErrorV>(n), rest),
        ),
    decreases n, 1int,
{
    lemma_expr_tokens_renderable(n);
    let s = atom_tokens(n) + rest;
    match n.entry {
        GrammarItemV::Variable(x) => {
            assert(s =~= seq![TokenV::LowerIdentifier(x)] + rest);
            assert(s[0] == TokenV::LowerIdentifier(x));
            assert(s.drop_first() =~= rest);
            assert(untyped(GrammarItemV::Variable(x)) == n);
        },
        GrammarItemV::LiteralInt(v) => {
            assert(s =~= seq![TokenV::IntegerLiteral(int_digits(v))] + rest);
            assert(s[0] == TokenV::IntegerLiteral(int_digits(v)));
            assert(s.drop_first() =~= rest);
            lemma_int_digits_value(v);
            assert(literal_int_result(int_digits(v)) == Ok::<ParseNodeV, ErrorV>(
                untyped(GrammarItemV::LiteralInt(v)),
            ));
            assert(untyped(GrammarItemV::LiteralInt(v)) == n);
        },
        _ => {
            let inner = expr_tokens(n);
            assert(atom_tokens(n) =~= seq![TokenV::LParen] + inner + seq![TokenV::RParen]);
            assert(s[0] == TokenV::LParen);
            let r1 = s.drop_first();
            assert(r1 =~= inner + (seq![TokenV::RParen] + rest));
            lemma_parse_expr_tokens(n, seq![TokenV::RParen] + rest, (fuel - 1) as nat);
            let s1 = pending_after(seq![TokenV::RParen] + rest);
            assert(s1 =~= seq![TokenV::RParen] + rest);
            assert(s1[0] == TokenV::RParen);
            assert(s1.drop_first() =~= rest);
            assert(paren_expr_fuel(r1, (fuel - 1) as nat) == Some(
                (Ok::<ParseNodeV, ErrorV>(n), rest),
            ));
        },
    }
}

/// A rendered expression followed by anything that cannot extend it parses
/// to exactly the tree it was rendered from; the ending lookahead is pushed
/// back.
#[verifier::rlimit(100)]
proof fn lemma_parse_expr_tokens(n: ParseNodeV, rest: Seq<TokenV>, fuel: nat)
    requires
        wf_expr(n),
        rest.len() > 0 ==> !starts_base_expr(rest[0]),
        fuel >= expr_tokens(n).len() + rest.len() + 1,
    ensures
        expr_fuel(expr_tokens(n) + rest, fuel) == Some(
            (Ok::<ParseNodeV, ErrorV>(n), pending_after(rest)),
        ),
    decreases n, 0int,
{
    lemma_expr_tokens_renderable(n);
    let s = expr_tokens(n) + rest;
    match n.entry {
        GrammarItemV::Variable(x) => {
            assert(s =~= seq![TokenV::LowerIdentifier(x)] + rest);
            assert(s[0] == TokenV::LowerIdentifier(x));
            assert(s.drop_first() =~= rest);
            assert(untyped(GrammarItemV::Variable(x)) == n);
            assert(base_expr_fuel(s, fuel) == Some((Ok::<ParseNodeV, ErrorV>(n), rest)));
            lemma_expr_prime_ends(n, rest, fuel);
        },
        GrammarItemV::LiteralInt(v) => {
            assert(s =~= seq![TokenV::IntegerLiteral(int_digits(v))] + rest);
            assert(s[0] == TokenV::IntegerLiteral(int_digits(v)));
            assert(s.drop_first() =~= rest);
            lemma_int_digits_value(v);
            assert(untyped(GrammarItemV::LiteralInt(v)) == n);
            assert(base_expr_fuel(s, fuel) == Some((Ok::<ParseNodeV, ErrorV>(n), rest)));
            lemma_expr_prime_ends(n, rest, fuel);
        },
        GrammarItemV::Application(f, a) => {
            lemma_expr_tokens_renderable(*f);
            lemma_expr_tokens_renderable(*a);
            assert(s =~= atom_tokens(*f) + (atom_tokens(*a) + rest));
            lemma_parse_atom_tokens(*f, atom_tokens(*a) + rest, fuel);
            let s1 = atom_tokens(*a) + rest;
            assert(s1[0] == atom_tokens(*a)[0]);
            assert(starts_base_expr(s1[0]));
            lemma_parse_atom_tokens(*a, rest, fuel);
            assert(untyped(GrammarItemV::Application(Box::new(*f), Box::new(*a))) == n);
            assert(expr_prime_fuel(*f, s1, fuel) == expr_prime_fuel(
                n,
                rest,
                (fuel - 1) as nat,
            ));
            lemma_expr_prime_ends(n, rest, (fuel - 1) as nat);
        },
        GrammarItemV::Abstraction(x, b) => {
            lemma_expr_tokens_renderable(*b);
            let body = expr_tokens(*b);
            assert(s =~= seq![TokenV::Backslash, TokenV::LowerIdentifier(x), TokenV::Dot]
                + body + rest);
            assert(s[0] == TokenV::Backslash);
            let r1 = s.drop_first();
            assert(r1 =~= seq![TokenV::LowerIdentifier(x), TokenV::Dot] + body + rest);
            assert(r1[0] == TokenV::LowerIdentifier(x));
            let r2 = r1.drop_first();
            assert(r2 =~= seq![TokenV::Dot] + body + rest);
            assert(r2[0] == TokenV::Dot);
            let r3 = r2.drop_first();
            assert(r3 =~= body + rest);
            lemma_parse_expr_tokens(*b, rest, (fuel - 1) as nat);
            assert(untyped(GrammarItemV::Abstraction(x, Box::new(*b))) == n);
            assert(abstraction_expr_fuel(r1, (fuel - 1) as nat) == Some(
                (Ok::<ParseNodeV, ErrorV>(n), pending_after(rest)),
            ));
            assert(base_expr_fuel(s, fuel) == Some(
                (Ok::<ParseNodeV, ErrorV>(n), pending_after(rest)),
            ));
            lemma_expr_prime_ends(n, pending_after(rest), fuel);
            assert(pending_after(pending_after(rest)) =~= pending_after(rest));
        },
        _ => {},
    }
}

/// The application-chain tail stops at once on a stream whose head cannot
/// start a base expression, handing back the accumulated expression and
/// pushing the lookahead back.
proof fn lemma_expr_prime_ends(left: ParseNodeV, rest: Seq<TokenV>, fuel: nat)
    requires
        rest.len() > 0 ==> !starts_base_expr(rest[0]),
    ensures
        expr_prime_fuel(left, rest, fuel) == Some(
            (Ok::<ParseNodeV, ErrorV>(left), pending_after(rest)),
        ),
{
    if rest.len() == 0 {
        assert(seq![TokenV::EndOfInput] + rest =~= pending_after(rest));
    } else {
        assert(seq![rest[0]] + rest.drop_first() =~= rest);
    }
}

/// The round-trip law: rendering a well-formed expression tree to surface
/// syntax and parsing that text back yields a structurally equal tree, with
/// the whole input consumed — nothing but end-of-input remains pending.
pub proof fn lemma_render_parse_round_trip(n: ParseNodeV)
    requires
        wf_expr(n),
    ensures
        ({
            let toks = tokens_of(render_expr(n));
            expr_result(toks).0 == Ok::<ParseNodeV, ErrorV>(n) && stream_exhausted(
                expr_result(toks).1,
            )
        }),
{
    lemma_expr_tokens_renderable(n);
    lemma_lex_rendered(expr_tokens(n));
    assert(expr_tokens(n) + Seq::<TokenV>::empty() =~= expr_tokens(n));
    lemma_parse_expr_tokens(n, Seq::empty(), enough_fuel(expr_tokens(n)));
    assert(pending_after(Seq::empty()) =~= seq![TokenV::EndOfInput]);
}

fn digit_to_char(d: i32) -> (c: char)
    requires
        0 <= d <= 9,
    ensures
        c == digit_char(d as int),
{
    match d {
        0 => '0',
        1 => '1',
        2 => '2',
        3 => '3',
        4 => '4',
        5 => '5',
        6 => '6',
        7 => '7',
        8 => '8',
        _ => '9',
    }
}

fn int_to_digits(v: i32) -> (r: String)
    requires
        v >= 0,
    ensures
        r@ == int_digits(v as int),
    decreases v,
{
    let d = v % 10;
    let c = digit_to_char(d);
    if v < 10 {
        let mut s = String::new();
        push_char(&mut s, c);
        proof {
            assert(Seq::<char>::empty() + seq![c] =~= seq![c]);
        }
        s
    } else {
        let mut s = int_to_digits(v / 10);
        push_char(&mut s, c);
        proof {
            assert(int_digits(v as int / 10) + seq![c] =~= int_digits(v as int / 10).push(c));
        }
        s
    }
}

fn is_valid_lower_ident_text(x: &String) -> (r: bool)
    ensures
        r == valid_lower_ident(x@),
{
    let s = x.as_str();
    let n = s.unicode_len();
    if n == 0 {
        return false;
    }
    let first = s.get_char(0);
    let u = first as u32;
    if !('a' as u32 <= u && u <= 'z' as u32) {
        return false;
    }
    let mut i: usize = 0;
    while i < n
        invariant
            i <= n,
            n == x@.len(),
            s@ == x@,
            forall|j: int| 0 <= j < i ==> is_ident_char(x@[j]),
        decreases n - i,
    {
        let c = s.get_char(i);
        let w = c as u32;
        let ok = ('a' as u32 <= w && w <= 'z' as u32) || ('A' as u32 <= w && w <= 'Z' as u32) || c
            == '_' || ('0' as u32 <= w && w <= '9' as u32);
        if !ok {
            proof {
                assert(!is_ident_char(x@[i as int]));
            }
            return false;
        }
        i += 1;
    }
    true
}

/// Whether a tree is in the renderable expression subset.
pub fn is_renderable_expr(n: &ParseNode) -> (r: bool)
    ensures
        r == wf_expr(n@),
    decreases *n,
{
    let type_ok = match &n.node_type {
        Type::Unknown => true,
        _ => false,
    };
    if !type_ok {
        return false;
    }
    match &n.entry {
        GrammarItem::LiteralInt(v) => *v >= 0,
        GrammarItem::Variable(x) => is_valid_lower_ident_text(x),
        GrammarItem::Application(f, a) => {
            let fr = is_renderable_expr(&**f);
            if !fr {
                false
            } else {
                is_renderable_expr(&**a)
            }
        },
        GrammarItem::Abstraction(x, b) => {
            let xr = is_valid_lower_ident_text(x);
            if !xr {
                false
            } else {
                is_renderable_expr(&**b)
            }
        },
        GrammarItem::Assignment(_, _) => false,
        GrammarItem::Program(_) => false,
    }
}

fn push_expr_tokens(n: &ParseNode, out: &mut Vec<Token>)
    requires
        wf_expr(n@),
    ensures
        token_views(final(out)@) == token_views(old(out)@) + expr_tokens(n@),
    decreases *n, 0int,
{
    let ghost base = token_views(out@);
    match &n.entry {
        GrammarItem::LiteralInt(v) => {
            out.push(Token::IntegerLiteral(int_to_digits(*v)));
            proof {
                assert(token_views(final(out)@) =~= base + expr_tokens(n@));
            }
        },
        GrammarItem::Variable(x) => {
            out.push(Token::LowerIdentifier(String::from_str(x.as_str())));
            proof {
                assert(token_views(final(out)@) =~= base + expr_tokens(n@));
            }
        },
        GrammarItem::Application(f, a) => {
            push_atom_tokens(&**f, out);
            push_atom_tokens(&**a, out);
            proof {
                assert(token_views(final(out)@) =~= base + expr_tokens(n@));
            }
        },
        GrammarItem::Abstraction(x, b) => {
            out.push(Token::Backslash);
            out.push(Token::LowerIdentifier(String::from_str(x.as_str())));
            out.push(Token::Dot);
            let ghost mid = token_views(out@);
            proof {
                assert(mid =~= base + seq![
                    TokenV::Backslash,
                    TokenV::LowerIdentifier(x@),
                    TokenV::Dot,
                ]);
            }
            push_expr_tokens(&**b, out);
            proof {
                assert(token_views(final(out)@) =~= base + expr_tokens(n@));
            }
        },
        _ => {
            proof {
                assert(false);
            }
        },
    }
}

fn push_atom_tokens(n: &ParseNode, out: &mut Vec<Token>)
    requires
        wf_expr(n@),
    ensures
        token_views(final(out)@) == token_views(old(out)@) + atom_tokens(n@),
    decreases *n, 1int,
{
    let ghost base = token_views(out@);
    let bare = match &n.entry {
        GrammarItem::LiteralInt(_) => true,
        GrammarItem::Variable(_) => true,
        _ => false,
    };
    if bare {
        push_expr_tokens(n, out);
        proof {
            assert(token_views(final(out)@) =~= base + atom_tokens(n@));
        }
    } else {
        out.push(Token::LParen);
        proof {
            assert(token_views(out@) =~= base + seq![TokenV::LParen]);
        }
        push_expr_tokens(n, out);
        let ghost mid = token_views(out@);
        proof {
            assert(mid == base + seq![TokenV::LParen] + expr_tokens(n@));
        }
        out.push(Token::RParen);
        proof {
            assert(token_views(out@) =~= mid + seq![TokenV::RParen]);
            assert(token_views(final(out)@) =~= base + atom_tokens(n@));
        }
    }
}

fn tokens_text_from(ts: &Vec<Token>, i: usize) -> (r: String)
    requires
        i <= ts@.len(),
    ensures
        r@ == tokens_text(token_views(ts@).skip(i as int)),
    decreases ts@.len() - i,
{
    let n = ts.len();
    if i >= n {
        proof {
            assert(token_views(ts@).skip(i as int).len() == 0);
        }
        String::new()
    } else if i + 1 == n {
        proof {
            assert(token_views(ts@).skip(i as int).len() == 1);
            assert(token_views(ts@).skip(i as int)[0] == ts@[i as int]@);
        }
        token_to_text(&ts[i])
    } else {
        let mut s = token_to_text(&ts[i]);
        s.append(" ");
        let rest = tokens_text_from(ts, i + 1);
        s.append(rest.as_str());
        proof {
            reveal_strlit(" ");
            assert(" "@ =~= seq![' ']);
            let suffix = token_views(ts@).skip(i as int);
            assert(suffix[0] == ts@[i as int]@);
            assert(suffix.drop_first() =~= token_views(ts@).skip(i as int + 1));
            assert(s@ =~= tokens_text(suffix));
        }
        s
    }
}

fn token_to_text(t: &Token) -> (r: String)
    ensures
        r@ == token_text(t@),
{
    match t {
        Token::LowerIdentifier(x) => String::from_str(x.as_str()),
        Token::UpperIdentifier(x) => String::from_str(x.as_str()),
        Token::IntegerLiteral(d) => String::from_str(d.as_str()),
        Token::Assign => {
            let s = String::from_str("=");
            proof {
                reveal_strlit("=");
                assert(s@ =~= seq!['=']);
            }
            s
        },
        Token::Dot => {
            let s = String::from_str(".");
            proof {
                reveal_strlit(".");
                assert(s@ =~= seq!['.']);
            }
            s
        },
        Token::LParen => {
            let s = String::from_str("(");
            proof {
                reveal_strlit("(");
                assert(s@ =~= seq!['(']);
            }
            s
        },
        Token::RParen => {
            let s = String::from_str(")");
            proof {
                reveal_strlit(")");
                assert(s@ =~= seq![')']);
            }
            s
        },
        Token::Backslash => {
            let s = String::from_str("\\");
            proof {
                reveal_strlit("\\");
                assert(s@ =~= seq!['\\']);
            }
            s
        },
        Token::Colon => {
            let s = String::from_str(":");
            proof {
                reveal_strlit(":");
                assert(s@ =~= seq![':']);
            }
            s
        },
        Token::Illegal => String::new(),
        Token::EndOfInput => String::new(),
    }
}

/// Render an expression tree to its surface syntax: the text whose parse is
/// proved, in `lemma_render_parse_round_trip`, to give the tree back. `None`
/// exactly when the tree is outside the renderable expression subset.
pub fn render_expr_text(n: &ParseNode) -> (r: Option<String>)
    ensures
        ({
            match r {
                Some(s) => wf_expr(n@) && s@ == render_expr(n@),
                None => !wf_expr(n@),
            }
        }),
{
    if !is_renderable_expr(n) {
        return None;
    }
    let mut toks: Vec<Token> = Vec::new();
    push_expr_tokens(n, &mut toks);
    proof {
        assert(token_views(Seq::<Token>::empty()) =~= Seq::<TokenV>::empty());
        assert(token_views(toks@) =~= expr_tokens(n@));
        assert(token_views(toks@).skip(0) =~= token_views(toks@));
    }
    Some(tokens_text_from(&toks, 0))
}

} // verus!
