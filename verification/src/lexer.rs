//! The lexer: character stream to token stream, with single-token pushback.
//!
//! The mathematical model is `tokens_of`, which gives the full token stream
//! of a character sequence. A `Lexer` value carries its source text, a cursor
//! into it, and a pushback stack; its pending stream (`Lexer::stream`) is the
//! pushed-back tokens, most recently pushed first, followed by the tokens of
//! the characters not yet consumed.

use vstd::prelude::*;
use vstd::assert_seqs_equal;
use crate::token::{Token, TokenV};

verus! {

/// Whitespace characters skipped between tokens.
pub open spec fn is_whitespace_char(c: char) -> bool {
    c == ' ' || c == '\t' || c == '\n' || c == '\r'
}

/// Characters that may start a lower-case identifier.
pub open spec fn is_lowercase_char(c: char) -> bool {
    'a' as u32 <= c as u32 && c as u32 <= 'z' as u32
}

/// Characters that may start an upper-case identifier.
pub open spec fn is_uppercase_char(c: char) -> bool {
    'A' as u32 <= c as u32 && c as u32 <= 'Z' as u32
}

/// Decimal digits.
pub open spec fn is_digit_char(c: char) -> bool {
    '0' as u32 <= c as u32 && c as u32 <= '9' as u32
}

/// Letters and the underscore. This is not the class that may start an
/// identifier (underscores cannot), only part of the class that may continue
/// one.
pub open spec fn is_letter_char(c: char) -> bool {
    is_lowercase_char(c) || is_uppercase_char(c) || c == '_'
}

/// Characters that may continue an identifier: letters, digits, underscore.
pub open spec fn is_ident_char(c: char) -> bool {
    is_letter_char(c) || is_digit_char(c)
}

/// Length of the maximal whitespace prefix of `s`.
pub open spec fn whitespace_run(s: Seq<char>) -> nat
    decreases s.len(),
{
    if s.len() > 0 && is_whitespace_char(s[0]) {
        (whitespace_run(s.skip(1)) + 1) as nat
    } else {
        0
    }
}

/// Length of the maximal identifier-continuation prefix of `s`.
pub open spec fn ident_run(s: Seq<char>) -> nat
    decreases s.len(),
{
    if s.len() > 0 && is_ident_char(s[0]) {
        (ident_run(s.skip(1)) + 1) as nat
    } else {
        0
    }
}

/// Length of the maximal digit prefix of `s`.
pub open spec fn digit_run(s: Seq<char>) -> nat
    decreases s.len(),
{
    if s.len() > 0 && is_digit_char(s[0]) {
        (digit_run(s.skip(1)) + 1) as nat
    } else {
        0
    }
}

/// The first token of `s` and the number of characters it occupies, leading
/// whitespace included. An exhausted suffix yields `EndOfInput`; a character
/// that can start no token is consumed alone and yields `Illegal`.
pub open spec fn next_token_of(s: Seq<char>) -> (TokenV, nat) {
    let w = whitespace_run(s);
    let r = s.skip(w as int);
    if r.len() == 0 {
        (TokenV::EndOfInput, w)
    } else {
        let c = r[0];
        if c == '=' {
            (TokenV::Assign, (w + 1) as nat)
        } else if c == '.' {
            (TokenV::Dot, (w + 1) as nat)
        } else if c == '(' {
            (TokenV::LParen, (w + 1) as nat)
        } else if c == ')' {
            (TokenV::RParen, (w + 1) as nat)
        } else if c == '\\' {
            (TokenV::Backslash, (w + 1) as nat)
        } else if c == ':' {
            (TokenV::Colon, (w + 1) as nat)
        } else if is_lowercase_char(c) {
            let l = (ident_run(r.skip(1)) + 1) as nat;
            (TokenV::LowerIdentifier(r.take(l as int)), (w + l) as nat)
        } else if is_uppercase_char(c) {
            let l = (ident_run(r.skip(1)) + 1) as nat;
            (TokenV::UpperIdentifier(r.take(l as int)), (w + l) as nat)
        } else if is_digit_char(c) {
            let l = (digit_run(r.skip(1)) + 1) as nat;
            (TokenV::IntegerLiteral(r.take(l as int)), (w + l) as nat)
        } else {
            (TokenV::Illegal, (w + 1) as nat)
        }
    }
}

pub proof fn lemma_whitespace_run_le(s: Seq<char>)
    ensures
        whitespace_run(s) <= s.len(),
    decreases s.len(),
{
    if s.len() > 0 && is_whitespace_char(s[0]) {
        lemma_whitespace_run_le(s.skip(1));
    }
}

pub proof fn lemma_ident_run_le(s: Seq<char>)
    ensures
        ident_run(s) <= s.len(),
    decreases s.len(),
{
    if s.len() > 0 && is_ident_char(s[0]) {
        lemma_ident_run_le(s.skip(1));
    }
}

pub proof fn lemma_digit_run_le(s: Seq<char>)
    ensures
        digit_run(s) <= s.len(),
    decreases s.len(),
{
    if s.len() > 0 && is_digit_char(s[0]) {
        lemma_digit_run_le(s.skip(1));
    }
}

/// A token consumes no more characters than remain, and a token other than
/// `EndOfInput` consumes at least one.
pub proof fn lemma_next_token_of_bounds(s: Seq<char>)
    ensures
        next_token_of(s).1 <= s.len(),
        next_token_of(s).0 != TokenV::EndOfInput ==> 1 <= next_token_of(s).1,
        next_token_of(s).0 == TokenV::EndOfInput ==> next_token_of(s).1 == s.len(),
{
    lemma_whitespace_run_le(s);
    let w = whitespace_run(s);
    let r = s.skip(w as int);
    if r.len() > 0 {
        lemma_ident_run_le(r.skip(1));
        lemma_digit_run_le(r.skip(1));
    }
}

/// The full token stream of a character sequence; `EndOfInput` itself is not
/// an element, it is what the lexer reports once this stream is exhausted.
pub open spec fn tokens_of(s: Seq<char>) -> Seq<TokenV>
    decreases s.len(),
    via tokens_of_decreases
{
    let (t, n) = next_token_of(s);
    if t == TokenV::EndOfInput {
        Seq::empty()
    } else {
        seq![t] + tokens_of(s.skip(n as int))
    }
}

#[via_fn]
proof fn tokens_of_decreases(s: Seq<char>) {
    lemma_next_token_of_bounds(s);
}

/// The token stream never contains `EndOfInput`.
pub proof fn lemma_tokens_of_no_end(s: Seq<char>)
    ensures
        forall|i: int| 0 <= i < tokens_of(s).len() ==> tokens_of(s)[i] != TokenV::EndOfInput,
    decreases s.len(),
{
    lemma_next_token_of_bounds(s);
    let (t, n) = next_token_of(s);
    if t != TokenV::EndOfInput {
        lemma_tokens_of_no_end(s.skip(n as int));
    }
}

pub proof fn lemma_whitespace_run_concat(a: Seq<char>, b: Seq<char>)
    requires
        forall|i: int| 0 <= i < a.len() ==> is_whitespace_char(a[i]),
        b.len() > 0 ==> !is_whitespace_char(b[0]),
    ensures
        whitespace_run(a + b) == a.len(),
    decreases a.len(),
{
    if a.len() == 0 {
        assert(a + b =~= b);
    } else {
        assert((a + b)[0] == a[0]);
        assert((a + b).skip(1) =~= a.skip(1) + b);
        lemma_whitespace_run_concat(a.skip(1), b);
    }
}

pub proof fn lemma_ident_run_concat(a: Seq<char>, b: Seq<char>)
    requires
        forall|i: int| 0 <= i < a.len() ==> is_ident_char(a[i]),
        b.len() > 0 ==> !is_ident_char(b[0]),
    ensures
        ident_run(a + b) == a.len(),
    decreases a.len(),
{
    if a.len() == 0 {
        assert(a + b =~= b);
    } else {
        assert((a + b)[0] == a[0]);
        assert((a + b).skip(1) =~= a.skip(1) + b);
        lemma_ident_run_concat(a.skip(1), b);
    }
}

pub proof fn lemma_digit_run_concat(a: Seq<char>, b: Seq<char>)
    requires
        forall|i: int| 0 <= i < a.len() ==> is_digit_char(a[i]),
        b.len() > 0 ==> !is_digit_char(b[0]),
    ensures
        digit_run(a + b) == a.len(),
    decreases a.len(),
{
    if a.len() == 0 {
        assert(a + b =~= b);
    } else {
        assert((a + b)[0] == a[0]);
        assert((a + b).skip(1) =~= a.skip(1) + b);
        lemma_digit_run_concat(a.skip(1), b);
    }
}

/// Whitespace-only text lexes to the empty token stream.
pub proof fn lemma_tokens_of_whitespace(s: Seq<char>)
    requires
        forall|i: int| 0 <= i < s.len() ==> is_whitespace_char(s[i]),
    ensures
        tokens_of(s) == Seq::<TokenV>::empty(),
{
    lemma_whitespace_run_concat(s, Seq::empty());
    assert(s + Seq::<char>::empty() =~= s);
    assert(s.skip(s.len() as int).len() == 0);
}

/// For input that is whitespace, then a single maximal run of letters,
/// digits and underscores starting with a letter, then whitespace, lexing
/// yields exactly one identifier token carrying the whole run — the case of
/// the first letter selecting lower or upper — after which only end-of-input
/// remains.
pub proof fn lemma_single_identifier_input(lead: Seq<char>, run: Seq<char>, trail: Seq<char>)
    requires
        forall|i: int| 0 <= i < lead.len() ==> is_whitespace_char(lead[i]),
        forall|i: int| 0 <= i < trail.len() ==> is_whitespace_char(trail[i]),
        run.len() > 0,
        is_lowercase_char(run[0]) || is_uppercase_char(run[0]),
        forall|i: int| 0 <= i < run.len() ==> is_ident_char(run[i]),
    ensures
        tokens_of(lead + run + trail) == seq![
            if is_lowercase_char(run[0]) {
                TokenV::LowerIdentifier(run)
            } else {
                TokenV::UpperIdentifier(run)
            },
        ],
{
    let s = lead + run + trail;
    assert(s =~= lead + (run + trail));
    assert((run + trail)[0] == run[0]);
    lemma_whitespace_run_concat(lead, run + trail);
    assert(whitespace_run(s) == lead.len());
    let r = s.skip(lead.len() as int);
    assert(r =~= run + trail);
    assert(r[0] == run[0]);
    assert(r.skip(1) =~= run.skip(1) + trail);
    lemma_ident_run_concat(run.skip(1), trail);
    assert(ident_run(r.skip(1)) == run.len() - 1);
    let l = (ident_run(r.skip(1)) + 1) as nat;
    assert(r.take(l as int) =~= run);
    let n = next_token_of(s).1;
    assert(n == lead.len() + run.len());
    assert(s.skip(n as int) =~= trail);
    lemma_tokens_of_whitespace(trail);
    assert(tokens_of(s) =~= seq![next_token_of(s).0]);
}

/// The pushback stack is served last-pushed-first: pushing back `b` and then
/// `a` makes the next two reads return `a` then `b`, after which the pending
/// stream is exactly what it was — the underlying position is untouched.
pub proof fn lemma_pushback_stack_order(s: Seq<TokenV>, a: TokenV, b: TokenV)
    ensures
        ({
            let s1 = seq![b] + s;
            let s2 = seq![a] + s1;
            stream_head(s2) == a && stream_rest(s2) == s1 && stream_head(s1) == b && stream_rest(
                s1,
            ) == s
        }),
{
    assert((seq![a] + (seq![b] + s)).drop_first() =~= seq![b] + s);
    assert((seq![b] + s).drop_first() =~= s);
}

/// The head of a pending token stream: `EndOfInput` once the stream is empty.
pub open spec fn stream_head(s: Seq<TokenV>) -> TokenV {
    if s.len() == 0 {
        TokenV::EndOfInput
    } else {
        s[0]
    }
}

/// A pending token stream after one token is read: reading past the end
/// changes nothing.
pub open spec fn stream_rest(s: Seq<TokenV>) -> Seq<TokenV> {
    if s.len() == 0 {
        s
    } else {
        s.drop_first()
    }
}

/// True when nothing but end-of-input remains in a pending stream.
pub open spec fn stream_exhausted(s: Seq<TokenV>) -> bool {
    forall|i: int| 0 <= i < s.len() ==> s[i] == TokenV::EndOfInput
}

pub proof fn lemma_skip_skip<A>(s: Seq<A>, a: int, b: int)
    requires
        0 <= a,
        0 <= b,
        a + b <= s.len(),
    ensures
        s.skip(a).skip(b) == s.skip(a + b),
{
    assert_seqs_equal!(s.skip(a).skip(b) == s.skip(a + b));
}

/// The views of a sequence of tokens.
pub open spec fn token_views(ts: Seq<Token>) -> Seq<TokenV> {
    ts.map_values(|t: Token| t@)
}

proof fn lemma_views_push(ts: Seq<Token>, t: Token)
    ensures
        token_views(ts.push(t)).reverse() == seq![t@] + token_views(ts).reverse(),
{
    assert_seqs_equal!(token_views(ts.push(t)).reverse() == seq![t@] + token_views(ts).reverse());
}

proof fn lemma_views_pop(ts: Seq<Token>)
    requires
        ts.len() > 0,
    ensures
        token_views(ts).reverse().len() > 0,
        token_views(ts).reverse()[0] == ts.last()@,
        token_views(ts).reverse().drop_first() == token_views(ts.drop_last()).reverse(),
{
    assert_seqs_equal!(token_views(ts).reverse().drop_first()
        == token_views(ts.drop_last()).reverse());
}

/// Relies on `String::push`: appends exactly the one character.
#[verifier::external_body]
pub(crate) fn push_char(s: &mut String, c: char)
    ensures
        final(s)@ == old(s)@ + seq![c],
{
    s.push(c);
}

fn is_whitespace(c: char) -> (r: bool)
    ensures
        r == is_whitespace_char(c),
{
    c == ' ' || c == '\t' || c == '\n' || c == '\r'
}

fn is_lowercase(c: char) -> (r: bool)
    ensures
        r == is_lowercase_char(c),
{
    let u = c as u32;
    'a' as u32 <= u && u <= 'z' as u32
}

fn is_uppercase(c: char) -> (r: bool)
    ensures
        r == is_uppercase_char(c),
{
    let u = c as u32;
    'A' as u32 <= u && u <= 'Z' as u32
}

fn is_digit(c: char) -> (r: bool)
    ensures
        r == is_digit_char(c),
{
    let u = c as u32;
    '0' as u32 <= u && u <= '9' as u32
}

/// A letter for the purpose of continuing an identifier: alphabetic or `_`.
/// Note that this class cannot start an identifier (`_` is not a start).
pub fn is_letter(ch: char) -> (r: bool)
    ensures
        r == is_letter_char(ch),
{
    is_lowercase(ch) || is_uppercase(ch) || ch == '_'
}

/// The lexer. It owns its source text as characters, a cursor into it, and a
/// pushback stack served before the remaining characters.
pub struct Lexer {
    input: Vec<char>,
    pos: usize,
    cache: Vec<Token>,
}

impl Lexer {
    /// The characters of the source text.
    pub closed spec fn src(&self) -> Seq<char> {
        self.input@
    }

    /// The cursor never passes the end of the text.
    pub closed spec fn wf(&self) -> bool {
        self.pos <= self.input.len()
    }

    /// The characters not yet consumed.
    pub closed spec fn suffix(&self) -> Seq<char> {
        self.input@.skip(self.pos as int)
    }

    /// The pending token stream: pushed-back tokens, most recently pushed
    /// first, then the tokens of the characters not yet consumed.
    pub closed spec fn stream(&self) -> Seq<TokenV> {
        token_views(self.cache@).reverse() + tokens_of(self.suffix())
    }

    pub fn new(input: &str) -> (l: Lexer)
        ensures
            l.wf(),
            l.src() == input@,
            l.stream() == tokens_of(input@),
    {
        let n = input.unicode_len();
        let mut chars: Vec<char> = Vec::new();
        let mut i: usize = 0;
        while i < n
            invariant
                i <= n,
                n == input@.len(),
                chars@ == input@.take(i as int),
            decreases n - i,
        {
            chars.push(input.get_char(i));
            proof {
                assert_seqs_equal!(input@.take(i as int).push(input@[i as int])
                    == input@.take(i + 1));
            }
            i += 1;
        }
        proof {
            assert_seqs_equal!(input@.take(n as int) == input@);
        }
        let l = Lexer { input: chars, pos: 0, cache: Vec::new() };
        proof {
            assert(l.suffix() =~= input@);
            assert(l.stream() =~= tokens_of(input@));
        }
        l
    }

    /// Rewind to the start of the source text, clearing the pushback stack.
    pub fn reset(&mut self)
        ensures
            final(self).wf(),
            final(self).src() == old(self).src(),
            final(self).stream() == tokens_of(old(self).src()),
    {
        self.pos = 0;
        self.cache = Vec::new();
        proof {
            assert(self.suffix() =~= self.src());
            assert(self.stream() =~= tokens_of(self.src()));
        }
    }

    /// Push a token back; a later read returns it before anything else.
    pub fn put_back(&mut self, token: Token)
        requires
            old(self).wf(),
        ensures
            final(self).wf(),
            final(self).src() == old(self).src(),
            final(self).stream() == seq![token@] + old(self).stream(),
    {
        proof {
            lemma_views_push(self.cache@, token);
        }
        let ghost old_cache = self.cache@;
        self.cache.push(token);
        proof {
            assert_seqs_equal!(
                token_views(old_cache.push(token)).reverse() + tokens_of(self.suffix())
                == seq![token@] + (token_views(old_cache).reverse() + tokens_of(self.suffix())));
        }
    }

    fn skip_whitespace(&mut self)
        requires
            old(self).wf(),
        ensures
            final(self).wf(),
            final(self).input == old(self).input,
            final(self).cache == old(self).cache,
            final(self).pos == old(self).pos + whitespace_run(old(self).suffix()),
    {
        let ghost orig = *self;
        proof {
            lemma_whitespace_run_le(orig.suffix());
        }
        while self.pos < self.input.len() && is_whitespace(self.input[self.pos])
            invariant
                self.wf(),
                self.input == orig.input,
                self.cache == orig.cache,
                orig.pos <= self.pos,
                whitespace_run(orig.suffix()) == (self.pos - orig.pos) + whitespace_run(
                    self.suffix(),
                ),
            decreases self.input.len() - self.pos,
        {
            proof {
                assert(self.suffix().len() > 0);
                assert(self.suffix()[0] == self.input@[self.pos as int]);
                lemma_skip_skip(self.input@, self.pos as int, 1);
                assert(self.suffix().skip(1) == self.input@.skip(self.pos + 1));
            }
            self.pos += 1;
        }
        proof {
            if self.pos < self.input.len() {
                assert(self.suffix()[0] == self.input@[self.pos as int]);
                assert(whitespace_run(self.suffix()) == 0);
            } else {
                assert(self.suffix().len() == 0);
                assert(whitespace_run(self.suffix()) == 0);
            }
        }
    }

    fn read_char(&mut self) -> (r: Option<char>)
        requires
            old(self).wf(),
        ensures
            final(self).wf(),
            final(self).input == old(self).input,
            final(self).cache == old(self).cache,
            old(self).suffix().len() > 0 ==> r == Some(old(self).suffix()[0]) && final(self).pos
                == old(self).pos + 1,
            old(self).suffix().len() == 0 ==> r == None::<char> && final(self).pos == old(
                self,
            ).pos,
    {
        if self.pos < self.input.len() {
            let c = self.input[self.pos];
            proof {
                assert(self.suffix()[0] == self.input@[self.pos as int]);
            }
            self.pos += 1;
            Some(c)
        } else {
            None
        }
    }

    fn peek_char(&self) -> (r: Option<char>)
        requires
            self.wf(),
        ensures
            self.suffix().len() > 0 ==> r == Some(self.suffix()[0]),
            self.suffix().len() == 0 ==> r == None::<char>,
    {
        if self.pos < self.input.len() {
            proof {
                assert(self.suffix()[0] == self.input@[self.pos as int]);
            }
            Some(self.input[self.pos])
        } else {
            None
        }
    }

    /// Greedily read the maximal run of identifier-continuation characters
    /// (letters, digits, underscore) after the already-consumed first
    /// character.
    fn read_identifier(&mut self, first: char) -> (r: String)
        requires
            old(self).wf(),
        ensures
            final(self).wf(),
            final(self).input == old(self).input,
            final(self).cache == old(self).cache,
            final(self).pos == old(self).pos + ident_run(old(self).suffix()),
            r@ == seq![first] + old(self).suffix().take(ident_run(old(self).suffix()) as int),
    {
        let ghost orig = *self;
        proof {
            lemma_ident_run_le(orig.suffix());
        }
        let mut ident = String::new();
        push_char(&mut ident, first);
        loop
            invariant
                self.wf(),
                self.input == orig.input,
                self.cache == orig.cache,
                orig.pos <= self.pos,
                ident_run(orig.suffix()) == (self.pos - orig.pos) + ident_run(self.suffix()),
                ident@ == seq![first] + orig.suffix().take((self.pos - orig.pos) as int),
            ensures
                ident_run(self.suffix()) == 0,
            decreases self.input.len() - self.pos,
        {
            let next = self.peek_char();
            match next {
                Some(c) => {
                    if !(is_letter(c) || is_digit(c)) {
                        proof {
                            assert(ident_run(self.suffix()) == 0);
                        }
                        break ;
                    }
                    proof {
                        assert(self.suffix()[0] == self.input@[self.pos as int]);
                        lemma_skip_skip(self.input@, self.pos as int, 1);
                        assert(self.suffix().skip(1) == self.input@.skip(self.pos + 1));
                        assert_seqs_equal!(
                            orig.suffix().take((self.pos - orig.pos) as int).push(c)
                            == orig.suffix().take((self.pos + 1 - orig.pos) as int));
                    }
                    push_char(&mut ident, c);
                    proof {
                        assert_seqs_equal!(
                            (seq![first] + orig.suffix().take((self.pos - orig.pos) as int))
                                + seq![c]
                            == seq![first]
                                + orig.suffix().take((self.pos - orig.pos) as int).push(c));
                    }
                    self.pos += 1;
                }
                None => {
                    proof {
                        assert(ident_run(self.suffix()) == 0);
                    }
                    break ;
                }
            }
        }
        ident
    }

    /// Greedily read the maximal run of decimal digits after the
    /// already-consumed first character.
    fn read_number(&mut self, first: char) -> (r: String)
        requires
            old(self).wf(),
        ensures
            final(self).wf(),
            final(self).input == old(self).input,
            final(self).cache == old(self).cache,
            final(self).pos == old(self).pos + digit_run(old(self).suffix()),
            r@ == seq![first] + old(self).suffix().take(digit_run(old(self).suffix()) as int),
    {
        let ghost orig = *self;
        proof {
            lemma_digit_run_le(orig.suffix());
        }
        let mut number = String::new();
        push_char(&mut number, first);
        loop
            invariant
                self.wf(),
                self.input == orig.input,
                self.cache == orig.cache,
                orig.pos <= self.pos,
                digit_run(orig.suffix()) == (self.pos - orig.pos) + digit_run(self.suffix()),
                number@ == seq![first] + orig.suffix().take((self.pos - orig.pos) as int),
            ensures
                digit_run(self.suffix()) == 0,
            decreases self.input.len() - self.pos,
        {
            let next = self.peek_char();
            match next {
                Some(c) => {
                    if !is_digit(c) {
                        proof {
                            assert(digit_run(self.suffix()) == 0);
                        }
                        break ;
                    }
                    proof {
                        assert(self.suffix()[0] == self.input@[self.pos as int]);
                        lemma_skip_skip(self.input@, self.pos as int, 1);
                        assert(self.suffix().skip(1) == self.input@.skip(self.pos + 1));
                        assert_seqs_equal!(
                            orig.suffix().take((self.pos - orig.pos) as int).push(c)
                            == orig.suffix().take((self.pos + 1 - orig.pos) as int));
                    }
                    push_char(&mut number, c);
                    proof {
                        assert_seqs_equal!(
                            (seq![first] + orig.suffix().take((self.pos - orig.pos) as int))
                                + seq![c]
                            == seq![first]
                                + orig.suffix().take((self.pos - orig.pos) as int).push(c));
                    }
                    self.pos += 1;
                }
                None => {
                    proof {
                        assert(digit_run(self.suffix()) == 0);
                    }
                    break ;
                }
            }
        }
        number
    }

    /// Read one token: the most recently pushed-back token if any, else the
    /// next token of the remaining characters, whitespace skipped. Once the
    /// stream is exhausted every call returns `EndOfInput`.
    pub fn next_token(&mut self) -> (t: Token)
        requires
            old(self).wf(),
        ensures
            final(self).wf(),
            final(self).src() == old(self).src(),
            t@ == stream_head(old(self).stream()),
            final(self).stream() == stream_rest(old(self).stream()),
    {
        let ghost old_cache = self.cache@;
        let popped = self.cache.pop();
        match popped {
            Some(top) => {
                proof {
                    lemma_views_pop(old_cache);
                    assert_seqs_equal!(
                        (token_views(old_cache).reverse() + tokens_of(old(self).suffix()))
                            .drop_first()
                        == token_views(old_cache).reverse().drop_first()
                            + tokens_of(old(self).suffix()));
                    assert(old_cache.subrange(0, old_cache.len() - 1) == old_cache.drop_last());
                }
                top
            },
            None => {
                proof {
                    assert(old(self).stream() =~= tokens_of(old(self).suffix()));
                }
                let ghost s0 = self.suffix();
                self.skip_whitespace();
                let ghost w = whitespace_run(s0);
                proof {
                    lemma_whitespace_run_le(s0);
                    lemma_skip_skip(old(self).src(), old(self).pos as int, w as int);
                    assert(self.suffix() == s0.skip(w as int));
                }
                let ghost r = s0.skip(w as int);
                let c_opt = self.read_char();
                match c_opt {
                    None => {
                        proof {
                            assert(next_token_of(s0).0 == TokenV::EndOfInput);
                            assert(tokens_of(s0) =~= Seq::<TokenV>::empty());
                            assert(self.stream() =~= Seq::<TokenV>::empty());
                        }
                        Token::EndOfInput
                    },
                    Some(c) => {
                        proof {
                            assert(c == r[0]);
                        }
                        let token: Token = if c == '=' {
                            Token::Assign
                        } else if c == '.' {
                            Token::Dot
                        } else if c == '(' {
                            Token::LParen
                        } else if c == ')' {
                            Token::RParen
                        } else if c == '\\' {
                            Token::Backslash
                        } else if c == ':' {
                            Token::Colon
                        } else if is_lowercase(c) {
                            proof {
                                lemma_skip_skip(s0, w as int, 1);
                                lemma_skip_skip(old(self).src(), old(self).pos as int, w as int + 1);
                                assert(self.suffix() == r.skip(1));
                            }
                            let text = self.read_identifier(c);
                            proof {
                                lemma_ident_run_le(r.skip(1));
                                assert_seqs_equal!(
                                    seq![c] + r.skip(1).take(ident_run(r.skip(1)) as int)
                                    == r.take(ident_run(r.skip(1)) as int + 1));
                            }
                            Token::LowerIdentifier(text)
                        } else if is_uppercase(c) {
                            proof {
                                lemma_skip_skip(s0, w as int, 1);
                                lemma_skip_skip(old(self).src(), old(self).pos as int, w as int + 1);
                                assert(self.suffix() == r.skip(1));
                            }
                            let text = self.read_identifier(c);
                            proof {
                                lemma_ident_run_le(r.skip(1));
                                assert_seqs_equal!(
                                    seq![c] + r.skip(1).take(ident_run(r.skip(1)) as int)
                                    == r.take(ident_run(r.skip(1)) as int + 1));
                            }
                            Token::UpperIdentifier(text)
                        } else if is_digit(c) {
                            proof {
                                lemma_skip_skip(s0, w as int, 1);
                                lemma_skip_skip(old(self).src(), old(self).pos as int, w as int + 1);
                                assert(self.suffix() == r.skip(1));
                            }
                            let text = self.read_number(c);
                            proof {
                                lemma_digit_run_le(r.skip(1));
                                assert_seqs_equal!(
                                    seq![c] + r.skip(1).take(digit_run(r.skip(1)) as int)
                                    == r.take(digit_run(r.skip(1)) as int + 1));
                            }
                            Token::IntegerLiteral(text)
                        } else {
                            Token::Illegal
                        };
                        proof {
                            let (tv, n) = next_token_of(s0);
                            lemma_next_token_of_bounds(s0);
                            assert(token@ == tv);
                            assert(self.pos == old(self).pos + n);
                            lemma_skip_skip(old(self).src(), old(self).pos as int, n as int);
                            assert(self.suffix() == s0.skip(n as int));
                            assert(tokens_of(s0) == seq![tv] + tokens_of(s0.skip(n as int)));
                            assert(self.stream() =~= tokens_of(s0.skip(n as int)));
                            assert(stream_head(old(self).stream()) == tv);
                            assert_seqs_equal!(stream_rest(old(self).stream())
                                == tokens_of(s0.skip(n as int)));
                        }
                        token
                    },
                }
            },
        }
    }

    /// True when nothing but end-of-input remains: every pushed-back token is
    /// `EndOfInput` and only whitespace is left of the source text. Reports
    /// without consuming anything.
    pub fn is_empty(&mut self) -> (r: bool)
        requires
            old(self).wf(),
        ensures
            *final(self) == *old(self),
            r == stream_exhausted(old(self).stream()),
    {
        let ghost cache_views = token_views(self.cache@).reverse();
        let mut k: usize = 0;
        while k < self.cache.len()
            invariant
                *self == *old(self),
                old(self).wf(),
                k <= self.cache.len(),
                forall|i: int| 0 <= i < k ==> self.cache@[i]@ == TokenV::EndOfInput,
            decreases self.cache.len() - k,
        {
            let is_end = match &self.cache[k] {
                Token::EndOfInput => true,
                _ => false,
            };
            if !is_end {
                proof {
                    let cv = token_views(self.cache@);
                    assert(cv.len() == self.cache@.len());
                    assert(cv[k as int] == self.cache@[k as int]@);
                    let j = cv.len() - 1 - k;
                    assert(cv.reverse()[j] == cv[k as int]);
                    assert(self.stream()[j] == cv.reverse()[j]);
                    assert(self.stream()[j] != TokenV::EndOfInput);
                }
                return false;
            }
            k += 1;
        }
        let ghost s0 = self.suffix();
        let mut j: usize = self.pos;
        while j < self.input.len() && is_whitespace(self.input[j])
            invariant
                *self == *old(self),
                old(self).wf(),
                self.pos <= j <= self.input.len(),
                whitespace_run(s0) == (j - self.pos) + whitespace_run(self.input@.skip(j as int)),
            decreases self.input.len() - j,
        {
            proof {
                let suf = self.input@.skip(j as int);
                assert(suf[0] == self.input@[j as int]);
                lemma_skip_skip(self.input@, j as int, 1);
                assert(suf.skip(1) == self.input@.skip(j + 1));
            }
            j += 1;
        }
        if j < self.input.len() {
            proof {
                let suf = self.input@.skip(j as int);
                assert(suf[0] == self.input@[j as int]);
                assert(whitespace_run(suf) == 0);
                lemma_whitespace_run_le(s0);
                let w = whitespace_run(s0);
                lemma_skip_skip(self.input@, self.pos as int, w as int);
                assert(s0.skip(w as int) == self.input@.skip(self.pos + w));
                assert(s0.skip(w as int).len() > 0);
                assert(next_token_of(s0).0 != TokenV::EndOfInput);
                assert(tokens_of(s0).len() > 0);
                lemma_tokens_of_no_end(s0);
                assert(tokens_of(s0)[0] != TokenV::EndOfInput);
                let idx = cache_views.len();
                assert(self.stream()[idx as int] == tokens_of(s0)[0]);
            }
            false
        } else {
            proof {
                assert(self.input@.skip(j as int).len() == 0);
                assert(whitespace_run(s0) == s0.len());
                lemma_whitespace_run_le(s0);
                assert(s0.skip(whitespace_run(s0) as int).len() == 0);
                assert(next_token_of(s0).0 == TokenV::EndOfInput);
                assert(tokens_of(s0) =~= Seq::<TokenV>::empty());
                assert forall|i: int| 0 <= i < self.stream().len() implies self.stream()[i]
                    == TokenV::EndOfInput by {
                    let c = self.cache@;
                    assert(self.stream()[i] == token_views(c).reverse()[i]);
                    assert(token_views(c).reverse()[i] == c[c.len() - 1 - i]@);
                }
            }
            true
        }
    }
}

} // verus!
