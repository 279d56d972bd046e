use std::str::Chars;
use vstd::prelude::*;
use vstd::std_specs::iter::IteratorSpec;
use vstd::string::{StrSliceExecFns, StringSliceAdditionalSpecFns};
use crate::lexeme::{
    after_trivia, char_at, ident_len, is_alphabetic, is_ascii_digit, is_whitespace, keyword_kind,
    lemma_eof_iff_empty, lemma_lexeme_bound, lemma_newlines_concat, lemma_newlines_extend,
    lemma_rest_advance, lemma_step_progress, lemma_string_body_bound, lemma_trivia_bound,
    lexeme_len, newlines, number_len, rest_of, step_len, step_line, step_token, string_body_len,
    tokens, trivia_len, Lexed,
};
use crate::utf8::{lemma_encode_len, lemma_encode_suffix, split_chars};
use crate::util::{ahead, DoublePeeker};

verus! {

/// A classified lexeme of the source, with the line that it starts on.
#[derive(Debug, PartialEq, Clone, Copy)]
pub struct Token<'a> {
    pub token_type: TokenType,
    pub text: &'a str,
    pub line: usize,
}

impl<'a> View for Token<'a> {
    type V = Lexed;

    open spec fn view(&self) -> Lexed {
        Lexed { kind: self.token_type, text: self.text@, line: self.line as nat }
    }
}

/// The closed set of token kinds.
#[derive(Debug, PartialEq, Eq, Clone, Copy, Structural)]
pub enum TokenType {
    // Single-character tokens.
    LeftParen,
    RightParen,
    LeftBrace,
    RightBrace,
    Comma,
    Dot,
    Minus,
    Plus,
    Semicolon,
    Slash,
    Star,
    // One or two character tokens.
    Bang,
    BangEqual,
    Equal,
    EqualEqual,
    Greater,
    GreaterEqual,
    Less,
    LessEqual,
    // Literals.
    Identifier,
    String,
    Number,
    // Keywords.
    And,
    Class,
    Else,
    False,
    For,
    Fun,
    If,
    Nil,
    Or,
    Print,
    Return,
    Super,
    This,
    True,
    Var,
    While,
    // Sentinels.
    Error,
    Eof,
}

/// The buffered lookups `buf` followed by the items `rest` of the underlying
/// iterator are exactly the characters of `src` from `pos` on.
pub open spec fn in_step(buf: Seq<Option<char>>, rest: Seq<char>, src: Seq<char>, pos: int) -> bool {
    forall|k: int| k >= 0 ==> #[trigger] ahead(buf, rest, k) == char_at(src, pos + k)
}

/// A lexical scanner over one source text: each call of `scan_token` skips
/// trivia and produces the next token, `Eof` once the input is used up.
///
/// Contracts speak of `src()`, `pos()` and `line()`. Each method asks for
/// `wf()` and for the lookahead to be `in_step` with the source at `pos()`;
/// `new` sets up both and every method keeps them. The second one is spelled
/// out in each contract rather than folded into `wf()` because it is about the
/// characters that the underlying `Chars` is still to yield.
pub struct Scan<'a> {
    start: usize,
    current: usize,
    source: &'a str,
    from_start: &'a str,
    chars: DoublePeeker<Chars<'a>>,
    line: usize,
}

impl<'a> Scan<'a> {
    /// The whole source text.
    pub closed spec fn src(&self) -> Seq<char> {
        self.source@
    }

    /// Number of characters consumed so far.
    pub closed spec fn pos(&self) -> nat {
        self.current as nat
    }

    /// Where the token in progress starts.
    pub closed spec fn start(&self) -> nat {
        self.start as nat
    }

    /// The current line, counted from 1.
    pub closed spec fn line(&self) -> nat {
        self.line as nat
    }

    /// The lookahead buffer over the source's characters.
    pub closed spec fn lookahead(&self) -> DoublePeeker<Chars<'a>> {
        self.chars
    }

    /// Positions within the source, and a line count that the consumed
    /// characters can account for.
    pub closed spec fn wf(&self) -> bool {
        &&& self.chars.wf()
        &&& self.start <= self.current <= self.source@.len()
        &&& self.from_start@ == rest_of(self.source@, self.start as int)
        &&& self.source.spec_bytes().len() < usize::MAX
        &&& self.source@.len() < usize::MAX
        &&& 1 <= self.line <= self.current + 1
    }

    /// The input not consumed yet.
    pub open spec fn rest(&self) -> Seq<char> {
        rest_of(self.src(), self.pos() as int)
    }

    /// A scanner at the start of `source`, on line 1.
    pub fn new(source: &'a str) -> (r: Scan<'a>)
        requires
            source.spec_bytes().len() < usize::MAX,
        ensures
            r.wf(),
            in_step(r.lookahead().buffered(), r.lookahead().inner().remaining(), r.src(), r.pos() as int),
            r.src() == source@,
            r.pos() == 0,
            r.start() == 0,
            r.line() == 1,
    {
        broadcast use vstd::string::axiom_spec_iter;

        proof {
            lemma_encode_len(source@);
            assert(rest_of(source@, 0) =~= source@);
        }
        let chars = source.chars();
        Scan {
            start: 0,
            current: 0,
            source: source,
            from_start: source,
            chars: DoublePeeker::new(chars),
            line: 1,
        }
    }

    fn peek_char(&mut self) -> (r: Option<char>)
        requires
            old(self).wf(),
            in_step(old(self).lookahead().buffered(), old(self).lookahead().inner().remaining(), old(self).src(), old(self).pos() as int),
        ensures
            final(self).wf(),
            in_step(final(self).lookahead().buffered(), final(self).lookahead().inner().remaining(), final(self).src(), final(self).pos() as int),
            final(self).src() == old(self).src(),
            final(self).start == old(self).start,
            final(self).current == old(self).current,
            final(self).line == old(self).line,
            r == char_at(old(self).src(), old(self).pos() as int),
    {
        let r = self.chars.peek();
        assert(ahead(old(self).chars.buffered(), old(self).chars.inner().remaining(), 0) == r);
        r
    }

    fn peek_second(&mut self) -> (r: Option<char>)
        requires
            old(self).wf(),
            in_step(old(self).lookahead().buffered(), old(self).lookahead().inner().remaining(), old(self).src(), old(self).pos() as int),
        ensures
            final(self).wf(),
            in_step(final(self).lookahead().buffered(), final(self).lookahead().inner().remaining(), final(self).src(), final(self).pos() as int),
            final(self).src() == old(self).src(),
            final(self).start == old(self).start,
            final(self).current == old(self).current,
            final(self).line == old(self).line,
            r == char_at(old(self).src(), old(self).pos() + 1int),
    {
        let r = self.chars.peek_next();
        assert(ahead(old(self).chars.buffered(), old(self).chars.inner().remaining(), 1) == r);
        r
    }

    /// Consumes the next character and returns it.
    pub fn advance(&mut self) -> (r: Option<char>)
        requires
            old(self).wf(),
            in_step(old(self).lookahead().buffered(), old(self).lookahead().inner().remaining(), old(self).src(), old(self).pos() as int),
            old(self).pos() < old(self).src().len(),
        ensures
            final(self).wf(),
            in_step(final(self).lookahead().buffered(), final(self).lookahead().inner().remaining(), final(self).src(), final(self).pos() as int),
            final(self).src() == old(self).src(),
            final(self).start() == old(self).start(),
            final(self).line() == old(self).line(),
            final(self).pos() == old(self).pos() + 1,
            r == Some(old(self).src()[old(self).pos() as int]),
    {
        let r = self.chars.next();
        assert(ahead(old(self).chars.buffered(), old(self).chars.inner().remaining(), 0) == r);
        self.current = self.current + 1;
        r
    }

    fn matches(&mut self, other: char) -> (r: bool)
        requires
            old(self).wf(),
            in_step(old(self).lookahead().buffered(), old(self).lookahead().inner().remaining(), old(self).src(), old(self).pos() as int),
        ensures
            final(self).wf(),
            in_step(final(self).lookahead().buffered(), final(self).lookahead().inner().remaining(), final(self).src(), final(self).pos() as int),
            final(self).src() == old(self).src(),
            final(self).start == old(self).start,
            final(self).line == old(self).line,
            r == (char_at(old(self).src(), old(self).pos() as int) == Some(other)),
            final(self).current == old(self).current + if r { 1int } else { 0int },
    {
        match self.peek_char() {
            Some(c) => {
                if c == other {
                    self.advance();
                    true
                } else {
                    false
                }
            },
            None => false,
        }
    }

    fn at_end(&mut self) -> (r: bool)
        requires
            old(self).wf(),
            in_step(old(self).lookahead().buffered(), old(self).lookahead().inner().remaining(), old(self).src(), old(self).pos() as int),
        ensures
            final(self).wf(),
            in_step(final(self).lookahead().buffered(), final(self).lookahead().inner().remaining(), final(self).src(), final(self).pos() as int),
            final(self).src() == old(self).src(),
            final(self).start == old(self).start,
            final(self).current == old(self).current,
            final(self).line == old(self).line,
            r == (old(self).pos() == old(self).src().len()),
    {
        self.peek_char().is_none()
    }

    fn current_token(&self) -> (r: &'a str)
        requires
            self.wf(),
        ensures
            r@ == self.src().subrange(self.start() as int, self.pos() as int),
    {
        let from_start: &'a str = self.from_start;
        from_start.substring_char(0, self.current - self.start)
    }

    fn make_token(&self, token_type: TokenType) -> (r: Token<'a>)
        requires
            self.wf(),
        ensures
            r@ == (Lexed {
                kind: token_type,
                text: self.src().subrange(self.start() as int, self.pos() as int),
                line: self.line(),
            }),
    {
        Token { token_type: token_type, text: self.current_token(), line: self.line }
    }

    fn skip_comment(&mut self)
        requires
            old(self).wf(),
            in_step(old(self).lookahead().buffered(), old(self).lookahead().inner().remaining(), old(self).src(), old(self).pos() as int),
        ensures
            final(self).wf(),
            in_step(final(self).lookahead().buffered(), final(self).lookahead().inner().remaining(), final(self).src(), final(self).pos() as int),
            final(self).src() == old(self).src(),
            final(self).start == old(self).start,
            old(self).pos() <= final(self).pos(),
            trivia_len(old(self).rest(), true) == (final(self).pos() - old(self).pos()) + trivia_len(final(self).rest(), false),
            final(self).line() == old(self).line() + newlines(
                old(self).src().subrange(old(self).pos() as int, final(self).pos() as int),
            ),
    {
        let ghost s = self.src();
        let ghost p0 = self.pos() as int;
        let ghost l0 = self.line();
        let ghost st = self.start;
        loop
            invariant_except_break
                trivia_len(rest_of(s, p0), true) == (self.pos() - p0) + trivia_len(rest_of(s, self.pos() as int), true),
            invariant
                self.wf(),
                in_step(self.lookahead().buffered(), self.lookahead().inner().remaining(), self.src(), self.pos() as int),
                self.src() == s,
                self.start == st,
                0 <= p0 <= self.pos() <= s.len(),
                self.line() == l0 + newlines(s.subrange(p0, self.pos() as int)),
            ensures
                trivia_len(rest_of(s, p0), true) == (self.pos() - p0) + trivia_len(rest_of(s, self.pos() as int), false),
            decreases s.len() - self.pos(),
        {
            let ghost p = self.pos() as int;
            match self.peek_char() {
                None => {
                    break;
                },
                Some(c) => {
                    proof {
                        lemma_rest_advance(s, p);
                        lemma_newlines_extend(s, p0, p);
                    }
                    if c == '\n' {
                        self.advance();
                        self.line = self.line + 1;
                        break;
                    } else {
                        self.advance();
                    }
                },
            }
        }
    }

    fn eat_whitespace(&mut self)
        requires
            old(self).wf(),
            in_step(old(self).lookahead().buffered(), old(self).lookahead().inner().remaining(), old(self).src(), old(self).pos() as int),
        ensures
            final(self).wf(),
            in_step(final(self).lookahead().buffered(), final(self).lookahead().inner().remaining(), final(self).src(), final(self).pos() as int),
            final(self).src() == old(self).src(),
            final(self).start == old(self).start,
            final(self).pos() == old(self).pos() + trivia_len(old(self).rest(), false),
            final(self).line() == old(self).line() + newlines(
                old(self).src().subrange(old(self).pos() as int, final(self).pos() as int),
            ),
    {
        let ghost s = self.src();
        let ghost p0 = self.pos() as int;
        let ghost l0 = self.line();
        let ghost st = self.start;
        loop
            invariant
                self.wf(),
                in_step(self.lookahead().buffered(), self.lookahead().inner().remaining(), self.src(), self.pos() as int),
                self.src() == s,
                self.start == st,
                0 <= p0 <= self.pos() <= s.len(),
                trivia_len(rest_of(s, p0), false) == (self.pos() - p0) + trivia_len(rest_of(s, self.pos() as int), false),
                self.line() == l0 + newlines(s.subrange(p0, self.pos() as int)),
            ensures
                trivia_len(rest_of(s, self.pos() as int), false) == 0,
            decreases s.len() - self.pos(),
        {
            let ghost p = self.pos() as int;
            match self.peek_char() {
                None => {
                    break;
                },
                Some(c) => {
                    proof {
                        lemma_rest_advance(s, p);
                        lemma_newlines_extend(s, p0, p);
                    }
                    let mut comment = false;
                    if c == '/' {
                        comment = self.peek_second() == Some('/');
                    }
                    if c == '\n' {
                        self.advance();
                        self.line = self.line + 1;
                    } else if comment {
                        proof {
                            lemma_rest_advance(s, p + 1);
                            lemma_newlines_extend(s, p0, p + 1);
                            assert(rest_of(s, p).subrange(2, rest_of(s, p).len() as int) =~= rest_of(s, p + 2));
                        }
                        self.advance();
                        self.advance();
                        let ghost l1 = self.line();
                        self.skip_comment();
                        proof {
                            assert(s.subrange(p0, self.pos() as int) =~= s.subrange(p0, p + 2) + s.subrange(p + 2, self.pos() as int));
                            lemma_newlines_concat(s.subrange(p0, p + 2), s.subrange(p + 2, self.pos() as int));
                        }
                    } else if is_whitespace(c) {
                        self.advance();
                    } else {
                        break;
                    }
                },
            }
        }
    }

    fn scan_identifier(&mut self) -> (r: Token<'a>)
        requires
            old(self).wf(),
            in_step(old(self).lookahead().buffered(), old(self).lookahead().inner().remaining(), old(self).src(), old(self).pos() as int),
        ensures
            final(self).wf(),
            in_step(final(self).lookahead().buffered(), final(self).lookahead().inner().remaining(), final(self).src(), final(self).pos() as int),
            final(self).src() == old(self).src(),
            final(self).start == old(self).start,
            final(self).line == old(self).line,
            final(self).pos() == old(self).pos() + ident_len(old(self).rest()),
            r@ == (Lexed {
                kind: keyword_kind(old(self).src().subrange(old(self).start() as int, final(self).pos() as int)),
                text: old(self).src().subrange(old(self).start() as int, final(self).pos() as int),
                line: old(self).line(),
            }),
    {
        let ghost s = self.src();
        let ghost p0 = self.pos() as int;
        let ghost st = self.start;
        let ghost l0 = self.line;
        loop
            invariant
                self.wf(),
                in_step(self.lookahead().buffered(), self.lookahead().inner().remaining(), self.src(), self.pos() as int),
                self.src() == s,
                self.start == st,
                self.line == l0,
                0 <= p0 <= self.pos() <= s.len(),
                ident_len(rest_of(s, p0)) == (self.pos() - p0) + ident_len(rest_of(s, self.pos() as int)),
            ensures
                ident_len(rest_of(s, self.pos() as int)) == 0,
            decreases s.len() - self.pos(),
        {
            let ghost p = self.pos() as int;
            match self.peek_char() {
                None => {
                    break;
                },
                Some(c) => {
                    proof {
                        lemma_rest_advance(s, p);
                    }
                    if is_alphabetic(c) || c == '_' || is_ascii_digit(c) {
                        self.advance();
                    } else {
                        break;
                    }
                },
            }
        }
        let token_type = self.current_identifier_type();
        self.make_token(token_type)
    }

    fn current_identifier_type(&self) -> (r: TokenType)
        requires
            self.wf(),
        ensures
            r == keyword_kind(self.src().subrange(self.start() as int, self.pos() as int)),
    {
        let word = self.current_token();
        if text_is(word, "and") {
            TokenType::And
        } else if text_is(word, "class") {
            TokenType::Class
        } else if text_is(word, "else") {
            TokenType::Else
        } else if text_is(word, "if") {
            TokenType::If
        } else if text_is(word, "nil") {
            TokenType::Nil
        } else if text_is(word, "or") {
            TokenType::Or
        } else if text_is(word, "print") {
            TokenType::Print
        } else if text_is(word, "return") {
            TokenType::Return
        } else if text_is(word, "super") {
            TokenType::Super
        } else if text_is(word, "var") {
            TokenType::Var
        } else if text_is(word, "while") {
            TokenType::While
        } else if text_is(word, "fn") {
            TokenType::Fun
        } else if text_is(word, "false") {
            TokenType::False
        } else if text_is(word, "for") {
            TokenType::For
        } else if text_is(word, "this") {
            TokenType::This
        } else if text_is(word, "true") {
            TokenType::True
        } else {
            TokenType::Identifier
        }
    }

    fn scan_number(&mut self) -> (r: Token<'a>)
        requires
            old(self).wf(),
            in_step(old(self).lookahead().buffered(), old(self).lookahead().inner().remaining(), old(self).src(), old(self).pos() as int),
        ensures
            final(self).wf(),
            in_step(final(self).lookahead().buffered(), final(self).lookahead().inner().remaining(), final(self).src(), final(self).pos() as int),
            final(self).src() == old(self).src(),
            final(self).start == old(self).start,
            final(self).line == old(self).line,
            final(self).pos() == old(self).pos() + number_len(old(self).rest(), false),
            r@ == (Lexed {
                kind: TokenType::Number,
                text: old(self).src().subrange(old(self).start() as int, final(self).pos() as int),
                line: old(self).line(),
            }),
    {
        let ghost s = self.src();
        let ghost p0 = self.pos() as int;
        let ghost st = self.start;
        let ghost l0 = self.line;
        let mut saw_decimal_point = false;
        loop
            invariant
                self.wf(),
                in_step(self.lookahead().buffered(), self.lookahead().inner().remaining(), self.src(), self.pos() as int),
                self.src() == s,
                self.start == st,
                self.line == l0,
                0 <= p0 <= self.pos() <= s.len(),
                number_len(rest_of(s, p0), false) == (self.pos() - p0) + number_len(rest_of(s, self.pos() as int), saw_decimal_point),
            ensures
                number_len(rest_of(s, self.pos() as int), saw_decimal_point) == 0,
            decreases s.len() - self.pos(),
        {
            let ghost p = self.pos() as int;
            match self.peek_char() {
                None => {
                    break;
                },
                Some(c) => {
                    proof {
                        lemma_rest_advance(s, p);
                    }
                    if is_ascii_digit(c) {
                        self.advance();
                    } else if c == '.' && !saw_decimal_point {
                        saw_decimal_point = true;
                        self.advance();
                    } else {
                        break;
                    }
                },
            }
        }
        self.make_token(TokenType::Number)
    }

    fn scan_string(&mut self) -> (r: Token<'a>)
        requires
            old(self).wf(),
            in_step(old(self).lookahead().buffered(), old(self).lookahead().inner().remaining(), old(self).src(), old(self).pos() as int),
        ensures
            final(self).wf(),
            in_step(final(self).lookahead().buffered(), final(self).lookahead().inner().remaining(), final(self).src(), final(self).pos() as int),
            final(self).src() == old(self).src(),
            final(self).start == old(self).start,
            final(self).line == old(self).line,
            string_body_len(old(self).rest()) < old(self).rest().len() ==> final(self).pos() == old(self).pos() + string_body_len(old(self).rest()) + 1,
            string_body_len(old(self).rest()) >= old(self).rest().len() ==> final(self).pos() == old(self).src().len(),
            r@ == (Lexed {
                kind: if string_body_len(old(self).rest()) < old(self).rest().len() {
                    TokenType::String
                } else {
                    TokenType::Error
                },
                text: old(self).src().subrange(old(self).start() as int, final(self).pos() as int),
                line: old(self).line(),
            }),
    {
        let ghost s = self.src();
        let ghost p0 = self.pos() as int;
        let ghost st = self.start;
        let ghost l0 = self.line;
        proof {
            lemma_string_body_bound(rest_of(s, p0));
        }
        let mut closed = false;
        loop
            invariant_except_break
                !closed,
                string_body_len(rest_of(s, p0)) == (self.pos() - p0) + string_body_len(rest_of(s, self.pos() as int)),
            invariant
                self.wf(),
                in_step(self.lookahead().buffered(), self.lookahead().inner().remaining(), self.src(), self.pos() as int),
                self.src() == s,
                self.start == st,
                self.line == l0,
                0 <= p0 <= self.pos() <= s.len(),
            ensures
                closed ==> string_body_len(rest_of(s, p0)) == self.pos() - p0 - 1,
                closed ==> string_body_len(rest_of(s, p0)) < rest_of(s, p0).len(),
                !closed ==> string_body_len(rest_of(s, p0)) == self.pos() - p0,
                !closed ==> self.pos() == s.len(),
            decreases s.len() - self.pos(),
        {
            let ghost p = self.pos() as int;
            match self.peek_char() {
                None => {
                    break;
                },
                Some(c) => {
                    proof {
                        lemma_rest_advance(s, p);
                    }
                    self.advance();
                    if c == '"' {
                        closed = true;
                        break;
                    }
                },
            }
        }
        if closed {
            self.make_token(TokenType::String)
        } else {
            self.make_token(TokenType::Error)
        }
    }
    /// Skips trivia and produces the next token; `Eof`, with empty text,
    /// once only trivia is left.
    pub fn scan_token(&mut self) -> (r: Token<'a>)
        requires
            old(self).wf(),
            in_step(old(self).lookahead().buffered(), old(self).lookahead().inner().remaining(), old(self).src(), old(self).pos() as int),
        ensures
            final(self).wf(),
            in_step(final(self).lookahead().buffered(), final(self).lookahead().inner().remaining(), final(self).src(), final(self).pos() as int),
            final(self).src() == old(self).src(),
            final(self).pos() == old(self).pos() + step_len(old(self).rest()),
            final(self).line() == step_line(old(self).rest(), old(self).line()),
            r@ == step_token(old(self).rest(), old(self).line()),
    {
        let ghost s = self.src();
        let ghost p0 = self.pos() as int;
        let ghost r0 = self.rest();
        proof {
            lemma_trivia_bound(r0, false);
        }
        self.eat_whitespace();
        proof {
            lemma_encode_suffix(s, self.start as int);
        }
        let (_, rest) = split_chars(self.from_start, self.current - self.start);
        proof {
            assert(rest@ =~= rest_of(s, self.current as int));
        }
        self.from_start = rest;
        self.start = self.current;
        let ghost p1 = self.pos() as int;
        let ghost t = rest_of(s, p1);
        proof {
            assert(after_trivia(r0) =~= t);
            assert(r0.take(trivia_len(r0, false) as int) =~= s.subrange(p0, p1));
            lemma_lexeme_bound(t);
        }
        if self.at_end() {
            proof {
                assert(s.subrange(p1, p1) =~= t.take(0));
            }
            return self.make_token(TokenType::Eof);
        }
        proof {
            lemma_rest_advance(s, p1);
        }
        let c = self.advance().unwrap();
        proof {
            if p1 + 1 < s.len() {
                lemma_rest_advance(s, p1 + 1);
            }
        }
        let token = if is_alphabetic(c) || c == '_' {
            self.scan_identifier()
        } else if is_ascii_digit(c) {
            self.scan_number()
        } else if c == '"' {
            self.scan_string()
        } else {
            let token_type = match c {
                '+' => TokenType::Plus,
                '(' => TokenType::LeftParen,
                ')' => TokenType::RightParen,
                '{' => TokenType::LeftBrace,
                '}' => TokenType::RightBrace,
                ';' => TokenType::Semicolon,
                '-' => TokenType::Minus,
                '*' => TokenType::Star,
                '/' => TokenType::Slash,
                ',' => TokenType::Comma,
                '.' => TokenType::Dot,
                '!' => {
                    if self.matches('=') {
                        TokenType::BangEqual
                    } else {
                        TokenType::Bang
                    }
                },
                '=' => {
                    if self.matches('=') {
                        TokenType::EqualEqual
                    } else {
                        TokenType::Equal
                    }
                },
                '>' => {
                    if self.matches('=') {
                        TokenType::GreaterEqual
                    } else {
                        TokenType::Greater
                    }
                },
                '<' => {
                    if self.matches('=') {
                        TokenType::LessEqual
                    } else {
                        TokenType::Less
                    }
                },
                _ => TokenType::Error,
            };
            self.make_token(token_type)
        };
        proof {
            assert(s.subrange(p1, self.pos() as int) =~= t.take(lexeme_len(t) as int));
        }
        token
    }

    /// The next token, or `None` once the stream has reached `Eof`.
    pub fn next(&mut self) -> (r: Option<Token<'a>>)
        requires
            old(self).wf(),
            in_step(old(self).lookahead().buffered(), old(self).lookahead().inner().remaining(), old(self).src(), old(self).pos() as int),
        ensures
            final(self).wf(),
            in_step(final(self).lookahead().buffered(), final(self).lookahead().inner().remaining(), final(self).src(), final(self).pos() as int),
            final(self).src() == old(self).src(),
            final(self).pos() == old(self).pos() + step_len(old(self).rest()),
            final(self).line() == step_line(old(self).rest(), old(self).line()),
            r is None <==> step_token(old(self).rest(), old(self).line()).kind == TokenType::Eof,
            r is Some ==> r->0@ == step_token(old(self).rest(), old(self).line()),
    {
        let token = self.scan_token();
        if token.token_type == TokenType::Eof {
            None
        } else {
            Some(token)
        }
    }

    /// Every token of the rest of the source, in order, up to and without `Eof`.
    pub fn collect(self) -> (r: Vec<Token<'a>>)
        requires
            self.wf(),
            in_step(self.lookahead().buffered(), self.lookahead().inner().remaining(), self.src(), self.pos() as int),
        ensures
            r@.map_values(|t: Token<'a>| t@) == tokens(self.rest(), self.line()),
    {
        let ghost s = self.src();
        let ghost r0 = self.rest();
        let ghost l0 = self.line();
        let mut scan = self;
        let mut out: Vec<Token<'a>> = Vec::new();
        proof {
            assert(out@.map_values(|t: Token<'a>| t@) + tokens(r0, l0) =~= tokens(r0, l0));
        }
        loop
            invariant
                scan.wf(),
                in_step(scan.lookahead().buffered(), scan.lookahead().inner().remaining(), scan.src(), scan.pos() as int),
                scan.src() == s,
                out@.map_values(|t: Token<'a>| t@) + tokens(scan.rest(), scan.line()) == tokens(r0, l0),
            ensures
                out@.map_values(|t: Token<'a>| t@) == tokens(r0, l0),
            decreases s.len() - scan.pos(),
        {
            let ghost rr = scan.rest();
            let ghost ll = scan.line();
            let ghost before = out@.map_values(|t: Token<'a>| t@);
            proof {
                lemma_step_progress(rr);
                lemma_eof_iff_empty(after_trivia(rr));
            }
            match scan.next() {
                Some(token) => {
                    out.push(token);
                    proof {
                        assert(scan.rest() =~= rr.subrange(step_len(rr) as int, rr.len() as int));
                        assert(out@.map_values(|t: Token<'a>| t@) =~= before.push(token@));
                        assert(before.push(token@) + tokens(scan.rest(), scan.line()) =~= before + tokens(rr, ll));
                    }
                },
                None => {
                    proof {
                        assert(before + tokens(rr, ll) =~= before);
                    }
                    break;
                },
            }
        }
        out
    }
}

/// Whether two texts hold the same characters.
fn text_is(a: &str, b: &str) -> (r: bool)
    ensures
        r == (a@ == b@),
{
    let n = a.unicode_len();
    let m = b.unicode_len();
    if n != m {
        return false;
    }
    let mut i: usize = 0;
    while i < n
        invariant
            n == a@.len(),
            m == b@.len(),
            n == m,
            i <= n,
            forall|j: int| 0 <= j < i ==> a@[j] == b@[j],
        decreases n - i,
    {
        if a.get_char(i) != b.get_char(i) {
            return false;
        }
        i = i + 1;
    }
    assert(a@ =~= b@);
    true
}

} // verus!
