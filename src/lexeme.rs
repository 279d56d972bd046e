use vstd::prelude::*;
use crate::scanner::TokenType;

verus! {

/// Whether a character beyond ASCII has the Unicode `Alphabetic` property.
pub uninterp spec fn unicode_alphabetic(c: char) -> bool;

/// Whether a character beyond ASCII has the Unicode `White_Space` property.
pub uninterp spec fn unicode_white_space(c: char) -> bool;

/// The Unicode `Alphabetic` property: among ASCII characters, the letters.
pub open spec fn alphabetic(c: char) -> bool {
    if c <= '\x7f' {
        ('a' <= c && c <= 'z') || ('A' <= c && c <= 'Z')
    } else {
        unicode_alphabetic(c)
    }
}

/// The Unicode `White_Space` property: among ASCII characters, the space and
/// the controls from tab to carriage return.
pub open spec fn white_space(c: char) -> bool {
    if c <= '\x7f' {
        c == ' ' || ('\t' <= c && c <= '\r')
    } else {
        unicode_white_space(c)
    }
}

/// Relies on `char::is_alphabetic`: `true` for the ASCII letters and no other
/// ASCII character; beyond ASCII, whether `c` has the Unicode `Alphabetic`
/// property, which depends on `c` alone.
#[verifier::external_body]
pub(crate) fn is_alphabetic(c: char) -> (r: bool)
    ensures
        r == if c <= '\x7f' {
            ('a' <= c && c <= 'z') || ('A' <= c && c <= 'Z')
        } else {
            unicode_alphabetic(c)
        },
{
    c.is_alphabetic()
}

/// Relies on `char::is_whitespace`: `true` for the space and the ASCII
/// controls U+0009 to U+000D and no other ASCII character; beyond ASCII,
/// whether `c` has the Unicode `White_Space` property, which depends on `c`
/// alone.
#[verifier::external_body]
pub(crate) fn is_whitespace(c: char) -> (r: bool)
    ensures
        r == if c <= '\x7f' {
            c == ' ' || ('\t' <= c && c <= '\r')
        } else {
            unicode_white_space(c)
        },
{
    c.is_whitespace()
}

pub open spec fn digit(c: char) -> bool {
    '0' <= c && c <= '9'
}

pub(crate) fn is_ascii_digit(c: char) -> (r: bool)
    ensures
        r == digit(c),
{
    '0' <= c && c <= '9'
}

pub open spec fn starts_identifier(c: char) -> bool {
    alphabetic(c) || c == '_'
}

pub open spec fn continues_identifier(c: char) -> bool {
    alphabetic(c) || c == '_' || digit(c)
}

/// The character at index `i` of `s`, or `None` past either end.
pub open spec fn char_at(s: Seq<char>, i: int) -> Option<char> {
    if 0 <= i < s.len() {
        Some(s[i])
    } else {
        None
    }
}

pub open spec fn rest_of(s: Seq<char>, pos: int) -> Seq<char> {
    s.subrange(pos, s.len() as int)
}

/// Number of newline characters in `s`.
pub open spec fn newlines(s: Seq<char>) -> nat
    decreases s.len(),
{
    if s.len() == 0 {
        0
    } else {
        newlines(s.drop_last()) + if s.last() == '\n' {
            1nat
        } else {
            0nat
        }
    }
}

/// Length of the trivia at the start of `s`: newlines, other whitespace and
/// `//` comments, a comment running up to and including its newline.
/// `in_comment` says that a comment has been opened and not yet ended.
pub open spec fn trivia_len(s: Seq<char>, in_comment: bool) -> nat
    decreases s.len(),
{
    if s.len() == 0 {
        0
    } else if in_comment {
        if s[0] == '\n' {
            1 + trivia_len(s.drop_first(), false)
        } else {
            1 + trivia_len(s.drop_first(), true)
        }
    } else if s[0] == '\n' {
        1 + trivia_len(s.drop_first(), false)
    } else if s[0] == '/' && s.len() > 1 && s[1] == '/' {
        2 + trivia_len(s.subrange(2, s.len() as int), true)
    } else if white_space(s[0]) {
        1 + trivia_len(s.drop_first(), false)
    } else {
        0
    }
}

/// Length of the run of identifier characters at the start of `s`.
pub open spec fn ident_len(s: Seq<char>) -> nat
    decreases s.len(),
{
    if s.len() > 0 && continues_identifier(s[0]) {
        1 + ident_len(s.drop_first())
    } else {
        0
    }
}

/// Length of the digits at the start of `s`, with at most one decimal point
/// among them (none once `seen_point`).
pub open spec fn number_len(s: Seq<char>, seen_point: bool) -> nat
    decreases s.len(),
{
    if s.len() > 0 && digit(s[0]) {
        1 + number_len(s.drop_first(), seen_point)
    } else if s.len() > 0 && s[0] == '.' && !seen_point {
        1 + number_len(s.drop_first(), true)
    } else {
        0
    }
}

/// Number of characters before the first `"` of `s` (all of `s` if it has none).
pub open spec fn string_body_len(s: Seq<char>) -> nat
    decreases s.len(),
{
    if s.len() == 0 || s[0] == '"' {
        0
    } else {
        1 + string_body_len(s.drop_first())
    }
}

/// A string literal at the start of `t` (which opens with `"`) is closed.
pub open spec fn string_closed(t: Seq<char>) -> bool {
    string_body_len(t.drop_first()) < t.len() - 1
}

pub open spec fn pairs_with_equal(c: char) -> bool {
    c == '!' || c == '=' || c == '>' || c == '<'
}

/// Length of the lexeme at the start of `t`, which holds no leading trivia.
pub open spec fn lexeme_len(t: Seq<char>) -> nat {
    if t.len() == 0 {
        0
    } else if starts_identifier(t[0]) {
        1 + ident_len(t.drop_first())
    } else if digit(t[0]) {
        1 + number_len(t.drop_first(), false)
    } else if t[0] == '"' {
        if string_closed(t) {
            string_body_len(t.drop_first()) + 2
        } else {
            t.len()
        }
    } else if pairs_with_equal(t[0]) && t.len() > 1 && t[1] == '=' {
        2
    } else {
        1
    }
}

pub open spec fn keyword_kind(w: Seq<char>) -> TokenType {
    if w == "and"@ {
        TokenType::And
    } else if w == "class"@ {
        TokenType::Class
    } else if w == "else"@ {
        TokenType::Else
    } else if w == "if"@ {
        TokenType::If
    } else if w == "nil"@ {
        TokenType::Nil
    } else if w == "or"@ {
        TokenType::Or
    } else if w == "print"@ {
        TokenType::Print
    } else if w == "return"@ {
        TokenType::Return
    } else if w == "super"@ {
        TokenType::Super
    } else if w == "var"@ {
        TokenType::Var
    } else if w == "while"@ {
        TokenType::While
    } else if w == "fn"@ {
        TokenType::Fun
    } else if w == "false"@ {
        TokenType::False
    } else if w == "for"@ {
        TokenType::For
    } else if w == "this"@ {
        TokenType::This
    } else if w == "true"@ {
        TokenType::True
    } else {
        TokenType::Identifier
    }
}

/// Kind of a punctuation or operator lexeme opening with `c`, `equal_follows`
/// saying whether `=` comes right after it.
pub open spec fn symbol_kind(c: char, equal_follows: bool) -> TokenType {
    if c == '+' {
        TokenType::Plus
    } else if c == '(' {
        TokenType::LeftParen
    } else if c == ')' {
        TokenType::RightParen
    } else if c == '{' {
        TokenType::LeftBrace
    } else if c == '}' {
        TokenType::RightBrace
    } else if c == ';' {
        TokenType::Semicolon
    } else if c == '-' {
        TokenType::Minus
    } else if c == '*' {
        TokenType::Star
    } else if c == '/' {
        TokenType::Slash
    } else if c == ',' {
        TokenType::Comma
    } else if c == '.' {
        TokenType::Dot
    } else if c == '!' {
        if equal_follows {
            TokenType::BangEqual
        } else {
            TokenType::Bang
        }
    } else if c == '=' {
        if equal_follows {
            TokenType::EqualEqual
        } else {
            TokenType::Equal
        }
    } else if c == '>' {
        if equal_follows {
            TokenType::GreaterEqual
        } else {
            TokenType::Greater
        }
    } else if c == '<' {
        if equal_follows {
            TokenType::LessEqual
        } else {
            TokenType::Less
        }
    } else {
        TokenType::Error
    }
}

/// Kind of the lexeme at the start of `t`, which holds no leading trivia.
pub open spec fn lexeme_kind(t: Seq<char>) -> TokenType {
    if t.len() == 0 {
        TokenType::Eof
    } else if starts_identifier(t[0]) {
        keyword_kind(t.take(lexeme_len(t) as int))
    } else if digit(t[0]) {
        TokenType::Number
    } else if t[0] == '"' {
        if string_closed(t) {
            TokenType::String
        } else {
            TokenType::Error
        }
    } else {
        symbol_kind(t[0], t.len() > 1 && t[1] == '=')
    }
}

/// What a token is, as a value: its kind, its text and its line.
pub struct Lexed {
    pub kind: TokenType,
    pub text: Seq<char>,
    pub line: nat,
}

/// The input left once the trivia at the start of `r` is skipped.
pub open spec fn after_trivia(r: Seq<char>) -> Seq<char> {
    r.subrange(trivia_len(r, false) as int, r.len() as int)
}

/// Number of characters that one token step consumes from `r`.
pub open spec fn step_len(r: Seq<char>) -> nat {
    trivia_len(r, false) + lexeme_len(after_trivia(r))
}

/// The line that the token found in `r` starts on, `line` being the line of
/// the start of `r`.
pub open spec fn step_line(r: Seq<char>, line: nat) -> nat {
    line + newlines(r.take(trivia_len(r, false) as int))
}

/// The token that one step produces from the input `r`, read from `line` on;
/// its kind is `Eof` exactly when only trivia is left.
pub open spec fn step_token(r: Seq<char>, line: nat) -> Lexed {
    Lexed {
        kind: lexeme_kind(after_trivia(r)),
        text: after_trivia(r).take(lexeme_len(after_trivia(r)) as int),
        line: step_line(r, line),
    }
}

/// The tokens of `r` before `Eof`, read from `line` on.
pub open spec fn tokens(r: Seq<char>, line: nat) -> Seq<Lexed>
    decreases r.len(),
    via tokens_decreases
{
    if after_trivia(r).len() == 0 {
        Seq::empty()
    } else {
        seq![step_token(r, line)] + tokens(
            r.subrange(step_len(r) as int, r.len() as int),
            step_line(r, line),
        )
    }
}

#[via_fn]
proof fn tokens_decreases(r: Seq<char>, line: nat) {
    if after_trivia(r).len() != 0 {
        lemma_step_progress(r);
    }
}

pub proof fn lemma_trivia_bound(s: Seq<char>, in_comment: bool)
    ensures
        trivia_len(s, in_comment) <= s.len(),
    decreases s.len(),
{
    if s.len() > 0 {
        lemma_trivia_bound(s.drop_first(), false);
        lemma_trivia_bound(s.drop_first(), true);
        if s.len() > 1 {
            lemma_trivia_bound(s.subrange(2, s.len() as int), true);
        }
    }
}

proof fn lemma_ident_bound(s: Seq<char>)
    ensures
        ident_len(s) <= s.len(),
    decreases s.len(),
{
    if s.len() > 0 {
        lemma_ident_bound(s.drop_first());
    }
}

proof fn lemma_number_bound(s: Seq<char>, seen_point: bool)
    ensures
        number_len(s, seen_point) <= s.len(),
    decreases s.len(),
{
    if s.len() > 0 {
        lemma_number_bound(s.drop_first(), seen_point);
        lemma_number_bound(s.drop_first(), true);
    }
}

pub proof fn lemma_string_body_bound(s: Seq<char>)
    ensures
        string_body_len(s) <= s.len(),
        string_body_len(s) < s.len() ==> s[string_body_len(s) as int] == '"',
        forall|i: int| 0 <= i < string_body_len(s) ==> s[i] != '"',
    decreases s.len(),
{
    if s.len() > 0 && s[0] != '"' {
        lemma_string_body_bound(s.drop_first());
        assert forall|i: int| 0 <= i < string_body_len(s) implies s[i] != '"' by {
            if i > 0 {
                assert(s[i] == s.drop_first()[i - 1]);
            }
        }
    }
}

/// A lexeme fits in what is left, and takes at least one character when
/// anything is left.
pub proof fn lemma_lexeme_bound(t: Seq<char>)
    ensures
        lexeme_len(t) <= t.len(),
        t.len() > 0 ==> lexeme_len(t) >= 1,
{
    if t.len() > 0 {
        lemma_ident_bound(t.drop_first());
        lemma_number_bound(t.drop_first(), false);
        lemma_string_body_bound(t.drop_first());
    }
}

/// Each step that does not end the stream consumes at least one character.
pub proof fn lemma_step_progress(r: Seq<char>)
    ensures
        step_len(r) <= r.len(),
        after_trivia(r).len() > 0 ==> step_len(r) >= 1,
{
    lemma_trivia_bound(r, false);
    lemma_lexeme_bound(after_trivia(r));
}

/// Counting newlines over a range grows by the one character added at its end.
pub proof fn lemma_newlines_extend(s: Seq<char>, a: int, b: int)
    requires
        0 <= a <= b < s.len(),
    ensures
        newlines(s.subrange(a, b + 1)) == newlines(s.subrange(a, b)) + if s[b] == '\n' {
            1nat
        } else {
            0nat
        },
{
    assert(s.subrange(a, b + 1).drop_last() =~= s.subrange(a, b));
}

/// Dropping the first character of what is left from `p` leaves what is left
/// from `p + 1`.
pub proof fn lemma_rest_advance(s: Seq<char>, p: int)
    requires
        0 <= p < s.len(),
    ensures
        rest_of(s, p).len() > 0,
        rest_of(s, p)[0] == s[p],
        rest_of(s, p).drop_first() == rest_of(s, p + 1),
{
    assert(rest_of(s, p).drop_first() =~= rest_of(s, p + 1));
}

pub proof fn lemma_newlines_concat(a: Seq<char>, b: Seq<char>)
    ensures
        newlines(a + b) == newlines(a) + newlines(b),
    decreases b.len(),
{
    if b.len() > 0 {
        lemma_newlines_concat(a, b.drop_last());
        assert((a + b).drop_last() =~= a + b.drop_last());
    } else {
        assert(a + b =~= a);
    }
}

/// Only an empty input has the kind `Eof`.
pub proof fn lemma_eof_iff_empty(t: Seq<char>)
    ensures
        lexeme_kind(t) == TokenType::Eof <==> t.len() == 0,
{
}

/// `s` is made of whitespace and `//` comments alone.
pub open spec fn only_trivia(s: Seq<char>) -> bool {
    trivia_len(s, false) == s.len()
}

/// The string literal with body `body`, quotes included.
pub open spec fn quoted(body: Seq<char>) -> Seq<char> {
    seq!['"'] + body + seq!['"']
}

proof fn lemma_string_body_quoted(body: Seq<char>)
    requires
        forall|i: int| 0 <= i < body.len() ==> body[i] != '"',
    ensures
        string_body_len(body + seq!['"']) == body.len(),
    decreases body.len(),
{
    if body.len() > 0 {
        assert((body + seq!['"']).drop_first() =~= body.drop_first() + seq!['"']);
        lemma_string_body_quoted(body.drop_first());
    } else {
        assert(body + seq!['"'] =~= seq!['"']);
    }
}

proof fn lemma_comment_trivia(c: Seq<char>, t: Seq<char>)
    requires
        forall|i: int| 0 <= i < c.len() ==> c[i] != '\n',
    ensures
        trivia_len(c + seq!['\n'] + t, true) == c.len() + 1 + trivia_len(t, false),
        newlines(c) == 0,
    decreases c.len(),
{
    if c.len() > 0 {
        assert((c + seq!['\n'] + t).drop_first() =~= c.drop_first() + seq!['\n'] + t);
        lemma_comment_trivia(c.drop_first(), t);
        lemma_no_newlines(c);
    } else {
        assert((c + seq!['\n'] + t).drop_first() =~= t);
    }
}

proof fn lemma_no_newlines(c: Seq<char>)
    requires
        forall|i: int| 0 <= i < c.len() ==> c[i] != '\n',
    ensures
        newlines(c) == 0,
    decreases c.len(),
{
    if c.len() > 0 {
        lemma_no_newlines(c.drop_last());
    }
}

/// An empty source has no token before `Eof`: its first step yields `Eof`,
/// with empty text, on the line it starts on.
pub proof fn law_empty_source(line: nat)
    ensures
        tokens(Seq::empty(), line) == Seq::<Lexed>::empty(),
        step_token(Seq::empty(), line) == (Lexed { kind: TokenType::Eof, text: Seq::empty(), line }),
        step_len(Seq::empty()) == 0,
{
    assert(after_trivia(Seq::<char>::empty()) =~= Seq::<char>::empty());
    assert(Seq::<char>::empty().take(0) =~= Seq::<char>::empty());
}

/// A source of whitespace and comments alone has no token before `Eof`: the
/// first step consumes all of it and yields `Eof` on the line that follows
/// each of its newlines.
pub proof fn law_only_trivia(s: Seq<char>, line: nat)
    requires
        only_trivia(s),
    ensures
        tokens(s, line) == Seq::<Lexed>::empty(),
        step_token(s, line).kind == TokenType::Eof,
        step_token(s, line).text == Seq::<char>::empty(),
        step_token(s, line).line == line + newlines(s),
        step_len(s) == s.len(),
{
    assert(after_trivia(s) =~= Seq::<char>::empty());
    assert(s.take(s.len() as int) =~= s);
    assert(after_trivia(s).take(0) =~= Seq::<char>::empty());
}

/// A string literal whose body holds no quote, whatever else it holds
/// (multi-byte characters, newlines), is a single `String` token whose text is
/// the literal itself, quotes included.
pub proof fn law_string_literal(body: Seq<char>, line: nat)
    requires
        forall|i: int| 0 <= i < body.len() ==> body[i] != '"',
    ensures
        tokens(quoted(body), line) == seq![
            Lexed { kind: TokenType::String, text: quoted(body), line },
        ],
{
    let lit = quoted(body);
    assert(lit[0] == '"');
    assert(after_trivia(lit) =~= lit);
    assert(lit.drop_first() =~= body + seq!['"']);
    lemma_string_body_quoted(body);
    assert(lit.take(lit.len() as int) =~= lit);
    assert(lit.take(0) =~= Seq::<char>::empty());
    let tail = lit.subrange(step_len(lit) as int, lit.len() as int);
    assert(tail =~= Seq::<char>::empty());
    assert(after_trivia(tail) =~= Seq::<char>::empty());
    assert(tokens(tail, line) =~= Seq::<Lexed>::empty());
    assert(tokens(lit, line) =~= seq![step_token(lit, line)] + tokens(tail, line));
}

/// A `//` comment runs to the end of its line: a source that opens with a
/// comment line yields the tokens of what follows that line, each one line
/// further down, the comment's text being skipped and its newline counted.
pub proof fn law_comment_line(c: Seq<char>, t: Seq<char>, line: nat)
    requires
        forall|i: int| 0 <= i < c.len() ==> c[i] != '\n',
    ensures
        tokens(seq!['/', '/'] + c + seq!['\n'] + t, line) == tokens(t, line + 1),
{
    let r = seq!['/', '/'] + c + seq!['\n'] + t;
    let n = c.len() + 3;
    assert(r.subrange(2, r.len() as int) =~= c + seq!['\n'] + t);
    lemma_comment_trivia(c, t);
    lemma_trivia_bound(t, false);
    let k = trivia_len(t, false);
    assert(trivia_len(r, false) == n + k);
    assert(after_trivia(r) =~= after_trivia(t));
    assert(r.take((n + k) as int) =~= (seq!['/', '/'] + c + seq!['\n']) + t.take(k as int));
    lemma_newlines_concat(seq!['/', '/'] + c + seq!['\n'], t.take(k as int));
    assert(seq!['/', '/'] + c + seq!['\n'] =~= (seq!['/', '/'] + c) + seq!['\n']);
    lemma_newlines_concat(seq!['/', '/'] + c, seq!['\n']);
    lemma_newlines_concat(seq!['/', '/'], c);
    lemma_no_newlines(seq!['/', '/']);
    assert(seq!['\n'].drop_last() =~= Seq::<char>::empty());
    assert(newlines(Seq::<char>::empty()) == 0);
    assert(newlines(seq!['\n']) == 1);
    assert(step_line(r, line) == step_line(t, line + 1));
    lemma_step_progress(t);
    assert(r.subrange(step_len(r) as int, r.len() as int) =~= t.subrange(step_len(t) as int, t.len() as int));
}

/// Line numbers never go down along the token stream, and none is before the
/// line that the input starts on.
pub proof fn law_lines_ordered(r: Seq<char>, line: nat)
    ensures
        forall|i: int| 0 <= i < tokens(r, line).len() ==> line <= #[trigger] tokens(r, line)[i].line,
        forall|i: int, j: int|
            0 <= i <= j < tokens(r, line).len() ==> tokens(r, line)[i].line <= tokens(r, line)[j].line,
    decreases r.len(),
{
    if after_trivia(r).len() != 0 {
        lemma_step_progress(r);
        let tail = r.subrange(step_len(r) as int, r.len() as int);
        let l1 = step_line(r, line);
        law_lines_ordered(tail, l1);
        let ts = tokens(r, line);
        assert(ts == seq![step_token(r, line)] + tokens(tail, l1));
        assert forall|i: int| 0 <= i < ts.len() implies line <= #[trigger] ts[i].line by {
            if i > 0 {
                assert(ts[i] == tokens(tail, l1)[i - 1]);
            }
        }
        assert forall|i: int, j: int| 0 <= i <= j < ts.len() implies ts[i].line <= ts[j].line by {
            if i > 0 {
                assert(ts[i] == tokens(tail, l1)[i - 1]);
            }
            if j > 0 {
                assert(ts[j] == tokens(tail, l1)[j - 1]);
            }
        }
    }
}

} // verus!
