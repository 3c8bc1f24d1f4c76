//! SQL lexer: turns SQL text into a sequence of tokens.
//!
//! The scanning rules are stated as spec functions over the input
//! characters and a position `(offset, line, column)`; the executable lexer
//! is proved to follow them token by token.
use vstd::prelude::*;
use crate::sql::tokens::{Token, TokenType, TokenTypeView, spec_keyword, upper_case};
use crate::text::{chars_of, is_digit, push_char, string_of};

verus! {

/// What `char::is_alphabetic` answers for a character (the Unicode
/// `Alphabetic` property).
pub uninterp spec fn char_alphabetic(c: char) -> bool;

/// What `char::is_alphanumeric` answers for a character.
pub uninterp spec fn char_alphanumeric(c: char) -> bool;

/// Whether a character is alphabetic, as `char::is_alphabetic` answers: for
/// ASCII, exactly the letters; beyond, the Unicode `Alphabetic` property.
pub open spec fn alphabetic(c: char) -> bool {
    if (c as u32) < 0x80 { 'a' <= c <= 'z' || 'A' <= c <= 'Z' } else { char_alphabetic(c) }
}

/// Whether a character is alphanumeric, as `char::is_alphanumeric` answers:
/// for ASCII, exactly the letters and digits.
pub open spec fn alphanumeric(c: char) -> bool {
    if (c as u32) < 0x80 { 'a' <= c <= 'z' || 'A' <= c <= 'Z' || '0' <= c <= '9' } else { char_alphanumeric(c) }
}

/// The characters with the Unicode `White_Space` property, which
/// `char::is_whitespace` tests for.
pub open spec fn char_whitespace(c: char) -> bool {
    let u = c as u32;
    ||| 0x09 <= u <= 0x0D
    ||| u == 0x20
    ||| u == 0x85
    ||| u == 0xA0
    ||| u == 0x1680
    ||| 0x2000 <= u <= 0x200A
    ||| u == 0x2028
    ||| u == 0x2029
    ||| u == 0x202F
    ||| u == 0x205F
    ||| u == 0x3000
}

/// `char::is_alphabetic`; the Unicode tables behind it are not restated,
/// beyond what it answers for ASCII: true exactly for the letters.
#[verifier::external_body]
fn is_alphabetic(c: char) -> (b: bool)
    ensures
        b == char_alphabetic(c),
        (c as u32) < 0x80 ==> (b <==> ('a' <= c <= 'z' || 'A' <= c <= 'Z')),
{
    c.is_alphabetic()
}

/// `char::is_alphanumeric`: true exactly when the character is alphabetic or
/// numeric, as its documentation says; the Unicode tables behind it are not
/// restated.
#[verifier::external_body]
fn is_alphanumeric(c: char) -> (b: bool)
    ensures
        b == char_alphanumeric(c),
        char_alphabetic(c) ==> b,
        (c as u32) < 0x80 ==> (b <==> ('a' <= c <= 'z' || 'A' <= c <= 'Z' || '0' <= c <= '9')),
{
    c.is_alphanumeric()
}

/// Whether a character is whitespace (`char::is_whitespace`): it has the
/// Unicode `White_Space` property.
pub(crate) fn is_whitespace(c: char) -> (b: bool)
    ensures
        b == char_whitespace(c),
{
    let u = c as u32;
    (0x09 <= u && u <= 0x0D) || u == 0x20 || u == 0x85 || u == 0xA0 || u == 0x1680
        || (0x2000 <= u && u <= 0x200A) || u == 0x2028 || u == 0x2029 || u == 0x202F || u == 0x205F
        || u == 0x3000
}

/// A scanning position: offset into the input, line and column.
pub type LexPos = (nat, nat, nat);

/// The character at an offset, or NUL past the end.
pub open spec fn char_at(input: Seq<char>, i: int) -> char {
    if 0 <= i < input.len() { input[i] } else { '\0' }
}

/// Line and column after reading one character.
pub open spec fn step_pos(c: char, line: nat, col: nat) -> (nat, nat) {
    if c == '\n' { (line + 1, 1) } else { (line, col + 1) }
}

/// Line and column after reading `input[from..to]`, starting at `(line, col)`.
pub open spec fn walk(input: Seq<char>, from: int, to: int, line: nat, col: nat) -> (nat, nat)
    decreases to - from,
{
    if to <= from {
        (line, col)
    } else {
        let lc = walk(input, from, to - 1, line, col);
        step_pos(input[to - 1], lc.0, lc.1)
    }
}

/// The position reached by reading forward from `s` up to offset `q`.
pub open spec fn advance_to(input: Seq<char>, s: LexPos, q: nat) -> LexPos {
    let lc = walk(input, s.0 as int, q as int, s.1, s.2);
    (q, lc.0, lc.1)
}

/// The classes of characters that the lexer reads in runs.
pub open spec fn run_pred(kind: u8, c: char) -> bool {
    if kind == 0 {
        char_whitespace(c)
    } else if kind == 1 {
        is_digit(c)
    } else if kind == 2 {
        alphabetic(c) || alphanumeric(c) || c == '_'
    } else {
        c != '\n'
    }
}

/// The end of the longest run of characters of one class starting at `p`.
pub open spec fn run_end(input: Seq<char>, p: nat, kind: u8) -> nat
    decreases input.len() - p,
{
    if p < input.len() && run_pred(kind, input[p as int]) {
        run_end(input, p + 1, kind)
    } else {
        p
    }
}

/// The end of a block comment whose body starts at `p`: just past the
/// first `*/`, or the end of the input.
pub open spec fn block_end(input: Seq<char>, p: nat) -> nat
    decreases input.len() - p,
{
    if p >= input.len() {
        p
    } else if input[p as int] == '*' && p + 1 < input.len() && input[(p + 1) as int] == '/' {
        p + 2
    } else {
        block_end(input, p + 1)
    }
}

/// Reads the body of a string literal from `i`, with `acc` read so far:
/// `''` stands for a quote, a backslash takes the next character as it is.
/// Gives the contents (none if the literal is not closed) and the offset
/// after it.
pub open spec fn string_scan(input: Seq<char>, i: nat, acc: Seq<char>) -> (Option<Seq<char>>, nat)
    decreases input.len() - i,
{
    if i >= input.len() {
        (None, i)
    } else if input[i as int] == '\'' {
        if i + 1 < input.len() && input[(i + 1) as int] == '\'' {
            string_scan(input, i + 2, acc.push('\''))
        } else {
            (Some(acc), i + 1)
        }
    } else if input[i as int] == '\\' {
        if i + 1 < input.len() {
            string_scan(input, i + 2, acc.push(input[(i + 1) as int]))
        } else {
            (None, i + 1)
        }
    } else {
        string_scan(input, i + 1, acc.push(input[i as int]))
    }
}

/// The end of a numeric literal starting at `p`: digits, then optionally a
/// point followed by at least one digit and the digits after it.
pub open spec fn number_end(input: Seq<char>, p: nat) -> nat {
    let d = run_end(input, p, 1);
    if d < input.len() && input[d as int] == '.' && d + 1 < input.len() && is_digit(input[(d + 1) as int]) {
        run_end(input, d + 1, 1)
    } else {
        d
    }
}

/// The position after whitespace and comments, starting from `s`.
pub open spec fn skip_trivia(input: Seq<char>, s: LexPos) -> LexPos
    decreases input.len() - s.0,
{
    let p1 = run_end(input, s.0, 0);
    let s1 = advance_to(input, s, p1);
    if p1 + 1 < input.len() && input[p1 as int] == '-' && input[(p1 + 1) as int] == '-' {
        let p2 = run_end(input, p1, 3);
        if s.0 < p2 <= input.len() {
            skip_trivia(input, advance_to(input, s1, p2))
        } else {
            s1
        }
    } else if p1 + 1 < input.len() && input[p1 as int] == '/' && input[(p1 + 1) as int] == '*' {
        let p2 = block_end(input, p1 + 2);
        if s.0 < p2 <= input.len() {
            skip_trivia(input, advance_to(input, s1, p2))
        } else {
            s1
        }
    } else {
        s1
    }
}

/// The message for a character that starts no token.
pub open spec fn unexpected_char(c: char) -> Seq<char> {
    "Unexpected character: "@.push(c)
}

/// The operator or delimiter at `p`, and how many characters it takes.
pub open spec fn operator_at(input: Seq<char>, p: int) -> (TokenTypeView, nat) {
    let ch = input[p];
    let c1 = char_at(input, p + 1int);
    if ch == '(' { (TokenTypeView::LeftParen, 1) }
    else if ch == ')' { (TokenTypeView::RightParen, 1) }
    else if ch == ',' { (TokenTypeView::Comma, 1) }
    else if ch == ';' { (TokenTypeView::Semicolon, 1) }
    else if ch == '.' { (TokenTypeView::Dot, 1) }
    else if ch == '+' { (TokenTypeView::Plus, 1) }
    else if ch == '-' { (TokenTypeView::Minus, 1) }
    else if ch == '*' { (TokenTypeView::Star, 1) }
    else if ch == '/' { (TokenTypeView::Slash, 1) }
    else if ch == '%' { (TokenTypeView::Percent, 1) }
    else if ch == '=' { (TokenTypeView::Equal, 1) }
    else if ch == '!' {
        if c1 == '=' { (TokenTypeView::NotEqual, 2) } else { (TokenTypeView::Invalid(unexpected_char(ch)), 1) }
    } else if ch == '<' {
        if c1 == '=' { (TokenTypeView::LessEqual, 2) }
        else if c1 == '>' { (TokenTypeView::NotEqual, 2) }
        else { (TokenTypeView::Less, 1) }
    } else if ch == '>' {
        if c1 == '=' { (TokenTypeView::GreaterEqual, 2) } else { (TokenTypeView::Greater, 1) }
    } else {
        (TokenTypeView::Invalid(unexpected_char(ch)), 1)
    }
}

/// The token read from position `s`: its type, its line and column, and the
/// position after it.
pub open spec fn spec_next_token(input: Seq<char>, s: LexPos) -> (TokenTypeView, nat, nat, LexPos) {
    let t = skip_trivia(input, s);
    let p = t.0;
    if p >= input.len() {
        (TokenTypeView::Eof, t.1, t.2, t)
    } else {
        let ch = input[p as int];
        if ch == '\'' {
            let r = string_scan(input, p + 1, Seq::empty());
            let kind = match r.0 {
                Some(v) => TokenTypeView::String(v),
                None => TokenTypeView::Invalid("Unterminated string"@),
            };
            (kind, t.1, t.2, advance_to(input, t, r.1))
        } else if is_digit(ch) {
            let e = number_end(input, p);
            (TokenTypeView::Number(input.subrange(p as int, e as int)), t.1, t.2, advance_to(input, t, e))
        } else if alphabetic(ch) || ch == '_' {
            let e = run_end(input, p, 2);
            let w = input.subrange(p as int, e as int);
            let kind = match spec_keyword(upper_case(w)) {
                Some(k) => k,
                None => TokenTypeView::Identifier(w),
            };
            (kind, t.1, t.2, advance_to(input, t, e))
        } else {
            let o = operator_at(input, p as int);
            (o.0, t.1, t.2, advance_to(input, t, p + o.1))
        }
    }
}

/// The whole token sequence read from position `s`, ending with `Eof`.
pub open spec fn spec_tokenize(input: Seq<char>, s: LexPos) -> Seq<(TokenTypeView, nat, nat)>
    decreases input.len() - s.0,
{
    let r = spec_next_token(input, s);
    let tok = (r.0, r.1, r.2);
    if r.0 is Eof {
        seq![tok]
    } else if s.0 < r.3.0 <= input.len() {
        seq![tok] + spec_tokenize(input, r.3)
    } else {
        seq![tok]
    }
}

/// The spec view of a token: its type, line and column.
pub open spec fn token_view(t: Token) -> (TokenTypeView, nat, nat) {
    (t.token_type@, t.line as nat, t.column as nat)
}

proof fn lemma_run_end_bounds(input: Seq<char>, p: nat, kind: u8)
    requires
        p <= input.len(),
    ensures
        p <= run_end(input, p, kind) <= input.len(),
    decreases input.len() - p,
{
    if p < input.len() && run_pred(kind, input[p as int]) {
        lemma_run_end_bounds(input, p + 1, kind);
    }
}

proof fn lemma_block_end_bounds(input: Seq<char>, p: nat)
    requires
        p <= input.len(),
    ensures
        p <= block_end(input, p) <= input.len(),
    decreases input.len() - p,
{
    if p < input.len() && !(input[p as int] == '*' && p + 1 < input.len() && input[(p + 1) as int] == '/') {
        lemma_block_end_bounds(input, p + 1);
    }
}

proof fn lemma_string_scan_bounds(input: Seq<char>, i: nat, acc: Seq<char>)
    requires
        i <= input.len(),
    ensures
        i <= string_scan(input, i, acc).1 <= input.len(),
    decreases input.len() - i,
{
    if i < input.len() {
        if input[i as int] == '\'' {
            if i + 1 < input.len() && input[(i + 1) as int] == '\'' {
                lemma_string_scan_bounds(input, i + 2, acc.push('\''));
            }
        } else if input[i as int] == '\\' {
            if i + 1 < input.len() {
                lemma_string_scan_bounds(input, i + 2, acc.push(input[(i + 1) as int]));
            }
        } else {
            lemma_string_scan_bounds(input, i + 1, acc.push(input[i as int]));
        }
    }
}

proof fn lemma_skip_trivia_bounds(input: Seq<char>, s: LexPos)
    requires
        s.0 <= input.len(),
    ensures
        s.0 <= skip_trivia(input, s).0 <= input.len(),
    decreases input.len() - s.0,
{
    let p1 = run_end(input, s.0, 0);
    lemma_run_end_bounds(input, s.0, 0);
    let s1 = advance_to(input, s, p1);
    if p1 + 1 < input.len() && input[p1 as int] == '-' && input[(p1 + 1) as int] == '-' {
        let p2 = run_end(input, p1, 3);
        lemma_run_end_bounds(input, p1, 3);
        if s.0 < p2 <= input.len() {
            lemma_skip_trivia_bounds(input, advance_to(input, s1, p2));
        }
    } else if p1 + 1 < input.len() && input[p1 as int] == '/' && input[(p1 + 1) as int] == '*' {
        let p2 = block_end(input, p1 + 2);
        lemma_block_end_bounds(input, p1 + 2);
        if s.0 < p2 <= input.len() {
            lemma_skip_trivia_bounds(input, advance_to(input, s1, p2));
        }
    }
}

/// A token other than `Eof` takes at least one character, and reading never
/// goes past the end.
proof fn lemma_next_token_progress(input: Seq<char>, s: LexPos)
    requires
        s.0 <= input.len(),
    ensures
        spec_next_token(input, s).3.0 <= input.len(),
        !(spec_next_token(input, s).0 is Eof) ==> s.0 < spec_next_token(input, s).3.0,
{
    let t = skip_trivia(input, s);
    lemma_skip_trivia_bounds(input, s);
    let p = t.0;
    if p < input.len() {
        let ch = input[p as int];
        if ch == '\'' {
            lemma_string_scan_bounds(input, p + 1, Seq::empty());
        } else if is_digit(ch) {
            lemma_run_end_bounds(input, p + 1, 1);
            let d = run_end(input, p, 1);
            if d < input.len() && input[d as int] == '.' && d + 1 < input.len() && is_digit(input[(d + 1) as int]) {
                lemma_run_end_bounds(input, d + 1, 1);
            }
        } else if alphabetic(ch) || ch == '_' {
            lemma_run_end_bounds(input, p + 1, 2);
        }
    }
}

/// Tokenizing always yields at least one token, and the last one is `Eof`:
/// the lexer's output is always a token sequence the parser accepts.
pub proof fn law_tokenize_ends_with_eof(input: Seq<char>, s: LexPos)
    requires
        s.0 <= input.len(),
    ensures
        spec_tokenize(input, s).len() > 0,
        spec_tokenize(input, s).last().0 is Eof,
    decreases input.len() - s.0,
{
    let r = spec_next_token(input, s);
    if s.0 <= input.len() {
        lemma_next_token_progress(input, s);
    }
    if !(r.0 is Eof) && s.0 < r.3.0 <= input.len() {
        law_tokenize_ends_with_eof(input, r.3);
        let rest = spec_tokenize(input, r.3);
        assert((seq![(r.0, r.1, r.2)] + rest).last() == rest.last());
    }
}

/// SQL Lexer for tokenization
pub struct Lexer {
    input: Vec<char>,
    position: usize,
    line: usize,
    column: usize,
}

impl Lexer {
    /// The characters being read.
    pub closed spec fn chars(&self) -> Seq<char> {
        self.input@
    }

    /// The current position: offset, line and column.
    pub closed spec fn pos(&self) -> LexPos {
        (self.position as nat, self.line as nat, self.column as nat)
    }

    /// The lexer's invariant: the position lies within the input, and line
    /// and column never exceed the offset plus one.
    pub closed spec fn wf(&self) -> bool {
        &&& self.position <= self.input.len()
        &&& self.input.len() < usize::MAX
        &&& 1 <= self.line <= self.position + 1
        &&& 1 <= self.column <= self.position + 1
    }

    /// Create a new lexer from SQL input
    pub fn new(input: &str) -> (l: Self)
        requires
            input@.len() < usize::MAX,
        ensures
            l.wf(),
            l.chars() == input@,
            l.pos() == (0nat, 1nat, 1nat),
    {
        Lexer { input: chars_of(input), position: 0, line: 1, column: 1 }
    }

    /// Tokenize the rest of the input, up to and including `Eof`
    pub fn tokenize(&mut self) -> (tokens: Vec<Token>)
        requires
            old(self).wf(),
        ensures
            final(self).wf(),
            final(self).chars() == old(self).chars(),
            tokens@.map_values(|t: Token| token_view(t)) == spec_tokenize(old(self).chars(), old(self).pos()),
    {
        let mut tokens: Vec<Token> = Vec::new();
        let ghost input = self.chars();
        let ghost start = self.pos();
        loop
            invariant_except_break
                self.wf(),
                self.chars() == input,
                tokens@.map_values(|t: Token| token_view(t)) + spec_tokenize(input, self.pos())
                    == spec_tokenize(input, start),
            ensures
                self.wf(),
                self.chars() == input,
                tokens@.map_values(|t: Token| token_view(t)) == spec_tokenize(input, start),
            decreases input.len() - self.pos().0,
        {
            let ghost before = self.pos();
            let ghost old_tokens = tokens@;
            let token = self.next_token();
            let is_eof = matches!(token.token_type, TokenType::Eof);
            let ghost tv = token_view(token);
            tokens.push(token);
            proof {
                assert(tokens@.map_values(|t: Token| token_view(t)) =~= old_tokens.map_values(
                    |t: Token| token_view(t),
                ).push(tv));
                let rest = spec_tokenize(input, before);
                if is_eof {
                    assert(rest == seq![tv]);
                } else {
                    assert(rest == seq![tv] + spec_tokenize(input, self.pos()));
                }
            }
            if is_eof {
                proof {
                    assert(old_tokens.map_values(|t: Token| token_view(t)) + seq![tv] =~= tokens@.map_values(
                        |t: Token| token_view(t),
                    ));
                }
                break;
            }
            proof {
                assert(old_tokens.map_values(|t: Token| token_view(t)) + (seq![tv] + spec_tokenize(input, self.pos()))
                    =~= tokens@.map_values(|t: Token| token_view(t)) + spec_tokenize(input, self.pos()));
            }
        }
        tokens
    }

    /// Get the next token
    pub fn next_token(&mut self) -> (t: Token)
        requires
            old(self).wf(),
        ensures
            final(self).wf(),
            final(self).chars() == old(self).chars(),
            ({
                let r = spec_next_token(old(self).chars(), old(self).pos());
                &&& t.token_type@ == r.0
                &&& t.line == r.1
                &&& t.column == r.2
                &&& final(self).pos() == r.3
            }),
            !(t.token_type@ is Eof) ==> old(self).pos().0 < final(self).pos().0,
    {
        let ghost input = self.chars();
        let ghost s0 = self.pos();
        self.skip_trivia();
        let ghost t = self.pos();
        let line = self.line;
        let column = self.column;
        if self.is_at_end() {
            return Token::new(TokenType::Eof, line, column);
        }
        let ch = self.current_char();
        if ch == '\'' {
            return self.read_string(line, column);
        }
        if '0' <= ch && ch <= '9' {
            return self.read_number(line, column);
        }
        if is_alphabetic(ch) || ch == '_' {
            return self.read_identifier(line, column);
        }
        self.advance();
        let token_type = if ch == '(' {
            TokenType::LeftParen
        } else if ch == ')' {
            TokenType::RightParen
        } else if ch == ',' {
            TokenType::Comma
        } else if ch == ';' {
            TokenType::Semicolon
        } else if ch == '.' {
            TokenType::Dot
        } else if ch == '+' {
            TokenType::Plus
        } else if ch == '-' {
            TokenType::Minus
        } else if ch == '*' {
            TokenType::Star
        } else if ch == '/' {
            TokenType::Slash
        } else if ch == '%' {
            TokenType::Percent
        } else if ch == '=' {
            TokenType::Equal
        } else if ch == '!' {
            if self.current_char() == '=' {
                self.advance();
                TokenType::NotEqual
            } else {
                TokenType::Invalid(unexpected_message(ch))
            }
        } else if ch == '<' {
            if self.current_char() == '=' {
                self.advance();
                TokenType::LessEqual
            } else if self.current_char() == '>' {
                self.advance();
                TokenType::NotEqual
            } else {
                TokenType::Less
            }
        } else if ch == '>' {
            if self.current_char() == '=' {
                self.advance();
                TokenType::GreaterEqual
            } else {
                TokenType::Greater
            }
        } else {
            TokenType::Invalid(unexpected_message(ch))
        };
        proof {
            let o = operator_at(input, t.0 as int);
            assert(self.pos() == advance_to(input, t, t.0 + o.1));
        }
        Token::new(token_type, line, column)
    }

    /// Skips whitespace and comments, the way `next_token` does before it
    /// reads a token.
    fn skip_trivia(&mut self)
        requires
            old(self).wf(),
        ensures
            final(self).wf(),
            final(self).chars() == old(self).chars(),
            final(self).pos() == skip_trivia(old(self).chars(), old(self).pos()),
            old(self).pos().0 <= final(self).pos().0,
    {
        let ghost input = self.chars();
        let ghost start = self.pos();
        loop
            invariant_except_break
                self.wf(),
                self.chars() == input,
                skip_trivia(input, self.pos()) == skip_trivia(input, start),
                start.0 <= self.pos().0,
            ensures
                self.wf(),
                self.chars() == input,
                self.pos() == skip_trivia(input, start),
                start.0 <= self.pos().0,
            decreases input.len() - self.pos().0,
        {
            let ghost s = self.pos();
            self.skip_whitespace();
            let ghost s1 = self.pos();
            if self.is_at_end() {
                break;
            }
            let ch = self.current_char();
            if ch == '-' && self.peek() == Some('-') {
                self.skip_line_comment();
                proof {
                    lemma_run_end_bounds(input, s1.0 + 1, 3);
                }
            } else if ch == '/' && self.peek() == Some('*') {
                self.skip_block_comment();
                proof {
                    lemma_block_end_bounds(input, s1.0 + 2);
                }
            } else {
                break;
            }
        }
    }

    /// Reads a string literal whose opening quote is the current character.
    fn read_string(&mut self, line: usize, column: usize) -> (t: Token)
        requires
            old(self).wf(),
            old(self).pos().0 < old(self).chars().len(),
            old(self).chars()[old(self).pos().0 as int] == '\'',
        ensures
            final(self).wf(),
            final(self).chars() == old(self).chars(),
            ({
                let r = string_scan(old(self).chars(), old(self).pos().0 + 1, Seq::empty());
                &&& t.token_type@ == match r.0 {
                    Some(v) => TokenTypeView::String(v),
                    None => TokenTypeView::Invalid("Unterminated string"@),
                }
                &&& final(self).pos() == advance_to(old(self).chars(), old(self).pos(), r.1)
            }),
            t.line == line,
            t.column == column,
            old(self).pos().0 < final(self).pos().0,
    {
        let ghost input = self.chars();
        let ghost s0 = self.pos();
        self.advance();
        let mut value = String::new();
        while !self.is_at_end()
            invariant_except_break
                self.wf(),
                self.chars() == input,
                s0.0 < self.pos().0,
                self.pos() == advance_to(input, s0, self.pos().0),
                string_scan(input, self.pos().0, value@) == string_scan(input, s0.0 + 1, Seq::empty()),
            ensures
                self.wf(),
                self.chars() == input,
                s0.0 < self.pos().0,
                self.pos() == advance_to(input, s0, self.pos().0),
                string_scan(input, self.pos().0, value@) == string_scan(input, s0.0 + 1, Seq::empty()),
                self.pos().0 >= input.len() || (input[self.pos().0 as int] == '\'' && !(self.pos().0 + 1
                    < input.len() && input[(self.pos().0 + 1) as int] == '\'')),
            decreases input.len() - self.pos().0,
        {
            if self.current_char() == '\'' {
                if self.peek() == Some('\'') {
                    push_char(&mut value, '\'');
                    self.advance();
                    self.advance();
                } else {
                    break;
                }
            } else if self.current_char() == '\\' {
                self.advance();
                if !self.is_at_end() {
                    push_char(&mut value, self.current_char());
                    self.advance();
                }
            } else {
                push_char(&mut value, self.current_char());
                self.advance();
            }
        }
        if self.is_at_end() {
            return Token::new(TokenType::Invalid(string_of("Unterminated string")), line, column);
        }
        self.advance();
        Token::new(TokenType::String(value), line, column)
    }

    /// Reads a numeric literal whose first digit is the current character.
    fn read_number(&mut self, line: usize, column: usize) -> (t: Token)
        requires
            old(self).wf(),
            old(self).pos().0 < old(self).chars().len(),
            is_digit(old(self).chars()[old(self).pos().0 as int]),
        ensures
            final(self).wf(),
            final(self).chars() == old(self).chars(),
            ({
                let e = number_end(old(self).chars(), old(self).pos().0);
                &&& t.token_type@ == TokenTypeView::Number(old(self).chars().subrange(old(self).pos().0 as int, e as int))
                &&& final(self).pos() == advance_to(old(self).chars(), old(self).pos(), e)
            }),
            t.line == line,
            t.column == column,
            old(self).pos().0 < final(self).pos().0,
    {
        let ghost input = self.chars();
        let ghost s0 = self.pos();
        let mut value = String::new();
        while !self.is_at_end() && '0' <= self.current_char() && self.current_char() <= '9'
            invariant
                self.wf(),
                self.chars() == input,
                s0.0 <= self.pos().0,
                self.pos() == advance_to(input, s0, self.pos().0),
                value@ == input.subrange(s0.0 as int, self.pos().0 as int),
                run_end(input, self.pos().0, 1) == run_end(input, s0.0, 1),
            decreases input.len() - self.pos().0,
        {
            push_char(&mut value, self.current_char());
            self.advance();
            assert(value@ =~= input.subrange(s0.0 as int, self.pos().0 as int));
        }
        let ghost d = self.pos().0;
        if !self.is_at_end() && self.current_char() == '.' {
            if let Some(next) = self.peek() {
                if '0' <= next && next <= '9' {
                    push_char(&mut value, self.current_char());
                    self.advance();
                    assert(value@ =~= input.subrange(s0.0 as int, self.pos().0 as int));
                    while !self.is_at_end() && '0' <= self.current_char() && self.current_char() <= '9'
                        invariant
                            self.wf(),
                            self.chars() == input,
                            s0.0 <= self.pos().0,
                            self.pos() == advance_to(input, s0, self.pos().0),
                            value@ == input.subrange(s0.0 as int, self.pos().0 as int),
                            run_end(input, self.pos().0, 1) == run_end(input, d + 1, 1),
                        decreases input.len() - self.pos().0,
                    {
                        push_char(&mut value, self.current_char());
                        self.advance();
                        assert(value@ =~= input.subrange(s0.0 as int, self.pos().0 as int));
                    }
                }
            }
        }
        Token::new(TokenType::Number(value), line, column)
    }

    /// Reads an identifier or keyword starting at the current character.
    fn read_identifier(&mut self, line: usize, column: usize) -> (t: Token)
        requires
            old(self).wf(),
            old(self).pos().0 < old(self).chars().len(),
            alphabetic(old(self).chars()[old(self).pos().0 as int]) || old(self).chars()[old(self).pos().0 as int] == '_',
        ensures
            final(self).wf(),
            final(self).chars() == old(self).chars(),
            ({
                let e = run_end(old(self).chars(), old(self).pos().0, 2);
                let w = old(self).chars().subrange(old(self).pos().0 as int, e as int);
                &&& t.token_type@ == match spec_keyword(upper_case(w)) {
                    Some(k) => k,
                    None => TokenTypeView::Identifier(w),
                }
                &&& final(self).pos() == advance_to(old(self).chars(), old(self).pos(), e)
            }),
            t.line == line,
            t.column == column,
            old(self).pos().0 < final(self).pos().0,
    {
        let ghost input = self.chars();
        let ghost s0 = self.pos();
        let mut value = String::new();
        while !self.is_at_end()
            invariant_except_break
                self.wf(),
                self.chars() == input,
                s0.0 <= self.pos().0,
                self.pos() == advance_to(input, s0, self.pos().0),
                value@ == input.subrange(s0.0 as int, self.pos().0 as int),
                run_end(input, self.pos().0, 2) == run_end(input, s0.0, 2),
            ensures
                self.wf(),
                self.chars() == input,
                self.pos() == advance_to(input, s0, self.pos().0),
                value@ == input.subrange(s0.0 as int, self.pos().0 as int),
                self.pos().0 == run_end(input, s0.0, 2),
            decreases input.len() - self.pos().0,
        {
            let ch = self.current_char();
            if is_alphanumeric(ch) || ch == '_' {
                push_char(&mut value, ch);
                self.advance();
                assert(value@ =~= input.subrange(s0.0 as int, self.pos().0 as int));
            } else {
                break;
            }
        }
        proof {
            lemma_run_end_bounds(input, s0.0 + 1, 2);
        }
        let token_type = match TokenType::keyword(value.as_str()) {
            Some(k) => k,
            None => TokenType::Identifier(value),
        };
        Token::new(token_type, line, column)
    }

    fn skip_whitespace(&mut self)
        requires
            old(self).wf(),
        ensures
            final(self).wf(),
            final(self).chars() == old(self).chars(),
            final(self).pos() == advance_to(old(self).chars(), old(self).pos(), run_end(old(self).chars(), old(self).pos().0, 0)),
            old(self).pos().0 <= final(self).pos().0,
    {
        let ghost input = self.chars();
        let ghost s0 = self.pos();
        while !self.is_at_end()
            invariant_except_break
                self.wf(),
                self.chars() == input,
                s0.0 <= self.pos().0,
                self.pos() == advance_to(input, s0, self.pos().0),
                run_end(input, self.pos().0, 0) == run_end(input, s0.0, 0),
            ensures
                self.wf(),
                self.chars() == input,
                s0.0 <= self.pos().0,
                self.pos() == advance_to(input, s0, self.pos().0),
                self.pos().0 == run_end(input, s0.0, 0),
            decreases input.len() - self.pos().0,
        {
            let ch = self.current_char();
            if is_whitespace(ch) {
                self.advance();
            } else {
                break;
            }
        }
    }

    fn skip_line_comment(&mut self)
        requires
            old(self).wf(),
        ensures
            final(self).wf(),
            final(self).chars() == old(self).chars(),
            final(self).pos() == advance_to(old(self).chars(), old(self).pos(), run_end(old(self).chars(), old(self).pos().0, 3)),
    {
        let ghost input = self.chars();
        let ghost s0 = self.pos();
        while !self.is_at_end() && self.current_char() != '\n'
            invariant
                self.wf(),
                self.chars() == input,
                s0.0 <= self.pos().0,
                self.pos() == advance_to(input, s0, self.pos().0),
                run_end(input, self.pos().0, 3) == run_end(input, s0.0, 3),
            decreases input.len() - self.pos().0,
        {
            self.advance();
        }
    }

    fn skip_block_comment(&mut self)
        requires
            old(self).wf(),
            old(self).pos().0 + 1 < old(self).chars().len(),
        ensures
            final(self).wf(),
            final(self).chars() == old(self).chars(),
            final(self).pos() == advance_to(old(self).chars(), old(self).pos(), block_end(old(self).chars(), old(self).pos().0 + 2)),
            old(self).pos().0 < final(self).pos().0,
    {
        let ghost input = self.chars();
        let ghost s0 = self.pos();
        self.advance();
        self.advance();
        while !self.is_at_end()
            invariant_except_break
                self.wf(),
                self.chars() == input,
                s0.0 + 2 <= self.pos().0,
                self.pos() == advance_to(input, s0, self.pos().0),
                block_end(input, self.pos().0) == block_end(input, s0.0 + 2),
            ensures
                self.wf(),
                self.chars() == input,
                s0.0 + 2 <= self.pos().0,
                self.pos() == advance_to(input, s0, self.pos().0),
                self.pos().0 == block_end(input, s0.0 + 2),
            decreases input.len() - self.pos().0,
        {
            if self.current_char() == '*' && self.peek() == Some('/') {
                self.advance();
                self.advance();
                break;
            }
            self.advance();
        }
    }

    fn current_char(&self) -> (c: char)
        requires
            self.wf(),
        ensures
            c == char_at(self.chars(), self.pos().0 as int),
    {
        if self.is_at_end() {
            '\0'
        } else {
            self.input[self.position]
        }
    }

    fn peek(&self) -> (r: Option<char>)
        requires
            self.wf(),
        ensures
            r == (if self.pos().0 + 1 < self.chars().len() {
                Some(self.chars()[(self.pos().0 + 1) as int])
            } else {
                None::<char>
            }),
    {
        if self.position + 1 < self.input.len() {
            Some(self.input[self.position + 1])
        } else {
            None
        }
    }

    fn advance(&mut self)
        requires
            old(self).wf(),
        ensures
            final(self).wf(),
            final(self).chars() == old(self).chars(),
            old(self).pos().0 < old(self).chars().len() ==> final(self).pos() == advance_to(
                old(self).chars(),
                old(self).pos(),
                old(self).pos().0 + 1,
            ),
            forall|s0: LexPos|
                #![trigger advance_to(old(self).chars(), s0, (old(self).pos().0 + 1) as nat)]
                s0.0 <= old(self).pos().0 < old(self).chars().len() && old(self).pos() == advance_to(
                    old(self).chars(),
                    s0,
                    old(self).pos().0,
                ) ==> final(self).pos() == advance_to(old(self).chars(), s0, (old(self).pos().0 + 1) as nat),
            old(self).pos().0 >= old(self).chars().len() ==> final(self).pos() == old(self).pos(),
    {
        if !self.is_at_end() {
            if self.current_char() == '\n' {
                self.line = self.line + 1;
                self.column = 1;
            } else {
                self.column = self.column + 1;
            }
            self.position = self.position + 1;
            proof {
                reveal_with_fuel(walk, 2);
            }
        }
    }

    fn is_at_end(&self) -> (b: bool)
        requires
            self.wf(),
        ensures
            b == (self.pos().0 >= self.chars().len()),
    {
        self.position >= self.input.len()
    }
}

/// The message for an unexpected character.
fn unexpected_message(c: char) -> (m: String)
    ensures
        m@ == unexpected_char(c),
{
    let mut m = string_of("Unexpected character: ");
    push_char(&mut m, c);
    m
}

/// How the lexer reads comparison operators, wherever they stand: at `<`
/// followed by `>`, and at `!` followed by `=`, the token is `NotEqual`,
/// taking both characters; `<=` and `>=` are `LessEqual` and
/// `GreaterEqual`; a `<` or `>` followed by anything else is `Less` or
/// `Greater`, alone; `=` is `Equal`.
pub proof fn law_comparison_tokens(input: Seq<char>, s: LexPos)
    ensures
        ({
            let p = skip_trivia(input, s).0;
            let r = spec_next_token(input, s);
            let c0 = char_at(input, p as int);
            let c1 = char_at(input, p + 1int);
            &&& p < input.len() && c0 == '<' && c1 == '>' ==> r.0 == TokenTypeView::NotEqual && r.3.0 == p + 2
            &&& p < input.len() && c0 == '!' && c1 == '=' ==> r.0 == TokenTypeView::NotEqual && r.3.0 == p + 2
            &&& p < input.len() && c0 == '<' && c1 == '=' ==> r.0 == TokenTypeView::LessEqual && r.3.0 == p + 2
            &&& p < input.len() && c0 == '>' && c1 == '=' ==> r.0 == TokenTypeView::GreaterEqual && r.3.0 == p + 2
            &&& p < input.len() && c0 == '<' && c1 != '=' && c1 != '>' ==> r.0 == TokenTypeView::Less && r.3.0 == p + 1
            &&& p < input.len() && c0 == '>' && c1 != '=' ==> r.0 == TokenTypeView::Greater && r.3.0 == p + 1
            &&& p < input.len() && c0 == '=' ==> r.0 == TokenTypeView::Equal && r.3.0 == p + 1
        }),
{
}

/// `<>` and `!=` are one operator: read at the same place, they give the
/// same token and take the same room.
pub proof fn law_not_equal_spellings(a: Seq<char>, b: Seq<char>, sa: LexPos, sb: LexPos)
    requires
        skip_trivia(a, sa).0 + 1 < a.len(),
        a[skip_trivia(a, sa).0 as int] == '<',
        a[skip_trivia(a, sa).0 + 1int] == '>',
        skip_trivia(b, sb).0 + 1 < b.len(),
        b[skip_trivia(b, sb).0 as int] == '!',
        b[skip_trivia(b, sb).0 + 1int] == '=',
    ensures
        spec_next_token(a, sa).0 == spec_next_token(b, sb).0,
        spec_next_token(a, sa).3.0 - skip_trivia(a, sa).0 == spec_next_token(b, sb).3.0 - skip_trivia(b, sb).0,
{
    law_comparison_tokens(a, sa);
    law_comparison_tokens(b, sb);
}

/// The one-character delimiters and arithmetic operators: wherever one
/// stands, the lexer reads the token named for it, taking that character
/// alone.
pub proof fn law_single_char_tokens(input: Seq<char>, s: LexPos)
    ensures
        ({
            let p = skip_trivia(input, s).0;
            let r = spec_next_token(input, s);
            let c0 = char_at(input, p as int);
            &&& p < input.len() && c0 == '(' ==> r.0 == TokenTypeView::LeftParen && r.3.0 == p + 1
            &&& p < input.len() && c0 == ')' ==> r.0 == TokenTypeView::RightParen && r.3.0 == p + 1
            &&& p < input.len() && c0 == ',' ==> r.0 == TokenTypeView::Comma && r.3.0 == p + 1
            &&& p < input.len() && c0 == ';' ==> r.0 == TokenTypeView::Semicolon && r.3.0 == p + 1
            &&& p < input.len() && c0 == '.' ==> r.0 == TokenTypeView::Dot && r.3.0 == p + 1
            &&& p < input.len() && c0 == '+' ==> r.0 == TokenTypeView::Plus && r.3.0 == p + 1
            &&& p < input.len() && c0 == '-' ==> r.0 == TokenTypeView::Minus && r.3.0 == p + 1
            &&& p < input.len() && c0 == '*' ==> r.0 == TokenTypeView::Star && r.3.0 == p + 1
            &&& p < input.len() && c0 == '/' ==> r.0 == TokenTypeView::Slash && r.3.0 == p + 1
            &&& p < input.len() && c0 == '%' ==> r.0 == TokenTypeView::Percent && r.3.0 == p + 1
        }),
{
}

} // verus!
