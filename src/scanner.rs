use vstd::prelude::*;

use crate::error::Error;

verus! {

/// The lexical category of a token. Identifier, string and number tokens
/// carry their decoded payload in `Token::literal`.
#[derive(Clone, Copy, Debug, PartialEq, Eq, Structural)]
pub enum TokenType {
    // Single-character tokens
    LeftParen,
    RightParen,
    LeftBrace,
    RightBrace,
    Comma,
    Dot,
    Minus,
    Plus,
    Semicolon,
    Slash,
    Star,
    // One or two-character tokens
    Bang,
    BangEqual,
    Equal,
    EqualEqual,
    Greater,
    GreaterEqual,
    Less,
    LessEqual,
    // Literals
    Identifier,
    String,
    Number,
    // Keywords
    And,
    Class,
    Else,
    False,
    Fun,
    For,
    If,
    Nil,
    Or,
    Print,
    Return,
    Super,
    This,
    True,
    Var,
    While,
    // End of input
    Eof,
}

impl TokenType {
    /// Kind equality, independent of any payload a token carries.
    pub fn matches(&self, other: &Self) -> (r: bool)
        ensures
            r == (*self == *other),
    {
        *self == *other
    }
}

/// A lexical unit: its kind, the exact source text it was scanned from, its
/// decoded payload (the name of an identifier, the text between the quotes
/// of a string, the digits of a number; empty for every other kind) and the
/// line on which it was produced.
#[derive(Clone, Debug)]
pub struct Token {
    pub ty: TokenType,
    pub lexeme: String,
    pub literal: String,
    pub line: usize,
}

pub ghost struct TokenView {
    pub ty: TokenType,
    pub lexeme: Seq<char>,
    pub literal: Seq<char>,
    pub line: usize,
}

impl View for Token {
    type V = TokenView;

    open spec fn view(&self) -> TokenView {
        TokenView { ty: self.ty, lexeme: self.lexeme@, literal: self.literal@, line: self.line }
    }
}

impl Token {
    /// A copy of the token.
    pub fn duplicate(&self) -> (r: Token)
        ensures
            r@ == self@,
    {
        Token {
            ty: self.ty,
            lexeme: self.lexeme.clone(),
            literal: self.literal.clone(),
            line: self.line,
        }
    }
}

pub uninterp spec fn alphabetic(c: char) -> bool;

pub uninterp spec fn alphanumeric(c: char) -> bool;

pub open spec fn is_digit(c: char) -> bool {
    '0' <= c && c <= '9'
}

pub open spec fn is_ascii_letter(c: char) -> bool {
    ('a' <= c && c <= 'z') || ('A' <= c && c <= 'Z')
}

fn is_letter(c: char) -> (r: bool)
    ensures
        r == is_ascii_letter(c),
{
    ('a' <= c && c <= 'z') || ('A' <= c && c <= 'Z')
}

/// Relies on char::is_alphabetic: whether `c` has the Unicode Alphabetic
/// property.
#[verifier::external_body]
fn is_alphabetic(c: char) -> (r: bool)
    ensures
        r == alphabetic(c),
{
    c.is_alphabetic()
}

/// Relies on char::is_alphanumeric: whether `c` is alphabetic or numeric in
/// the Unicode sense.
#[verifier::external_body]
fn is_alphanumeric(c: char) -> (r: bool)
    ensures
        r == alphanumeric(c),
{
    c.is_alphanumeric()
}

/// Relies on str::chars: the characters of the string, in order.
#[verifier::external_body]
fn chars_of(s: &str) -> (r: Vec<char>)
    ensures
        r@ == s@,
{
    s.chars().collect()
}

/// Relies on String::push: appends one character at the end.
#[verifier::external_body]
fn push_char(s: &mut String, c: char)
    ensures
        final(s)@ == old(s)@.push(c),
{
    s.push(c)
}

pub open spec fn keyword_kind(w: Seq<char>) -> Option<TokenType> {
    if w == seq!['a', 'n', 'd'] {
        Some(TokenType::And)
    } else if w == seq!['c', 'l', 'a', 's', 's'] {
        Some(TokenType::Class)
    } else if w == seq!['e', 'l', 's', 'e'] {
        Some(TokenType::Else)
    } else if w == seq!['f', 'a', 'l', 's', 'e'] {
        Some(TokenType::False)
    } else if w == seq!['f', 'o', 'r'] {
        Some(TokenType::For)
    } else if w == seq!['f', 'u', 'n'] {
        Some(TokenType::Fun)
    } else if w == seq!['i', 'f'] {
        Some(TokenType::If)
    } else if w == seq!['n', 'i', 'l'] {
        Some(TokenType::Nil)
    } else if w == seq!['o', 'r'] {
        Some(TokenType::Or)
    } else if w == seq!['p', 'r', 'i', 'n', 't'] {
        Some(TokenType::Print)
    } else if w == seq!['r', 'e', 't', 'u', 'r', 'n'] {
        Some(TokenType::Return)
    } else if w == seq!['s', 'u', 'p', 'e', 'r'] {
        Some(TokenType::Super)
    } else if w == seq!['t', 'h', 'i', 's'] {
        Some(TokenType::This)
    } else if w == seq!['t', 'r', 'u', 'e'] {
        Some(TokenType::True)
    } else if w == seq!['v', 'a', 'r'] {
        Some(TokenType::Var)
    } else if w == seq!['w', 'h', 'i', 'l', 'e'] {
        Some(TokenType::While)
    } else {
        None
    }
}

/// The kind of a token that one character makes on its own.
pub open spec fn single_kind(c: char) -> Option<TokenType> {
    match c {
        '(' => Some(TokenType::LeftParen),
        ')' => Some(TokenType::RightParen),
        '{' => Some(TokenType::LeftBrace),
        '}' => Some(TokenType::RightBrace),
        ',' => Some(TokenType::Comma),
        '.' => Some(TokenType::Dot),
        '-' => Some(TokenType::Minus),
        '+' => Some(TokenType::Plus),
        ';' => Some(TokenType::Semicolon),
        '*' => Some(TokenType::Star),
        _ => None,
    }
}

/// For a character that may be followed by `=`: the kind alone and the kind
/// with the `=`.
pub open spec fn pair_kinds(c: char) -> Option<(TokenType, TokenType)> {
    match c {
        '!' => Some((TokenType::Bang, TokenType::BangEqual)),
        '=' => Some((TokenType::Equal, TokenType::EqualEqual)),
        '<' => Some((TokenType::Less, TokenType::LessEqual)),
        '>' => Some((TokenType::Greater, TokenType::GreaterEqual)),
        _ => None,
    }
}

/// The character at `i`, or `'\0'` past either end.
pub open spec fn char_at(s: Seq<char>, i: int) -> char {
    if 0 <= i < s.len() {
        s[i]
    } else {
        '\0'
    }
}

/// Whether `c` starts an identifier or keyword: no other rule claims it and
/// it is a letter or an underscore.
pub open spec fn starts_word(c: char) -> bool {
    &&& single_kind(c) is None
    &&& pair_kinds(c) is None
    &&& c != '/' && c != ' ' && c != '\r' && c != '\t' && c != '\n' && c != '"'
    &&& !is_digit(c)
    &&& (is_ascii_letter(c) || alphabetic(c) || c == '_')
}

/// Whether `c` continues an identifier: a letter, a digit (ASCII or not) or
/// an underscore.
pub open spec fn is_word_char(c: char) -> bool {
    is_ascii_letter(c) || is_digit(c) || alphanumeric(c) || c == '_'
}

/// The first index from `i` on that ends a line comment.
pub open spec fn comment_end(s: Seq<char>, i: int) -> int
    decreases s.len() - i,
{
    if i >= s.len() || s[i] == '\n' {
        i
    } else {
        comment_end(s, i + 1)
    }
}

/// The first index from `i` on that holds a double quote, or the length.
pub open spec fn string_end(s: Seq<char>, i: int) -> int
    decreases s.len() - i,
{
    if i >= s.len() || s[i] == '"' {
        i
    } else {
        string_end(s, i + 1)
    }
}

/// The end of the run of digits that starts at `i`.
pub open spec fn digits_end(s: Seq<char>, i: int) -> int
    decreases s.len() - i,
{
    if i >= s.len() || !is_digit(s[i]) {
        i
    } else {
        digits_end(s, i + 1)
    }
}

/// The end of the run of identifier characters that starts at `i`.
pub open spec fn word_end(s: Seq<char>, i: int) -> int
    decreases s.len() - i,
{
    if i >= s.len() || !is_word_char(s[i]) {
        i
    } else {
        word_end(s, i + 1)
    }
}

/// The end of a number literal whose integer digits continue at `i`: a
/// fraction is taken only where a digit follows the dot.
pub open spec fn number_end(s: Seq<char>, i: int) -> int {
    let d = digits_end(s, i);
    if char_at(s, d) == '.' && is_digit(char_at(s, d + 1)) {
        digits_end(s, d + 1)
    } else {
        d
    }
}

pub open spec fn count_newlines(s: Seq<char>) -> nat
    decreases s.len(),
{
    if s.len() == 0 {
        0
    } else {
        count_newlines(s.drop_last()) + if s.last() == '\n' {
            1nat
        } else {
            0nat
        }
    }
}

/// What one scanning step makes of the text at its start.
pub ghost enum Lexed {
    Emit(TokenView),
    Skip,
    Fail(Error),
}

/// One scanning step: what it makes, where the next one starts, and the line
/// counter after it.
pub ghost struct Step {
    pub lexed: Lexed,
    pub next: int,
    pub line: usize,
}

pub open spec fn emit(
    s: Seq<char>,
    p: int,
    next: int,
    ty: TokenType,
    literal: Seq<char>,
    line: usize,
) -> Step {
    Step {
        lexed: Lexed::Emit(TokenView { ty, lexeme: s.subrange(p, next), literal, line }),
        next,
        line,
    }
}

pub open spec fn fail(line: usize, message: &'static str) -> Step {
    Step { lexed: Lexed::Fail(Error::Syntax { line, message }), next: 0, line }
}

/// The step that scans the text starting at index `p` with line counter `line`.
pub open spec fn scan_step(s: Seq<char>, p: int, line: usize) -> Step {
    let c = s[p];
    if single_kind(c) is Some {
        emit(s, p, p + 1, single_kind(c)->0, seq![], line)
    } else if let Some((one, two)) = pair_kinds(c) {
        if char_at(s, p + 1) == '=' {
            emit(s, p, p + 2, two, seq![], line)
        } else {
            emit(s, p, p + 1, one, seq![], line)
        }
    } else if c == '/' {
        if char_at(s, p + 1) == '/' {
            Step { lexed: Lexed::Skip, next: comment_end(s, p + 2), line }
        } else {
            emit(s, p, p + 1, TokenType::Slash, seq![], line)
        }
    } else if c == ' ' || c == '\r' || c == '\t' {
        Step { lexed: Lexed::Skip, next: p + 1, line }
    } else if c == '\n' {
        Step { lexed: Lexed::Skip, next: p + 1, line: (line + 1) as usize }
    } else if c == '"' {
        let e = string_end(s, p + 1);
        if e >= s.len() {
            fail(line, "Unterminated string.")
        } else {
            let body = s.subrange(p + 1, e);
            emit(s, p, e + 1, TokenType::String, body, (line + count_newlines(body)) as usize)
        }
    } else if is_digit(c) {
        let e = number_end(s, p + 1);
        emit(s, p, e, TokenType::Number, s.subrange(p, e), line)
    } else if starts_word(c) {
        let e = word_end(s, p + 1);
        let w = s.subrange(p, e);
        match keyword_kind(w) {
            Some(k) => emit(s, p, e, k, seq![], line),
            None => emit(s, p, e, TokenType::Identifier, w, line),
        }
    } else {
        fail(line, "Unexpected character.")
    }
}

pub open spec fn eof_token(line: usize) -> TokenView {
    TokenView { ty: TokenType::Eof, lexeme: seq![], literal: seq![], line }
}

/// The tokens of the text from index `p` on, with line counter `line`.
pub open spec fn scan_from(s: Seq<char>, p: int, line: usize) -> Result<Seq<TokenView>, Error>
    decreases s.len() - p,
{
    if p < 0 || p >= s.len() {
        Ok(seq![eof_token(line)])
    } else {
        let st = scan_step(s, p, line);
        match st.lexed {
            Lexed::Fail(e) => Err(e),
            Lexed::Skip => if p < st.next <= s.len() {
                scan_from(s, st.next, st.line)
            } else {
                Ok(seq![])
            },
            Lexed::Emit(t) => if p < st.next <= s.len() {
                prepend(seq![t], scan_from(s, st.next, st.line))
            } else {
                Ok(seq![])
            },
        }
    }
}

pub open spec fn prepend(pre: Seq<TokenView>, r: Result<Seq<TokenView>, Error>) -> Result<
    Seq<TokenView>,
    Error,
> {
    match r {
        Ok(ts) => Ok(pre + ts),
        Err(e) => Err(e),
    }
}

/// The result of scanning a whole text.
pub open spec fn scanned(s: Seq<char>) -> Result<Seq<TokenView>, Error> {
    scan_from(s, 0, 1)
}

pub open spec fn views(ts: Seq<Token>) -> Seq<TokenView> {
    ts.map_values(|t: Token| t@)
}

pub open spec fn token_views(r: Result<Vec<Token>, Error>) -> Result<Seq<TokenView>, Error> {
    match r {
        Ok(ts) => Ok(views(ts@)),
        Err(e) => Err(e),
    }
}

/// Scans a whole text into its tokens, ending in an end-of-input token, or
/// fails at the first lexical error.
pub fn scan(source: String) -> (r: Result<Vec<Token>, Error>)
    requires
        source@.len() < usize::MAX,
    ensures
        token_views(r) == scanned(source@),
{
    Scanner::new(source).scan_tokens()
}

/// The cursor state of one left-to-right pass over a text: where the
/// current token starts, the next character to read, and the line counter.
pub struct Scanner {
    pub source: Vec<char>,
    pub start: usize,
    pub current: usize,
    pub line: usize,
}

impl Scanner {
    pub open spec fn wf(&self) -> bool {
        &&& self.source@.len() < usize::MAX
        &&& self.start <= self.current <= self.source@.len()
        &&& 1 <= self.line <= self.current + 1
    }

    pub fn new(source: String) -> (r: Self)
        requires
            source@.len() < usize::MAX,
        ensures
            r.wf(),
            r.source@ == source@,
            r.start == 0,
            r.current == 0,
            r.line == 1,
    {
        Scanner { source: chars_of(source.as_str()), start: 0, current: 0, line: 1 }
    }

    /// Scans the whole text into tokens ending in an end-of-input token, or
    /// stops at the first lexical error.
    pub fn scan_tokens(self) -> (r: Result<Vec<Token>, Error>)
        requires
            self.wf(),
        ensures
            token_views(r) == scan_from(self.source@, self.current as int, self.line),
    {
        let ghost s = self.source@;
        let ghost whole = scan_from(s, self.current as int, self.line);
        let mut this = self;
        let mut tokens: Vec<Token> = Vec::new();
        while !this.is_at_end()
            invariant
                this.wf(),
                this.source@ == s,
                prepend(views(tokens@), scan_from(s, this.current as int, this.line)) == whole,
                whole == scan_from(self.source@, self.current as int, self.line),
            decreases s.len() - this.current,
        {
            this.start = this.current;
            let ghost p = this.current as int;
            let ghost l = this.line;
            let step = this.scan_token();
            match step {
                Ok(Some(token)) => {
                    proof {
                        assert(views(tokens@.push(token)) =~= views(tokens@) + seq![token@]);
                        let rest = scan_from(s, this.current as int, this.line);
                        match rest {
                            Ok(ts) => {
                                assert(views(tokens@) + (seq![token@] + ts) =~= views(tokens@)
                                    + seq![token@] + ts);
                            },
                            Err(_) => {},
                        }
                    }
                    tokens.push(token);
                },
                Ok(None) => {},
                Err(e) => {
                    assert(scan_from(s, p, l) == Err::<Seq<TokenView>, Error>(e));
                    return Err(e);
                },
            }
        }
        let eof = Token {
            ty: TokenType::Eof,
            lexeme: String::new(),
            literal: String::new(),
            line: this.line,
        };
        proof {
            assert(views(tokens@.push(eof)) =~= views(tokens@) + seq![eof@]);
        }
        tokens.push(eof);
        Ok(tokens)
    }

    /// Scans one token, or skips one piece of whitespace or one comment.
    fn scan_token(&mut self) -> (r: Result<Option<Token>, Error>)
        requires
            old(self).wf(),
            old(self).start == old(self).current,
            old(self).current < old(self).source@.len(),
        ensures
            final(self).wf(),
            final(self).source@ == old(self).source@,
            ({
                let st = scan_step(old(self).source@, old(self).current as int, old(self).line);
                match r {
                    Ok(Some(t)) => st.lexed == Lexed::Emit(t@) && st.next == final(self).current
                        && st.line == final(self).line && final(self).current > old(self).current,
                    Ok(None) => st.lexed == Lexed::Skip && st.next == final(self).current
                        && st.line == final(self).line && final(self).current > old(self).current,
                    Err(e) => st.lexed == Lexed::Fail(e),
                }
            }),
    {
        let ghost s = self.source@;
        let ghost p = self.current as int;
        let c = match self.advance() {
            Some(c) => c,
            None => {
                return Ok(None);
            },
        };
        let single = if c == '(' {
            Some(TokenType::LeftParen)
        } else if c == ')' {
            Some(TokenType::RightParen)
        } else if c == '{' {
            Some(TokenType::LeftBrace)
        } else if c == '}' {
            Some(TokenType::RightBrace)
        } else if c == ',' {
            Some(TokenType::Comma)
        } else if c == '.' {
            Some(TokenType::Dot)
        } else if c == '-' {
            Some(TokenType::Minus)
        } else if c == '+' {
            Some(TokenType::Plus)
        } else if c == ';' {
            Some(TokenType::Semicolon)
        } else if c == '*' {
            Some(TokenType::Star)
        } else {
            None
        };
        if let Some(ty) = single {
            return Ok(Some(self.token(ty, String::new())));
        }
        let pair = if c == '!' {
            Some((TokenType::Bang, TokenType::BangEqual))
        } else if c == '=' {
            Some((TokenType::Equal, TokenType::EqualEqual))
        } else if c == '<' {
            Some((TokenType::Less, TokenType::LessEqual))
        } else if c == '>' {
            Some((TokenType::Greater, TokenType::GreaterEqual))
        } else {
            None
        };
        if let Some((one, two)) = pair {
            let ty = if self.matches('=') {
                two
            } else {
                one
            };
            return Ok(Some(self.token(ty, String::new())));
        }
        if c == '/' {
            if self.matches('/') {
                while self.peek() != '\n' && !self.is_at_end()
                    invariant
                        self.wf(),
                        self.source@ == s,
                        self.start == p,
                        p + 2 <= self.current,
                        self.line == old(self).line,
                        comment_end(s, self.current as int) == comment_end(s, p + 2),
                    decreases s.len() - self.current,
                {
                    let _ = self.advance();
                }
                assert(comment_end(s, self.current as int) == self.current);
                return Ok(None);
            } else {
                return Ok(Some(self.token(TokenType::Slash, String::new())));
            }
        }
        if c == ' ' || c == '\r' || c == '\t' {
            return Ok(None);
        }
        if c == '\n' {
            self.line = self.line + 1;
            return Ok(None);
        }
        if c == '"' {
            return match self.string() {
                Ok(t) => Ok(Some(t)),
                Err(e) => Err(e),
            };
        }
        if '0' <= c && c <= '9' {
            return Ok(Some(self.number()));
        }
        if is_letter(c) || is_alphabetic(c) || c == '_' {
            return Ok(Some(self.identifier()));
        }
        Err(Error::new(self.line, "Unexpected character."))
    }

    /// A token of kind `ty` over the current lexeme, on the current line.
    fn token(&self, ty: TokenType, literal: String) -> (r: Token)
        requires
            self.wf(),
        ensures
            r@ == (TokenView {
                ty,
                lexeme: self.source@.subrange(self.start as int, self.current as int),
                literal: literal@,
                line: self.line,
            }),
    {
        let lexeme = self.current_lexeme();
        Token { ty, lexeme, literal, line: self.line }
    }

    /// Consumes the next character where it is `expected`.
    pub fn matches(&mut self, expected: char) -> (r: bool)
        requires
            old(self).wf(),
        ensures
            final(self).wf(),
            final(self).source@ == old(self).source@,
            final(self).start == old(self).start,
            final(self).line == old(self).line,
            r == (char_at(old(self).source@, old(self).current as int) == expected
                && old(self).current < old(self).source@.len()),
            final(self).current == if r {
                old(self).current + 1
            } else {
                old(self).current as int
            },
    {
        if self.is_at_end() {
            return false;
        }
        if self.source[self.current] == expected {
            self.current = self.current + 1;
            true
        } else {
            false
        }
    }

    /// Returns the next character, if any is left, and moves the cursor one
    /// step on (past the end too).
    pub fn advance(&mut self) -> (r: Option<char>)
        requires
            old(self).wf(),
        ensures
            old(self).current < old(self).source@.len() ==> final(self).wf(),
            final(self).source@ == old(self).source@,
            final(self).start == old(self).start,
            final(self).line == old(self).line,
            final(self).current == old(self).current + 1,
            r == if old(self).current < old(self).source@.len() {
                Some(old(self).source@[old(self).current as int])
            } else {
                None::<char>
            },
    {
        let c = if self.current < self.source.len() {
            Some(self.source[self.current])
        } else {
            None
        };
        self.current = self.current + 1;
        c
    }

    pub fn is_at_end(&self) -> (r: bool)
        ensures
            r == (self.current >= self.source@.len()),
    {
        self.current >= self.source.len()
    }

    /// The next character, or `'\0'` at the end.
    pub fn peek(&self) -> (r: char)
        ensures
            r == char_at(self.source@, self.current as int),
    {
        if self.current < self.source.len() {
            self.source[self.current]
        } else {
            '\0'
        }
    }

    /// The character after the next one, or `'\0'` past the end.
    pub fn peek_next(&self) -> (r: char)
        requires
            self.wf(),
        ensures
            r == char_at(self.source@, self.current + 1),
    {
        if self.current + 1 < self.source.len() {
            self.source[self.current + 1]
        } else {
            '\0'
        }
    }

    /// Scans the rest of a string literal whose opening quote was consumed.
    fn string(&mut self) -> (r: Result<Token, Error>)
        requires
            old(self).wf(),
            old(self).current == old(self).start + 1,
            old(self).source@[old(self).start as int] == '"',
        ensures
            final(self).wf(),
            final(self).source@ == old(self).source@,
            ({
                let st = scan_step(old(self).source@, old(self).start as int, old(self).line);
                match r {
                    Ok(t) => st.lexed == Lexed::Emit(t@) && st.next == final(self).current
                        && st.line == final(self).line && final(self).current > old(self).start,
                    Err(e) => st.lexed == Lexed::Fail(e),
                }
            }),
    {
        let ghost s = self.source@;
        let ghost p = self.start as int;
        let start_line = self.line;
        while self.peek() != '"' && !self.is_at_end()
            invariant
                self.wf(),
                self.source@ == s,
                self.start == p,
                p + 1 <= self.current,
                string_end(s, self.current as int) == string_end(s, p + 1),
                self.line == start_line + count_newlines(s.subrange(p + 1, self.current as int)),
            decreases s.len() - self.current,
        {
            proof {
                let cur = self.current as int;
                assert(s.subrange(p + 1, cur + 1).drop_last() =~= s.subrange(p + 1, cur));
            }
            let newline = self.peek() == '\n';
            let _ = self.advance();
            if newline {
                self.line = self.line + 1;
            }
        }
        if self.is_at_end() {
            return Err(Error::new(start_line, "Unterminated string."));
        }
        let _ = self.advance();
        let literal = self.text_between(self.start + 1, self.current - 1);
        Ok(self.token(TokenType::String, literal))
    }

    /// Scans the rest of a number literal whose first digit was consumed.
    fn number(&mut self) -> (r: Token)
        requires
            old(self).wf(),
            old(self).current == old(self).start + 1,
            is_digit(old(self).source@[old(self).start as int]),
        ensures
            final(self).wf(),
            final(self).source@ == old(self).source@,
            ({
                let st = scan_step(old(self).source@, old(self).start as int, old(self).line);
                st.lexed == Lexed::Emit(r@) && st.next == final(self).current && st.line
                    == final(self).line && final(self).current > old(self).start
            }),
    {
        let ghost s = self.source@;
        let ghost p = self.start as int;
        while '0' <= self.peek() && self.peek() <= '9'
            invariant
                self.wf(),
                self.source@ == s,
                self.start == p,
                self.line == old(self).line,
                p + 1 <= self.current,
                digits_end(s, self.current as int) == digits_end(s, p + 1),
            decreases s.len() - self.current,
        {
            let _ = self.advance();
        }
        let next = self.peek_next();
        if self.peek() == '.' && '0' <= next && next <= '9' {
            let _ = self.advance();
            while '0' <= self.peek() && self.peek() <= '9'
                invariant
                    self.wf(),
                    self.source@ == s,
                    self.start == p,
                    self.line == old(self).line,
                    p + 1 <= self.current,
                    digits_end(s, self.current as int) == number_end(s, p + 1),
                decreases s.len() - self.current,
            {
                let _ = self.advance();
            }
        }
        let literal = self.current_lexeme();
        self.token(TokenType::Number, literal)
    }

    /// Scans the rest of an identifier or keyword whose first character was
    /// consumed.
    fn identifier(&mut self) -> (r: Token)
        requires
            old(self).wf(),
            old(self).current == old(self).start + 1,
            starts_word(old(self).source@[old(self).start as int]),
        ensures
            final(self).wf(),
            final(self).source@ == old(self).source@,
            ({
                let st = scan_step(old(self).source@, old(self).start as int, old(self).line);
                st.lexed == Lexed::Emit(r@) && st.next == final(self).current && st.line
                    == final(self).line && final(self).current > old(self).start
            }),
    {
        let ghost s = self.source@;
        let ghost p = self.start as int;
        while !self.is_at_end() && (is_letter(self.peek()) || '0' <= self.peek() && self.peek()
            <= '9' || is_alphanumeric(self.peek()) || self.peek() == '_')
            invariant
                self.wf(),
                self.source@ == s,
                self.start == p,
                self.line == old(self).line,
                p + 1 <= self.current,
                word_end(s, self.current as int) == word_end(s, p + 1),
            decreases s.len() - self.current,
        {
            let _ = self.advance();
        }
        assert(word_end(s, self.current as int) == self.current);
        match self.keyword() {
            Some(ty) => self.token(ty, String::new()),
            None => {
                let literal = self.current_lexeme();
                self.token(TokenType::Identifier, literal)
            },
        }
    }

    /// The keyword that the current lexeme spells, if any.
    fn keyword(&self) -> (r: Option<TokenType>)
        requires
            self.wf(),
        ensures
            r == keyword_kind(self.source@.subrange(self.start as int, self.current as int)),
    {
        if self.lexeme_is(&['a', 'n', 'd']) {
            Some(TokenType::And)
        } else if self.lexeme_is(&['c', 'l', 'a', 's', 's']) {
            Some(TokenType::Class)
        } else if self.lexeme_is(&['e', 'l', 's', 'e']) {
            Some(TokenType::Else)
        } else if self.lexeme_is(&['f', 'a', 'l', 's', 'e']) {
            Some(TokenType::False)
        } else if self.lexeme_is(&['f', 'o', 'r']) {
            Some(TokenType::For)
        } else if self.lexeme_is(&['f', 'u', 'n']) {
            Some(TokenType::Fun)
        } else if self.lexeme_is(&['i', 'f']) {
            Some(TokenType::If)
        } else if self.lexeme_is(&['n', 'i', 'l']) {
            Some(TokenType::Nil)
        } else if self.lexeme_is(&['o', 'r']) {
            Some(TokenType::Or)
        } else if self.lexeme_is(&['p', 'r', 'i', 'n', 't']) {
            Some(TokenType::Print)
        } else if self.lexeme_is(&['r', 'e', 't', 'u', 'r', 'n']) {
            Some(TokenType::Return)
        } else if self.lexeme_is(&['s', 'u', 'p', 'e', 'r']) {
            Some(TokenType::Super)
        } else if self.lexeme_is(&['t', 'h', 'i', 's']) {
            Some(TokenType::This)
        } else if self.lexeme_is(&['t', 'r', 'u', 'e']) {
            Some(TokenType::True)
        } else if self.lexeme_is(&['v', 'a', 'r']) {
            Some(TokenType::Var)
        } else if self.lexeme_is(&['w', 'h', 'i', 'l', 'e']) {
            Some(TokenType::While)
        } else {
            None
        }
    }

    /// Whether the current lexeme is exactly `word`.
    fn lexeme_is(&self, word: &[char]) -> (r: bool)
        requires
            self.wf(),
        ensures
            r == (self.source@.subrange(self.start as int, self.current as int) == word@),
    {
        let ghost lex = self.source@.subrange(self.start as int, self.current as int);
        if self.current - self.start != word.len() {
            return false;
        }
        let mut i: usize = 0;
        while i < word.len()
            invariant
                self.wf(),
                lex == self.source@.subrange(self.start as int, self.current as int),
                lex.len() == word@.len(),
                i <= word@.len(),
                forall|j: int| 0 <= j < i ==> lex[j] == word@[j],
            decreases word.len() - i,
        {
            if self.source[self.start + i] != word[i] {
                return false;
            }
            i = i + 1;
        }
        assert(lex =~= word@);
        true
    }

    /// The text between the start of the current token and the cursor.
    pub fn current_lexeme(&self) -> (r: String)
        requires
            self.wf(),
        ensures
            r@ == self.source@.subrange(self.start as int, self.current as int),
    {
        self.text_between(self.start, self.current)
    }

    fn text_between(&self, from: usize, to: usize) -> (r: String)
        requires
            from <= to <= self.source@.len(),
        ensures
            r@ == self.source@.subrange(from as int, to as int),
    {
        let mut out = String::new();
        let mut i: usize = from;
        while i < to
            invariant
                from <= i <= to <= self.source@.len(),
                out@ == self.source@.subrange(from as int, i as int),
            decreases to - i,
        {
            push_char(&mut out, self.source[i]);
            i = i + 1;
            assert(out@ =~= self.source@.subrange(from as int, i as int));
        }
        out
    }
}

} // verus!
