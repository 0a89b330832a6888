//! The scanner: produces one token at a time from the source text.
use crate::text;
use crate::RoxError;
use vstd::prelude::*;
use vstd::string::*;

verus! {

#[derive(Copy, Clone, Debug, PartialEq, Eq, Structural)]
pub enum TokenType {
    //Single-character tokens
    LeftParen,
    RightParen,
    LeftBrace,
    RightBrace,
    Comma,
    Dot,
    Minus,
    Plus,
    Semicolon,
    Slash,
    Star,
    //One or two character tokens
    Bang,
    BangEqual,
    Equal,
    EqualEqual,
    Greater,
    GreaterEqual,
    Less,
    LessEqual,
    //Literals
    Identifier,
    RoxString,
    Number,
    //Keywords
    And,
    Class,
    Else,
    False,
    For,
    Fun,
    If,
    Nil,
    Or,
    Print,
    Return,
    Super,
    This,
    True,
    Var,
    While,
    //Other
    EOF,
}

/// A token: its kind, its text as it stands in the source, and the line on
/// which it ends.
#[derive(Debug)]
pub struct Token {
    pub token_type: TokenType,
    pub lexeme: String,
    pub line: i32,
}

/// The content of a [`Token`].
pub struct Lexed {
    pub token_type: TokenType,
    pub lexeme: Seq<char>,
    pub line: i32,
}

impl View for Token {
    type V = Lexed;

    open spec fn view(&self) -> Lexed {
        Lexed { token_type: self.token_type, lexeme: self.lexeme@, line: self.line }
    }
}

// ---------------------------------------------------------------------------
// The lexical grammar, over the characters of the source.
// ---------------------------------------------------------------------------
pub open spec fn is_digit(c: char) -> bool {
    '0' <= c && c <= '9'
}

pub open spec fn is_alpha(c: char) -> bool {
    ('a' <= c && c <= 'z') || ('A' <= c && c <= 'Z') || c == '_'
}

pub open spec fn is_space(c: char) -> bool {
    c == ' ' || c == '\r' || c == '\t' || c == '\n'
}

/// How many newlines stand in `s[from..to]`.
pub open spec fn newlines(s: Seq<char>, from: int, to: int) -> int
    decreases to - from,
{
    if to <= from {
        0
    } else {
        newlines(s, from, to - 1) + if s[to - 1] == '\n' {
            1int
        } else {
            0int
        }
    }
}

/// Where the next token starts: the first position at or after `pos` that is
/// neither whitespace nor inside a line comment. A comment runs from `//` up
/// to the next newline; `commented` says that `pos` is inside one.
pub open spec fn after_trivia(s: Seq<char>, pos: int, commented: bool) -> int
    decreases s.len() - pos,
{
    if pos < 0 || pos >= s.len() {
        pos
    } else if commented {
        if s[pos] == '\n' {
            after_trivia(s, pos + 1, false)
        } else {
            after_trivia(s, pos + 1, true)
        }
    } else if is_space(s[pos]) {
        after_trivia(s, pos + 1, false)
    } else if s[pos] == '/' && pos + 1 < s.len() && s[pos + 1] == '/' {
        after_trivia(s, pos + 2, true)
    } else {
        pos
    }
}

/// The first position at or after `pos` that holds no digit.
pub open spec fn digits_end(s: Seq<char>, pos: int) -> int
    decreases s.len() - pos,
{
    if 0 <= pos < s.len() && is_digit(s[pos]) {
        digits_end(s, pos + 1)
    } else {
        pos
    }
}

/// Where a number that has digits up to `pos` ends: after the digits from
/// `pos` on and, if a dot and at least one digit follow them, after that
/// fraction. A dot that no digit follows is left alone.
pub open spec fn number_end(s: Seq<char>, pos: int) -> int {
    let e = digits_end(s, pos);
    if 0 <= e && e + 1 < s.len() && s[e] == '.' && is_digit(s[e + 1]) {
        digits_end(s, e + 1)
    } else {
        e
    }
}

/// The first position at or after `pos` that holds no letter, digit or `_`.
pub open spec fn word_end(s: Seq<char>, pos: int) -> int
    decreases s.len() - pos,
{
    if 0 <= pos < s.len() && (is_alpha(s[pos]) || is_digit(s[pos])) {
        word_end(s, pos + 1)
    } else {
        pos
    }
}

/// The position of the first `"` at or after `pos`, or the length of `s`.
pub open spec fn quote_at(s: Seq<char>, pos: int) -> int
    decreases s.len() - pos,
{
    if 0 <= pos < s.len() && s[pos] != '"' {
        quote_at(s, pos + 1)
    } else {
        pos
    }
}

/// The kind of a word: its keyword, or `Identifier`.
pub open spec fn keyword(word: Seq<char>) -> TokenType {
    if word == "and"@ {
        TokenType::And
    } else if word == "class"@ {
        TokenType::Class
    } else if word == "else"@ {
        TokenType::Else
    } else if word == "false"@ {
        TokenType::False
    } else if word == "for"@ {
        TokenType::For
    } else if word == "fun"@ {
        TokenType::Fun
    } else if word == "if"@ {
        TokenType::If
    } else if word == "nil"@ {
        TokenType::Nil
    } else if word == "or"@ {
        TokenType::Or
    } else if word == "print"@ {
        TokenType::Print
    } else if word == "return"@ {
        TokenType::Return
    } else if word == "super"@ {
        TokenType::Super
    } else if word == "this"@ {
        TokenType::This
    } else if word == "true"@ {
        TokenType::True
    } else if word == "var"@ {
        TokenType::Var
    } else if word == "while"@ {
        TokenType::While
    } else {
        TokenType::Identifier
    }
}

/// What stands at a position of the source.
pub enum Lexeme {
    /// A token of this kind.
    Token(TokenType),
    /// A string whose closing quote is missing.
    Unterminated,
    /// A character that starts no token.
    Unexpected,
}

/// Whether `s[pos + 1]` exists and is `=`.
pub open spec fn equals_follows(s: Seq<char>, pos: int) -> bool {
    pos + 1 < s.len() && s[pos + 1] == '='
}

/// What the token that starts at `start` is (`start` is a position of `s`
/// that holds no trivia).
pub open spec fn lexeme_kind(s: Seq<char>, start: int) -> Lexeme {
    let c = s[start];
    if is_alpha(c) {
        Lexeme::Token(keyword(s.subrange(start, word_end(s, start + 1))))
    } else if is_digit(c) {
        Lexeme::Token(TokenType::Number)
    } else if c == '(' {
        Lexeme::Token(TokenType::LeftParen)
    } else if c == ')' {
        Lexeme::Token(TokenType::RightParen)
    } else if c == '{' {
        Lexeme::Token(TokenType::LeftBrace)
    } else if c == '}' {
        Lexeme::Token(TokenType::RightBrace)
    } else if c == ';' {
        Lexeme::Token(TokenType::Semicolon)
    } else if c == ',' {
        Lexeme::Token(TokenType::Comma)
    } else if c == '.' {
        Lexeme::Token(TokenType::Dot)
    } else if c == '-' {
        Lexeme::Token(TokenType::Minus)
    } else if c == '+' {
        Lexeme::Token(TokenType::Plus)
    } else if c == '/' {
        Lexeme::Token(TokenType::Slash)
    } else if c == '*' {
        Lexeme::Token(TokenType::Star)
    } else if c == '!' {
        Lexeme::Token(
            if equals_follows(s, start) {
                TokenType::BangEqual
            } else {
                TokenType::Bang
            },
        )
    } else if c == '=' {
        Lexeme::Token(
            if equals_follows(s, start) {
                TokenType::EqualEqual
            } else {
                TokenType::Equal
            },
        )
    } else if c == '<' {
        Lexeme::Token(
            if equals_follows(s, start) {
                TokenType::LessEqual
            } else {
                TokenType::Less
            },
        )
    } else if c == '>' {
        Lexeme::Token(
            if equals_follows(s, start) {
                TokenType::GreaterEqual
            } else {
                TokenType::Greater
            },
        )
    } else if c == '"' {
        if quote_at(s, start + 1) < s.len() {
            Lexeme::Token(TokenType::RoxString)
        } else {
            Lexeme::Unterminated
        }
    } else {
        Lexeme::Unexpected
    }
}

/// Where the token that starts at `start` ends.
pub open spec fn lexeme_end(s: Seq<char>, start: int) -> int {
    let c = s[start];
    if is_alpha(c) {
        word_end(s, start + 1)
    } else if is_digit(c) {
        number_end(s, start + 1)
    } else if c == '!' || c == '=' || c == '<' || c == '>' {
        if equals_follows(s, start) {
            start + 2
        } else {
            start + 1
        }
    } else if c == '"' {
        if quote_at(s, start + 1) < s.len() {
            quote_at(s, start + 1) + 1
        } else {
            s.len() as int
        }
    } else {
        start + 1
    }
}

// ---------------------------------------------------------------------------
// Facts about the grammar.
// ---------------------------------------------------------------------------
pub proof fn lemma_newlines_bounds(s: Seq<char>, from: int, to: int)
    ensures
        0 <= newlines(s, from, to),
        from <= to ==> newlines(s, from, to) <= to - from,
    decreases to - from,
{
    if to > from {
        lemma_newlines_bounds(s, from, to - 1);
    }
}

/// Newline counts of adjacent stretches add up.
pub proof fn lemma_newlines_split(s: Seq<char>, from: int, mid: int, to: int)
    requires
        from <= mid <= to,
    ensures
        newlines(s, from, to) == newlines(s, from, mid) + newlines(s, mid, to),
    decreases to - mid,
{
    if to > mid {
        lemma_newlines_split(s, from, mid, to - 1);
    }
}

pub proof fn lemma_after_trivia_bounds(s: Seq<char>, pos: int, commented: bool)
    requires
        0 <= pos <= s.len(),
    ensures
        pos <= after_trivia(s, pos, commented) <= s.len(),
    decreases s.len() - pos,
{
    if pos < s.len() {
        if commented {
            lemma_after_trivia_bounds(s, pos + 1, s[pos] != '\n');
        } else if is_space(s[pos]) {
            lemma_after_trivia_bounds(s, pos + 1, false);
        } else if s[pos] == '/' && pos + 1 < s.len() && s[pos + 1] == '/' {
            lemma_after_trivia_bounds(s, pos + 2, true);
        }
    }
}

/// Where the trivia ends, a token starts: neither whitespace nor a comment.
pub proof fn lemma_after_trivia_stops(s: Seq<char>, pos: int, commented: bool)
    requires
        0 <= pos <= s.len(),
    ensures
        ({
            let e = after_trivia(s, pos, commented);
            e < s.len() ==> !is_space(s[e]) && !(s[e] == '/' && e + 1 < s.len() && s[e + 1] == '/')
        }),
    decreases s.len() - pos,
{
    if pos < s.len() {
        if commented {
            lemma_after_trivia_stops(s, pos + 1, s[pos] != '\n');
        } else if is_space(s[pos]) {
            lemma_after_trivia_stops(s, pos + 1, false);
        } else if s[pos] == '/' && pos + 1 < s.len() && s[pos + 1] == '/' {
            lemma_after_trivia_stops(s, pos + 2, true);
        }
    }
}

pub proof fn lemma_digits_end_bounds(s: Seq<char>, pos: int)
    requires
        0 <= pos <= s.len(),
    ensures
        pos <= digits_end(s, pos) <= s.len(),
    decreases s.len() - pos,
{
    if pos < s.len() && is_digit(s[pos]) {
        lemma_digits_end_bounds(s, pos + 1);
    }
}

pub proof fn lemma_word_end_bounds(s: Seq<char>, pos: int)
    requires
        0 <= pos <= s.len(),
    ensures
        pos <= word_end(s, pos) <= s.len(),
    decreases s.len() - pos,
{
    if pos < s.len() && (is_alpha(s[pos]) || is_digit(s[pos])) {
        lemma_word_end_bounds(s, pos + 1);
    }
}

pub proof fn lemma_quote_at_bounds(s: Seq<char>, pos: int)
    requires
        0 <= pos <= s.len(),
    ensures
        pos <= quote_at(s, pos) <= s.len(),
    decreases s.len() - pos,
{
    if pos < s.len() && s[pos] != '"' {
        lemma_quote_at_bounds(s, pos + 1);
    }
}

/// Every token is at least one character long and ends within the source.
pub proof fn lemma_lexeme_end_bounds(s: Seq<char>, start: int)
    requires
        0 <= start < s.len(),
    ensures
        start < lexeme_end(s, start) <= s.len(),
{
    lemma_word_end_bounds(s, start + 1);
    lemma_digits_end_bounds(s, start + 1);
    lemma_quote_at_bounds(s, start + 1);
    let e = digits_end(s, start + 1);
    if e + 1 < s.len() {
        lemma_digits_end_bounds(s, e + 1);
    }
}

// ---------------------------------------------------------------------------
// Scanning loses nothing.
// ---------------------------------------------------------------------------
/// The characters of `s` that are no whitespace.
pub open spec fn visible(s: Seq<char>) -> Seq<char> {
    s.filter(|c: char| !is_space(c))
}

/// The lexemes of the tokens that the scanner hands out from `from` on,
/// joined in order. What it rejects gives no token.
pub open spec fn lexemes(s: Seq<char>, from: int) -> Seq<char>
    decreases s.len() - from,
{
    let start = after_trivia(s, from, false);
    if 0 <= from && start < s.len() && from < lexeme_end(s, start) <= s.len() {
        let rest = lexemes(s, lexeme_end(s, start));
        if lexeme_kind(s, start) is Token {
            s.subrange(start, lexeme_end(s, start)) + rest
        } else {
            rest
        }
    } else {
        Seq::empty()
    }
}

/// From `from` on the source holds no comment and nothing that the scanner
/// rejects: between its tokens there is whitespace only.
pub open spec fn plain(s: Seq<char>, from: int) -> bool
    decreases s.len() - from,
{
    let start = after_trivia(s, from, false);
    &&& forall|i: int| from <= i < start ==> is_space(#[trigger] s[i])
    &&& (0 <= from && start < s.len() && from < lexeme_end(s, start) <= s.len()) ==> lexeme_kind(
        s,
        start,
    ) is Token && plain(s, lexeme_end(s, start))
}

/// A stretch of whitespace has no visible character.
pub proof fn lemma_whitespace_is_invisible(t: Seq<char>)
    requires
        forall|i: int| 0 <= i < t.len() ==> is_space(#[trigger] t[i]),
    ensures
        visible(t) == Seq::<char>::empty(),
    decreases t.len(),
{
    reveal(Seq::filter);
    if t.len() > 0 {
        assert forall|i: int| 0 <= i < t.drop_last().len() implies is_space(
            #[trigger] t.drop_last()[i],
        ) by {
            assert(t.drop_last()[i] == t[i]);
        }
        lemma_whitespace_is_invisible(t.drop_last());
        assert(is_space(t[t.len() - 1]));
    }
}

/// In a source without comments and without anything that the scanner
/// rejects, the lexemes of the tokens, joined in order, hold every character
/// of the source that is no whitespace, in order, and no other.
pub proof fn lemma_lexemes_round_trip(s: Seq<char>, from: int)
    requires
        0 <= from <= s.len(),
        plain(s, from),
    ensures
        visible(lexemes(s, from)) == visible(s.subrange(from, s.len() as int)),
    decreases s.len() - from,
{
    let len = s.len() as int;
    let start = after_trivia(s, from, false);
    lemma_after_trivia_bounds(s, from, false);
    let skipped = s.subrange(from, start);
    lemma_whitespace_is_invisible(skipped);
    assert(s.subrange(from, len) =~= skipped + s.subrange(start, len));
    Seq::filter_distributes_over_add(skipped, s.subrange(start, len), |c: char| !is_space(c));
    assert(visible(s.subrange(from, len)) =~= visible(s.subrange(start, len)));
    if start < len {
        lemma_lexeme_end_bounds(s, start);
        let end = lexeme_end(s, start);
        let lexeme = s.subrange(start, end);
        lemma_lexemes_round_trip(s, end);
        assert(s.subrange(start, len) =~= lexeme + s.subrange(end, len));
        Seq::filter_distributes_over_add(lexeme, s.subrange(end, len), |c: char| !is_space(c));
        Seq::filter_distributes_over_add(lexeme, lexemes(s, end), |c: char| !is_space(c));
    } else {
        assert(s.subrange(start, len) =~= Seq::<char>::empty());
    }
}

/// Every character of the source is skipped as trivia or belongs to exactly
/// one lexeme: the stretch from one call of the scanner to the next is the
/// trivia in front of the lexeme, then the lexeme.
pub proof fn lemma_scan_covers(s: Seq<char>, from: int)
    requires
        0 <= from <= s.len(),
    ensures
        ({
            let start = after_trivia(s, from, false);
            &&& from <= start <= s.len()
            &&& start < s.len() ==> start < lexeme_end(s, start) <= s.len()
            &&& start < s.len() ==> s.subrange(from, lexeme_end(s, start)) == s.subrange(
                from,
                start,
            ) + s.subrange(start, lexeme_end(s, start))
        }),
{
    let start = after_trivia(s, from, false);
    lemma_after_trivia_bounds(s, from, false);
    if start < s.len() {
        lemma_lexeme_end_bounds(s, start);
        assert(s.subrange(from, lexeme_end(s, start)) =~= s.subrange(from, start) + s.subrange(
            start,
            lexeme_end(s, start),
        ));
    }
}

// ---------------------------------------------------------------------------
// The scanner.
// ---------------------------------------------------------------------------
/// Scanner state: the characters of the source, where the token being built
/// starts, the read cursor, and the line the cursor is on.
pub struct Scanner {
    pub source: Vec<char>,
    pub start: usize,
    pub current: usize,
    pub line: i32,
}

/// Whether `c` is an ASCII digit.
pub fn is_ascii_digit(c: char) -> (r: bool)
    ensures
        r == is_digit(c),
{
    '0' <= c && c <= '9'
}

/// Whether `c` is an ASCII letter or an underscore.
pub fn is_identifier_start(c: char) -> (r: bool)
    ensures
        r == is_alpha(c),
{
    ('a' <= c && c <= 'z') || ('A' <= c && c <= 'Z') || c == '_'
}

impl Scanner {
    /// The cursors are in order and inside the source, and the line number
    /// cannot overflow however many newlines are still to come.
    pub open spec fn wf(&self) -> bool {
        &&& self.start <= self.current <= self.source@.len()
        &&& self.source@.len() < i32::MAX
        &&& 1 <= self.line <= self.current + 1
    }

    /// The characters of the token being built.
    pub open spec fn pending(&self) -> Seq<char> {
        self.source@.subrange(self.start as int, self.current as int)
    }

    pub fn new(source: &str) -> (scanner: Scanner)
        requires
            source@.len() < i32::MAX,
        ensures
            scanner.source@ == source@,
            scanner.start == 0,
            scanner.current == 0,
            scanner.line == 1,
            scanner.wf(),
    {
        Scanner { source: text::chars_of(source), start: 0, current: 0, line: 1 }
    }

    /// Skips whitespace and comments, then reads one token. At the end of the
    /// source it returns an `EOF` token, however often it is called.
    pub fn scan_token(&mut self) -> (result: Result<Token, RoxError>)
        requires
            old(self).wf(),
        ensures
            final(self).wf(),
            final(self).source@ == old(self).source@,
            final(self).start == after_trivia(old(self).source@, old(self).current as int, false),
            final(self).line == old(self).line + newlines(
                old(self).source@,
                old(self).current as int,
                final(self).current as int,
            ),
            final(self).start >= final(self).source@.len() ==> {
                &&& final(self).current == final(self).start
                &&& result is Ok
                &&& result->Ok_0.token_type == TokenType::EOF
                &&& result->Ok_0.lexeme@ == Seq::<char>::empty()
                &&& result->Ok_0.line == final(self).line
            },
            final(self).start < final(self).source@.len() ==> {
                &&& final(self).current == lexeme_end(final(self).source@, final(self).start as int)
                &&& match lexeme_kind(final(self).source@, final(self).start as int) {
                    Lexeme::Token(kind) => {
                        &&& result is Ok
                        &&& result->Ok_0.token_type == kind
                        &&& result->Ok_0.lexeme@ == final(self).pending()
                        &&& result->Ok_0.line == final(self).line
                    },
                    Lexeme::Unterminated => {
                        &&& result is Err
                        &&& result->Err_0.message@ == "Unterminated string."@
                        &&& result->Err_0.token@ == final(self).pending()
                        &&& result->Err_0.line == old(self).line + newlines(
                            old(self).source@,
                            old(self).current as int,
                            final(self).start as int,
                        )
                    },
                    Lexeme::Unexpected => {
                        &&& result is Err
                        &&& result->Err_0.message@ == "Unexpected character."@
                        &&& result->Err_0.token@ == final(self).pending()
                        &&& result->Err_0.line == final(self).line
                    },
                }
            },
    {
        self.skip_whitespace();

        self.start = self.current;

        if self.is_at_end() {
            return Ok(Token::new(self, TokenType::EOF));
        }
        proof {
            lemma_after_trivia_bounds(self.source@, old(self).current as int, false);
            lemma_after_trivia_stops(self.source@, old(self).current as int, false);
            lemma_lexeme_end_bounds(self.source@, self.start as int);
            lemma_newlines_split(
                self.source@,
                old(self).current as int,
                self.start as int,
                lexeme_end(self.source@, self.start as int),
            );
            lemma_newlines_split(
                self.source@,
                self.start as int,
                self.start as int + 1,
                lexeme_end(self.source@, self.start as int),
            );
        }

        let c = self.advance();
        proof {
            lemma_no_newline_in_word(self.source@, self.start as int + 1);
            lemma_no_newline_in_number(self.source@, self.start as int + 1);
            reveal_with_fuel(newlines, 3);
        }

        if is_identifier_start(c) {
            return Ok(self.identifier());
        }
        if is_ascii_digit(c) {
            return Ok(self.number());
        }
        if c == '(' {
            return Ok(Token::new(self, TokenType::LeftParen));
        }
        if c == ')' {
            return Ok(Token::new(self, TokenType::RightParen));
        }
        if c == '{' {
            return Ok(Token::new(self, TokenType::LeftBrace));
        }
        if c == '}' {
            return Ok(Token::new(self, TokenType::RightBrace));
        }
        if c == ';' {
            return Ok(Token::new(self, TokenType::Semicolon));
        }
        if c == ',' {
            return Ok(Token::new(self, TokenType::Comma));
        }
        if c == '.' {
            return Ok(Token::new(self, TokenType::Dot));
        }
        if c == '-' {
            return Ok(Token::new(self, TokenType::Minus));
        }
        if c == '+' {
            return Ok(Token::new(self, TokenType::Plus));
        }
        if c == '/' {
            return Ok(Token::new(self, TokenType::Slash));
        }
        if c == '*' {
            return Ok(Token::new(self, TokenType::Star));
        }
        if c == '!' {
            let token_type = if self.match_token('=') {
                TokenType::BangEqual
            } else {
                TokenType::Bang
            };
            return Ok(Token::new(self, token_type));
        }
        if c == '=' {
            let token_type = if self.match_token('=') {
                TokenType::EqualEqual
            } else {
                TokenType::Equal
            };
            return Ok(Token::new(self, token_type));
        }
        if c == '<' {
            let token_type = if self.match_token('=') {
                TokenType::LessEqual
            } else {
                TokenType::Less
            };
            return Ok(Token::new(self, token_type));
        }
        if c == '>' {
            let token_type = if self.match_token('=') {
                TokenType::GreaterEqual
            } else {
                TokenType::Greater
            };
            return Ok(Token::new(self, token_type));
        }
        if c == '"' {
            return self.string();
        }
        Err(RoxError::new("Unexpected character.", self.get_token(), self.line))
    }

    /// The text of the token being built.
    pub fn get_token(&self) -> (lexeme: String)
        requires
            self.start <= self.current <= self.source@.len(),
        ensures
            lexeme@ == self.pending(),
    {
        text::collect(&self.source, self.start, self.current)
    }

    /// Reads the character under the cursor and moves past it.
    pub fn advance(&mut self) -> (c: char)
        requires
            old(self).current < old(self).source@.len(),
        ensures
            c == old(self).source@[old(self).current as int],
            final(self).current == old(self).current + 1,
            final(self).source@ == old(self).source@,
            final(self).start == old(self).start,
            final(self).line == old(self).line,
    {
        let c = self.source[self.current];
        let len = self.source.len();
        self.current = if self.current < len {
            self.current + 1
        } else {
            len
        };
        c
    }

    /// Moves past the character under the cursor if it is `expected`.
    pub fn match_token(&mut self, expected: char) -> (matched: bool)
        ensures
            matched == (old(self).current < old(self).source@.len() && old(self).source@[old(
                self,
            ).current as int] == expected),
            final(self).current == if matched {
                old(self).current + 1
            } else {
                old(self).current as int
            },
            final(self).source@ == old(self).source@,
            final(self).start == old(self).start,
            final(self).line == old(self).line,
    {
        if self.is_at_end() {
            return false;
        }
        if self.source[self.current] != expected {
            return false;
        }
        self.advance();
        true
    }

    /// Reads the rest of a string whose opening quote stands just before the
    /// cursor: up to and including the closing quote. Newlines inside the
    /// string count as lines. Without a closing quote the rest of the source
    /// is consumed and the error carries the line the string began on.
    pub fn string(&mut self) -> (result: Result<Token, RoxError>)
        requires
            old(self).wf(),
        ensures
            final(self).wf(),
            final(self).source@ == old(self).source@,
            final(self).start == old(self).start,
            final(self).line == old(self).line + newlines(
                old(self).source@,
                old(self).current as int,
                final(self).current as int,
            ),
            quote_at(old(self).source@, old(self).current as int) < old(self).source@.len() ==> {
                &&& final(self).current == quote_at(old(self).source@, old(self).current as int)
                    + 1
                &&& result is Ok
                &&& result->Ok_0.token_type == TokenType::RoxString
                &&& result->Ok_0.lexeme@ == final(self).pending()
                &&& result->Ok_0.line == final(self).line
            },
            quote_at(old(self).source@, old(self).current as int) >= old(self).source@.len() ==> {
                &&& final(self).current == final(self).source@.len()
                &&& result is Err
                &&& result->Err_0.message@ == "Unterminated string."@
                &&& result->Err_0.token@ == final(self).pending()
                &&& result->Err_0.line == old(self).line
            },
    {
        let opening_line = self.line;
        while self.current < self.source.len() && self.source[self.current] != '"'
            invariant
                self.wf(),
                self.source@ == old(self).source@,
                self.start == old(self).start,
                old(self).current <= self.current,
                quote_at(self.source@, self.current as int) == quote_at(
                    old(self).source@,
                    old(self).current as int,
                ),
                self.line == old(self).line + newlines(
                    self.source@,
                    old(self).current as int,
                    self.current as int,
                ),
            decreases self.source@.len() - self.current,
        {
            if self.source[self.current] == '\n' {
                proof {
                    lemma_newlines_bounds(
                        self.source@,
                        old(self).current as int,
                        self.current as int,
                    );
                }
                self.line += 1;
            }
            self.advance();
        }

        if self.is_at_end() {
            return Err(RoxError::new("Unterminated string.", self.get_token(), opening_line));
        }
        //Consume double quote

        self.advance();
        Ok(Token::new(self, TokenType::RoxString))
    }

    /// Reads the rest of a number: the digits under the cursor and, if a dot
    /// and a digit follow, the fraction.
    pub fn number(&mut self) -> (token: Token)
        requires
            old(self).wf(),
        ensures
            final(self).wf(),
            final(self).source@ == old(self).source@,
            final(self).start == old(self).start,
            final(self).line == old(self).line,
            final(self).current == number_end(old(self).source@, old(self).current as int),
            token.token_type == TokenType::Number,
            token.lexeme@ == final(self).pending(),
            token.line == final(self).line,
    {
        self.skip_digits();

        //Look for fractional number
        if self.current + 1 < self.source.len() && self.source[self.current] == '.'
            && is_ascii_digit(self.source[self.current + 1]) {
            //Consume dot
            self.advance();
            self.skip_digits();
        }
        Token::new(self, TokenType::Number)
    }

    /// Moves the cursor past the digits under it.
    fn skip_digits(&mut self)
        requires
            old(self).wf(),
        ensures
            final(self).wf(),
            final(self).source@ == old(self).source@,
            final(self).start == old(self).start,
            final(self).line == old(self).line,
            final(self).current == digits_end(old(self).source@, old(self).current as int),
    {
        while self.current < self.source.len() && is_ascii_digit(self.source[self.current])
            invariant
                self.wf(),
                self.source@ == old(self).source@,
                self.start == old(self).start,
                self.line == old(self).line,
                digits_end(self.source@, self.current as int) == digits_end(
                    old(self).source@,
                    old(self).current as int,
                ),
            decreases self.source@.len() - self.current,
        {
            self.advance();
        }
    }

    /// Reads the rest of a word and classifies it as a keyword or an
    /// identifier.
    pub fn identifier(&mut self) -> (token: Token)
        requires
            old(self).wf(),
            old(self).start < old(self).source@.len(),
        ensures
            final(self).wf(),
            final(self).source@ == old(self).source@,
            final(self).start == old(self).start,
            final(self).line == old(self).line,
            final(self).current == word_end(old(self).source@, old(self).current as int),
            token.token_type == keyword(final(self).pending()),
            token.lexeme@ == final(self).pending(),
            token.line == final(self).line,
    {
        while self.current < self.source.len() && (is_identifier_start(self.source[self.current])
            || is_ascii_digit(self.source[self.current]))
            invariant
                self.wf(),
                self.source@ == old(self).source@,
                self.start == old(self).start,
                self.line == old(self).line,
                word_end(self.source@, self.current as int) == word_end(
                    old(self).source@,
                    old(self).current as int,
                ),
            decreases self.source@.len() - self.current,
        {
            self.advance();
        }

        let token_type = self.identifier_type();
        Token::new(self, token_type)
    }

    /// Classifies the word being built by branching on its first one or two
    /// characters and comparing the rest against the one keyword that can
    /// still match.
    pub fn identifier_type(&mut self) -> (token_type: TokenType)
        requires
            old(self).start <= old(self).current <= old(self).source@.len(),
            old(self).start < old(self).source@.len(),
        ensures
            *final(self) == *old(self),
            token_type == keyword(old(self).pending()),
            token_type == keyword_by_parts(old(self).pending()),
    {
        let first = self.source[self.start];
        proof {
            lemma_keyword_by_parts(self.pending());
        }
        if first == 'a' {
            self.check_keyword(1, "nd", TokenType::And)
        } else if first == 'c' {
            self.check_keyword(1, "lass", TokenType::Class)
        } else if first == 'e' {
            self.check_keyword(1, "lse", TokenType::Else)
        } else if first == 'f' {
            if self.current - self.start > 1 {
                let second = self.source[self.start + 1];
                if second == 'a' {
                    self.check_keyword(2, "lse", TokenType::False)
                } else if second == 'o' {
                    self.check_keyword(2, "r", TokenType::For)
                } else if second == 'u' {
                    self.check_keyword(2, "n", TokenType::Fun)
                } else {
                    TokenType::Identifier
                }
            } else {
                TokenType::Identifier
            }
        } else if first == 'i' {
            self.check_keyword(1, "f", TokenType::If)
        } else if first == 'n' {
            self.check_keyword(1, "il", TokenType::Nil)
        } else if first == 'o' {
            self.check_keyword(1, "r", TokenType::Or)
        } else if first == 'p' {
            self.check_keyword(1, "rint", TokenType::Print)
        } else if first == 'r' {
            self.check_keyword(1, "eturn", TokenType::Return)
        } else if first == 's' {
            self.check_keyword(1, "uper", TokenType::Super)
        } else if first == 't' {
            if self.current - self.start > 1 {
                let second = self.source[self.start + 1];
                if second == 'h' {
                    self.check_keyword(2, "is", TokenType::This)
                } else if second == 'r' {
                    self.check_keyword(2, "ue", TokenType::True)
                } else {
                    TokenType::Identifier
                }
            } else {
                TokenType::Identifier
            }
        } else if first == 'v' {
            self.check_keyword(1, "ar", TokenType::Var)
        } else if first == 'w' {
            self.check_keyword(1, "hile", TokenType::While)
        } else {
            TokenType::Identifier
        }
    }

    /// `token_type` if the word being built is `start` characters followed by
    /// exactly `rest`, and `Identifier` otherwise.
    pub fn check_keyword(&self, start: usize, rest: &str, token_type: TokenType) -> (result:
        TokenType)
        requires
            self.start <= self.current <= self.source@.len(),
        ensures
            result == if self.pending().len() == start + rest@.len() && self.pending().subrange(
                start as int,
                self.pending().len() as int,
            ) == rest@ {
                token_type
            } else {
                TokenType::Identifier
            },
    {
        let n = rest.unicode_len();
        let len = self.current - self.start;
        if len >= start && len - start == n {
            let ghost tail = self.pending().subrange(start as int, self.pending().len() as int);
            let mut i: usize = 0;
            while i < n
                invariant
                    self.start <= self.current <= self.source@.len(),
                    len == self.current - self.start,
                    len >= start,
                    len - start == n,
                    n == rest@.len(),
                    i <= n,
                    tail == self.pending().subrange(start as int, self.pending().len() as int),
                    forall|j: int| 0 <= j < i ==> tail[j] == rest@[j],
                decreases n - i,
            {
                if self.source[self.start + start + i] != rest.get_char(i) {
                    assert(tail[i as int] != rest@[i as int]);
                    return TokenType::Identifier;
                }
                i += 1;
            }
            assert(tail =~= rest@);
            return token_type;
        }
        TokenType::Identifier
    }

    /// Moves the cursor to the start of the next token, counting the newlines
    /// it passes.
    pub fn skip_whitespace(&mut self)
        requires
            old(self).wf(),
        ensures
            final(self).wf(),
            final(self).source@ == old(self).source@,
            final(self).start == old(self).start,
            final(self).current == after_trivia(
                old(self).source@,
                old(self).current as int,
                false,
            ),
            final(self).line == old(self).line + newlines(
                old(self).source@,
                old(self).current as int,
                final(self).current as int,
            ),
    {
        loop
            invariant
                self.wf(),
                self.source@ == old(self).source@,
                self.start == old(self).start,
                old(self).current <= self.current,
                after_trivia(self.source@, self.current as int, false) == after_trivia(
                    old(self).source@,
                    old(self).current as int,
                    false,
                ),
                self.line == old(self).line + newlines(
                    self.source@,
                    old(self).current as int,
                    self.current as int,
                ),
            ensures
                self.current == after_trivia(old(self).source@, old(self).current as int, false),
            decreases self.source@.len() - self.current,
        {
            if self.is_at_end() {
                return ;
            }
            let c = self.source[self.current];
            proof {
                lemma_newlines_bounds(self.source@, old(self).current as int, self.current as int);
            }
            if c == ' ' || c == '\r' || c == '\t' {
                self.advance();
            } else if c == '\n' {
                self.line += 1;
                self.advance();
            } else if c == '/' {
                if self.peek_next() == Some('/') {
                    let ghost entry = self.current;
                    self.advance();
                    self.advance();
                    proof {
                        reveal_with_fuel(newlines, 3);
                        lemma_newlines_split(
                            self.source@,
                            old(self).current as int,
                            entry as int,
                            self.current as int,
                        );
                    }
                    while self.current < self.source.len() && self.source[self.current] != '\n'
                        invariant
                            self.wf(),
                            self.source@ == old(self).source@,
                            self.start == old(self).start,
                            old(self).current <= self.current,
                            entry + 2 <= self.current,
                            after_trivia(self.source@, self.current as int, true) == after_trivia(
                                old(self).source@,
                                old(self).current as int,
                                false,
                            ),
                            self.line == old(self).line + newlines(
                                self.source@,
                                old(self).current as int,
                                self.current as int,
                            ),
                        decreases self.source@.len() - self.current,
                    {
                        self.advance();
                    }
                    if self.current < self.source.len() {
                        proof {
                            lemma_newlines_bounds(
                                self.source@,
                                old(self).current as int,
                                self.current as int,
                            );
                        }
                        self.line += 1;
                        self.advance();
                    }
                } else {
                    return ;
                }
            } else {
                return ;
            }
        }
    }

    pub fn is_at_end(&self) -> (r: bool)
        ensures
            r == (self.current >= self.source@.len()),
    {
        self.current >= self.source.len()
    }

    /// The character under the cursor, if any.
    pub fn peek(&self) -> (c: Option<char>)
        ensures
            c == if self.current < self.source@.len() {
                Some(self.source@[self.current as int])
            } else {
                None
            },
    {
        if self.current < self.source.len() {
            Some(self.source[self.current])
        } else {
            None
        }
    }

    /// The character after the one under the cursor, if any.
    pub fn peek_next(&self) -> (c: Option<char>)
        ensures
            c == if self.current + 1 < self.source@.len() {
                Some(self.source@[self.current + 1])
            } else {
                None
            },
    {
        if self.current < self.source.len() && self.current + 1 < self.source.len() {
            Some(self.source[self.current + 1])
        } else {
            None
        }
    }
}

impl Token {
    /// A token of the given kind whose text is what the scanner has between
    /// its two cursors, on the scanner's current line.
    pub fn new(scanner: &Scanner, token_type: TokenType) -> (token: Token)
        requires
            scanner.start <= scanner.current <= scanner.source@.len(),
        ensures
            token.token_type == token_type,
            token.lexeme@ == scanner.pending(),
            token.line == scanner.line,
    {
        Token { token_type, lexeme: scanner.get_token(), line: scanner.line }
    }
}

impl Clone for Token {
    fn clone(&self) -> (token: Token)
        ensures
            token@ == self@,
    {
        Token { token_type: self.token_type, lexeme: self.lexeme.clone(), line: self.line }
    }
}

impl Default for Token {
    fn default() -> (token: Token)
        ensures
            token.token_type == TokenType::EOF,
            token.lexeme@ == Seq::<char>::empty(),
            token.line == 0,
    {
        Token { token_type: TokenType::EOF, lexeme: String::new(), line: 0 }
    }
}

/// A word is `head + rest` exactly when it starts with `head`, continues with
/// `rest`, and ends there.
proof fn lemma_match_parts(word: Seq<char>, head: Seq<char>, rest: Seq<char>)
    ensures
        (word == head + rest) <==> (word.len() == head.len() + rest.len() && word.subrange(
            0,
            head.len() as int,
        ) == head && word.subrange(head.len() as int, word.len() as int) == rest),
{
    if word == head + rest {
        assert(word.subrange(0, head.len() as int) =~= head);
        assert(word.subrange(head.len() as int, word.len() as int) =~= rest);
    }
    if word.len() == head.len() + rest.len() && word.subrange(0, head.len() as int) == head
        && word.subrange(head.len() as int, word.len() as int) == rest {
        assert(word =~= word.subrange(0, head.len() as int) + word.subrange(
            head.len() as int,
            word.len() as int,
        ));
    }
}

/// The kind of a word, read the way the scanner decides it: by the first one
/// or two characters and the rest of the one keyword that starts with them.
pub open spec fn keyword_by_parts(word: Seq<char>) -> TokenType {
    if word.len() == 0 {
        TokenType::Identifier
    } else if word[0] == 'a' {
        tail_kind(word, 1, "nd"@, TokenType::And)
    } else if word[0] == 'c' {
        tail_kind(word, 1, "lass"@, TokenType::Class)
    } else if word[0] == 'e' {
        tail_kind(word, 1, "lse"@, TokenType::Else)
    } else if word[0] == 'f' {
        if word.len() > 1 && word[1] == 'a' {
            tail_kind(word, 2, "lse"@, TokenType::False)
        } else if word.len() > 1 && word[1] == 'o' {
            tail_kind(word, 2, "r"@, TokenType::For)
        } else if word.len() > 1 && word[1] == 'u' {
            tail_kind(word, 2, "n"@, TokenType::Fun)
        } else {
            TokenType::Identifier
        }
    } else if word[0] == 'i' {
        tail_kind(word, 1, "f"@, TokenType::If)
    } else if word[0] == 'n' {
        tail_kind(word, 1, "il"@, TokenType::Nil)
    } else if word[0] == 'o' {
        tail_kind(word, 1, "r"@, TokenType::Or)
    } else if word[0] == 'p' {
        tail_kind(word, 1, "rint"@, TokenType::Print)
    } else if word[0] == 'r' {
        tail_kind(word, 1, "eturn"@, TokenType::Return)
    } else if word[0] == 's' {
        tail_kind(word, 1, "uper"@, TokenType::Super)
    } else if word[0] == 't' {
        if word.len() > 1 && word[1] == 'h' {
            tail_kind(word, 2, "is"@, TokenType::This)
        } else if word.len() > 1 && word[1] == 'r' {
            tail_kind(word, 2, "ue"@, TokenType::True)
        } else {
            TokenType::Identifier
        }
    } else if word[0] == 'v' {
        tail_kind(word, 1, "ar"@, TokenType::Var)
    } else if word[0] == 'w' {
        tail_kind(word, 1, "hile"@, TokenType::While)
    } else {
        TokenType::Identifier
    }
}

/// `kind` if `word` is `skip` characters followed by exactly `rest`.
pub open spec fn tail_kind(word: Seq<char>, skip: int, rest: Seq<char>, kind: TokenType) -> TokenType {
    if word.len() == skip + rest.len() && word.subrange(skip, word.len() as int) == rest {
        kind
    } else {
        TokenType::Identifier
    }
}

/// Deciding by parts finds exactly the keywords.
pub proof fn lemma_keyword_by_parts(word: Seq<char>)
    ensures
        keyword_by_parts(word) == keyword(word),
{
    reveal_strlit("and");
    reveal_strlit("class");
    reveal_strlit("else");
    reveal_strlit("false");
    reveal_strlit("for");
    reveal_strlit("fun");
    reveal_strlit("if");
    reveal_strlit("nil");
    reveal_strlit("or");
    reveal_strlit("print");
    reveal_strlit("return");
    reveal_strlit("super");
    reveal_strlit("this");
    reveal_strlit("true");
    reveal_strlit("var");
    reveal_strlit("while");
    reveal_strlit("nd");
    reveal_strlit("lass");
    reveal_strlit("lse");
    reveal_strlit("r");
    reveal_strlit("n");
    reveal_strlit("f");
    reveal_strlit("il");
    reveal_strlit("rint");
    reveal_strlit("eturn");
    reveal_strlit("uper");
    reveal_strlit("is");
    reveal_strlit("ue");
    reveal_strlit("ar");
    reveal_strlit("hile");
    assert("and"@ =~= seq!['a'] + "nd"@);
    assert("class"@ =~= seq!['c'] + "lass"@);
    assert("else"@ =~= seq!['e'] + "lse"@);
    assert("false"@ =~= seq!['f', 'a'] + "lse"@);
    assert("for"@ =~= seq!['f', 'o'] + "r"@);
    assert("fun"@ =~= seq!['f', 'u'] + "n"@);
    assert("if"@ =~= seq!['i'] + "f"@);
    assert("nil"@ =~= seq!['n'] + "il"@);
    assert("or"@ =~= seq!['o'] + "r"@);
    assert("print"@ =~= seq!['p'] + "rint"@);
    assert("return"@ =~= seq!['r'] + "eturn"@);
    assert("super"@ =~= seq!['s'] + "uper"@);
    assert("this"@ =~= seq!['t', 'h'] + "is"@);
    assert("true"@ =~= seq!['t', 'r'] + "ue"@);
    assert("var"@ =~= seq!['v'] + "ar"@);
    assert("while"@ =~= seq!['w'] + "hile"@);
    lemma_match_parts(word, seq!['a'], "nd"@);
    lemma_match_parts(word, seq!['c'], "lass"@);
    lemma_match_parts(word, seq!['e'], "lse"@);
    lemma_match_parts(word, seq!['f', 'a'], "lse"@);
    lemma_match_parts(word, seq!['f', 'o'], "r"@);
    lemma_match_parts(word, seq!['f', 'u'], "n"@);
    lemma_match_parts(word, seq!['i'], "f"@);
    lemma_match_parts(word, seq!['n'], "il"@);
    lemma_match_parts(word, seq!['o'], "r"@);
    lemma_match_parts(word, seq!['p'], "rint"@);
    lemma_match_parts(word, seq!['r'], "eturn"@);
    lemma_match_parts(word, seq!['s'], "uper"@);
    lemma_match_parts(word, seq!['t', 'h'], "is"@);
    lemma_match_parts(word, seq!['t', 'r'], "ue"@);
    lemma_match_parts(word, seq!['v'], "ar"@);
    lemma_match_parts(word, seq!['w'], "hile"@);
    if word.len() >= 1 {
        assert(word.subrange(0, 1) =~= seq![word[0]]);
    }
    if word.len() >= 2 {
        assert(word.subrange(0, 2) =~= seq![word[0], word[1]]);
    }
    assert(seq!['a'][0] == 'a');
    assert(seq!['f', 'a'][0] == 'f' && seq!['f', 'a'][1] == 'a');
}

/// A word holds no newline.
proof fn lemma_no_newline_in_word(s: Seq<char>, pos: int)
    requires
        0 <= pos <= s.len(),
    ensures
        newlines(s, pos, word_end(s, pos)) == 0,
    decreases s.len() - pos,
{
    if pos < s.len() && (is_alpha(s[pos]) || is_digit(s[pos])) {
        lemma_no_newline_in_word(s, pos + 1);
        lemma_word_end_bounds(s, pos + 1);
        lemma_newlines_split(s, pos, pos + 1, word_end(s, pos + 1));
        reveal_with_fuel(newlines, 2);
    }
}

proof fn lemma_no_newline_in_digits(s: Seq<char>, pos: int)
    requires
        0 <= pos <= s.len(),
    ensures
        newlines(s, pos, digits_end(s, pos)) == 0,
    decreases s.len() - pos,
{
    if pos < s.len() && is_digit(s[pos]) {
        lemma_no_newline_in_digits(s, pos + 1);
        lemma_digits_end_bounds(s, pos + 1);
        lemma_newlines_split(s, pos, pos + 1, digits_end(s, pos + 1));
        reveal_with_fuel(newlines, 2);
    }
}

/// A number holds no newline.
proof fn lemma_no_newline_in_number(s: Seq<char>, pos: int)
    requires
        0 <= pos <= s.len(),
    ensures
        newlines(s, pos, number_end(s, pos)) == 0,
{
    lemma_no_newline_in_digits(s, pos);
    lemma_digits_end_bounds(s, pos);
    let e = digits_end(s, pos);
    if e + 1 < s.len() && s[e] == '.' && is_digit(s[e + 1]) {
        lemma_no_newline_in_digits(s, e + 1);
        lemma_digits_end_bounds(s, e + 1);
        lemma_newlines_split(s, pos, e, digits_end(s, e + 1));
        lemma_newlines_split(s, e, e + 1, digits_end(s, e + 1));
        reveal_with_fuel(newlines, 2);
    }
}

} // verus!
