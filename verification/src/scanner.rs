//! The byte-oriented lexer: a lazy sequence of tokens with source-line
//! attribution.
//!
//! `spec_scan` gives the exact token that one `scan_token` call
//! produces from a position and line; the scanner is proved to follow
//! it.  String contents pass through unchanged; a backslash inside a
//! string skips the next character, so an escaped quote does not end
//! the string.

use vstd::prelude::*;

verus! {

#[derive(Clone, Copy, PartialEq, Eq, Structural, Debug)]
pub enum TokenKind {
    LeftParen,
    RightParen,
    LeftBrace,
    RightBrace,
    Comma,
    Dot,
    Minus,
    Plus,
    Semicolon,
    Slash,
    Star,
    Percent,
    Bang,
    BangEqual,
    Equal,
    EqualEqual,
    Greater,
    GreaterEqual,
    Less,
    LessEqual,
    Identifier,
    String,
    Number,
    And,
    Class,
    Else,
    False,
    For,
    Fun,
    If,
    Nil,
    Or,
    Print,
    Return,
    Super,
    This,
    True,
    Var,
    While,
    UnterminatedString,
    UnexpectedCharacter,
    Eof,
}

#[derive(Clone, Copy, Debug)]
pub struct Token<'a> {
    pub kind: TokenKind,
    pub span: &'a str,
    pub line: usize,
}

pub open spec fn is_digit_char(c: char) -> bool {
    '0' <= c && c <= '9'
}

pub open spec fn is_alpha_char(c: char) -> bool {
    ('a' <= c && c <= 'z') || ('A' <= c && c <= 'Z') || c == '_'
}

/// The first position at or after `pos` holding a newline, or the end.
pub open spec fn comment_end(s: Seq<char>, pos: nat) -> nat
    decreases s.len() - pos,
{
    if pos >= s.len() {
        pos
    } else if s[pos as int] == '\n' {
        pos
    } else {
        comment_end(s, pos + 1)
    }
}

pub proof fn lemma_comment_end(s: Seq<char>, pos: nat)
    ensures
        comment_end(s, pos) >= pos,
        pos <= s.len() ==> comment_end(s, pos) <= s.len(),
    decreases s.len() - pos,
{
    if pos < s.len() && s[pos as int] != '\n' {
        lemma_comment_end(s, pos + 1);
    }
}

#[via_fn]
proof fn skip_ws_dec(s: Seq<char>, pos: nat, line: nat) {
    if pos < s.len() && s[pos as int] == '/' {
        lemma_comment_end(s, pos + 1);
    }
}

/// Position and line after whitespace and `//` comments.
pub open spec fn skip_ws(s: Seq<char>, pos: nat, line: nat) -> (nat, nat)
    decreases s.len() - pos,
        via skip_ws_dec
{
    if pos >= s.len() {
        (pos, line)
    } else {
        let c = s[pos as int];
        if c == ' ' || c == '\r' || c == '\t' {
            skip_ws(s, pos + 1, line)
        } else if c == '\n' {
            skip_ws(s, pos + 1, (line + 1) as nat)
        } else if c == '/' && pos + 1 < s.len() && s[pos as int + 1] == '/' {
            skip_ws(s, comment_end(s, pos + 1), line)
        } else {
            (pos, line)
        }
    }
}

pub proof fn lemma_skip_ws(s: Seq<char>, pos: nat, line: nat)
    requires
        pos <= s.len(),
    ensures
        pos <= skip_ws(s, pos, line).0 <= s.len(),
        skip_ws(s, pos, line).1 >= line,
    decreases s.len() - pos,
{
    if pos < s.len() {
        let c = s[pos as int];
        if c == ' ' || c == '\r' || c == '\t' {
            lemma_skip_ws(s, pos + 1, line);
        } else if c == '\n' {
            lemma_skip_ws(s, pos + 1, (line + 1) as nat);
        } else if c == '/' && pos + 1 < s.len() && s[pos as int + 1] == '/' {
            lemma_comment_end(s, pos + 1);
            lemma_skip_ws(s, comment_end(s, pos + 1), line);
        }
    }
}

/// End of a digit run.
pub open spec fn digits_end(s: Seq<char>, pos: nat) -> nat
    decreases s.len() - pos,
{
    if pos < s.len() && is_digit_char(s[pos as int]) {
        digits_end(s, pos + 1)
    } else {
        pos
    }
}

pub proof fn lemma_digits_end(s: Seq<char>, pos: nat)
    requires
        pos <= s.len(),
    ensures
        pos <= digits_end(s, pos) <= s.len(),
    decreases s.len() - pos,
{
    if pos < s.len() && is_digit_char(s[pos as int]) {
        lemma_digits_end(s, pos + 1);
    }
}

/// End of a number literal: digits, and a fraction only when a digit
/// follows the dot.
pub open spec fn number_end(s: Seq<char>, pos: nat) -> nat {
    let p = digits_end(s, pos);
    if p + 1 < s.len() && s[p as int] == '.' && is_digit_char(s[p as int + 1]) {
        digits_end(s, p + 1)
    } else {
        p
    }
}

/// End of an identifier run.
pub open spec fn ident_end(s: Seq<char>, pos: nat) -> nat
    decreases s.len() - pos,
{
    if pos < s.len() && (is_alpha_char(s[pos as int]) || is_digit_char(s[pos as int])) {
        ident_end(s, pos + 1)
    } else {
        pos
    }
}

pub proof fn lemma_ident_end(s: Seq<char>, pos: nat)
    requires
        pos <= s.len(),
    ensures
        pos <= ident_end(s, pos) <= s.len(),
    decreases s.len() - pos,
{
    if pos < s.len() && (is_alpha_char(s[pos as int]) || is_digit_char(s[pos as int])) {
        lemma_ident_end(s, pos + 1);
    }
}

/// The keyword a word names, or `Identifier`.
pub open spec fn keyword_kind(w: Seq<char>) -> TokenKind {
    if w == "and"@ {
        TokenKind::And
    } else if w == "class"@ {
        TokenKind::Class
    } else if w == "else"@ {
        TokenKind::Else
    } else if w == "false"@ {
        TokenKind::False
    } else if w == "for"@ {
        TokenKind::For
    } else if w == "fun"@ {
        TokenKind::Fun
    } else if w == "if"@ {
        TokenKind::If
    } else if w == "nil"@ {
        TokenKind::Nil
    } else if w == "or"@ {
        TokenKind::Or
    } else if w == "print"@ {
        TokenKind::Print
    } else if w == "return"@ {
        TokenKind::Return
    } else if w == "super"@ {
        TokenKind::Super
    } else if w == "this"@ {
        TokenKind::This
    } else if w == "true"@ {
        TokenKind::True
    } else if w == "var"@ {
        TokenKind::Var
    } else if w == "while"@ {
        TokenKind::While
    } else {
        TokenKind::Identifier
    }
}

/// Scans the rest of a string literal from just after the opening
/// quote: kind (`String` or `UnterminatedString`), end position and
/// line.  A backslash skips the character after it; newlines count.
pub open spec fn scan_string(s: Seq<char>, pos: nat, line: nat) -> (TokenKind, nat, nat)
    decreases s.len() - pos,
{
    if pos >= s.len() {
        (TokenKind::UnterminatedString, pos, line)
    } else if s[pos as int] == '"' {
        (TokenKind::String, pos + 1, line)
    } else {
        let line2 = if s[pos as int] == '\n' {
            (line + 1) as nat
        } else {
            line
        };
        if s[pos as int] == '\\' {
            if pos + 1 >= s.len() {
                (TokenKind::UnterminatedString, pos + 1, line2)
            } else {
                scan_string(s, pos + 2, line2)
            }
        } else {
            scan_string(s, pos + 1, line2)
        }
    }
}

pub proof fn lemma_scan_string(s: Seq<char>, pos: nat, line: nat)
    requires
        pos <= s.len(),
    ensures
        pos <= scan_string(s, pos, line).1 <= s.len(),
        scan_string(s, pos, line).2 >= line,
        scan_string(s, pos, line).0 == TokenKind::String || scan_string(s, pos, line).0
            == TokenKind::UnterminatedString,
        scan_string(s, pos, line).0 == TokenKind::String ==> scan_string(s, pos, line).1 >= pos
            + 1 && s[scan_string(s, pos, line).1 - 1] == '"',
    decreases s.len() - pos,
{
    if pos < s.len() && s[pos as int] != '"' {
        let line2 = if s[pos as int] == '\n' {
            (line + 1) as nat
        } else {
            line
        };
        if s[pos as int] == '\\' {
            if pos + 2 <= s.len() {
                lemma_scan_string(s, pos + 2, line2);
            }
        } else {
            lemma_scan_string(s, pos + 1, line2);
        }
    }
}

/// The token one `scan_token` call yields.
pub struct Scanned {
    pub kind: TokenKind,
    pub start: nat,
    pub end: nat,
    pub line: nat,
}

/// The exact effect of one `scan_token` call from position `pos0` on
/// line `line0`.
pub open spec fn spec_scan(s: Seq<char>, pos0: nat, line0: nat) -> Scanned {
    let (pos, line) = skip_ws(s, pos0, line0);
    if pos >= s.len() {
        Scanned { kind: TokenKind::Eof, start: pos, end: pos, line }
    } else {
        let c = s[pos as int];
        if c == '(' {
            Scanned { kind: TokenKind::LeftParen, start: pos, end: pos + 1, line }
        } else if c == ')' {
            Scanned { kind: TokenKind::RightParen, start: pos, end: pos + 1, line }
        } else if c == '{' {
            Scanned { kind: TokenKind::LeftBrace, start: pos, end: pos + 1, line }
        } else if c == '}' {
            Scanned { kind: TokenKind::RightBrace, start: pos, end: pos + 1, line }
        } else if c == ',' {
            Scanned { kind: TokenKind::Comma, start: pos, end: pos + 1, line }
        } else if c == '.' {
            Scanned { kind: TokenKind::Dot, start: pos, end: pos + 1, line }
        } else if c == '-' {
            Scanned { kind: TokenKind::Minus, start: pos, end: pos + 1, line }
        } else if c == '+' {
            Scanned { kind: TokenKind::Plus, start: pos, end: pos + 1, line }
        } else if c == ';' {
            Scanned { kind: TokenKind::Semicolon, start: pos, end: pos + 1, line }
        } else if c == '/' {
            Scanned { kind: TokenKind::Slash, start: pos, end: pos + 1, line }
        } else if c == '*' {
            Scanned { kind: TokenKind::Star, start: pos, end: pos + 1, line }
        } else if c == '%' {
            Scanned { kind: TokenKind::Percent, start: pos, end: pos + 1, line }
        } else if c == '!' {
            if pos + 1 < s.len() && s[pos as int + 1] == '=' {
                Scanned { kind: TokenKind::BangEqual, start: pos, end: pos + 2, line }
            } else {
                Scanned { kind: TokenKind::Bang, start: pos, end: pos + 1, line }
            }
        } else if c == '=' {
            if pos + 1 < s.len() && s[pos as int + 1] == '=' {
                Scanned { kind: TokenKind::EqualEqual, start: pos, end: pos + 2, line }
            } else {
                Scanned { kind: TokenKind::Equal, start: pos, end: pos + 1, line }
            }
        } else if c == '<' {
            if pos + 1 < s.len() && s[pos as int + 1] == '=' {
                Scanned { kind: TokenKind::LessEqual, start: pos, end: pos + 2, line }
            } else {
                Scanned { kind: TokenKind::Less, start: pos, end: pos + 1, line }
            }
        } else if c == '>' {
            if pos + 1 < s.len() && s[pos as int + 1] == '=' {
                Scanned { kind: TokenKind::GreaterEqual, start: pos, end: pos + 2, line }
            } else {
                Scanned { kind: TokenKind::Greater, start: pos, end: pos + 1, line }
            }
        } else if c == '"' {
            let (kind, end, line2) = scan_string(s, pos + 1, line);
            Scanned { kind, start: pos, end, line: line2 }
        } else if is_digit_char(c) {
            Scanned { kind: TokenKind::Number, start: pos, end: number_end(s, pos), line }
        } else if is_alpha_char(c) {
            let end = ident_end(s, pos);
            Scanned {
                kind: keyword_kind(s.subrange(pos as int, end as int)),
                start: pos,
                end,
                line,
            }
        } else {
            Scanned { kind: TokenKind::UnexpectedCharacter, start: pos, end: pos + 1, line }
        }
    }
}

pub struct Scanner<'a> {
    source: &'a str,
    chars: Vec<char>,
    start: usize,
    current: usize,
    line: usize,
}

impl<'s> Scanner<'s> {
    /// The source characters.
    pub closed spec fn spec_source(&self) -> Seq<char> {
        self.source@
    }

    pub closed spec fn spec_start(&self) -> nat {
        self.start as nat
    }

    pub closed spec fn spec_current(&self) -> nat {
        self.current as nat
    }

    pub closed spec fn spec_line(&self) -> nat {
        self.line as nat
    }

    pub closed spec fn wf(&self) -> bool {
        &&& self.chars@ == self.source@
        &&& self.start <= self.current <= self.source@.len()
        &&& self.source@.len() < usize::MAX
        &&& 1 <= self.line <= self.current + 1
    }

    /// Bounds that well-formedness guarantees.
    pub proof fn lemma_wf_bounds(&self)
        requires
            self.wf(),
        ensures
            self.spec_start() <= self.spec_current() <= self.spec_source().len(),
            self.spec_source().len() < usize::MAX,
            1 <= self.spec_line(),
    {
    }

    pub fn new(source: &str) -> (sc: Scanner)
        requires
            source@.len() < usize::MAX,
        ensures
            sc.wf(),
            sc.spec_source() == source@,
            sc.spec_start() == 0,
            sc.spec_current() == 0,
            sc.spec_line() == 1,
    {
        let n = source.unicode_len();
        let mut chars: Vec<char> = Vec::new();
        let mut k: usize = 0;
        while k < n
            invariant
                k <= n,
                n == source@.len(),
                chars@ =~= source@.take(k as int),
            decreases n - k,
        {
            chars.push(source.get_char(k));
            proof {
                assert(chars@ =~= source@.take(k as int + 1));
            }
            k = k + 1;
        }
        proof {
            assert(source@.take(n as int) =~= source@);
        }
        Scanner { source, chars, start: 0, current: 0, line: 1 }
    }

    /// Characters not yet consumed.
    pub fn remaining(&self) -> (n: usize)
        requires
            self.wf(),
        ensures
            n == self.spec_source().len() - self.spec_current(),
            n < usize::MAX,
    {
        self.chars.len() - self.current
    }

    fn is_at_end(&self) -> (r: bool)
        requires
            self.wf(),
        ensures
            r == (self.spec_current() >= self.spec_source().len()),
    {
        self.current >= self.chars.len()
    }

    /// The character at the cursor, or NUL at the end.
    fn peek(&self) -> (c: char)
        requires
            self.wf(),
        ensures
            c == if self.spec_current() < self.spec_source().len() {
                self.spec_source()[self.spec_current() as int]
            } else {
                '\0'
            },
    {
        if self.current >= self.chars.len() {
            return '\0';
        }
        self.chars[self.current]
    }

    /// The character after the cursor, or NUL.
    fn peek_next(&self) -> (c: char)
        requires
            self.wf(),
        ensures
            c == if self.spec_current() + 1 < self.spec_source().len() {
                self.spec_source()[self.spec_current() as int + 1]
            } else {
                '\0'
            },
    {
        if self.current >= self.chars.len() {
            return '\0';
        }
        let i = self.current + 1;
        if i >= self.chars.len() {
            return '\0';
        }
        self.chars[i]
    }

    fn advance(&mut self) -> (c: char)
        requires
            old(self).wf(),
            old(self).spec_current() < old(self).spec_source().len(),
        ensures
            final(self).wf(),
            c == old(self).spec_source()[old(self).spec_current() as int],
            final(self).spec_current() == old(self).spec_current() + 1,
            final(self).spec_start() == old(self).spec_start(),
            final(self).spec_line() == old(self).spec_line(),
            final(self).spec_source() == old(self).spec_source(),
            final(self).source == old(self).source,
    {
        let i = self.current;
        self.current = self.current + 1;
        self.chars[i]
    }

    fn match_advance(&mut self, expected: char) -> (r: bool)
        requires
            old(self).wf(),
        ensures
            final(self).wf(),
            final(self).spec_source() == old(self).spec_source(),
            final(self).source == old(self).source,
            final(self).spec_start() == old(self).spec_start(),
            final(self).spec_line() == old(self).spec_line(),
            r == (old(self).spec_current() < old(self).spec_source().len() && old(
                self,
            ).spec_source()[old(self).spec_current() as int] == expected),
            final(self).spec_current() == if r {
                old(self).spec_current() + 1
            } else {
                old(self).spec_current()
            },
    {
        if self.is_at_end() {
            return false;
        }
        if self.peek() != expected {
            return false;
        }
        self.current = self.current + 1;
        true
    }

    /// Skips spaces, tabs, carriage returns, newlines (counting lines)
    /// and `//` comments.
    pub fn skip_whitespace(&mut self)
        requires
            old(self).wf(),
        ensures
            final(self).wf(),
            final(self).spec_source() == old(self).spec_source(),
            final(self).spec_start() == old(self).spec_start(),
            (final(self).spec_current(), final(self).spec_line()) == skip_ws(
                old(self).spec_source(),
                old(self).spec_current(),
                old(self).spec_line(),
            ),
            final(self).spec_current() >= old(self).spec_current(),
    {
        loop
            invariant
                self.wf(),
                self.spec_source() == old(self).spec_source(),
                self.source == old(self).source,
                self.spec_start() == old(self).spec_start(),
                self.spec_current() >= old(self).spec_current(),
                skip_ws(self.spec_source(), self.spec_current(), self.spec_line()) == skip_ws(
                    old(self).spec_source(),
                    old(self).spec_current(),
                    old(self).spec_line(),
                ),
            ensures
                (self.spec_current(), self.spec_line()) == skip_ws(
                    old(self).spec_source(),
                    old(self).spec_current(),
                    old(self).spec_line(),
                ),
            decreases self.spec_source().len() - self.spec_current(),
        {
            let ghost cur0 = self.spec_current();
            let ghost l0 = self.spec_line();
            let ghost src = self.spec_source();
            let c = self.peek();

            match c {
                ' ' | '\r' | '\t' => {
                    self.advance();
                    proof {
                        assert(skip_ws(src, cur0, l0) == skip_ws(src, cur0 + 1, l0));
                    }
                },
                '\n' => {
                    self.advance();
                    self.line = self.line + 1;
                    proof {
                        assert(skip_ws(src, cur0, l0) == skip_ws(src, cur0 + 1, (l0 + 1) as nat));
                    }
                },
                '/' => {
                    if self.peek_next() == '/' {
                        let ghost target = comment_end(self.spec_source(), self.spec_current());
                        proof {
                            lemma_comment_end(self.spec_source(), self.spec_current());
                            assert(comment_end(src, cur0) == comment_end(src, cur0 + 1));
                            assert(skip_ws(src, cur0, l0) == skip_ws(src, comment_end(src, cur0 + 1), l0));
                        }
                        while self.peek() != '\n' && !self.is_at_end()
                            invariant
                                self.wf(),
                                self.spec_source() == src,
                                self.source == old(self).source,
                                self.spec_start() == old(self).spec_start(),
                                self.spec_line() == l0,
                                self.spec_current() >= cur0,
                                self.spec_current() <= target,
                                comment_end(src, self.spec_current()) == target,
                            decreases self.spec_source().len() - self.spec_current(),
                        {
                            proof {
                                lemma_comment_end(src, self.spec_current() + 1);
                            }
                            self.advance();
                        }
                        proof {
                            assert(comment_end(src, self.spec_current()) == self.spec_current());
                            assert(self.spec_current() == target);
                            assert(skip_ws(src, self.spec_current(), self.spec_line()) == skip_ws(
                                src,
                                cur0,
                                l0,
                            ));
                        }
                    } else {
                        break;
                    }
                },
                _ => {
                    break;
                },
            };
        }
    }
}

} // verus!

verus! {

pub fn is_digit(c: char) -> (r: bool)
    ensures
        r == is_digit_char(c),
{
    '0' <= c && c <= '9'
}

pub fn is_alpha(c: char) -> (r: bool)
    ensures
        r == is_alpha_char(c),
{
    ('a' <= c && c <= 'z') || ('A' <= c && c <= 'Z') || c == '_'
}

/// Character-wise string equality.
fn str_eq(a: &str, b: &str) -> (r: bool)
    ensures
        r == (a@ == b@),
{
    let n = a.unicode_len();
    let m = b.unicode_len();
    if n != m {
        proof {
            assert(a@ != b@);
        }
        return false;
    }
    let mut k: usize = 0;
    while k < n
        invariant
            k <= n,
            n == a@.len(),
            n == b@.len(),
            forall|j: int| 0 <= j < k ==> a@[j] == b@[j],
        decreases n - k,
    {
        if a.get_char(k) != b.get_char(k) {
            return false;
        }
        k = k + 1;
    }
    proof {
        assert(a@ =~= b@);
    }
    true
}

/// The keyword kind of a word, `None` for plain identifiers.
pub fn str_to_keyword(s: &str) -> (r: Option<TokenKind>)
    ensures
        match r {
            Some(k) => k == keyword_kind(s@) && k != TokenKind::Identifier,
            None => keyword_kind(s@) == TokenKind::Identifier,
        },
{
    if str_eq(s, "and") {
        Some(TokenKind::And)
    } else if str_eq(s, "class") {
        Some(TokenKind::Class)
    } else if str_eq(s, "else") {
        Some(TokenKind::Else)
    } else if str_eq(s, "false") {
        Some(TokenKind::False)
    } else if str_eq(s, "for") {
        Some(TokenKind::For)
    } else if str_eq(s, "fun") {
        Some(TokenKind::Fun)
    } else if str_eq(s, "if") {
        Some(TokenKind::If)
    } else if str_eq(s, "nil") {
        Some(TokenKind::Nil)
    } else if str_eq(s, "or") {
        Some(TokenKind::Or)
    } else if str_eq(s, "print") {
        Some(TokenKind::Print)
    } else if str_eq(s, "return") {
        Some(TokenKind::Return)
    } else if str_eq(s, "super") {
        Some(TokenKind::Super)
    } else if str_eq(s, "this") {
        Some(TokenKind::This)
    } else if str_eq(s, "true") {
        Some(TokenKind::True)
    } else if str_eq(s, "var") {
        Some(TokenKind::Var)
    } else if str_eq(s, "while") {
        Some(TokenKind::While)
    } else {
        None
    }
}

impl<'s> Scanner<'s> {
    /// Scans a string literal body, the opening quote already consumed.
    fn string(&mut self) -> (k: TokenKind)
        requires
            old(self).wf(),
        ensures
            final(self).wf(),
            final(self).spec_source() == old(self).spec_source(),
            final(self).source == old(self).source,
            final(self).spec_start() == old(self).spec_start(),
            ({
                let (k2, end, l2) = scan_string(
                    old(self).spec_source(),
                    old(self).spec_current(),
                    old(self).spec_line(),
                );
                k == k2 && final(self).spec_current() == end && final(self).spec_line() == l2
            }),
    {
        let ghost src = self.spec_source();
        loop
            invariant
                self.wf(),
                self.spec_source() == src,
                self.source == old(self).source,
                self.spec_start() == old(self).spec_start(),
                scan_string(src, self.spec_current(), self.spec_line()) == scan_string(
                    src,
                    old(self).spec_current(),
                    old(self).spec_line(),
                ),
            ensures
                self.wf(),
                self.spec_source() == src,
                self.source == old(self).source,
                self.spec_start() == old(self).spec_start(),
                scan_string(src, self.spec_current(), self.spec_line()) == scan_string(
                    src,
                    old(self).spec_current(),
                    old(self).spec_line(),
                ),
                self.spec_current() >= src.len() || src[self.spec_current() as int] == '"',
            decreases src.len() - self.spec_current(),
        {
            let ghost cur0 = self.spec_current();
            let ghost l0 = self.spec_line();
            if self.is_at_end() {
                break;
            }
            let c = self.peek();
            if c == '"' {
                break;
            }
            if c == '\\' {
                self.advance();
                if self.is_at_end() {
                    proof {
                        assert(scan_string(src, cur0, l0) == (TokenKind::UnterminatedString, cur0
                            + 1, l0));
                    }
                    return TokenKind::UnterminatedString;
                }
                self.advance();
                proof {
                    assert(scan_string(src, cur0, l0) == scan_string(src, cur0 + 2, l0));
                }
            } else {
                self.advance();
                if c == '\n' {
                    self.line = self.line + 1;
                    proof {
                        assert(scan_string(src, cur0, l0) == scan_string(src, cur0 + 1, (l0
                            + 1) as nat));
                    }
                } else {
                    proof {
                        assert(scan_string(src, cur0, l0) == scan_string(src, cur0 + 1, l0));
                    }
                }
            }
        }

        if self.is_at_end() {
            return TokenKind::UnterminatedString;
        }
        self.advance();
        TokenKind::String
    }

    /// Scans the rest of a number literal, the first digit already
    /// consumed.
    fn number(&mut self) -> (k: TokenKind)
        requires
            old(self).wf(),
        ensures
            final(self).wf(),
            final(self).spec_source() == old(self).spec_source(),
            final(self).source == old(self).source,
            final(self).spec_start() == old(self).spec_start(),
            final(self).spec_line() == old(self).spec_line(),
            final(self).spec_current() == number_end(
                old(self).spec_source(),
                old(self).spec_current(),
            ),
            k == TokenKind::Number,
    {
        let ghost src = self.spec_source();
        let ghost cur0 = self.spec_current();
        while is_digit(self.peek()) && !self.is_at_end()
            invariant
                self.wf(),
                self.spec_source() == src,
                self.source == old(self).source,
                self.spec_start() == old(self).spec_start(),
                self.spec_line() == old(self).spec_line(),
                digits_end(src, self.spec_current()) == digits_end(src, cur0),
            ensures
                self.wf(),
                self.spec_source() == src,
                self.source == old(self).source,
                self.spec_start() == old(self).spec_start(),
                self.spec_line() == old(self).spec_line(),
                self.spec_current() == digits_end(src, cur0),
            decreases src.len() - self.spec_current(),
        {
            self.advance();
        }

        if self.peek() == '.' && is_digit(self.peek_next()) {
            self.advance();
            let ghost p1 = self.spec_current();
            while is_digit(self.peek()) && !self.is_at_end()
                invariant
                    self.wf(),
                    self.spec_source() == src,
                    self.source == old(self).source,
                    self.spec_start() == old(self).spec_start(),
                    self.spec_line() == old(self).spec_line(),
                    digits_end(src, self.spec_current()) == digits_end(src, p1),
                ensures
                    self.wf(),
                    self.spec_source() == src,
                    self.source == old(self).source,
                    self.spec_start() == old(self).spec_start(),
                    self.spec_line() == old(self).spec_line(),
                    self.spec_current() == digits_end(src, p1),
                decreases src.len() - self.spec_current(),
            {
                self.advance();
            }
            proof {
                assert(number_end(src, cur0) == digits_end(src, p1));
            }
        } else {
            proof {
                assert(number_end(src, cur0) == digits_end(src, cur0));
            }
        }

        TokenKind::Number
    }

    /// Scans the rest of an identifier, the first character already
    /// consumed, and resolves keywords.
    fn identifier(&mut self) -> (k: TokenKind)
        requires
            old(self).wf(),
            old(self).spec_start() <= old(self).spec_current(),
        ensures
            final(self).wf(),
            final(self).spec_source() == old(self).spec_source(),
            final(self).source == old(self).source,
            final(self).spec_start() == old(self).spec_start(),
            final(self).spec_line() == old(self).spec_line(),
            final(self).spec_current() == ident_end(
                old(self).spec_source(),
                old(self).spec_current(),
            ),
            k == keyword_kind(
                old(self).spec_source().subrange(
                    old(self).spec_start() as int,
                    ident_end(old(self).spec_source(), old(self).spec_current()) as int,
                ),
            ),
    {
        let ghost src = self.spec_source();
        let ghost cur0 = self.spec_current();
        while is_alpha(self.peek()) || is_digit(self.peek())
            invariant
                self.wf(),
                self.spec_source() == src,
                self.source == old(self).source,
                self.spec_start() == old(self).spec_start(),
                self.spec_line() == old(self).spec_line(),
                self.spec_current() >= cur0,
                ident_end(src, self.spec_current()) == ident_end(src, cur0),
            ensures
                self.wf(),
                self.spec_source() == src,
                self.source == old(self).source,
                self.spec_start() == old(self).spec_start(),
                self.spec_line() == old(self).spec_line(),
                self.spec_current() == ident_end(src, cur0),
            decreases src.len() - self.spec_current(),
        {
            proof {
                assert(self.spec_current() < src.len());
            }
            self.advance();
        }

        self.identifier_type()
    }

    fn identifier_type(&self) -> (k: TokenKind)
        requires
            self.wf(),
            self.spec_start() <= self.spec_current(),
        ensures
            k == keyword_kind(
                self.spec_source().subrange(self.spec_start() as int, self.spec_current() as int),
            ),
    {
        let w = self.source.substring_char(self.start, self.current);
        match str_to_keyword(w) {
            Some(keyword) => keyword,
            None => TokenKind::Identifier,
        }
    }

    /// The next token.  Its kind, span and line follow `spec_scan`
    /// from the current position and line.
    pub fn scan_token(&mut self) -> (t: Token<'s>)
        requires
            old(self).wf(),
        ensures
            final(self).wf(),
            final(self).spec_source() == old(self).spec_source(),
            ({
                let sc = spec_scan(
                    old(self).spec_source(),
                    old(self).spec_current(),
                    old(self).spec_line(),
                );
                &&& t.kind == sc.kind
                &&& t.line == sc.line
                &&& t.span@ == old(self).spec_source().subrange(sc.start as int, sc.end as int)
                &&& final(self).spec_start() == sc.start
                &&& final(self).spec_current() == sc.end
                &&& final(self).spec_line() == sc.line
            }),
            final(self).spec_current() >= old(self).spec_current(),
            final(self).spec_current() <= final(self).spec_source().len(),
            t.line >= old(self).spec_line(),
            t.kind != TokenKind::Eof ==> final(self).spec_current() > old(self).spec_current(),
            t.kind == TokenKind::Eof ==> final(self).spec_current() == old(
                self
            ).spec_source().len(),
            t.kind == TokenKind::String ==> t.span@.len() >= 2 && t.span@[0] == '"'
                && t.span@.last() == '"',
    {
        let ghost src = self.spec_source();
        proof {
            lemma_skip_ws(src, self.spec_current(), self.spec_line());
        }
        self.skip_whitespace();

        self.start = self.current;
        let ghost pos = self.spec_current();
        let ghost line = self.spec_line();

        let kind = if self.is_at_end() {
            TokenKind::Eof
        } else {
            let c = self.advance();

            match c {
                '(' => TokenKind::LeftParen,
                ')' => TokenKind::RightParen,
                '{' => TokenKind::LeftBrace,
                '}' => TokenKind::RightBrace,
                ',' => TokenKind::Comma,
                '.' => TokenKind::Dot,
                '-' => TokenKind::Minus,
                '+' => TokenKind::Plus,
                ';' => TokenKind::Semicolon,
                '/' => TokenKind::Slash,
                '*' => TokenKind::Star,
                '%' => TokenKind::Percent,
                '!' => {
                    if self.match_advance('=') {
                        TokenKind::BangEqual
                    } else {
                        TokenKind::Bang
                    }
                },
                '=' => {
                    if self.match_advance('=') {
                        TokenKind::EqualEqual
                    } else {
                        TokenKind::Equal
                    }
                },
                '<' => {
                    if self.match_advance('=') {
                        TokenKind::LessEqual
                    } else {
                        TokenKind::Less
                    }
                },
                '>' => {
                    if self.match_advance('=') {
                        TokenKind::GreaterEqual
                    } else {
                        TokenKind::Greater
                    }
                },
                '"' => {
                    proof {
                        lemma_scan_string(src, pos + 1, line);
                    }
                    self.string()
                },
                _ => {
                    if is_digit(c) {
                        proof {
                            lemma_digits_end(src, pos + 1);
                            assert(digits_end(src, pos) == digits_end(src, pos + 1));
                            if digits_end(src, pos) as int + 1 < src.len() && src[digits_end(
                                src,
                                pos,
                            ) as int] == '.' && is_digit_char(src[digits_end(src, pos) as int + 1]) {
                                lemma_digits_end(src, digits_end(src, pos) + 1);
                            }
                            assert(number_end(src, pos) == number_end(src, pos + 1));
                        }
                        self.number()
                    } else if is_alpha(c) {
                        proof {
                            lemma_ident_end(src, pos + 1);
                            assert(ident_end(src, pos) == ident_end(src, pos + 1));
                        }
                        self.identifier()
                    } else {
                        TokenKind::UnexpectedCharacter
                    }
                },
            }
        };

        let span = self.source.substring_char(self.start, self.current);
        Token { kind, span, line: self.line }
    }
}

} // verus!
