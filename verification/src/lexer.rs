//! Tokenization: a deterministic, single left-to-right pass over a byte
//! buffer producing either the complete token sequence (terminated by exactly
//! one trailing `EOF` token) or the first lexical error.
//!
//! The whole pass is specified by [`lex_spec`]: a mathematical tokenizer over
//! `Seq<u8>`.  [`Lexer::scan_tokens`] is proved to return exactly its value.
//!
//! Only ASCII is given meaning outside string literals: whitespace is
//! `0x09..=0x0D` and space, identifiers are ASCII letters followed by
//! letters, digits, `_` or `-`, and numbers are runs of ASCII digits read as
//! a `u32` (a longer run is a `NumberOverflow` error rather than a panic).
//! Every other byte outside a string literal, the NUL byte included, is an
//! `UnrecognizedCharacter` error.  Between double quotes any byte sequence
//! is accepted, embedded newlines included.

use vstd::prelude::*;

use crate::bytes::copy_range;

verus! {

/// One lexical unit.  Text payloads are owned copies of the source bytes.
#[derive(Debug, PartialEq, Eq)]
pub enum Token {
    Identifier(Vec<u8>),
    String(Vec<u8>),
    Number(u32),
    LeftParen,
    RightParen,
    LeftBracket,
    RightBracket,
    LeftBrace,
    RightBrace,
    DoubleDot,
    Dot,
    Comma,
    Colon,
    EOF,
}

/// Mathematical value of a [`Token`].
pub enum TokenV {
    Identifier(Seq<u8>),
    String(Seq<u8>),
    Number(u32),
    LeftParen,
    RightParen,
    LeftBracket,
    RightBracket,
    LeftBrace,
    RightBrace,
    DoubleDot,
    Dot,
    Comma,
    Colon,
    EOF,
}

impl DeepView for Token {
    type V = TokenV;

    open spec fn deep_view(&self) -> TokenV {
        match self {
            Token::Identifier(s) => TokenV::Identifier(s@),
            Token::String(s) => TokenV::String(s@),
            Token::Number(n) => TokenV::Number(*n),
            Token::LeftParen => TokenV::LeftParen,
            Token::RightParen => TokenV::RightParen,
            Token::LeftBracket => TokenV::LeftBracket,
            Token::RightBracket => TokenV::RightBracket,
            Token::LeftBrace => TokenV::LeftBrace,
            Token::RightBrace => TokenV::RightBrace,
            Token::DoubleDot => TokenV::DoubleDot,
            Token::Dot => TokenV::Dot,
            Token::Comma => TokenV::Comma,
            Token::Colon => TokenV::Colon,
            Token::EOF => TokenV::EOF,
        }
    }
}

/// A lexical failure.  Positions are byte offsets into the source.
#[derive(Debug, PartialEq, Eq, Clone, Copy)]
pub enum LexingError {
    /// A byte outside the accepted grammar; `position` is the offset just
    /// past the offending byte, as the scanner reports it.
    UnrecognizedCharacter { character: char, position: usize },
    /// A string literal opened at `start` but never closed; `end` is where
    /// scanning stopped (the end of the input).
    UnclosedStringLiteral { start: usize, end: usize },
    /// A run of digits whose value does not fit in a `u32`; the run spans
    /// `start..end`.
    NumberOverflow { start: usize, end: usize },
}

/// Byte classes: ASCII whitespace as Unicode defines it for ASCII.
pub open spec fn is_ws_byte(b: u8) -> bool {
    b == 32 || (9 <= b && b <= 13)
}

/// ASCII decimal digit.
pub open spec fn is_digit_byte(b: u8) -> bool {
    48 <= b && b <= 57
}

/// ASCII letter: the accepted first byte of an identifier.
pub open spec fn is_alpha_byte(b: u8) -> bool {
    (65 <= b && b <= 90) || (97 <= b && b <= 122)
}

/// Identifier continuation byte: letter, digit, underscore or hyphen
/// (kebab-case names are allowed).
pub open spec fn is_ident_byte(b: u8) -> bool {
    is_alpha_byte(b) || is_digit_byte(b) || b == 95 || b == 45
}

/// First position at or after `pos` holding a non-whitespace byte (or the
/// end of the input).
pub open spec fn skip_ws_end(src: Seq<u8>, pos: int) -> int
    decreases src.len() - pos,
{
    if 0 <= pos < src.len() && is_ws_byte(src[pos]) {
        skip_ws_end(src, pos + 1)
    } else {
        pos
    }
}

/// First position at or after `pos` holding a closing double quote (or the
/// end of the input).
pub open spec fn string_end(src: Seq<u8>, pos: int) -> int
    decreases src.len() - pos,
{
    if 0 <= pos < src.len() && src[pos] != 34 {
        string_end(src, pos + 1)
    } else {
        pos
    }
}

/// End of the maximal run of identifier bytes starting at `pos`.
pub open spec fn ident_end(src: Seq<u8>, pos: int) -> int
    decreases src.len() - pos,
{
    if 0 <= pos < src.len() && is_ident_byte(src[pos]) {
        ident_end(src, pos + 1)
    } else {
        pos
    }
}

/// End of the maximal run of digit bytes starting at `pos`.
pub open spec fn digits_end(src: Seq<u8>, pos: int) -> int
    decreases src.len() - pos,
{
    if 0 <= pos < src.len() && is_digit_byte(src[pos]) {
        digits_end(src, pos + 1)
    } else {
        pos
    }
}

/// Decimal value of the digit run `src[start..end)`, read left to right.
pub open spec fn digits_value(src: Seq<u8>, start: int, end: int) -> int
    decreases end - start,
{
    if start >= end {
        0
    } else {
        digits_value(src, start, end - 1) * 10 + (src[end - 1] - 48)
    }
}

/// One token scanned at position `pos` (whitespace already skipped):
/// the token and the position after it, or the lexical error.
/// At the end of the input the scanner yields `EOF` without moving.
pub open spec fn scan_at(src: Seq<u8>, pos: int) -> Result<(TokenV, int), LexingError> {
    if pos >= src.len() {
        Ok((TokenV::EOF, pos))
    } else {
        let b = src[pos];
        if b == 40 {
            Ok((TokenV::LeftParen, pos + 1))
        } else if b == 41 {
            Ok((TokenV::RightParen, pos + 1))
        } else if b == 91 {
            Ok((TokenV::LeftBracket, pos + 1))
        } else if b == 93 {
            Ok((TokenV::RightBracket, pos + 1))
        } else if b == 123 {
            Ok((TokenV::LeftBrace, pos + 1))
        } else if b == 125 {
            Ok((TokenV::RightBrace, pos + 1))
        } else if b == 44 {
            Ok((TokenV::Comma, pos + 1))
        } else if b == 58 {
            Ok((TokenV::Colon, pos + 1))
        } else if b == 46 {
            if pos + 1 < src.len() && src[pos + 1] == 46 {
                Ok((TokenV::DoubleDot, pos + 2))
            } else {
                Ok((TokenV::Dot, pos + 1))
            }
        } else if b == 34 {
            let e = string_end(src, pos + 1);
            if e < src.len() {
                Ok((TokenV::String(src.subrange(pos + 1, e)), e + 1))
            } else {
                Err(LexingError::UnclosedStringLiteral {
                    start: pos as usize,
                    end: src.len() as usize,
                })
            }
        } else if is_digit_byte(b) {
            let e = digits_end(src, pos + 1);
            let v = digits_value(src, pos, e);
            if v <= u32::MAX {
                Ok((TokenV::Number(v as u32), e))
            } else {
                Err(LexingError::NumberOverflow { start: pos as usize, end: e as usize })
            }
        } else if is_alpha_byte(b) {
            Ok((TokenV::Identifier(src.subrange(pos, ident_end(src, pos + 1))), ident_end(
                src,
                pos + 1,
            )))
        } else {
            Err(LexingError::UnrecognizedCharacter {
                character: b as char,
                position: (pos + 1) as usize,
            })
        }
    }
}

/// The token sequence scanned from `pos` to the end of the input, before
/// the trailing-`EOF` normalization, or the first lexical error.
pub open spec fn lex_from(src: Seq<u8>, pos: int) -> Result<Seq<TokenV>, LexingError>
    decreases src.len() - pos,
{
    if pos >= src.len() {
        Ok(Seq::empty())
    } else {
        let p = skip_ws_end(src, pos);
        match scan_at(src, p) {
            Err(e) => Err(e),
            Ok((t, p2)) => if pos < p2 <= src.len() {
                match lex_from(src, p2) {
                    Err(e) => Err(e),
                    Ok(rest) => Ok(seq![t] + rest),
                }
            } else {
                // never reached: a scanned token always makes progress
                Ok(seq![t])
            },
        }
    }
}

/// What `scan_tokens` returns when started at `pos`: the tokens up to the
/// end of the input, with exactly one `EOF` appended if the scan did not
/// already end in one.
pub open spec fn lex_spec(src: Seq<u8>, pos: int) -> Result<Seq<TokenV>, LexingError> {
    match lex_from(src, pos) {
        Err(e) => Err(e),
        Ok(toks) => if toks.len() > 0 && toks.last() == TokenV::EOF {
            Ok(toks)
        } else {
            Ok(toks.push(TokenV::EOF))
        },
    }
}

/// Where the scanning cursor stands after reporting `e`.
pub open spec fn error_cursor(e: LexingError) -> int {
    match e {
        LexingError::UnrecognizedCharacter { position, .. } => position as int,
        LexingError::UnclosedStringLiteral { end, .. } => end as int,
        LexingError::NumberOverflow { end, .. } => end as int,
    }
}

/// A token sequence fit for parsing: non-empty, ending in `EOF`, with
/// `EOF` nowhere else.
pub open spec fn wf_tokens(toks: Seq<TokenV>) -> bool {
    &&& toks.len() > 0
    &&& toks.last() == TokenV::EOF
    &&& forall|i: int| 0 <= i < toks.len() - 1 ==> toks[i] != TokenV::EOF
}

proof fn lemma_skip_ws_bounds(src: Seq<u8>, pos: int)
    requires
        0 <= pos,
    ensures
        pos <= skip_ws_end(src, pos),
        pos <= src.len() ==> skip_ws_end(src, pos) <= src.len(),
    decreases src.len() - pos,
{
    if 0 <= pos < src.len() && is_ws_byte(src[pos]) {
        lemma_skip_ws_bounds(src, pos + 1);
    }
}

proof fn lemma_string_end_bounds(src: Seq<u8>, pos: int)
    requires
        0 <= pos,
    ensures
        pos <= string_end(src, pos),
        pos <= src.len() ==> string_end(src, pos) <= src.len(),
    decreases src.len() - pos,
{
    if 0 <= pos < src.len() && src[pos] != 34 {
        lemma_string_end_bounds(src, pos + 1);
    }
}

proof fn lemma_ident_end_bounds(src: Seq<u8>, pos: int)
    requires
        0 <= pos,
    ensures
        pos <= ident_end(src, pos),
        pos <= src.len() ==> ident_end(src, pos) <= src.len(),
    decreases src.len() - pos,
{
    if 0 <= pos < src.len() && is_ident_byte(src[pos]) {
        lemma_ident_end_bounds(src, pos + 1);
    }
}

proof fn lemma_digits_end_bounds(src: Seq<u8>, pos: int)
    requires
        0 <= pos,
    ensures
        pos <= digits_end(src, pos),
        pos <= src.len() ==> digits_end(src, pos) <= src.len(),
    decreases src.len() - pos,
{
    if 0 <= pos < src.len() && is_digit_byte(src[pos]) {
        lemma_digits_end_bounds(src, pos + 1);
    }
}

proof fn lemma_scan_at_bounds(src: Seq<u8>, pos: int)
    requires
        0 <= pos <= src.len(),
    ensures
        match scan_at(src, pos) {
            Ok(res) => res.1 <= src.len() && (if pos < src.len() {
                pos < res.1 && res.0 != TokenV::EOF
            } else {
                res.1 == pos && res.0 == TokenV::EOF
            }),
            Err(e) => pos < src.len() && 0 <= error_cursor(e) <= src.len(),
        },
{
    if pos < src.len() {
        let b = src[pos];
        if b == 34 {
            lemma_string_end_bounds(src, pos + 1);
        } else if is_digit_byte(b) {
            lemma_digits_end_bounds(src, pos + 1);
        } else if is_alpha_byte(b) {
            lemma_ident_end_bounds(src, pos + 1);
        }
    }
}

proof fn lemma_lex_from_shape(src: Seq<u8>, pos: int)
    requires
        0 <= pos,
    ensures
        match lex_from(src, pos) {
            Ok(toks) => forall|i: int| 0 <= i < toks.len() - 1 ==> toks[i] != TokenV::EOF,
            Err(e) => true,
        },
    decreases src.len() - pos,
{
    if pos < src.len() {
        lemma_skip_ws_bounds(src, pos);
        let p = skip_ws_end(src, pos);
        lemma_scan_at_bounds(src, p);
        match scan_at(src, p) {
            Ok(res) => {
                let (t, p2) = res;
                if pos < p2 <= src.len() {
                    lemma_lex_from_shape(src, p2);
                    match lex_from(src, p2) {
                        Ok(rest) => {
                            if t == TokenV::EOF {
                                assert(p == src.len());
                                assert(rest =~= Seq::<TokenV>::empty());
                            }
                        },
                        Err(_) => {},
                    }
                }
            },
            Err(_) => {},
        }
    }
}

/// Law: whatever token sequence the lexer accepts is well formed: it is
/// non-empty, its last token is `EOF`, and `EOF` appears nowhere else.
pub proof fn lemma_lex_tokens_well_formed(src: Seq<u8>, pos: int)
    requires
        0 <= pos,
    ensures
        match lex_spec(src, pos) {
            Ok(toks) => wf_tokens(toks),
            Err(e) => true,
        },
{
    lemma_lex_from_shape(src, pos);
}

/// A source the scanner accepts from `pos` on: at every step, the byte
/// that starts the next token is recognized, the string literal it opens
/// is closed before the end of the input, and the digit run it starts has
/// a value that fits in a `u32`.  This formalizes "balanced quotes and
/// only grammar bytes outside string literals".
pub open spec fn scannable_from(src: Seq<u8>, pos: int) -> bool
    decreases src.len() - pos,
{
    if pos >= src.len() {
        true
    } else {
        let p = skip_ws_end(src, pos);
        match scan_at(src, p) {
            Err(e) => false,
            Ok(res) => if pos < res.1 <= src.len() {
                scannable_from(src, res.1)
            } else {
                true
            },
        }
    }
}

proof fn lemma_lex_from_total(src: Seq<u8>, pos: int)
    requires
        0 <= pos,
        scannable_from(src, pos),
    ensures
        lex_from(src, pos) is Ok,
    decreases src.len() - pos,
{
    if pos < src.len() {
        lemma_skip_ws_bounds(src, pos);
        let p = skip_ws_end(src, pos);
        lemma_scan_at_bounds(src, p);
        match scan_at(src, p) {
            Ok(res) => {
                if pos < res.1 <= src.len() {
                    lemma_lex_from_total(src, res.1);
                }
            },
            Err(_) => {},
        }
    }
}

/// Law: scanning a scannable source never fails, and the token sequence
/// it yields is well formed: non-empty, exactly one `EOF`, at the end.
pub proof fn lemma_scan_tokens_total(src: Seq<u8>, pos: int)
    requires
        0 <= pos,
        scannable_from(src, pos),
    ensures
        lex_spec(src, pos) matches Ok(toks) && wf_tokens(toks),
{
    lemma_lex_from_total(src, pos);
    lemma_lex_tokens_well_formed(src, pos);
}

/// A non-empty identifier of the lexer's grammar: a letter followed by
/// letters, digits, underscores or hyphens.
pub open spec fn ident_bytes_ok(s: Seq<u8>) -> bool {
    &&& s.len() > 0
    &&& is_alpha_byte(s[0])
    &&& forall|i: int| 0 <= i < s.len() ==> is_ident_byte(s[i])
}

/// An identifier token carries a well-shaped name; any other token holds
/// trivially.
pub open spec fn token_ident_ok(t: TokenV) -> bool {
    match t {
        TokenV::Identifier(s) => ident_bytes_ok(s),
        _ => true,
    }
}

proof fn lemma_ident_run(src: Seq<u8>, pos: int)
    requires
        0 <= pos,
    ensures
        forall|k: int| pos <= k < ident_end(src, pos) ==> is_ident_byte(src[k]),
    decreases src.len() - pos,
{
    if 0 <= pos < src.len() && is_ident_byte(src[pos]) {
        lemma_ident_run(src, pos + 1);
    }
}

proof fn lemma_lex_from_idents(src: Seq<u8>, pos: int)
    requires
        0 <= pos,
    ensures
        match lex_from(src, pos) {
            Ok(toks) => forall|i: int| 0 <= i < toks.len() ==> token_ident_ok(#[trigger] toks[i]),
            Err(e) => true,
        },
    decreases src.len() - pos,
{
    if pos < src.len() {
        lemma_skip_ws_bounds(src, pos);
        let p = skip_ws_end(src, pos);
        lemma_scan_at_bounds(src, p);
        match scan_at(src, p) {
            Ok(res) => {
                let (t, p2) = res;
                if p < src.len() && is_alpha_byte(src[p]) && !is_digit_byte(src[p]) && src[p] != 34
                {
                    lemma_ident_run(src, p + 1);
                    lemma_ident_end_bounds(src, p + 1);
                    assert(token_ident_ok(t)) by {
                        let name = src.subrange(p, ident_end(src, p + 1));
                        assert(name[0] == src[p]);
                        assert forall|i: int| 0 <= i < name.len() implies is_ident_byte(
                            name[i],
                        ) by {
                            assert(name[i] == src[p + i]);
                        }
                    }
                }
                if pos < p2 <= src.len() {
                    lemma_lex_from_idents(src, p2);
                }
            },
            Err(_) => {},
        }
    }
}

/// Law: every identifier token that the lexer accepts carries a
/// non-empty name of the identifier grammar.
pub proof fn lemma_lex_identifiers_shaped(src: Seq<u8>, pos: int)
    requires
        0 <= pos,
    ensures
        match lex_spec(src, pos) {
            Ok(toks) => forall|i: int| 0 <= i < toks.len() ==> token_ident_ok(#[trigger] toks[i]),
            Err(e) => true,
        },
{
    lemma_lex_from_idents(src, pos);
}

fn is_whitespace(c: u8) -> (r: bool)
    ensures
        r == is_ws_byte(c),
{
    c == 32 || (9 <= c && c <= 13)
}

fn is_digit(c: u8) -> (r: bool)
    ensures
        r == is_digit_byte(c),
{
    48 <= c && c <= 57
}

fn is_alpha(c: u8) -> (r: bool)
    ensures
        r == is_alpha_byte(c),
{
    (65 <= c && c <= 90) || (97 <= c && c <= 122)
}

/// Identifier continuation test: letter, digit, underscore or hyphen.
fn is_alphabetic(c: u8) -> (r: bool)
    ensures
        r == is_ident_byte(c),
{
    is_alpha(c) || is_digit(c) || c == 95 || c == 45
}

/// The scanning state: the source buffer and the cursor.
#[derive(Debug)]
pub struct Lexer {
    pub source: Vec<u8>,
    pub current: usize,
}

impl Lexer {
    /// The cursor never stands past the end of the buffer.
    pub open spec fn well_formed(&self) -> bool {
        self.current <= self.source@.len()
    }

    pub fn new(source: &[u8]) -> (r: Self)
        ensures
            r.source@ == source@,
            r.current == 0,
            r.well_formed(),
    {
        Self { source: vstd::slice::slice_to_vec(source), current: 0 }
    }

    fn is_at_end(&self) -> (r: bool)
        ensures
            r == (self.current >= self.source@.len()),
    {
        self.current >= self.source.len()
    }

    fn peek(&self) -> (r: u8)
        ensures
            r == (if (self.current as int) < self.source@.len() {
                self.source@[self.current as int]
            } else {
                0
            }),
    {
        if self.is_at_end() {
            0
        } else {
            self.source[self.current]
        }
    }

    fn advance(&mut self) -> (r: u8)
        ensures
            final(self).source@ == old(self).source@,
            if (old(self).current as int) < old(self).source@.len() {
                r == old(self).source@[old(self).current as int]
                    && final(self).current == old(self).current + 1
            } else {
                r == 0 && final(self).current == old(self).current
            },
    {
        if self.is_at_end() {
            0
        } else {
            proof {
                assert(self.source.len() == self.source@.len());
            }
            self.current = self.current + 1;
            self.source[self.current - 1]
        }
    }

    fn match_char(&mut self, c: u8) -> (r: bool)
        ensures
            final(self).source@ == old(self).source@,
            if (old(self).current as int) < old(self).source@.len()
                && old(self).source@[old(self).current as int] == c {
                r && final(self).current == old(self).current + 1
            } else {
                !r && final(self).current == old(self).current
            },
    {
        if self.is_at_end() || self.peek() != c {
            false
        } else {
            proof {
                assert(self.source.len() == self.source@.len());
            }
            self.current = self.current + 1;
            true
        }
    }

    fn skip_whitespace(&mut self)
        requires
            old(self).well_formed(),
        ensures
            final(self).source@ == old(self).source@,
            final(self).well_formed(),
            final(self).current == skip_ws_end(old(self).source@, old(self).current as int),
    {
        let ghost src = self.source@;
        let ghost start = self.current as int;
        while !self.is_at_end() && is_whitespace(self.peek())
            invariant
                self.source@ == src,
                start <= self.current as int <= src.len(),
                skip_ws_end(src, self.current as int) == skip_ws_end(src, start),
            decreases src.len() - self.current,
        {
            self.advance();
        }
    }

    fn string(&mut self) -> (r: Result<Token, LexingError>)
        requires
            1 <= old(self).current,
            old(self).well_formed(),
        ensures
            final(self).source@ == old(self).source@,
            final(self).well_formed(),
            ({
                let src = old(self).source@;
                let start = old(self).current as int;
                let e = string_end(src, start);
                if e < src.len() {
                    r matches Ok(t) && t.deep_view() == TokenV::String(src.subrange(start, e))
                        && final(self).current == e + 1
                } else {
                    r matches Err(er) && er == (LexingError::UnclosedStringLiteral {
                        start: (start - 1) as usize,
                        end: src.len() as usize,
                    }) && final(self).current == src.len()
                }
            }),
    {
        let ghost src = self.source@;
        let start = self.current;
        while !self.is_at_end() && self.peek() != 34
            invariant
                self.source@ == src,
                start as int <= self.current as int <= src.len(),
                string_end(src, self.current as int) == string_end(src, start as int),
            decreases src.len() - self.current,
        {
            self.advance();
        }
        if self.is_at_end() {
            return Err(LexingError::UnclosedStringLiteral { start: start - 1, end: self.current });
        }
        let inner = copy_range(&self.source, start, self.current);
        // eat the closing quote
        self.advance();
        Ok(Token::String(inner))
    }

    fn identifier(&mut self) -> (r: Result<Token, LexingError>)
        requires
            1 <= old(self).current,
            old(self).well_formed(),
        ensures
            final(self).source@ == old(self).source@,
            final(self).well_formed(),
            ({
                let src = old(self).source@;
                let start = old(self).current as int;
                let e = ident_end(src, start);
                r matches Ok(t) && t.deep_view() == TokenV::Identifier(src.subrange(start - 1, e))
                    && final(self).current == e
            }),
    {
        let ghost src = self.source@;
        let start = self.current - 1;
        while is_alphabetic(self.peek())
            invariant
                self.source@ == src,
                start as int + 1 <= self.current as int <= src.len(),
                ident_end(src, self.current as int) == ident_end(src, start as int + 1),
            decreases src.len() - self.current,
        {
            self.advance();
        }
        let lexeme = copy_range(&self.source, start, self.current);
        Ok(Token::Identifier(lexeme))
    }

    fn number(&mut self) -> (r: Result<Token, LexingError>)
        requires
            1 <= old(self).current,
            old(self).well_formed(),
            is_digit_byte(old(self).source@[old(self).current - 1]),
        ensures
            final(self).source@ == old(self).source@,
            final(self).well_formed(),
            ({
                let src = old(self).source@;
                let start = old(self).current - 1;
                let e = digits_end(src, old(self).current as int);
                let v = digits_value(src, start as int, e);
                final(self).current == e && if v <= u32::MAX {
                    r matches Ok(t) && t.deep_view() == TokenV::Number(v as u32)
                } else {
                    r matches Err(er) && er == (LexingError::NumberOverflow {
                        start: start as usize,
                        end: e as usize,
                    })
                }
            }),
    {
        let ghost src = self.source@;
        let start = self.current - 1;
        let mut value: u32 = (self.source[self.current - 1] - 48) as u32;
        let mut overflow: bool = false;
        proof {
            assert(digits_value(src, start as int, start as int) == 0);
            assert(digits_value(src, start as int, start as int + 1) == src[start as int] - 48);
        }
        while is_digit(self.peek())
            invariant
                self.source@ == src,
                start as int + 1 <= self.current as int <= src.len(),
                forall|k: int| start as int <= k < self.current as int ==> is_digit_byte(src[k]),
                digits_end(src, self.current as int) == digits_end(src, start as int + 1),
                !overflow ==> value == digits_value(src, start as int, self.current as int)
                    && value <= u32::MAX,
                overflow ==> digits_value(src, start as int, self.current as int) > u32::MAX,
            decreases src.len() - self.current,
        {
            let d = self.advance() - 48;
            proof {
                lemma_digits_value_nonneg(src, start as int, self.current as int - 1);
            }
            if overflow {
            } else {
                let next: u64 = value as u64 * 10 + d as u64;
                if next > u32::MAX as u64 {
                    overflow = true;
                } else {
                    value = next as u32;
                }
            }
        }
        if overflow {
            Err(LexingError::NumberOverflow { start, end: self.current })
        } else {
            Ok(Token::Number(value))
        }
    }

    fn scan_token(&mut self) -> (r: Result<Token, LexingError>)
        requires
            old(self).well_formed(),
        ensures
            final(self).source@ == old(self).source@,
            final(self).well_formed(),
            ({
                let src = old(self).source@;
                let pos = old(self).current as int;
                match scan_at(src, pos) {
                    Ok(res) => r matches Ok(t) && t.deep_view() == res.0 && final(self).current
                        == res.1,
                    Err(e) => r matches Err(er) && er == e && final(self).current == error_cursor(
                        e,
                    ),
                }
            }),
    {
        proof {
            lemma_scan_at_bounds(self.source@, self.current as int);
        }
        if self.is_at_end() {
            return Ok(Token::EOF);
        }
        let c = self.advance();
        if c == 40 {
            Ok(Token::LeftParen)
        } else if c == 41 {
            Ok(Token::RightParen)
        } else if c == 91 {
            Ok(Token::LeftBracket)
        } else if c == 93 {
            Ok(Token::RightBracket)
        } else if c == 123 {
            Ok(Token::LeftBrace)
        } else if c == 125 {
            Ok(Token::RightBrace)
        } else if c == 44 {
            Ok(Token::Comma)
        } else if c == 58 {
            Ok(Token::Colon)
        } else if c == 46 {
            if self.match_char(46) {
                Ok(Token::DoubleDot)
            } else {
                Ok(Token::Dot)
            }
        } else if c == 34 {
            self.string()
        } else if is_digit(c) {
            self.number()
        } else if is_alpha(c) {
            self.identifier()
        } else {
            Err(LexingError::UnrecognizedCharacter { character: c as char, position: self.current })
        }
    }

    /// Scans the whole buffer: the complete token sequence terminated by
    /// exactly one trailing `EOF`, or the first lexical error.  The result
    /// is exactly [`lex_spec`] of the source at the starting cursor.
    #[verifier::loop_isolation(false)]
    pub fn scan_tokens(&mut self) -> (r: Result<Vec<Token>, LexingError>)
        requires
            old(self).well_formed(),
        ensures
            final(self).source@ == old(self).source@,
            final(self).well_formed(),
            ({
                let src = old(self).source@;
                let pos0 = old(self).current as int;
                match r {
                    Ok(toks) => lex_spec(src, pos0) == Ok::<_, LexingError>(toks.deep_view())
                        && final(self).current == src.len(),
                    Err(e) => lex_spec(src, pos0) == Err::<Seq<TokenV>, _>(e)
                        && final(self).current == error_cursor(e),
                }
            }),
    {
        let ghost src = self.source@;
        let ghost pos0 = self.current as int;
        let mut tokens: Vec<Token> = Vec::new();
        while !self.is_at_end()
            invariant
                self.source@ == src,
                pos0 <= self.current as int <= src.len(),
                match lex_from(src, self.current as int) {
                    Ok(rest) => lex_from(src, pos0) == Ok::<_, LexingError>(
                        tokens.deep_view() + rest,
                    ),
                    Err(e) => lex_from(src, pos0) == Err::<Seq<TokenV>, _>(e),
                },
            decreases src.len() - self.current,
        {
            let ghost cur0 = self.current as int;
            self.skip_whitespace();
            let ghost p = self.current as int;
            proof {
                lemma_skip_ws_bounds(src, cur0);
                lemma_scan_at_bounds(src, p);
            }
            let tok = self.scan_token();
            match tok {
                Ok(t) => {
                    let ghost pre = tokens.deep_view();
                    tokens.push(t);
                    proof {
                        let res = scan_at(src, p);
                        let tv = res->Ok_0.0;
                        let p2 = res->Ok_0.1;
                        assert(tokens.deep_view() =~= pre.push(t.deep_view()));
                        match lex_from(src, p2) {
                            Ok(rest2) => {
                                assert(pre + (seq![tv] + rest2) =~= pre.push(tv) + rest2);
                            },
                            Err(_) => {},
                        }
                    }
                },
                Err(e) => {
                    proof {
                        assert(lex_from(src, cur0) == Err::<Seq<TokenV>, _>(e));
                        assert(lex_spec(src, pos0) == Err::<Seq<TokenV>, _>(e));
                    }
                    return Err(e);
                },
            }
        }
        proof {
            assert(tokens.deep_view() + Seq::<TokenV>::empty() =~= tokens.deep_view());
        }
        let n = tokens.len();
        if n == 0 || !matches!(&tokens[n - 1], Token::EOF) {
            let ghost pre = tokens.deep_view();
            tokens.push(Token::EOF);
            proof {
                assert(tokens.deep_view() =~= pre.push(TokenV::EOF));
            }
        }
        Ok(tokens)
    }
}

proof fn lemma_digits_value_nonneg(src: Seq<u8>, start: int, end: int)
    requires
        forall|k: int| start <= k < end ==> is_digit_byte(src[k]),
    ensures
        digits_value(src, start, end) >= 0,
    decreases end - start,
{
    if start < end {
        lemma_digits_value_nonneg(src, start, end - 1);
    }
}

} // verus!
