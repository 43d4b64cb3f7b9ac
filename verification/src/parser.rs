//! Recursive-descent construction of an ordered forest of [`Node`]s from
//! the token sequence, with one-token lookahead and no backtracking.
//!
//! The grammar is specified by the `sp_*` functions over `Seq<TokenV>`: one
//! function per production (document, node, tag, attribute list, attribute,
//! literal, list, range).  Each returns the parsed value and the position
//! after it, or the error and the position where parsing stopped.
//! [`Parser::parse`] is proved to return exactly [`parse_spec`] of the
//! source bytes.  The first error aborts the whole parse; there is no
//! recovery.

use vstd::prelude::*;

use crate::ast::{
    lemma_literal_list_deep_view, lemma_node_tag_deep_view, Attribute, AttrV, Literal, LitV, Node,
    NodeV, Tag, TagV,
};
use crate::bytes::{bytes_eq, copy_range};
use crate::lexer::{
    ident_bytes_ok, lex_spec, lemma_lex_identifiers_shaped, lemma_lex_tokens_well_formed,
    token_ident_ok, wf_tokens, Lexer, LexingError, Token, TokenV,
};

verus! {

/// A parsing failure.  The parser's error type subsumes the lexer's, so
/// callers handle a single failure channel.  `at` fields are token indices;
/// the wrapped lexing errors carry byte offsets.
#[derive(Debug, PartialEq, Eq)]
pub enum ParsingError {
    /// Mirror of the lexer's unrecognized-character failure.
    UnrecognizedCharacter { character: char, position: usize },
    /// Mirror of the lexer's unclosed-string failure.
    UnclosedStringLiteral { start: usize, end: usize },
    /// The parser expected the start of a node, literal or attribute and
    /// found an incompatible token at token index `at`.
    UnexpectedToken { at: usize },
    /// The parser expected one specific token and found another.
    ExpectedToken { at: usize, expected: Token, got: Token },
    /// A lexing failure reported while parsing.
    LexingError(LexingError),
}

/// Mathematical value of a [`ParsingError`].
pub enum PErrV {
    UnrecognizedCharacter { character: char, position: int },
    UnclosedStringLiteral { start: int, end: int },
    UnexpectedToken { at: int },
    ExpectedToken { at: int, expected: TokenV, got: TokenV },
    LexingError(LexingError),
}

impl DeepView for ParsingError {
    type V = PErrV;

    open spec fn deep_view(&self) -> PErrV {
        match self {
            ParsingError::UnrecognizedCharacter { character, position } => {
                PErrV::UnrecognizedCharacter { character: *character, position: *position as int }
            },
            ParsingError::UnclosedStringLiteral { start, end } => {
                PErrV::UnclosedStringLiteral { start: *start as int, end: *end as int }
            },
            ParsingError::UnexpectedToken { at } => PErrV::UnexpectedToken { at: *at as int },
            ParsingError::ExpectedToken { at, expected, got } => {
                PErrV::ExpectedToken {
                    at: *at as int,
                    expected: expected.deep_view(),
                    got: got.deep_view(),
                }
            },
            ParsingError::LexingError(le) => PErrV::LexingError(*le),
        }
    }
}

/// One specific token consumed at `pos`, or the expected/got error there.
pub open spec fn sp_consume(toks: Seq<TokenV>, pos: int, want: TokenV) -> Result<
    int,
    (PErrV, int),
> {
    if 0 <= pos < toks.len() && toks[pos] == want {
        Ok(pos + 1)
    } else {
        Err((PErrV::ExpectedToken { at: pos, expected: want, got: toks[pos] }, pos))
    }
}

/// `range-suffix` production: `Number '..' Number?`.
pub open spec fn sp_range(toks: Seq<TokenV>, pos: int) -> Result<(LitV, int), (PErrV, int)> {
    match toks[pos] {
        TokenV::Number(start) => match sp_consume(toks, pos + 1, TokenV::DoubleDot) {
            Err(ep) => Err(ep),
            Ok(p2) => match toks[p2] {
                TokenV::Number(end) => Ok((LitV::Range { start, end: Some(end) }, p2 + 1)),
                _ => Ok((LitV::Range { start, end: None }, p2)),
            },
        },
        _ => Err((PErrV::UnexpectedToken { at: pos }, pos)),
    }
}

/// `literal` production: number (with optional range suffix), string, or
/// bracketed list.
pub open spec fn sp_literal(toks: Seq<TokenV>, pos: int) -> Result<(LitV, int), (PErrV, int)>
    decreases toks.len() - pos, 3int,
{
    if !(0 <= pos < toks.len()) {
        Err((PErrV::UnexpectedToken { at: pos }, pos))
    } else {
        match toks[pos] {
            TokenV::Number(n) => if toks[pos + 1] == TokenV::DoubleDot {
                sp_range(toks, pos)
            } else {
                Ok((LitV::Number(n), pos + 1))
            },
            TokenV::String(s) => Ok((LitV::Str(s), pos + 1)),
            TokenV::LeftBracket => sp_list(toks, pos),
            _ => Err((PErrV::UnexpectedToken { at: pos }, pos)),
        }
    }
}

/// The comma-separated tail of a literal list.
pub open spec fn sp_lit_rest(toks: Seq<TokenV>, pos: int, acc: Seq<LitV>) -> Result<
    (Seq<LitV>, int),
    (PErrV, int),
>
    decreases toks.len() - pos, 2int,
{
    if !(0 <= pos < toks.len()) {
        Err((PErrV::UnexpectedToken { at: pos }, pos))
    } else if toks[pos] == TokenV::Comma {
        match sp_literal(toks, pos + 1) {
            Err(ep) => Err(ep),
            Ok(r) => if pos < r.1 && r.1 <= toks.len() {
                sp_lit_rest(toks, r.1, acc.push(r.0))
            } else {
                // never reached: a parsed literal always makes progress
                Err((PErrV::UnexpectedToken { at: pos }, pos))
            },
        }
    } else {
        Ok((acc, pos))
    }
}

/// `list` production: `'[' (literal (',' literal)*)? ']'`.  A bracket
/// pair with nothing between makes the empty list; otherwise the first
/// element must parse, and its failure fails the list.
pub open spec fn sp_list(toks: Seq<TokenV>, pos: int) -> Result<(LitV, int), (PErrV, int)>
    decreases toks.len() - pos, 2int,
{
    if !(0 <= pos < toks.len()) {
        Err((PErrV::UnexpectedToken { at: pos }, pos))
    } else {
        match sp_consume(toks, pos, TokenV::LeftBracket) {
            Err(ep) => Err(ep),
            Ok(p1) => if toks[p1] == TokenV::RightBracket {
                Ok((LitV::List(Seq::empty()), p1 + 1))
            } else {
                match sp_literal(toks, p1) {
                    Err(ep) => Err(ep),
                    Ok(r) => if pos < r.1 && r.1 <= toks.len() {
                        match sp_lit_rest(toks, r.1, seq![r.0]) {
                            Err(ep) => Err(ep),
                            Ok(r2) => match sp_consume(toks, r2.1, TokenV::RightBracket) {
                                Err(ep) => Err(ep),
                                Ok(p3) => Ok((LitV::List(r2.0), p3)),
                            },
                        }
                    } else {
                        // never reached: a parsed literal always makes progress
                        Err((PErrV::UnexpectedToken { at: pos }, pos))
                    },
                }
            },
        }
    }
}

/// `attribute` production: `Identifier ':' literal`, with the literal
/// alternatives written out as the parser reads them.
pub open spec fn sp_attribute(toks: Seq<TokenV>, pos: int) -> Result<(AttrV, int), (PErrV, int)>
    decreases toks.len() - pos, 3int,
{
    if !(0 <= pos < toks.len()) {
        Err((PErrV::UnexpectedToken { at: pos }, pos))
    } else {
        match toks[pos] {
        TokenV::Identifier(name) => match sp_consume(toks, pos + 1, TokenV::Colon) {
            Err(ep) => Err(ep),
            Ok(p2) => match toks[p2] {
                TokenV::Number(n) => if toks[p2 + 1] == TokenV::DoubleDot {
                    match sp_range(toks, p2) {
                        Err(ep) => Err(ep),
                        Ok(r) => Ok((AttrV { name, value: r.0 }, r.1)),
                    }
                } else {
                    Ok((AttrV { name, value: LitV::Number(n) }, p2 + 1))
                },
                TokenV::String(s) => Ok((AttrV { name, value: LitV::Str(s) }, p2 + 1)),
                TokenV::LeftBracket => match sp_list(toks, p2) {
                    Err(ep) => Err(ep),
                    Ok(r) => Ok((AttrV { name, value: r.0 }, r.1)),
                },
                _ => Err((PErrV::UnexpectedToken { at: p2 }, p2)),
            },
        },
        _ => Err((PErrV::UnexpectedToken { at: pos }, pos)),
        }
    }
}

/// The comma-separated tail of an attribute list.
pub open spec fn sp_attr_rest(toks: Seq<TokenV>, pos: int, acc: Seq<AttrV>) -> Result<
    (Seq<AttrV>, int),
    (PErrV, int),
>
    decreases toks.len() - pos, 4int,
{
    if !(0 <= pos < toks.len()) {
        Err((PErrV::UnexpectedToken { at: pos }, pos))
    } else if toks[pos] == TokenV::Comma {
        match sp_attribute(toks, pos + 1) {
            Err(ep) => Err(ep),
            Ok(r) => if pos < r.1 && r.1 <= toks.len() {
                sp_attr_rest(toks, r.1, acc.push(r.0))
            } else {
                // never reached: a parsed attribute always makes progress
                Err((PErrV::UnexpectedToken { at: pos }, pos))
            },
        }
    } else {
        Ok((acc, pos))
    }
}

/// `attributes` production: `'(' (attribute (',' attribute)*)? ')'`, the
/// empty clause and the first element handled as in [`sp_list`].
pub open spec fn sp_attributes(toks: Seq<TokenV>, pos: int) -> Result<
    (Seq<AttrV>, int),
    (PErrV, int),
>
    decreases toks.len() - pos, 5int,
{
    if !(0 <= pos < toks.len()) {
        Err((PErrV::UnexpectedToken { at: pos }, pos))
    } else {
        match sp_consume(toks, pos, TokenV::LeftParen) {
            Err(ep) => Err(ep),
            Ok(p1) => if toks[p1] == TokenV::RightParen {
                Ok((Seq::empty(), p1 + 1))
            } else {
                match sp_attribute(toks, p1) {
                    Err(ep) => Err(ep),
                    Ok(r) => if pos < r.1 && r.1 <= toks.len() {
                        match sp_attr_rest(toks, r.1, seq![r.0]) {
                            Err(ep) => Err(ep),
                            Ok(r2) => match sp_consume(toks, r2.1, TokenV::RightParen) {
                                Err(ep) => Err(ep),
                                Ok(p3) => Ok((r2.0, p3)),
                            },
                        }
                    } else {
                        // never reached: a parsed attribute always makes progress
                        Err((PErrV::UnexpectedToken { at: pos }, pos))
                    },
                }
            },
        }
    }
}

/// `node` production: a string literal or a tag.
pub open spec fn sp_node(toks: Seq<TokenV>, pos: int) -> Result<(NodeV, int), (PErrV, int)>
    decreases toks.len() - pos, 7int,
{
    if !(0 <= pos < toks.len()) {
        Err((PErrV::UnexpectedToken { at: pos }, pos))
    } else {
        match toks[pos] {
            TokenV::String(s) => Ok((NodeV::Str(s), pos + 1)),
            TokenV::Identifier(_) => sp_tag(toks, pos),
            _ => Err((PErrV::UnexpectedToken { at: pos }, pos)),
        }
    }
}

/// `tag` production: `Identifier attributes? '{' node* '}'`.
pub open spec fn sp_tag(toks: Seq<TokenV>, pos: int) -> Result<(NodeV, int), (PErrV, int)>
    decreases toks.len() - pos, 6int,
{
    if !(0 <= pos < toks.len()) {
        Err((PErrV::UnexpectedToken { at: pos }, pos))
    } else {
        match toks[pos] {
        TokenV::Identifier(name) => {
            let attrs_res: Result<(Seq<AttrV>, int), (PErrV, int)> = if toks[pos + 1]
                == TokenV::LeftParen {
                sp_attributes(toks, pos + 1)
            } else {
                Ok((Seq::empty(), pos + 1))
            };
            match attrs_res {
                Err(ep) => Err(ep),
                Ok(ar) => match sp_consume(toks, ar.1, TokenV::LeftBrace) {
                    Err(ep) => Err(ep),
                    Ok(p2) => if pos < p2 && p2 <= toks.len() {
                        match sp_children(toks, p2, Seq::empty()) {
                            Err(ep) => Err(ep),
                            Ok(cr) => match sp_consume(toks, cr.1, TokenV::RightBrace) {
                                Err(ep) => Err(ep),
                                Ok(p3) => Ok(
                                    (
                                        NodeV::Tag(
                                            TagV { name, attributes: ar.0, children: cr.0 },
                                        ),
                                        p3,
                                    ),
                                ),
                            },
                        }
                    } else {
                        // never reached: the body starts past the brace
                        Err((PErrV::UnexpectedToken { at: pos }, pos))
                    },
                },
            }
        },
        _ => Err((PErrV::UnexpectedToken { at: pos }, pos)),
        }
    }
}

/// Child nodes of a tag body, parsed until the closing brace (or the end
/// of the input, whose missing brace the following consume reports) is
/// the current token.
pub open spec fn sp_children(toks: Seq<TokenV>, pos: int, acc: Seq<NodeV>) -> Result<
    (Seq<NodeV>, int),
    (PErrV, int),
>
    decreases toks.len() - pos, 8int,
{
    if !(0 <= pos < toks.len()) {
        Err((PErrV::UnexpectedToken { at: pos }, pos))
    } else if toks[pos] == TokenV::RightBrace || toks[pos] == TokenV::EOF {
        Ok((acc, pos))
    } else {
        match sp_node(toks, pos) {
            Err(ep) => Err(ep),
            Ok(r) => if pos < r.1 && r.1 <= toks.len() {
                sp_children(toks, r.1, acc.push(r.0))
            } else {
                // never reached: a parsed node always makes progress
                Err((PErrV::UnexpectedToken { at: pos }, pos))
            },
        }
    }
}

/// `document` production: sibling nodes until `EOF`.
pub open spec fn sp_document(toks: Seq<TokenV>, pos: int, acc: Seq<NodeV>) -> Result<
    (Seq<NodeV>, int),
    (PErrV, int),
>
    decreases toks.len() - pos, 8int,
{
    if !(0 <= pos < toks.len()) {
        Err((PErrV::UnexpectedToken { at: pos }, pos))
    } else if toks[pos] == TokenV::EOF {
        Ok((acc, pos))
    } else {
        match sp_node(toks, pos) {
            Err(ep) => Err(ep),
            Ok(r) => if pos < r.1 && r.1 <= toks.len() {
                sp_document(toks, r.1, acc.push(r.0))
            } else {
                // never reached: a parsed node always makes progress
                Err((PErrV::UnexpectedToken { at: pos }, pos))
            },
        }
    }
}

/// What [`Parser::parse`] returns: the lexed and parsed document, or the
/// first failure of either stage, lexing failures wrapped.
pub open spec fn parse_spec(src: Seq<u8>) -> Result<Seq<NodeV>, PErrV> {
    match lex_spec(src, 0) {
        Err(le) => Err(PErrV::LexingError(le)),
        Ok(toks) => match sp_document(toks, 0, Seq::empty()) {
            Err(ep) => Err(ep.0),
            Ok(r) => Ok(r.0),
        },
    }
}

/// In a well-formed token sequence, stepping past a non-`EOF` token stays
/// inside the sequence.
proof fn lemma_wf_step(toks: Seq<TokenV>, p: int)
    requires
        wf_tokens(toks),
        0 <= p < toks.len(),
        toks[p] != TokenV::EOF,
    ensures
        p + 1 < toks.len(),
{
}

proof fn lemma_range_progress(toks: Seq<TokenV>, pos: int)
    requires
        wf_tokens(toks),
        0 <= pos < toks.len(),
    ensures
        match sp_range(toks, pos) {
            Ok(r) => pos < r.1 < toks.len(),
            Err(e) => pos <= e.1 < toks.len(),
        },
{
    match toks[pos] {
        TokenV::Number(_) => {
            lemma_wf_step(toks, pos);
            match sp_consume(toks, pos + 1, TokenV::DoubleDot) {
                Ok(p2) => {
                    lemma_wf_step(toks, pos + 1);
                    match toks[p2] {
                        TokenV::Number(_) => {
                            lemma_wf_step(toks, p2);
                        },
                        _ => {},
                    }
                },
                Err(_) => {},
            }
        },
        _ => {},
    }
}

proof fn lemma_literal_progress(toks: Seq<TokenV>, pos: int)
    requires
        wf_tokens(toks),
        0 <= pos < toks.len(),
    ensures
        match sp_literal(toks, pos) {
            Ok(r) => pos < r.1 < toks.len(),
            Err(e) => pos <= e.1 < toks.len(),
        },
    decreases toks.len() - pos, 1int,
{
    match toks[pos] {
        TokenV::Number(_) => {
            if toks[pos + 1] == TokenV::DoubleDot {
                lemma_range_progress(toks, pos);
            } else {
                lemma_wf_step(toks, pos);
            }
        },
        TokenV::String(_) => {
            lemma_wf_step(toks, pos);
        },
        TokenV::LeftBracket => {
            lemma_list_progress(toks, pos);
        },
        _ => {},
    }
}

proof fn lemma_lit_rest_progress(toks: Seq<TokenV>, pos: int, acc: Seq<LitV>)
    requires
        wf_tokens(toks),
        0 <= pos < toks.len(),
    ensures
        match sp_lit_rest(toks, pos, acc) {
            Ok(r) => pos <= r.1 < toks.len(),
            Err(e) => pos <= e.1 < toks.len(),
        },
    decreases toks.len() - pos, 0int,
{
    if toks[pos] == TokenV::Comma {
        lemma_wf_step(toks, pos);
        lemma_literal_progress(toks, pos + 1);
        match sp_literal(toks, pos + 1) {
            Ok(r) => {
                lemma_lit_rest_progress(toks, r.1, acc.push(r.0));
            },
            Err(_) => {},
        }
    }
}

proof fn lemma_list_progress(toks: Seq<TokenV>, pos: int)
    requires
        wf_tokens(toks),
        0 <= pos < toks.len(),
    ensures
        match sp_list(toks, pos) {
            Ok(r) => pos < r.1 < toks.len(),
            Err(e) => pos <= e.1 < toks.len(),
        },
    decreases toks.len() - pos, 0int,
{
    match sp_consume(toks, pos, TokenV::LeftBracket) {
        Ok(p1) => {
            lemma_wf_step(toks, pos);
            if toks[p1] != TokenV::RightBracket {
                lemma_literal_progress(toks, p1);
                match sp_literal(toks, p1) {
                    Ok(r) => {
                        lemma_lit_rest_progress(toks, r.1, seq![r.0]);
                    },
                    Err(_) => {},
                }
            }
        },
        Err(_) => {},
    }
}

proof fn lemma_attribute_progress(toks: Seq<TokenV>, pos: int)
    requires
        wf_tokens(toks),
        0 <= pos < toks.len(),
    ensures
        match sp_attribute(toks, pos) {
            Ok(r) => pos < r.1 < toks.len(),
            Err(e) => pos <= e.1 < toks.len(),
        },
    decreases toks.len() - pos, 1int,
{
    match toks[pos] {
        TokenV::Identifier(_) => {
            lemma_wf_step(toks, pos);
            match sp_consume(toks, pos + 1, TokenV::Colon) {
                Ok(p2) => {
                    lemma_wf_step(toks, pos + 1);
                    match toks[p2] {
                        TokenV::Number(_) => {
                            if toks[p2 + 1] == TokenV::DoubleDot {
                                lemma_range_progress(toks, p2);
                            } else {
                                lemma_wf_step(toks, p2);
                            }
                        },
                        TokenV::String(_) => {
                            lemma_wf_step(toks, p2);
                        },
                        TokenV::LeftBracket => {
                            lemma_list_progress(toks, p2);
                        },
                        _ => {},
                    }
                },
                Err(_) => {},
            }
        },
        _ => {},
    }
}

proof fn lemma_attr_rest_progress(toks: Seq<TokenV>, pos: int, acc: Seq<AttrV>)
    requires
        wf_tokens(toks),
        0 <= pos < toks.len(),
    ensures
        match sp_attr_rest(toks, pos, acc) {
            Ok(r) => pos <= r.1 < toks.len(),
            Err(e) => pos <= e.1 < toks.len(),
        },
    decreases toks.len() - pos, 0int,
{
    if toks[pos] == TokenV::Comma {
        lemma_wf_step(toks, pos);
        lemma_attribute_progress(toks, pos + 1);
        match sp_attribute(toks, pos + 1) {
            Ok(r) => {
                lemma_attr_rest_progress(toks, r.1, acc.push(r.0));
            },
            Err(_) => {},
        }
    }
}

proof fn lemma_attributes_progress(toks: Seq<TokenV>, pos: int)
    requires
        wf_tokens(toks),
        0 <= pos < toks.len(),
    ensures
        match sp_attributes(toks, pos) {
            Ok(r) => pos < r.1 < toks.len(),
            Err(e) => pos <= e.1 < toks.len(),
        },
    decreases toks.len() - pos, 0int,
{
    match sp_consume(toks, pos, TokenV::LeftParen) {
        Ok(p1) => {
            lemma_wf_step(toks, pos);
            if toks[p1] != TokenV::RightParen {
                lemma_attribute_progress(toks, p1);
                match sp_attribute(toks, p1) {
                    Ok(r) => {
                        lemma_attr_rest_progress(toks, r.1, seq![r.0]);
                    },
                    Err(_) => {},
                }
            }
        },
        Err(_) => {},
    }
}

proof fn lemma_node_progress(toks: Seq<TokenV>, pos: int)
    requires
        wf_tokens(toks),
        0 <= pos < toks.len(),
    ensures
        match sp_node(toks, pos) {
            Ok(r) => pos < r.1 < toks.len(),
            Err(e) => pos <= e.1 < toks.len(),
        },
    decreases toks.len() - pos, 3int,
{
    match toks[pos] {
        TokenV::String(_) => {
            lemma_wf_step(toks, pos);
        },
        TokenV::Identifier(_) => {
            lemma_tag_progress(toks, pos);
        },
        _ => {},
    }
}

proof fn lemma_tag_progress(toks: Seq<TokenV>, pos: int)
    requires
        wf_tokens(toks),
        0 <= pos < toks.len(),
    ensures
        match sp_tag(toks, pos) {
            Ok(r) => pos < r.1 < toks.len(),
            Err(e) => pos <= e.1 < toks.len(),
        },
    decreases toks.len() - pos, 2int,
{
    match toks[pos] {
        TokenV::Identifier(_) => {
            lemma_wf_step(toks, pos);
            let attrs_res: Result<(Seq<AttrV>, int), (PErrV, int)> = if toks[pos + 1]
                == TokenV::LeftParen {
                sp_attributes(toks, pos + 1)
            } else {
                Ok((Seq::empty(), pos + 1))
            };
            if toks[pos + 1] == TokenV::LeftParen {
                lemma_attributes_progress(toks, pos + 1);
            }
            match attrs_res {
                Ok(ar) => {
                    match sp_consume(toks, ar.1, TokenV::LeftBrace) {
                        Ok(p2) => {
                            lemma_wf_step(toks, ar.1);
                            lemma_children_progress(toks, p2, Seq::empty());
                            match sp_children(toks, p2, Seq::empty()) {
                                Ok(cr) => {
                                    match sp_consume(toks, cr.1, TokenV::RightBrace) {
                                        Ok(_) => {
                                            lemma_wf_step(toks, cr.1);
                                        },
                                        Err(_) => {},
                                    }
                                },
                                Err(_) => {},
                            }
                        },
                        Err(_) => {},
                    }
                },
                Err(_) => {},
            }
        },
        _ => {},
    }
}

proof fn lemma_children_progress(toks: Seq<TokenV>, pos: int, acc: Seq<NodeV>)
    requires
        wf_tokens(toks),
        0 <= pos < toks.len(),
    ensures
        match sp_children(toks, pos, acc) {
            Ok(r) => pos <= r.1 < toks.len(),
            Err(e) => pos <= e.1 < toks.len(),
        },
    decreases toks.len() - pos, 4int,
{
    if toks[pos] != TokenV::RightBrace && toks[pos] != TokenV::EOF {
        lemma_node_progress(toks, pos);
        match sp_node(toks, pos) {
            Ok(r) => {
                lemma_children_progress(toks, r.1, acc.push(r.0));
            },
            Err(_) => {},
        }
    }
}

/// Every token of the sequence carries a well-shaped identifier where it
/// carries one at all.
pub open spec fn toks_idents_ok(toks: Seq<TokenV>) -> bool {
    forall|i: int| 0 <= i < toks.len() ==> token_ident_ok(#[trigger] toks[i])
}

/// Every tag name and attribute name in this node is a non-empty
/// identifier, recursively.
pub open spec fn node_names_ok(n: NodeV) -> bool
    decreases n,
{
    match n {
        NodeV::Str(_) => true,
        NodeV::Tag(t) => {
            &&& ident_bytes_ok(t.name)
            &&& attrs_names_ok(t.attributes)
            &&& nodes_names_ok(t.children)
        },
    }
}

/// [`node_names_ok`] of every node of the sequence.
pub open spec fn nodes_names_ok(s: Seq<NodeV>) -> bool
    decreases s,
{
    if s.len() == 0 {
        true
    } else {
        nodes_names_ok(s.subrange(0, s.len() - 1)) && node_names_ok(s[s.len() - 1])
    }
}

/// Every attribute of the sequence carries a well-shaped name.
pub open spec fn attrs_names_ok(s: Seq<AttrV>) -> bool
    decreases s,
{
    if s.len() == 0 {
        true
    } else {
        attrs_names_ok(s.subrange(0, s.len() - 1)) && ident_bytes_ok(s[s.len() - 1].name)
    }
}

proof fn lemma_attribute_names(toks: Seq<TokenV>, pos: int)
    requires
        wf_tokens(toks),
        toks_idents_ok(toks),
        0 <= pos < toks.len(),
    ensures
        match sp_attribute(toks, pos) {
            Ok(r) => ident_bytes_ok(r.0.name),
            Err(e) => true,
        },
{
    assert(token_ident_ok(toks[pos]));
}

proof fn lemma_attr_rest_names(toks: Seq<TokenV>, pos: int, acc: Seq<AttrV>)
    requires
        wf_tokens(toks),
        toks_idents_ok(toks),
        0 <= pos < toks.len(),
        attrs_names_ok(acc),
    ensures
        match sp_attr_rest(toks, pos, acc) {
            Ok(r) => attrs_names_ok(r.0),
            Err(e) => true,
        },
    decreases toks.len() - pos,
{
    if toks[pos] == TokenV::Comma {
        lemma_attribute_progress(toks, pos + 1);
        lemma_attribute_names(toks, pos + 1);
        match sp_attribute(toks, pos + 1) {
            Ok(r) => {
                let acc2 = acc.push(r.0);
                assert(acc2.subrange(0, acc2.len() - 1) =~= acc);
                lemma_attr_rest_names(toks, r.1, acc2);
            },
            Err(_) => {},
        }
    }
}

proof fn lemma_attributes_names(toks: Seq<TokenV>, pos: int)
    requires
        wf_tokens(toks),
        toks_idents_ok(toks),
        0 <= pos < toks.len(),
    ensures
        match sp_attributes(toks, pos) {
            Ok(r) => attrs_names_ok(r.0),
            Err(e) => true,
        },
    decreases toks.len() - pos,
{
    match sp_consume(toks, pos, TokenV::LeftParen) {
        Ok(p1) => {
            lemma_wf_step(toks, pos);
            assert(attrs_names_ok(Seq::<AttrV>::empty()));
            if toks[p1] != TokenV::RightParen {
                lemma_attribute_progress(toks, p1);
                lemma_attribute_names(toks, p1);
                match sp_attribute(toks, p1) {
                    Ok(r) => {
                        let s1 = seq![r.0];
                        assert(attrs_names_ok(s1)) by {
                            assert(s1.len() == 1 && s1[0] == r.0);
                            assert(s1.subrange(0, 0) =~= Seq::<AttrV>::empty());
                            assert(ident_bytes_ok(r.0.name));
                        }
                        lemma_attr_rest_names(toks, r.1, s1);
                    },
                    Err(_) => {},
                }
            }
        },
        Err(_) => {},
    }
}

proof fn lemma_node_names(toks: Seq<TokenV>, pos: int)
    requires
        wf_tokens(toks),
        toks_idents_ok(toks),
        0 <= pos < toks.len(),
    ensures
        match sp_node(toks, pos) {
            Ok(r) => node_names_ok(r.0),
            Err(e) => true,
        },
    decreases toks.len() - pos, 3int,
{
    match toks[pos] {
        TokenV::Identifier(_) => {
            lemma_tag_names(toks, pos);
        },
        _ => {},
    }
}

proof fn lemma_tag_names(toks: Seq<TokenV>, pos: int)
    requires
        wf_tokens(toks),
        toks_idents_ok(toks),
        0 <= pos < toks.len(),
    ensures
        match sp_tag(toks, pos) {
            Ok(r) => node_names_ok(r.0),
            Err(e) => true,
        },
    decreases toks.len() - pos, 2int,
{
    match toks[pos] {
        TokenV::Identifier(_) => {
            assert(token_ident_ok(toks[pos]));
            lemma_wf_step(toks, pos);
            let attrs_res: Result<(Seq<AttrV>, int), (PErrV, int)> = if toks[pos + 1]
                == TokenV::LeftParen {
                sp_attributes(toks, pos + 1)
            } else {
                Ok((Seq::empty(), pos + 1))
            };
            if toks[pos + 1] == TokenV::LeftParen {
                lemma_attributes_progress(toks, pos + 1);
                lemma_attributes_names(toks, pos + 1);
            }
            match attrs_res {
                Ok(ar) => {
                    match sp_consume(toks, ar.1, TokenV::LeftBrace) {
                        Ok(p2) => {
                            lemma_wf_step(toks, ar.1);
                            lemma_children_names(toks, p2, Seq::empty());
                        },
                        Err(_) => {},
                    }
                },
                Err(_) => {},
            }
        },
        _ => {},
    }
}

proof fn lemma_children_names(toks: Seq<TokenV>, pos: int, acc: Seq<NodeV>)
    requires
        wf_tokens(toks),
        toks_idents_ok(toks),
        0 <= pos < toks.len(),
        nodes_names_ok(acc),
    ensures
        match sp_children(toks, pos, acc) {
            Ok(r) => nodes_names_ok(r.0),
            Err(e) => true,
        },
    decreases toks.len() - pos, 4int,
{
    if toks[pos] != TokenV::RightBrace && toks[pos] != TokenV::EOF {
        lemma_node_progress(toks, pos);
        lemma_node_names(toks, pos);
        match sp_node(toks, pos) {
            Ok(r) => {
                let acc2 = acc.push(r.0);
                assert(acc2.subrange(0, acc2.len() - 1) =~= acc);
                lemma_children_names(toks, r.1, acc2);
            },
            Err(_) => {},
        }
    }
}

proof fn lemma_document_names(toks: Seq<TokenV>, pos: int, acc: Seq<NodeV>)
    requires
        wf_tokens(toks),
        toks_idents_ok(toks),
        0 <= pos < toks.len(),
        nodes_names_ok(acc),
    ensures
        match sp_document(toks, pos, acc) {
            Ok(r) => nodes_names_ok(r.0),
            Err(e) => true,
        },
    decreases toks.len() - pos, 4int,
{
    if toks[pos] != TokenV::EOF {
        lemma_node_progress(toks, pos);
        lemma_node_names(toks, pos);
        match sp_node(toks, pos) {
            Ok(r) => {
                let acc2 = acc.push(r.0);
                assert(acc2.subrange(0, acc2.len() - 1) =~= acc);
                lemma_document_names(toks, r.1, acc2);
            },
            Err(_) => {},
        }
    }
}

/// Law: in any document the parser accepts, every tag name and every
/// attribute name is a non-empty identifier of the lexer's identifier
/// grammar.
pub proof fn lemma_parse_names_well_formed(src: Seq<u8>)
    ensures
        match parse_spec(src) {
            Ok(nodes) => nodes_names_ok(nodes),
            Err(e) => true,
        },
{
    lemma_lex_tokens_well_formed(src, 0);
    lemma_lex_identifiers_shaped(src, 0);
    match lex_spec(src, 0) {
        Ok(toks) => {
            lemma_document_names(toks, 0, Seq::empty());
        },
        Err(_) => {},
    }
}

/// Structural equality of two tokens.
fn token_matches(a: &Token, b: &Token) -> (r: bool)
    ensures
        r == (a.deep_view() == b.deep_view()),
{
    match (a, b) {
        (Token::Identifier(x), Token::Identifier(y)) => bytes_eq(x, y),
        (Token::String(x), Token::String(y)) => bytes_eq(x, y),
        (Token::Number(x), Token::Number(y)) => *x == *y,
        (Token::LeftParen, Token::LeftParen) => true,
        (Token::RightParen, Token::RightParen) => true,
        (Token::LeftBracket, Token::LeftBracket) => true,
        (Token::RightBracket, Token::RightBracket) => true,
        (Token::LeftBrace, Token::LeftBrace) => true,
        (Token::RightBrace, Token::RightBrace) => true,
        (Token::DoubleDot, Token::DoubleDot) => true,
        (Token::Dot, Token::Dot) => true,
        (Token::Comma, Token::Comma) => true,
        (Token::Colon, Token::Colon) => true,
        (Token::EOF, Token::EOF) => true,
        _ => false,
    }
}

/// Owned copy of a token, for error reports.
fn dup_token(t: &Token) -> (r: Token)
    ensures
        r.deep_view() == t.deep_view(),
{
    match t {
        Token::Identifier(s) => {
            let v = copy_range(s, 0, s.len());
            proof {
                assert(v@ =~= s@);
            }
            Token::Identifier(v)
        },
        Token::String(s) => {
            let v = copy_range(s, 0, s.len());
            proof {
                assert(v@ =~= s@);
            }
            Token::String(v)
        },
        Token::Number(n) => Token::Number(*n),
        Token::LeftParen => Token::LeftParen,
        Token::RightParen => Token::RightParen,
        Token::LeftBracket => Token::LeftBracket,
        Token::RightBracket => Token::RightBracket,
        Token::LeftBrace => Token::LeftBrace,
        Token::RightBrace => Token::RightBrace,
        Token::DoubleDot => Token::DoubleDot,
        Token::Dot => Token::Dot,
        Token::Comma => Token::Comma,
        Token::Colon => Token::Colon,
        Token::EOF => Token::EOF,
    }
}

/// The parsing state: the token sequence and the cursor.
#[derive(Debug)]
pub struct Parser {
    pub tokens: Vec<Token>,
    pub current: usize,
}

impl Default for Parser {
    fn default() -> (r: Self)
        ensures
            r.tokens@.len() == 0,
            r.current == 0,
    {
        Self::new()
    }
}

impl Parser {
    /// The token sequence is well formed and the cursor stands on a token.
    pub open spec fn well_formed(&self) -> bool {
        &&& wf_tokens(self.tokens.deep_view())
        &&& self.current < self.tokens@.len()
    }

    pub fn new() -> (r: Self)
        ensures
            r.tokens@.len() == 0,
            r.current == 0,
    {
        Self { tokens: Vec::new(), current: 0 }
    }

    /// Steps the cursor past the current token.
    fn bump(&mut self)
        requires
            old(self).current < old(self).tokens@.len(),
        ensures
            final(self).tokens == old(self).tokens,
            final(self).current == old(self).current + 1,
    {
        proof {
            assert(self.tokens.len() == self.tokens@.len());
        }
        self.current = self.current + 1;
    }

    fn is_at_end(&self) -> (r: bool)
        requires
            self.well_formed(),
        ensures
            r == (self.tokens.deep_view()[self.current as int] == TokenV::EOF),
    {
        matches!(&self.tokens[self.current], Token::EOF)
    }

    fn peek_is(&self, t: &Token) -> (r: bool)
        requires
            self.well_formed(),
        ensures
            r == (self.tokens.deep_view()[self.current as int] == t.deep_view()),
    {
        token_matches(&self.tokens[self.current], t)
    }

    fn peek_next(&self) -> (r: &Token)
        requires
            self.well_formed(),
            self.current + 1 < self.tokens@.len(),
        ensures
            r.deep_view() == self.tokens.deep_view()[self.current + 1],
    {
        proof {
            assert(self.tokens.len() == self.tokens@.len());
        }
        &self.tokens[self.current + 1]
    }

    fn consume(&mut self, token: Token) -> (r: Result<(), ParsingError>)
        requires
            old(self).well_formed(),
            token.deep_view() != TokenV::EOF,
        ensures
            final(self).tokens@ == old(self).tokens@,
            final(self).well_formed(),
            ({
                let tv = old(self).tokens.deep_view();
                let pos = old(self).current as int;
                match sp_consume(tv, pos, token.deep_view()) {
                    Ok(p2) => r is Ok && final(self).current == p2,
                    Err(er) => r matches Err(e) && e.deep_view() == er.0 && final(self).current
                        == er.1,
                }
            }),
    {
        let ghost tv = self.tokens.deep_view();
        if token_matches(&self.tokens[self.current], &token) {
            proof {
                lemma_wf_step(tv, self.current as int);
            }
            self.bump();
            Ok(())
        } else {
            Err(ParsingError::ExpectedToken {
                at: self.current,
                expected: token,
                got: dup_token(&self.tokens[self.current]),
            })
        }
    }

    /// `range-suffix`: a number, `..`, and an optional closing number.
    pub fn range(&mut self) -> (r: Result<Literal, ParsingError>)
        requires
            old(self).well_formed(),
        ensures
            final(self).tokens@ == old(self).tokens@,
            final(self).well_formed(),
            ({
                let tv = old(self).tokens.deep_view();
                let pos = old(self).current as int;
                match sp_range(tv, pos) {
                    Ok(res) => r matches Ok(l) && l.deep_view() == res.0 && final(self).current
                        == res.1,
                    Err(er) => r matches Err(e) && e.deep_view() == er.0 && final(self).current
                        == er.1,
                }
            }),
    {
        let ghost tv = self.tokens.deep_view();
        let ghost pos = self.current as int;
        let start = match &self.tokens[self.current] {
            Token::Number(n) => *n,
            _ => {
                return Err(ParsingError::UnexpectedToken { at: self.current });
            },
        };
        proof {
            lemma_wf_step(tv, pos);
        }
        self.bump();
        match self.consume(Token::DoubleDot) {
            Ok(_) => {},
            Err(e) => {
                return Err(e);
            },
        }
        match &self.tokens[self.current] {
            Token::Number(end) => {
                let e = *end;
                proof {
                    lemma_wf_step(tv, self.current as int);
                }
                self.bump();
                Ok(Literal::Range { start, end: Some(e) })
            },
            _ => Ok(Literal::Range { start, end: None }),
        }
    }

    /// `literal`: number (with optional range suffix), string, or list.
    fn literal(&mut self) -> (r: Result<Literal, ParsingError>)
        requires
            old(self).well_formed(),
        ensures
            final(self).tokens@ == old(self).tokens@,
            final(self).well_formed(),
            ({
                let tv = old(self).tokens.deep_view();
                let pos = old(self).current as int;
                match sp_literal(tv, pos) {
                    Ok(res) => r matches Ok(l) && l.deep_view() == res.0 && final(self).current
                        == res.1,
                    Err(er) => r matches Err(e) && e.deep_view() == er.0 && final(self).current
                        == er.1,
                }
            }),
        decreases self.tokens@.len() - self.current, 3int,
    {
        let ghost tv = self.tokens.deep_view();
        let ghost pos = self.current as int;
        match &self.tokens[self.current] {
            Token::Number(n) => {
                let n = *n;
                proof {
                    lemma_wf_step(tv, pos);
                }
                if matches!(self.peek_next(), Token::DoubleDot) {
                    self.range()
                } else {
                    self.bump();
                    Ok(Literal::Number(n))
                }
            },
            Token::String(s) => {
                let v = copy_range(s, 0, s.len());
                proof {
                    assert(v@ =~= s@);
                    lemma_wf_step(tv, pos);
                }
                self.bump();
                Ok(Literal::String(v))
            },
            Token::LeftBracket => self.list(),
            _ => Err(ParsingError::UnexpectedToken { at: self.current }),
        }
    }

    /// `list`: `'[' (literal (',' literal)*)? ']'`.
    #[verifier::loop_isolation(false)]
    pub fn list(&mut self) -> (r: Result<Literal, ParsingError>)
        requires
            old(self).well_formed(),
        ensures
            final(self).tokens@ == old(self).tokens@,
            final(self).well_formed(),
            ({
                let tv = old(self).tokens.deep_view();
                let pos = old(self).current as int;
                match sp_list(tv, pos) {
                    Ok(res) => r matches Ok(l) && l.deep_view() == res.0 && final(self).current
                        == res.1,
                    Err(er) => r matches Err(e) && e.deep_view() == er.0 && final(self).current
                        == er.1,
                }
            }),
        decreases self.tokens@.len() - self.current, 2int,
    {
        let ghost tv = self.tokens.deep_view();
        let ghost pos = self.current as int;
        let mut items: Vec<Literal> = Vec::new();
        match self.consume(Token::LeftBracket) {
            Ok(_) => {},
            Err(e) => {
                return Err(e);
            },
        }
        if self.peek_is(&Token::RightBracket) {
            proof {
                lemma_wf_step(tv, self.current as int);
            }
            self.bump();
            proof {
                assert(items.deep_view() =~= Seq::<LitV>::empty());
            }
            let result = Literal::List(items);
            proof {
                lemma_literal_list_deep_view(result);
            }
            return Ok(result);
        }
        proof {
            lemma_literal_progress(tv, self.current as int);
        }
        match self.literal() {
            Ok(l) => {
                let ghost ldv = l.deep_view();
                items.push(l);
                proof {
                    assert(items.deep_view() =~= seq![ldv]);
                }
            },
            Err(e) => {
                return Err(e);
            },
        }
        let ghost p2 = self.current as int;
        let ghost acc0 = items.deep_view();
        while self.peek_is(&Token::Comma)
            invariant
                self.well_formed(),
                self.tokens@ == old(self).tokens@,
                pos < self.current as int,
                sp_lit_rest(tv, p2, acc0) == sp_lit_rest(
                    tv,
                    self.current as int,
                    items.deep_view(),
                ),
            decreases self.tokens@.len() - self.current,
        {
            proof {
                lemma_wf_step(tv, self.current as int);
            }
            self.bump();
            proof {
                lemma_literal_progress(tv, self.current as int);
            }
            match self.literal() {
                Ok(l) => {
                    let ghost pre = items.deep_view();
                    let ghost ldv = l.deep_view();
                    items.push(l);
                    proof {
                        assert(items.deep_view() =~= pre.push(ldv));
                    }
                },
                Err(e) => {
                    return Err(e);
                },
            }
        }
        match self.consume(Token::RightBracket) {
            Ok(_) => {
                let result = Literal::List(items);
                proof {
                    lemma_literal_list_deep_view(result);
                }
                Ok(result)
            },
            Err(e) => Err(e),
        }
    }

    /// `attribute`: `Identifier ':' literal`.
    pub fn attribute(&mut self) -> (r: Result<Attribute, ParsingError>)
        requires
            old(self).well_formed(),
        ensures
            final(self).tokens@ == old(self).tokens@,
            final(self).well_formed(),
            ({
                let tv = old(self).tokens.deep_view();
                let pos = old(self).current as int;
                match sp_attribute(tv, pos) {
                    Ok(res) => r matches Ok(a) && a.deep_view() == res.0 && final(self).current
                        == res.1,
                    Err(er) => r matches Err(e) && e.deep_view() == er.0 && final(self).current
                        == er.1,
                }
            }),
        decreases self.tokens@.len() - self.current, 3int,
    {
        let ghost tv = self.tokens.deep_view();
        let ghost pos = self.current as int;
        let name = match &self.tokens[self.current] {
            Token::Identifier(n) => {
                let v = copy_range(n, 0, n.len());
                proof {
                    assert(v@ =~= n@);
                }
                v
            },
            _ => {
                return Err(ParsingError::UnexpectedToken { at: self.current });
            },
        };
        proof {
            lemma_wf_step(tv, pos);
        }
        self.bump();
        match self.consume(Token::Colon) {
            Ok(_) => {},
            Err(e) => {
                return Err(e);
            },
        }
        let ghost p2 = self.current as int;
        match &self.tokens[self.current] {
            Token::Number(n) => {
                let n = *n;
                proof {
                    lemma_wf_step(tv, p2);
                }
                if matches!(self.peek_next(), Token::DoubleDot) {
                    match self.range() {
                        Ok(value) => Ok(Attribute { name, value }),
                        Err(e) => Err(e),
                    }
                } else {
                    self.bump();
                    Ok(Attribute { name, value: Literal::Number(n) })
                }
            },
            Token::String(s) => {
                let v = copy_range(s, 0, s.len());
                proof {
                    assert(v@ =~= s@);
                    lemma_wf_step(tv, p2);
                }
                self.bump();
                Ok(Attribute { name, value: Literal::String(v) })
            },
            Token::LeftBracket => match self.list() {
                Ok(value) => Ok(Attribute { name, value }),
                Err(e) => Err(e),
            },
            _ => Err(ParsingError::UnexpectedToken { at: self.current }),
        }
    }

    /// `attributes`: `'(' (attribute (',' attribute)*)? ')'`.
    #[verifier::loop_isolation(false)]
    pub fn attributes(&mut self) -> (r: Result<Vec<Attribute>, ParsingError>)
        requires
            old(self).well_formed(),
        ensures
            final(self).tokens@ == old(self).tokens@,
            final(self).well_formed(),
            ({
                let tv = old(self).tokens.deep_view();
                let pos = old(self).current as int;
                match sp_attributes(tv, pos) {
                    Ok(res) => r matches Ok(attrs) && attrs.deep_view() == res.0
                        && final(self).current == res.1,
                    Err(er) => r matches Err(e) && e.deep_view() == er.0 && final(self).current
                        == er.1,
                }
            }),
        decreases self.tokens@.len() - self.current, 5int,
    {
        let ghost tv = self.tokens.deep_view();
        let ghost pos = self.current as int;
        let mut attrs: Vec<Attribute> = Vec::new();
        match self.consume(Token::LeftParen) {
            Ok(_) => {},
            Err(e) => {
                return Err(e);
            },
        }
        if self.peek_is(&Token::RightParen) {
            proof {
                lemma_wf_step(tv, self.current as int);
            }
            self.bump();
            proof {
                assert(attrs.deep_view() =~= Seq::<AttrV>::empty());
            }
            return Ok(attrs);
        }
        proof {
            lemma_attribute_progress(tv, self.current as int);
        }
        match self.attribute() {
            Ok(a) => {
                let ghost adv = a.deep_view();
                attrs.push(a);
                proof {
                    assert(attrs.deep_view() =~= seq![adv]);
                }
            },
            Err(e) => {
                return Err(e);
            },
        }
        let ghost p2 = self.current as int;
        let ghost acc0 = attrs.deep_view();
        while self.peek_is(&Token::Comma)
            invariant
                self.well_formed(),
                self.tokens@ == old(self).tokens@,
                pos < self.current as int,
                sp_attr_rest(tv, p2, acc0) == sp_attr_rest(
                    tv,
                    self.current as int,
                    attrs.deep_view(),
                ),
            decreases self.tokens@.len() - self.current,
        {
            proof {
                lemma_wf_step(tv, self.current as int);
            }
            self.bump();
            proof {
                lemma_attribute_progress(tv, self.current as int);
            }
            match self.attribute() {
                Ok(a) => {
                    let ghost pre = attrs.deep_view();
                    let ghost adv = a.deep_view();
                    attrs.push(a);
                    proof {
                        assert(attrs.deep_view() =~= pre.push(adv));
                    }
                },
                Err(e) => {
                    return Err(e);
                },
            }
        }
        match self.consume(Token::RightParen) {
            Ok(_) => Ok(attrs),
            Err(e) => Err(e),
        }
    }

    /// `node`: a string literal or a tag.
    pub fn node(&mut self) -> (r: Result<Node, ParsingError>)
        requires
            old(self).well_formed(),
        ensures
            final(self).tokens@ == old(self).tokens@,
            final(self).well_formed(),
            ({
                let tv = old(self).tokens.deep_view();
                let pos = old(self).current as int;
                match sp_node(tv, pos) {
                    Ok(res) => r matches Ok(n) && n.deep_view() == res.0 && final(self).current
                        == res.1,
                    Err(er) => r matches Err(e) && e.deep_view() == er.0 && final(self).current
                        == er.1,
                }
            }),
        decreases self.tokens@.len() - self.current, 7int,
    {
        let ghost tv = self.tokens.deep_view();
        let ghost pos = self.current as int;
        match &self.tokens[self.current] {
            Token::String(s) => {
                let v = copy_range(s, 0, s.len());
                proof {
                    assert(v@ =~= s@);
                    lemma_wf_step(tv, pos);
                }
                self.bump();
                Ok(Node::String(v))
            },
            Token::Identifier(_) => self.tag(),
            _ => Err(ParsingError::UnexpectedToken { at: self.current }),
        }
    }

    /// `tag`: `Identifier attributes? '{' node* '}'`.
    #[verifier::loop_isolation(false)]
    pub fn tag(&mut self) -> (r: Result<Node, ParsingError>)
        requires
            old(self).well_formed(),
        ensures
            final(self).tokens@ == old(self).tokens@,
            final(self).well_formed(),
            ({
                let tv = old(self).tokens.deep_view();
                let pos = old(self).current as int;
                match sp_tag(tv, pos) {
                    Ok(res) => r matches Ok(n) && n.deep_view() == res.0 && final(self).current
                        == res.1,
                    Err(er) => r matches Err(e) && e.deep_view() == er.0 && final(self).current
                        == er.1,
                }
            }),
        decreases self.tokens@.len() - self.current, 6int,
    {
        let ghost tv = self.tokens.deep_view();
        let ghost pos = self.current as int;
        let name = match &self.tokens[self.current] {
            Token::Identifier(n) => {
                let v = copy_range(n, 0, n.len());
                proof {
                    assert(v@ =~= n@);
                }
                v
            },
            _ => {
                return Err(ParsingError::UnexpectedToken { at: self.current });
            },
        };
        proof {
            lemma_wf_step(tv, pos);
        }
        self.bump();
        let mut attributes: Vec<Attribute> = Vec::new();
        if self.peek_is(&Token::LeftParen) {
            proof {
                lemma_attributes_progress(tv, self.current as int);
            }
            match self.attributes() {
                Ok(a) => {
                    attributes = a;
                },
                Err(e) => {
                    return Err(e);
                },
            }
        } else {
            proof {
                assert(attributes.deep_view() =~= Seq::<AttrV>::empty());
            }
        }
        match self.consume(Token::LeftBrace) {
            Ok(_) => {},
            Err(e) => {
                return Err(e);
            },
        }
        let ghost p2 = self.current as int;
        let mut children: Vec<Node> = Vec::new();
        proof {
            assert(children.deep_view() =~= Seq::<NodeV>::empty());
        }
        while !self.peek_is(&Token::RightBrace) && !self.is_at_end()
            invariant
                self.well_formed(),
                self.tokens@ == old(self).tokens@,
                pos < self.current as int,
                sp_children(tv, p2, Seq::empty()) == sp_children(
                    tv,
                    self.current as int,
                    children.deep_view(),
                ),
            decreases self.tokens@.len() - self.current,
        {
            proof {
                lemma_node_progress(tv, self.current as int);
            }
            match self.node() {
                Ok(n) => {
                    let ghost pre = children.deep_view();
                    let ghost ndv = n.deep_view();
                    children.push(n);
                    proof {
                        assert(children.deep_view() =~= pre.push(ndv));
                    }
                },
                Err(e) => {
                    return Err(e);
                },
            }
        }
        match self.consume(Token::RightBrace) {
            Ok(_) => {},
            Err(e) => {
                return Err(e);
            },
        }
        let result = Node::Tag(Tag { name, attributes, children });
        proof {
            lemma_node_tag_deep_view(result);
        }
        Ok(result)
    }

    /// Lexes `source` and parses the whole document.  The result is
    /// exactly [`parse_spec`] of the source bytes; the cursor rewinds to
    /// the start for each call.
    #[verifier::loop_isolation(false)]
    pub fn parse(&mut self, source: &[u8]) -> (r: Result<Vec<Node>, ParsingError>)
        ensures
            match parse_spec(source@) {
                Ok(nv) => r matches Ok(ns) && ns.deep_view() == nv && final(self).well_formed(),
                Err(ev) => r matches Err(e) && e.deep_view() == ev,
            },
    {
        let mut lexer = Lexer::new(source);
        let toks = match lexer.scan_tokens() {
            Ok(t) => t,
            Err(le) => {
                return Err(ParsingError::LexingError(le));
            },
        };
        proof {
            lemma_lex_tokens_well_formed(source@, 0);
        }
        self.tokens = toks;
        self.current = 0;
        let ghost tv = self.tokens.deep_view();
        let mut nodes: Vec<Node> = Vec::new();
        proof {
            assert(nodes.deep_view() =~= Seq::<NodeV>::empty());
        }
        while !self.is_at_end()
            invariant
                self.well_formed(),
                self.tokens.deep_view() == tv,
                sp_document(tv, 0, Seq::empty()) == sp_document(
                    tv,
                    self.current as int,
                    nodes.deep_view(),
                ),
            decreases self.tokens@.len() - self.current,
        {
            proof {
                lemma_node_progress(tv, self.current as int);
            }
            match self.node() {
                Ok(n) => {
                    let ghost pre = nodes.deep_view();
                    let ghost ndv = n.deep_view();
                    nodes.push(n);
                    proof {
                        assert(nodes.deep_view() =~= pre.push(ndv));
                    }
                },
                Err(e) => {
                    return Err(e);
                },
            }
        }
        Ok(nodes)
    }
}

} // verus!
