//! Line-oriented lexer: splits the source into lines, measures indentation
//! and tokenizes each line.

use vstd::prelude::*;
use vstd::string::*;
use vstd::utf8::*;
use vstd::std_specs::iter::IteratorSpec;
use crate::diag::{DiagEngine, Diagnostic, DiagV, Severity, dg, dg_help};
use crate::span::Span;
use crate::text::{
    at_boundary, bytes_of, dec_nat, fmt_usize, lemma_after_ascii, lemma_boundary,
    lemma_decode_bytes, push_char, push_str, string_of, substr,
};

verus! {

broadcast use vstd::utf8::group_utf8_lib;

#[derive(Debug, Clone, PartialEq)]
pub enum Token {
    Ident(String),
    Quoted(String),
    Equals,
    Colon,
    LParen,
    RParen,
    Comma,
    Dot,
    /// Comment marker (the rest of the line is consumed separately).
    Hash,
}

pub enum TokenV {
    Ident(Seq<char>),
    Quoted(Seq<char>),
    Equals,
    Colon,
    LParen,
    RParen,
    Comma,
    Dot,
    Hash,
}

impl View for Token {
    type V = TokenV;

    open spec fn view(&self) -> TokenV {
        match self {
            Token::Ident(s) => TokenV::Ident(s@),
            Token::Quoted(s) => TokenV::Quoted(s@),
            Token::Equals => TokenV::Equals,
            Token::Colon => TokenV::Colon,
            Token::LParen => TokenV::LParen,
            Token::RParen => TokenV::RParen,
            Token::Comma => TokenV::Comma,
            Token::Dot => TokenV::Dot,
            Token::Hash => TokenV::Hash,
        }
    }
}

/// How a token prints: identifiers as-is, quoted strings in double quotes,
/// punctuation as its character.
pub open spec fn token_text(t: TokenV) -> Seq<char> {
    match t {
        TokenV::Ident(s) => s,
        TokenV::Quoted(s) => seq!['"'] + s + seq!['"'],
        TokenV::Equals => seq!['='],
        TokenV::Colon => seq![':'],
        TokenV::LParen => seq!['('],
        TokenV::RParen => seq![')'],
        TokenV::Comma => seq![','],
        TokenV::Dot => seq!['.'],
        TokenV::Hash => seq!['#'],
    }
}

impl Token {
    pub fn as_ident(&self) -> (r: Option<&str>)
        ensures
            r matches Some(s) ==> self@ == TokenV::Ident(s@),
            r is None ==> !(self@ is Ident),
    {
        match self {
            Token::Ident(s) => Some(s.as_str()),
            _ => None,
        }
    }

    /// The printed text of the token.
    pub fn display(&self) -> (r: String)
        ensures
            r@ == token_text(self@),
    {
        let mut out = String::new();
        match self {
            Token::Ident(s) => push_str(&mut out, s.as_str()),
            Token::Quoted(s) => {
                push_char(&mut out, '"');
                push_str(&mut out, s.as_str());
                push_char(&mut out, '"');
            },
            Token::Equals => push_char(&mut out, '='),
            Token::Colon => push_char(&mut out, ':'),
            Token::LParen => push_char(&mut out, '('),
            Token::RParen => push_char(&mut out, ')'),
            Token::Comma => push_char(&mut out, ','),
            Token::Dot => push_char(&mut out, '.'),
            Token::Hash => push_char(&mut out, '#'),
        }
        assert(out@ =~= token_text(self@));
        out
    }
}

#[derive(Debug, Clone)]
pub struct SpannedToken {
    pub token: Token,
    pub span: Span,
}

pub struct STokV {
    pub token: TokenV,
    pub span: Span,
}

impl View for SpannedToken {
    type V = STokV;

    open spec fn view(&self) -> STokV {
        STokV { token: self.token@, span: self.span }
    }
}

pub open spec fn toks_view(s: Seq<SpannedToken>) -> Seq<STokV> {
    s.map_values(|t: SpannedToken| t@)
}

/// One lexed line with indentation info.
#[derive(Debug, Clone)]
pub struct LexLine {
    pub indent: usize,
    pub tokens: Vec<SpannedToken>,
    pub line_num: u32,
    pub is_blank: bool,
    pub is_comment: bool,
}

pub struct LexLineV {
    pub indent: usize,
    pub tokens: Seq<STokV>,
    pub line_num: u32,
    pub is_blank: bool,
    pub is_comment: bool,
}

impl View for LexLine {
    type V = LexLineV;

    open spec fn view(&self) -> LexLineV {
        LexLineV {
            indent: self.indent,
            tokens: toks_view(self.tokens@),
            line_num: self.line_num,
            is_blank: self.is_blank,
            is_comment: self.is_comment,
        }
    }
}

pub open spec fn lines_view(s: Seq<LexLine>) -> Seq<LexLineV> {
    s.map_values(|l: LexLine| l@)
}

impl LexLine {
    pub fn first_ident(&self) -> (r: Option<&str>)
        ensures
            r matches Some(s) ==> self@.tokens.len() > 0 && self@.tokens[0].token == TokenV::Ident(
                s@,
            ),
            r is None ==> self@.tokens.len() == 0 || !(self@.tokens[0].token is Ident),
    {
        if self.tokens.len() == 0 {
            None
        } else {
            self.tokens[0].token.as_ident()
        }
    }
}

// ---- Character classes ----

/// Bytes that continue an identifier: the bytes whose Latin-1 character is
/// alphanumeric, plus `_` and `-`. A run of them that does not start and
/// end on character boundaries is reported as unexpected text.
pub open spec fn is_ident_byte(b: u8) -> bool {
    (48 <= b <= 57) || (65 <= b <= 90) || (97 <= b <= 122) || b == 95 || b == 45 || b == 0xAA
        || b == 0xB2 || b == 0xB3 || b == 0xB5 || b == 0xB9 || b == 0xBA || (0xBC <= b <= 0xBE)
        || (0xC0 <= b <= 0xD6) || (0xD8 <= b <= 0xF6) || (0xF8 <= b <= 0xFF)
}

/// Whether a byte continues an identifier.
pub fn ident_byte(b: u8) -> (r: bool)
    ensures
        r == is_ident_byte(b),
{
    (48 <= b && b <= 57) || (65 <= b && b <= 90) || (97 <= b && b <= 122) || b == 95 || b == 45
        || b == 0xAA || b == 0xB2 || b == 0xB3 || b == 0xB5 || b == 0xB9 || b == 0xBA || (0xBC
        <= b && b <= 0xBE) || (0xC0 <= b && b <= 0xD6) || (0xD8 <= b && b <= 0xF6) || 0xF8 <= b
}

/// The Unicode `White_Space` characters.
pub open spec fn is_ws_char(c: char) -> bool {
    let u = c as u32;
    (9 <= u <= 13) || u == 32 || u == 0x85 || u == 0xA0 || u == 0x1680 || (0x2000 <= u <= 0x200A)
        || u == 0x2028 || u == 0x2029 || u == 0x202F || u == 0x205F || u == 0x3000
}

/// Whether a character is Unicode white space.
pub fn white_space(c: char) -> (r: bool)
    ensures
        r == is_ws_char(c),
{
    let u = c as u32;
    (9 <= u && u <= 13) || u == 32 || u == 0x85 || u == 0xA0 || u == 0x1680 || (0x2000 <= u && u
        <= 0x200A) || u == 0x2028 || u == 0x2029 || u == 0x202F || u == 0x205F || u == 0x3000
}

// ---- Specification of the lexer, over the source bytes ----

/// Index of the first newline at or after `i`, or the length.
pub open spec fn next_nl(b: Seq<u8>, i: int) -> int
    decreases b.len() - i,
{
    if i < 0 || i >= b.len() {
        b.len() as int
    } else if b[i] == 10 {
        i
    } else {
        next_nl(b, i + 1)
    }
}

/// End of the line text that starts at `s` and is terminated at `nl`:
/// a carriage return right before the newline is not part of the line.
pub open spec fn line_end(b: Seq<u8>, s: int, nl: int) -> int {
    if nl < b.len() && nl > s && b[nl - 1] == 13 {
        nl - 1
    } else {
        nl
    }
}

/// End of the run of spaces and tabs starting at `i`, within `[i, e)`.
pub open spec fn ws_end(b: Seq<u8>, i: int, e: int) -> int
    decreases e - i,
{
    if i < e && (b[i] == 32 || b[i] == 9) {
        ws_end(b, i + 1, e)
    } else {
        i
    }
}

/// Position of the first tab in `[i, e)`, or `e`.
pub open spec fn first_tab(b: Seq<u8>, i: int, e: int) -> int
    decreases e - i,
{
    if i < e {
        if b[i] == 9 {
            i
        } else {
            first_tab(b, i + 1, e)
        }
    } else {
        e
    }
}

/// Index of the first non-white-space character at or after `i`.
pub open spec fn skip_ws_chars(cs: Seq<char>, i: int) -> int
    decreases cs.len() - i,
{
    if 0 <= i < cs.len() && is_ws_char(cs[i]) {
        skip_ws_chars(cs, i + 1)
    } else {
        i
    }
}

/// A span on line `ln` for the content bytes `[a, e)`, where the content
/// starts `base` bytes into the line.
pub open spec fn tspan(ln: u32, base: int, a: int, e: int) -> Span {
    Span { line: ln, col: (base + a + 1) as u32, start: (base + a) as usize, end: (base + e) as usize }
}

/// The characters denoted by an escape `\x` inside a quoted string.
pub open spec fn escaped(x: u8) -> Seq<char> {
    if x == 110 {
        seq!['\n']
    } else if x == 116 {
        seq!['\t']
    } else if x == 92 {
        seq!['\\']
    } else if x == 34 {
        seq!['"']
    } else {
        seq!['\\', x as char]
    }
}

/// Scanning the inside of a quoted string that continues at `p`: the
/// characters read, the position after the string and whether the closing
/// quote was found. Each byte reads as the character of the same value.
pub struct QuoteScan {
    pub text: Seq<char>,
    pub end: int,
    pub closed: bool,
}

pub open spec fn scan_quoted(c: Seq<u8>, p: int) -> QuoteScan
    decreases c.len() - p,
{
    if p < 0 || p >= c.len() {
        QuoteScan { text: Seq::empty(), end: p, closed: false }
    } else if c[p] == 34 {
        QuoteScan { text: Seq::empty(), end: p + 1, closed: true }
    } else if c[p] == 92 && p + 1 < c.len() {
        let r = scan_quoted(c, p + 2);
        QuoteScan { text: escaped(c[p + 1]) + r.text, ..r }
    } else {
        let r = scan_quoted(c, p + 1);
        QuoteScan { text: seq![c[p] as char] + r.text, ..r }
    }
}

/// End of the run of non-ASCII bytes that starts at `p`.
pub open spec fn non_ascii_end(c: Seq<u8>, p: int) -> int
    decreases c.len() - p,
{
    if 0 <= p < c.len() && c[p] >= 128 {
        non_ascii_end(c, p + 1)
    } else {
        p
    }
}

/// The first position at or after `q` that holds no continuation byte.
pub open spec fn cont_end(c: Seq<u8>, q: int) -> int
    decreases c.len() - q,
{
    if 0 <= q < c.len() && 128 <= c[q] <= 191 {
        cont_end(c, q + 1)
    } else {
        q
    }
}

/// End of the identifier run that starts at `p`.
pub open spec fn ident_end(c: Seq<u8>, p: int) -> int
    decreases c.len() - p,
{
    if 0 <= p < c.len() && is_ident_byte(c[p]) {
        ident_end(c, p + 1)
    } else {
        p
    }
}

/// The token for a single punctuation byte.
pub open spec fn punct_token(x: u8) -> Option<TokenV> {
    if x == 61 {
        Some(TokenV::Equals)
    } else if x == 58 {
        Some(TokenV::Colon)
    } else if x == 40 {
        Some(TokenV::LParen)
    } else if x == 41 {
        Some(TokenV::RParen)
    } else if x == 44 {
        Some(TokenV::Comma)
    } else if x == 46 {
        Some(TokenV::Dot)
    } else {
        None
    }
}

/// Tokens and diagnostics of a line's content.
pub struct TokOut {
    pub toks: Seq<STokV>,
    pub diags: Seq<DiagV>,
}

pub open spec fn tok_cons(t: STokV, r: TokOut) -> TokOut {
    TokOut { toks: seq![t] + r.toks, ..r }
}

pub open spec fn tok_diag(d: DiagV, r: TokOut) -> TokOut {
    TokOut { diags: seq![d] + r.diags, ..r }
}

/// Tokenizes the content bytes `c` from position `p`; the content is on line
/// `ln` and starts `base` bytes into it.
pub open spec fn tokenize(c: Seq<u8>, p: int, ln: u32, base: int) -> TokOut
    decreases c.len() - p,
{
    if p < 0 || p >= c.len() {
        TokOut { toks: Seq::empty(), diags: Seq::empty() }
    } else {
        let x = c[p];
        if x == 32 || x == 9 {
            tokenize(c, p + 1, ln, base)
        } else if x == 35 {
            TokOut { toks: Seq::empty(), diags: Seq::empty() }
        } else if punct_token(x) is Some {
            tok_cons(
                STokV { token: punct_token(x)->0, span: tspan(ln, base, p, p + 1) },
                tokenize(c, p + 1, ln, base),
            )
        } else if x == 34 {
            let q = scan_quoted(c, p + 1);
            proof {
                lemma_scan_quoted(c, p + 1);
            }
            let t = STokV { token: TokenV::Quoted(q.text), span: tspan(ln, base, p, q.end) };
            let rest = tokenize(c, q.end, ln, base);
            if q.closed {
                tok_cons(t, rest)
            } else {
                tok_diag(
                    dg(Severity::Error, "unterminated string literal"@, Some(tspan(ln, base, p, q.end))),
                    tok_cons(t, rest),
                )
            }
        } else if is_ident_byte(x) {
            let q = ident_end(c, p);
            proof {
                lemma_ident_end(c, p);
            }
            if at_boundary(c, p) && at_boundary(c, q) {
                tok_cons(
                    STokV {
                        token: TokenV::Ident(decode_utf8(c.subrange(p, q))),
                        span: tspan(ln, base, p, q),
                    },
                    tokenize(c, q, ln, base),
                )
            } else if at_boundary(c, p) {
                // The run ends inside a character: it is reported up to the
                // end of that character.
                let e = cont_end(c, q);
                proof {
                    lemma_cont_end(c, q);
                }
                tok_diag(
                    dg(
                        Severity::Error,
                        "unexpected character '"@ + decode_utf8(c.subrange(p, e)) + "'"@,
                        Some(tspan(ln, base, p, e)),
                    ),
                    tokenize(c, e, ln, base),
                )
            } else {
                tok_diag(
                    dg(
                        Severity::Error,
                        "unexpected character '"@ + seq![x as char] + "'"@,
                        Some(tspan(ln, base, p, p + 1)),
                    ),
                    tokenize(c, p + 1, ln, base),
                )
            }
        } else if x >= 128 && at_boundary(c, p) {
            // A run of non-ASCII characters, reported as a whole.
            let q = non_ascii_end(c, p);
            proof {
                lemma_non_ascii_end(c, p);
            }
            tok_diag(
                dg(
                    Severity::Error,
                    "unexpected character '"@ + decode_utf8(c.subrange(p, q)) + "'"@,
                    Some(tspan(ln, base, p, q)),
                ),
                tokenize(c, q, ln, base),
            )
        } else {
            tok_diag(
                dg(
                    Severity::Error,
                    "unexpected character '"@ + seq![x as char] + "'"@,
                    Some(tspan(ln, base, p, p + 1)),
                ),
                tokenize(c, p + 1, ln, base),
            )
        }
    }
}

/// The result of lexing one line: the line and its diagnostics.
pub struct LineOut {
    pub line: LexLineV,
    pub diags: Seq<DiagV>,
}

/// Lexes the line whose text is `[s, e)` of `b` and whose number is `ln`.
#[verifier::opaque]
pub open spec fn lex_line_spec(b: Seq<u8>, s: int, e: int, ln: u32) -> LineOut {
    let we = ws_end(b, s, e);
    let indent = we - s;
    let tab = first_tab(b, s, we);
    let has_tab = tab < we;
    let tab_diag: Seq<DiagV> = if has_tab {
        seq![
            dg_help(
                "tabs are not allowed for indentation; use 2 spaces per level"@,
                Span {
                    line: ln,
                    col: (tab - s + 1) as u32,
                    start: (tab - s) as usize,
                    end: (tab - s + 1) as usize,
                },
                "replace the tab character with spaces"@,
            ),
        ]
    } else {
        Seq::empty()
    };
    let odd_diag: Seq<DiagV> = if indent % 2 != 0 && !has_tab {
        seq![
            dg_help(
                "indentation must be a multiple of 2 spaces, found "@ + dec_nat(indent as nat)
                    + " space(s)"@,
                Span { line: ln, col: 1, start: 0, end: indent as usize },
                "use 2-space indentation only"@,
            ),
        ]
    } else {
        Seq::empty()
    };
    let c = b.subrange(we, e);
    let cs = decode_utf8(c);
    let k = skip_ws_chars(cs, 0);
    if k >= cs.len() {
        LineOut {
            line: LexLineV {
                indent: indent as usize,
                tokens: Seq::empty(),
                line_num: ln,
                is_blank: true,
                is_comment: false,
            },
            diags: tab_diag + odd_diag,
        }
    } else if cs[k] == '#' {
        LineOut {
            line: LexLineV {
                indent: indent as usize,
                tokens: Seq::empty(),
                line_num: ln,
                is_blank: false,
                is_comment: true,
            },
            diags: tab_diag + odd_diag,
        }
    } else {
        let t = tokenize(c, 0, ln, indent);
        LineOut {
            line: LexLineV {
                indent: indent as usize,
                tokens: t.toks,
                line_num: ln,
                is_blank: t.toks.len() == 0,
                is_comment: false,
            },
            diags: tab_diag + odd_diag + t.diags,
        }
    }
}

/// The result of lexing a source.
pub struct LexOut {
    pub lines: Seq<LexLineV>,
    pub diags: Seq<DiagV>,
}

/// Lexes the lines that start at `s`, the first of them being line `k + 1`.
/// Lines end at `\n`; a `\r` right before it is dropped, and the source's
/// final line needs no newline.
pub open spec fn lex_from(b: Seq<u8>, s: int, k: int) -> LexOut
    decreases b.len() - s,
{
    if s < 0 || s >= b.len() {
        LexOut { lines: Seq::empty(), diags: Seq::empty() }
    } else {
        let nl = next_nl(b, s);
        proof {
            lemma_next_nl(b, s);
        }
        let l = lex_line_spec(b, s, line_end(b, s, nl), (k + 1) as u32);
        let rest = if nl < b.len() {
            lex_from(b, nl + 1, k + 1)
        } else {
            LexOut { lines: Seq::empty(), diags: Seq::empty() }
        };
        LexOut { lines: seq![l.line] + rest.lines, diags: l.diags + rest.diags }
    }
}

/// The lexer's result on a whole source text.
pub open spec fn spec_lex(source: Seq<char>) -> LexOut {
    lex_from(bytes_of(source), 0, 0)
}

// ---- Executable lexer ----

pub proof fn lemma_next_nl(b: Seq<u8>, i: int)
    requires
        0 <= i <= b.len(),
    ensures
        i <= next_nl(b, i) <= b.len(),
        next_nl(b, i) < b.len() ==> b[next_nl(b, i)] == 10,
        forall|j: int| i <= j < next_nl(b, i) ==> b[j] != 10,
    decreases b.len() - i,
{
    if i < b.len() && b[i] != 10 {
        lemma_next_nl(b, i + 1);
    }
}

pub proof fn lemma_ws_end(b: Seq<u8>, i: int, e: int)
    requires
        0 <= i <= e <= b.len(),
    ensures
        i <= ws_end(b, i, e) <= e,
        forall|j: int| i <= j < ws_end(b, i, e) ==> b[j] == 32 || b[j] == 9,
        ws_end(b, i, e) < e ==> !(b[ws_end(b, i, e)] == 32 || b[ws_end(b, i, e)] == 9),
    decreases e - i,
{
    if i < e && (b[i] == 32 || b[i] == 9) {
        lemma_ws_end(b, i + 1, e);
    }
}

pub proof fn lemma_ident_end(c: Seq<u8>, p: int)
    requires
        0 <= p <= c.len(),
    ensures
        p <= ident_end(c, p) <= c.len(),
        p < c.len() && is_ident_byte(c[p]) ==> p < ident_end(c, p),
    decreases c.len() - p,
{
    if p < c.len() && is_ident_byte(c[p]) {
        lemma_ident_end(c, p + 1);
    }
}

pub proof fn lemma_non_ascii_end(c: Seq<u8>, p: int)
    requires
        0 <= p <= c.len(),
    ensures
        p <= non_ascii_end(c, p) <= c.len(),
        non_ascii_end(c, p) < c.len() ==> c[non_ascii_end(c, p)] < 128,
        p < c.len() && c[p] >= 128 ==> p < non_ascii_end(c, p),
    decreases c.len() - p,
{
    if p < c.len() && c[p] >= 128 {
        lemma_non_ascii_end(c, p + 1);
    }
}

pub proof fn lemma_cont_end(c: Seq<u8>, q: int)
    requires
        0 <= q <= c.len(),
    ensures
        q <= cont_end(c, q) <= c.len(),
        cont_end(c, q) < c.len() ==> !(128 <= c[cont_end(c, q)] <= 191),
    decreases c.len() - q,
{
    if q < c.len() && 128 <= c[q] <= 191 {
        lemma_cont_end(c, q + 1);
    }
}

pub proof fn lemma_scan_quoted(c: Seq<u8>, p: int)
    requires
        0 <= p <= c.len(),
    ensures
        p <= scan_quoted(c, p).end <= c.len(),
    decreases c.len() - p,
{
    if p < c.len() && c[p] != 34 {
        if c[p] == 92 && p + 1 < c.len() {
            lemma_scan_quoted(c, p + 2);
        } else {
            lemma_scan_quoted(c, p + 1);
        }
    }
}

/// The ASCII byte of a single-byte punctuation token, as a token.
fn punct(x: u8) -> (r: Option<Token>)
    ensures
        match r {
            Some(t) => punct_token(x) == Some(t@),
            None => punct_token(x) is None,
        },
{
    if x == 61 {
        Some(Token::Equals)
    } else if x == 58 {
        Some(Token::Colon)
    } else if x == 40 {
        Some(Token::LParen)
    } else if x == 41 {
        Some(Token::RParen)
    } else if x == 44 {
        Some(Token::Comma)
    } else if x == 46 {
        Some(Token::Dot)
    } else {
        None
    }
}

/// Reads a quoted string whose body starts at content position `p`.
fn read_quoted(b: &[u8], cs: usize, ce: usize, p: usize) -> (r: (String, usize, bool))
    requires
        cs <= ce <= b@.len(),
        p <= ce - cs,
    ensures
        ({
            let q = scan_quoted(b@.subrange(cs as int, ce as int), p as int);
            r.0@ == q.text && r.1 as int == q.end && r.2 == q.closed
        }),
{
    let ghost c = b@.subrange(cs as int, ce as int);
    let len = ce - cs;
    let mut s = String::new();
    let mut pos = p;
    while pos < len
        invariant
            c == b@.subrange(cs as int, ce as int),
            len == c.len(),
            cs <= ce <= b@.len(),
            p <= pos <= len,
            scan_quoted(c, p as int) == (QuoteScan {
                text: s@ + scan_quoted(c, pos as int).text,
                ..scan_quoted(c, pos as int)
            }),
        decreases len - pos,
    {
        let ch = b[cs + pos];
        assert(ch == c[pos as int]);
        if ch == 34 {
            proof {
                assert(s@ + Seq::<char>::empty() =~= s@);
            }
            return (s, pos + 1, true);
        } else if ch == 92 && pos + 1 < len {
            let x = b[cs + pos + 1];
            assert(x == c[pos + 1]);
            let ghost before = s@;
            if x == 110 {
                push_char(&mut s, '\n');
            } else if x == 116 {
                push_char(&mut s, '\t');
            } else if x == 92 {
                push_char(&mut s, '\\');
            } else if x == 34 {
                push_char(&mut s, '"');
            } else {
                push_char(&mut s, '\\');
                push_char(&mut s, x as char);
            }
            proof {
                assert(s@ =~= before + escaped(x));
                assert(before + scan_quoted(c, pos as int).text =~= s@ + scan_quoted(
                    c,
                    pos + 2,
                ).text);
            }
            pos = pos + 2;
        } else {
            let ghost before = s@;
            push_char(&mut s, ch as char);
            proof {
                assert(before + scan_quoted(c, pos as int).text =~= s@ + scan_quoted(
                    c,
                    pos + 1,
                ).text);
            }
            pos = pos + 1;
        }
    }
    proof {
        assert(s@ + Seq::<char>::empty() =~= s@);
    }
    (s, pos, false)
}

pub open spec fn tok_join(acc_t: Seq<STokV>, acc_d: Seq<DiagV>, r: TokOut) -> TokOut {
    TokOut { toks: acc_t + r.toks, diags: acc_d + r.diags }
}

proof fn lemma_tok_join_assoc(a: Seq<STokV>, d: Seq<DiagV>, a2: Seq<STokV>, d2: Seq<DiagV>, r: TokOut)
    ensures
        tok_join(a, d, tok_join(a2, d2, r)) == tok_join(a + a2, d + d2, r),
{
    assert(a + (a2 + r.toks) =~= (a + a2) + r.toks);
    assert(d + (d2 + r.diags) =~= (d + d2) + r.diags);
}

/// Reports the run of non-ASCII characters that starts at content position
/// `pos` (a character boundary) as unexpected. Returns the end of the run.
fn report_non_ascii(
    src: &str,
    b: &[u8],
    cs: usize,
    ce: usize,
    ln: u32,
    base: usize,
    pos: usize,
    toks: &mut Vec<SpannedToken>,
    diags: &mut DiagEngine,
) -> (r: usize)
    requires
        b@ == bytes_of(src@),
        valid_utf8(b@),
        cs <= ce <= b@.len(),
        base + (ce - cs) <= usize::MAX,
        at_boundary(b@, ce as int),
        pos < ce - cs,
        b@[cs + pos] >= 192,
        !is_ident_byte(b@[cs + pos]),
    ensures
        ({
            let c = b@.subrange(cs as int, ce as int);
            let t = tokenize(c, pos as int, ln, base as int);
            let nt = toks_view(final(toks)@).subrange(old(toks)@.len() as int, final(toks)@.len() as int);
            let nd = final(diags)@.subrange(old(diags)@.len() as int, final(diags)@.len() as int);
            &&& pos < r <= ce - cs
            &&& final(toks)@ == old(toks)@
            &&& final(diags)@.len() >= old(diags)@.len()
            &&& final(diags)@.subrange(0, old(diags)@.len() as int) == old(diags)@
            &&& t == tok_join(nt, nd, tokenize(c, r as int, ln, base as int))
        }),
        final(diags).strict == old(diags).strict,
{
    let ghost c = b@.subrange(cs as int, ce as int);
    let ghost d0 = diags@;
    let len = ce - cs;
    let x = b[cs + pos];
    assert(x == c[pos as int]);
        let mut q = pos;
        while q < len && b[cs + q] >= 128
            invariant
                c == b@.subrange(cs as int, ce as int),
                len == c.len(),
                cs <= ce <= b@.len(),
                pos <= q <= len,
                non_ascii_end(c, pos as int) == non_ascii_end(c, q as int),
            decreases len - q,
        {
            assert(b@[cs + q] == c[q as int]);
            q = q + 1;
        }
        proof {
            if q < len {
                assert(b@[cs + q] == c[q as int]);
            }
            assert(non_ascii_end(c, q as int) == q);
            lemma_non_ascii_end(c, pos as int);
            assert(b@[cs + pos] == c[pos as int]);
            assert(at_boundary(c, pos as int));
            assert(at_boundary(b@, cs + pos));
            assert(at_boundary(b@, cs + q));
            assert(b@.subrange(cs + pos, cs + q) =~= c.subrange(pos as int, q as int));
        }
        let text = substr(src, cs + pos, cs + q);
        let mut m = string_of("unexpected character '");
        push_str(&mut m, text);
        push_str(&mut m, "'");
        let span = Span::new(ln, (base + pos + 1) as u32, base + pos, base + q);
        let ghost dv = dg(
            Severity::Error,
            "unexpected character '"@ + decode_utf8(c.subrange(pos as int, q as int)) + "'"@,
            Some(span),
        );
        diags.emit(Diagnostic::error(m).with_span(span));
        proof {
            assert(m@ =~= "unexpected character '"@ + decode_utf8(c.subrange(pos as int, q as int)) + "'"@);
            assert(diags@.subrange(0, d0.len() as int) =~= d0);
            assert(diags@.subrange(d0.len() as int, diags@.len() as int) =~= seq![dv]);
            let r = tokenize(c, q as int, ln, base as int);
            assert(Seq::<STokV>::empty() + r.toks =~= r.toks);
        }
        q
}

/// Reads the identifier run that starts at content position `pos`.
fn lex_ident(
    src: &str,
    b: &[u8],
    cs: usize,
    ce: usize,
    ln: u32,
    base: usize,
    pos: usize,
    toks: &mut Vec<SpannedToken>,
    diags: &mut DiagEngine,
) -> (r: usize)
    requires
        b@ == bytes_of(src@),
        valid_utf8(b@),
        cs <= ce <= b@.len(),
        base + (ce - cs) <= usize::MAX,
        at_boundary(b@, ce as int),
        pos < ce - cs,
        is_ident_byte(b@[cs + pos]),
    ensures
        ({
            let c = b@.subrange(cs as int, ce as int);
            let t = tokenize(c, pos as int, ln, base as int);
            let nt = toks_view(final(toks)@).subrange(old(toks)@.len() as int, final(toks)@.len() as int);
            let nd = final(diags)@.subrange(old(diags)@.len() as int, final(diags)@.len() as int);
            &&& pos < r <= ce - cs
            &&& final(toks)@.len() >= old(toks)@.len()
            &&& final(toks)@.subrange(0, old(toks)@.len() as int) == old(toks)@
            &&& final(diags)@.len() >= old(diags)@.len()
            &&& final(diags)@.subrange(0, old(diags)@.len() as int) == old(diags)@
            &&& t == tok_join(nt, nd, tokenize(c, r as int, ln, base as int))
        }),
        final(diags).strict == old(diags).strict,
{
    let ghost c = b@.subrange(cs as int, ce as int);
    let ghost t0 = toks@;
    let ghost d0 = diags@;
    let len = ce - cs;
    let x = b[cs + pos];
    assert(x == c[pos as int]);
    assert(toks_view(toks@).subrange(t0.len() as int, toks@.len() as int) =~= Seq::<STokV>::empty());
    assert(diags@.subrange(d0.len() as int, diags@.len() as int) =~= Seq::<DiagV>::empty());
    assert(toks@.subrange(0, t0.len() as int) =~= t0);
    assert(diags@.subrange(0, d0.len() as int) =~= d0);
        let mut q = pos;
        while q < len && ident_byte(b[cs + q])
            invariant
                c == b@.subrange(cs as int, ce as int),
                len == c.len(),
                cs <= ce <= b@.len(),
                pos <= q <= len,
                ident_end(c, pos as int) == ident_end(c, q as int),
                forall|j: int| pos <= j < q ==> is_ident_byte(#[trigger] c[j]),
            decreases len - q,
        {
            assert(b@[cs + q] == c[q as int]);
            q = q + 1;
        }
        proof {
            if q < len {
                assert(b@[cs + q] == c[q as int]);
            }
            assert(ident_end(c, q as int) == q);
            lemma_ident_end(c, pos as int);
        }
        let start_ok = b[cs + pos] < 128 || b[cs + pos] > 191;
        let end_ok = q == len || b[cs + q] < 128 || b[cs + q] > 191;
        proof {
            assert(b@[cs + pos] == c[pos as int]);
            if q < len {
                assert(b@[cs + q] == c[q as int]);
            }
            assert(start_ok == at_boundary(c, pos as int));
            assert(end_ok == at_boundary(c, q as int));
        }
        if !start_ok {
            let r = report_byte(b, cs, ce, ln, base, pos, diags);
            proof {
                let dv = dg(
                        Severity::Error,
                        "unexpected character '"@ + seq![x as char] + "'"@,
                        Some(tspan(ln, base as int, pos as int, pos + 1)),
                );
                assert(toks@ == t0);
                assert(toks_view(toks@).subrange(t0.len() as int, toks@.len() as int) =~= Seq::<STokV>::empty());
                assert(diags@.subrange(0, d0.len() as int) =~= d0);
                assert(diags@.subrange(d0.len() as int, diags@.len() as int) =~= seq![dv]);
                let rr = tokenize(c, pos + 1, ln, base as int);
                assert(Seq::<STokV>::empty() + rr.toks =~= rr.toks);
            }
            return r;
        }
        if !end_ok {
            let mut e = q;
            while e < len && b[cs + e] >= 128 && b[cs + e] <= 191
                invariant
                    c == b@.subrange(cs as int, ce as int),
                    len == c.len(),
                    cs <= ce <= b@.len(),
                    q <= e <= len,
                    cont_end(c, q as int) == cont_end(c, e as int),
                decreases len - e,
            {
                assert(b@[cs + e] == c[e as int]);
                e = e + 1;
            }
            proof {
                if e < len {
                    assert(b@[cs + e] == c[e as int]);
                }
                assert(cont_end(c, e as int) == e);
                lemma_cont_end(c, q as int);
                assert(at_boundary(b@, cs + pos));
                assert(at_boundary(b@, cs + e));
                assert(b@.subrange(cs + pos, cs + e) =~= c.subrange(pos as int, e as int));
            }
            let text = substr(src, cs + pos, cs + e);
            let mut m = string_of("unexpected character '");
            push_str(&mut m, text);
            push_str(&mut m, "'");
            let span = Span::new(ln, (base + pos + 1) as u32, base + pos, base + e);
            let ghost dv = dg(
                Severity::Error,
                "unexpected character '"@ + decode_utf8(c.subrange(pos as int, e as int)) + "'"@,
                Some(span),
            );
            diags.emit(Diagnostic::error(m).with_span(span));
            proof {
                assert(m@ =~= "unexpected character '"@ + decode_utf8(c.subrange(pos as int, e as int)) + "'"@);
                assert(diags@.subrange(0, d0.len() as int) =~= d0);
                assert(diags@.subrange(d0.len() as int, diags@.len() as int) =~= seq![dv]);
                let r = tokenize(c, e as int, ln, base as int);
                assert(Seq::<STokV>::empty() + r.toks =~= r.toks);
            }
            return e;
        }
        proof {
            assert(at_boundary(b@, cs + pos));
            assert(at_boundary(b@, cs + q));
            assert(b@.subrange(cs + pos, cs + q) =~= c.subrange(pos as int, q as int));
        }
        let word = substr(src, cs + pos, cs + q);
        let span = Span::new(ln, (base + pos + 1) as u32, base + pos, base + q);
        let ghost tv = STokV { token: TokenV::Ident(word@), span };
        toks.push(SpannedToken { token: Token::Ident(string_of(word)), span });
        proof {
            assert(toks@.subrange(0, t0.len() as int) =~= t0);
            assert(toks_view(toks@).subrange(t0.len() as int, toks@.len() as int) =~= seq![tv]);
            let r = tokenize(c, q as int, ln, base as int);
            assert(Seq::<DiagV>::empty() + r.diags =~= r.diags);
        }
        q
}

/// Reads the token (or skipped text) at content position `pos`, appending
/// to `toks` and `diags`. Returns the next position.
fn lex_token(
    src: &str,
    b: &[u8],
    cs: usize,
    ce: usize,
    ln: u32,
    base: usize,
    pos: usize,
    toks: &mut Vec<SpannedToken>,
    diags: &mut DiagEngine,
) -> (r: usize)
    requires
        b@ == bytes_of(src@),
        valid_utf8(b@),
        cs <= ce <= b@.len(),
        base + (ce - cs) <= usize::MAX,
        at_boundary(b@, ce as int),
        pos < ce - cs,
    ensures
        ({
            let c = b@.subrange(cs as int, ce as int);
            let t = tokenize(c, pos as int, ln, base as int);
            let nt = toks_view(final(toks)@).subrange(old(toks)@.len() as int, final(toks)@.len() as int);
            let nd = final(diags)@.subrange(old(diags)@.len() as int, final(diags)@.len() as int);
            &&& pos < r <= ce - cs
            &&& final(toks)@.len() >= old(toks)@.len()
            &&& final(toks)@.subrange(0, old(toks)@.len() as int) == old(toks)@
            &&& final(diags)@.len() >= old(diags)@.len()
            &&& final(diags)@.subrange(0, old(diags)@.len() as int) == old(diags)@
            &&& t == tok_join(nt, nd, tokenize(c, r as int, ln, base as int))
        }),
        final(diags).strict == old(diags).strict,
{
    let ghost c = b@.subrange(cs as int, ce as int);
    let ghost t0 = toks@;
    let ghost d0 = diags@;
    let len = ce - cs;
    let x = b[cs + pos];
    assert(x == c[pos as int]);
    assert(toks_view(toks@).subrange(t0.len() as int, toks@.len() as int) =~= Seq::<STokV>::empty());
    assert(diags@.subrange(d0.len() as int, diags@.len() as int) =~= Seq::<DiagV>::empty());
    assert(toks@.subrange(0, t0.len() as int) =~= t0);
    assert(diags@.subrange(0, d0.len() as int) =~= d0);
    if x == 32 || x == 9 {
        proof {
            let r = tokenize(c, pos + 1, ln, base as int);
            assert(Seq::<STokV>::empty() + r.toks =~= r.toks);
            assert(Seq::<DiagV>::empty() + r.diags =~= r.diags);
        }
        pos + 1
    } else if x == 35 {
        len
    } else if let Some(t) = punct(x) {
        let span = Span::new(ln, (base + pos + 1) as u32, base + pos, base + pos + 1);
        toks.push(SpannedToken { token: t, span });
        proof {
            assert(toks@.subrange(0, t0.len() as int) =~= t0);
            assert(toks_view(toks@).subrange(t0.len() as int, toks@.len() as int) =~= seq![STokV { token: t@, span }]);
            let r = tokenize(c, pos + 1, ln, base as int);
            assert(Seq::<DiagV>::empty() + r.diags =~= r.diags);
        }
        pos + 1
    } else if x == 34 {
        proof {
            lemma_scan_quoted(c, pos + 1);
        }
        let (s, end, closed) = read_quoted(b, cs, ce, pos + 1);
        let span = Span::new(ln, (base + pos + 1) as u32, base + pos, base + end);
        if !closed {
            let m = string_of("unterminated string literal");
            diags.emit(Diagnostic::error(m).with_span(span));
        }
        let ghost tv = STokV { token: TokenV::Quoted(s@), span };
        toks.push(SpannedToken { token: Token::Quoted(s), span });
        proof {
            assert(toks@.subrange(0, t0.len() as int) =~= t0);
            assert(diags@.subrange(0, d0.len() as int) =~= d0);
            assert(toks_view(toks@).subrange(t0.len() as int, toks@.len() as int) =~= seq![tv]);
            let nd = diags@.subrange(d0.len() as int, diags@.len() as int);
            let rest = tokenize(c, end as int, ln, base as int);
            if !closed {
                assert(nd =~= seq![dg(Severity::Error, "unterminated string literal"@, Some(span))]);
            } else {
                assert(nd =~= Seq::<DiagV>::empty());
                assert(nd + rest.diags =~= rest.diags);
            }
        }
        end
    } else if ident_byte(x) {
        lex_ident(src, b, cs, ce, ln, base, pos, toks, diags)
    } else if x >= 192 {
        report_non_ascii(src, b, cs, ce, ln, base, pos, toks, diags)
    } else {
        let r = report_byte(b, cs, ce, ln, base, pos, diags);
        proof {
            let dv = dg(
                Severity::Error,
                "unexpected character '"@ + seq![x as char] + "'"@,
                Some(tspan(ln, base as int, pos as int, pos + 1)),
            );
            assert(toks@ == t0);
            assert(toks_view(toks@).subrange(t0.len() as int, toks@.len() as int) =~= Seq::<STokV>::empty());
            assert(diags@.subrange(0, d0.len() as int) =~= d0);
            assert(diags@.subrange(d0.len() as int, diags@.len() as int) =~= seq![dv]);
            let rr = tokenize(c, pos + 1, ln, base as int);
            assert(Seq::<STokV>::empty() + rr.toks =~= rr.toks);
        }
        r
    }
}

/// Reports the byte at content position `pos` as an unexpected character.
fn report_byte(
    b: &[u8],
    cs: usize,
    ce: usize,
    ln: u32,
    base: usize,
    pos: usize,
    diags: &mut DiagEngine,
) -> (r: usize)
    requires
        cs <= ce <= b@.len(),
        base + (ce - cs) <= usize::MAX,
        pos < ce - cs,
    ensures
        r == pos + 1,
        final(diags)@ == old(diags)@.push(
            dg(
                Severity::Error,
                "unexpected character '"@ + seq![b@[cs + pos] as char] + "'"@,
                Some(tspan(ln, base as int, pos as int, pos + 1)),
            ),
        ),
        final(diags).strict == old(diags).strict,
{
    let x = b[cs + pos];
    let mut m = string_of("unexpected character '");
    push_char(&mut m, x as char);
    push_str(&mut m, "'");
    let span = Span::new(ln, (base + pos + 1) as u32, base + pos, base + pos + 1);
    diags.emit(Diagnostic::error(m).with_span(span));
    assert(m@ =~= "unexpected character '"@ + seq![x as char] + "'"@);
    pos + 1
}

/// Tokenizes the content `[cs, ce)` of `src`, which starts `base` bytes into
/// line `ln`. Returns the tokens; diagnostics go to `diags`.
fn tokenize_content(
    src: &str,
    b: &[u8],
    cs: usize,
    ce: usize,
    ln: u32,
    base: usize,
    diags: &mut DiagEngine,
) -> (r: Vec<SpannedToken>)
    requires
        b@ == bytes_of(src@),
        cs <= ce <= b@.len(),
        base + (ce - cs) <= usize::MAX,
        at_boundary(b@, ce as int),
    ensures
        ({
            let t = tokenize(b@.subrange(cs as int, ce as int), 0, ln, base as int);
            toks_view(r@) == t.toks && final(diags)@ == old(diags)@ + t.diags
        }),
        final(diags).strict == old(diags).strict,
{
    let ghost c = b@.subrange(cs as int, ce as int);
    let ghost full = tokenize(c, 0, ln, base as int);
    let ghost d0 = diags@;
    proof {
        lemma_decode_bytes(src@);
        assert(toks_view(Seq::<SpannedToken>::empty()) + full.toks =~= full.toks);
        assert(Seq::<DiagV>::empty() + full.diags =~= full.diags);
    }
    let len = ce - cs;
    let mut toks: Vec<SpannedToken> = Vec::new();
    let mut pos: usize = 0;
    let ghost mut drel: Seq<DiagV> = Seq::empty();
    assert(diags@ =~= d0 + drel);
    while pos < len
        invariant
            c == b@.subrange(cs as int, ce as int),
            b@ == bytes_of(src@),
            valid_utf8(b@),
            len == c.len(),
            cs <= ce <= b@.len(),
            base + len <= usize::MAX,
            at_boundary(b@, ce as int),
            pos <= len,
            full == tokenize(c, 0, ln, base as int),
            full == tok_join(toks_view(toks@), drel, tokenize(c, pos as int, ln, base as int)),
            diags@ == d0 + drel,
            diags.strict == old(diags).strict,
        decreases len - pos,
    {
        let ghost tpre = toks@;
        let ghost dpre = diags@;
        let next = lex_token(src, b, cs, ce, ln, base, pos, &mut toks, diags);
        let ghost nt = toks_view(toks@).subrange(tpre.len() as int, toks@.len() as int);
        let ghost nd = diags@.subrange(dpre.len() as int, diags@.len() as int);
        proof {
            lemma_tok_join_assoc(toks_view(tpre), drel, nt, nd, tokenize(c, next as int, ln, base as int));
            assert(toks_view(tpre) + nt =~= toks_view(toks@));
            assert(diags@ =~= dpre + nd);
            assert(diags@ =~= d0 + (drel + nd));
            drel = drel + nd;
        }
        pos = next;
    }
    proof {
        assert(toks_view(toks@) + Seq::<STokV>::empty() =~= toks_view(toks@));
        assert(drel + Seq::<DiagV>::empty() =~= drel);
    }
    toks
}


pub open spec fn lex_join(acc_l: Seq<LexLineV>, acc_d: Seq<DiagV>, r: LexOut) -> LexOut {
    LexOut { lines: acc_l + r.lines, diags: acc_d + r.diags }
}

/// Lexes the line whose text is `[s, e)` of `src`.
fn lex_line(src: &str, b: &[u8], s: usize, e: usize, ln: u32, diags: &mut DiagEngine) -> (r: LexLine)
    requires
        b@ == bytes_of(src@),
        valid_utf8(b@),
        s <= e <= b@.len(),
        at_boundary(b@, s as int),
        at_boundary(b@, e as int),
    ensures
        ({
            let o = lex_line_spec(b@, s as int, e as int, ln);
            r@ == o.line && final(diags)@ == old(diags)@ + o.diags
        }),
        final(diags).strict == old(diags).strict,
{
    broadcast use vstd::string::group_string_axioms;

    reveal(lex_line_spec);
    let ghost we = ws_end(b@, s as int, e as int);
    let ghost d0 = diags@;
    proof {
        lemma_ws_end(b@, s as int, e as int);
    }
    let mut i = s;
    let mut has_tab = false;
    let ghost mut tabpos: int = 0;
    while i < e && (b[i] == 32 || b[i] == 9)
        invariant
            s <= i <= e <= b@.len(),
            b@ == bytes_of(src@),
            valid_utf8(b@),
            at_boundary(b@, i as int),
            ws_end(b@, i as int, e as int) == we,
            !has_tab ==> first_tab(b@, s as int, we) == first_tab(b@, i as int, we),
            has_tab ==> first_tab(b@, s as int, we) == tabpos && s <= tabpos < i,
            i <= we,
            !has_tab ==> diags@ == d0,
            has_tab ==> diags@ == d0.push(
                dg_help(
                    "tabs are not allowed for indentation; use 2 spaces per level"@,
                    Span {
                        line: ln,
                        col: (tabpos - s + 1) as u32,
                        start: (tabpos - s) as usize,
                        end: (tabpos - s + 1) as usize,
                    },
                    "replace the tab character with spaces"@,
                ),
            ),
            diags.strict == old(diags).strict,
        decreases e - i,
    {
        if b[i] == 9 && !has_tab {
            let span = Span::new(ln, (i - s + 1) as u32, i - s, i - s + 1);
            let m = string_of("tabs are not allowed for indentation; use 2 spaces per level");
            let h = string_of("replace the tab character with spaces");
            diags.emit(Diagnostic::error(m).with_span(span).with_help(h));
            has_tab = true;
            proof {
                tabpos = i as int;
            }
        }
        proof {
            lemma_after_ascii(b@, i as int);
            lemma_ws_end(b@, i + 1, e as int);
        }
        i = i + 1;
    }
    let ghost tab_diag: Seq<DiagV> = diags@.subrange(d0.len() as int, diags@.len() as int);
    let ghost tab = first_tab(b@, s as int, we);
    proof {
        assert(i == we);
        assert(has_tab == (tab < we));
        if !has_tab {
            assert(tab_diag =~= Seq::<DiagV>::empty());
        } else {
            assert(tab_diag =~= seq![diags@.last()]);
        }
        assert(diags@ =~= d0 + tab_diag);
    }
    let indent = i - s;
    if indent % 2 != 0 && !has_tab {
        let mut m = string_of("indentation must be a multiple of 2 spaces, found ");
        let n = fmt_usize(indent);
        push_str(&mut m, n.as_str());
        push_str(&mut m, " space(s)");
        let h = string_of("use 2-space indentation only");
        diags.emit(Diagnostic::error(m).with_span(Span::new(ln, 1, 0, indent)).with_help(h));
    }
    let ghost o = lex_line_spec(b@, s as int, e as int, ln);
    let ghost pre = diags@;
    let ghost head: Seq<DiagV> = pre.subrange(d0.len() as int, pre.len() as int);
    proof {
        let sd: Seq<DiagV> = if tab < we {
            seq![
                dg_help(
                    "tabs are not allowed for indentation; use 2 spaces per level"@,
                    Span {
                        line: ln,
                        col: (tab - s + 1) as u32,
                        start: (tab - s) as usize,
                        end: (tab - s + 1) as usize,
                    },
                    "replace the tab character with spaces"@,
                ),
            ]
        } else {
            Seq::empty()
        };
        assert(tab_diag =~= sd);
        let od: Seq<DiagV> = if indent % 2 != 0 && !has_tab {
            seq![
                dg_help(
                    "indentation must be a multiple of 2 spaces, found "@ + dec_nat(indent as nat)
                        + " space(s)"@,
                    Span { line: ln, col: 1, start: 0, end: indent as usize },
                    "use 2-space indentation only"@,
                ),
            ]
        } else {
            Seq::empty()
        };
        assert(pre =~= d0 + (sd + od));
        assert(head =~= sd + od);
    }
    let content = substr(src, i, e);
    let mut chars = content.chars();
    let ghost cs = content@;
    let ghost mut k: int = 0;
    let mut first: Option<char> = None;
    assert(cs.subrange(0, cs.len() as int) =~= cs);
    loop
        invariant_except_break
            0 <= k <= cs.len(),
            chars.remaining() == cs.subrange(k, cs.len() as int),
            skip_ws_chars(cs, 0) == skip_ws_chars(cs, k),
            first is None,
        ensures
            match first {
                None => skip_ws_chars(cs, 0) >= cs.len(),
                Some(c) => skip_ws_chars(cs, 0) < cs.len() && cs[skip_ws_chars(cs, 0)] == c,
            },
        decreases cs.len() - k,
    {
        let next = chars.next();
        match next {
            None => {
                assert(k == cs.len());
                break ;
            },
            Some(c) => {
                assert(c == cs[k]);
                if white_space(c) {
                    proof {
                        k = k + 1;
                        assert(chars.remaining() =~= cs.subrange(k, cs.len() as int));
                    }
                } else {
                    first = Some(c);
                    break ;
                }
            },
        }
    }
    match first {
        None => {
            assert(toks_view(Seq::<SpannedToken>::empty()) =~= Seq::<STokV>::empty());
            return LexLine {
                indent,
                tokens: Vec::new(),
                line_num: ln,
                is_blank: true,
                is_comment: false,
            };
        },
        Some(c) => {
            if c == '#' {
                assert(toks_view(Seq::<SpannedToken>::empty()) =~= Seq::<STokV>::empty());
                return LexLine {
                    indent,
                    tokens: Vec::new(),
                    line_num: ln,
                    is_blank: false,
                    is_comment: true,
                };
            }
        },
    }
    let tokens = tokenize_content(src, b, i, e, ln, indent, diags);
    proof {
        let t = tokenize(b@.subrange(i as int, e as int), 0, ln, indent as int);
        assert(diags@ =~= d0 + head + t.diags);
    }
    let is_blank = tokens.len() == 0;
    LexLine { indent, tokens, line_num: ln, is_blank, is_comment: false }
}

/// Position of the first newline at or after `s`, or the length.
fn find_nl(b: &[u8], s: usize) -> (r: usize)
    requires
        s <= b@.len(),
    ensures
        r == next_nl(b@, s as int),
        s <= r <= b@.len(),
        r < b@.len() ==> b@[r as int] == 10,
{
    let mut nl = s;
    while nl < b.len() && b[nl] != 10
        invariant
            s <= nl <= b@.len(),
            next_nl(b@, s as int) == next_nl(b@, nl as int),
        decreases b@.len() - nl,
    {
        nl = nl + 1;
    }
    nl
}

/// Splits `source` into lines and tokenizes each of them.
pub fn lex(source: &str, diags: &mut DiagEngine) -> (r: Vec<LexLine>)
    ensures
        lines_view(r@) == spec_lex(source@).lines,
        final(diags)@ == old(diags)@ + spec_lex(source@).diags,
        final(diags).strict == old(diags).strict,
{
    let b = source.as_bytes();
    proof {
        lemma_decode_bytes(source@);
    }
    let ghost full = spec_lex(source@);
    let ghost d0 = diags@;
    let mut out: Vec<LexLine> = Vec::new();
    let mut s: usize = 0;
    let mut k: usize = 0;
    let ghost mut drel: Seq<DiagV> = Seq::empty();
    proof {
        assert(lines_view(out@) + full.lines =~= full.lines);
        assert(drel + full.diags =~= full.diags);
        assert(diags@ =~= d0 + drel);
    }
    while s < b.len()
        invariant
            b@ == bytes_of(source@),
            valid_utf8(b@),
            s <= b@.len(),
            k <= s,
            at_boundary(b@, s as int),
            full == spec_lex(source@),
            full == lex_join(lines_view(out@), drel, lex_from(b@, s as int, k as int)),
            diags@ == d0 + drel,
            d0 == old(diags)@,
            diags.strict == old(diags).strict,
        decreases b@.len() - s,
    {
        let nl = find_nl(b, s);
        let e = if nl < b.len() && nl > s && b[nl - 1] == 13 { nl - 1 } else { nl };
        let ghost dpre = diags@;
        let line = lex_line(source, b, s, e, (k + 1) as u32, diags);
        let ghost l = lex_line_spec(b@, s as int, e as int, (k + 1) as u32);
        let ghost rest = if nl < b@.len() {
            lex_from(b@, nl + 1, k + 1)
        } else {
            LexOut { lines: Seq::empty(), diags: Seq::empty() }
        };
        let ghost cur = lex_from(b@, s as int, k as int);
        let ghost dold = drel;
        assert(full == lex_join(lines_view(out@), drel, cur));
        assert(cur.lines == seq![l.line] + rest.lines);
        assert(cur.diags == l.diags + rest.diags);
        let ghost lpre = lines_view(out@);
        out.push(line);
        proof {
            assert(lines_view(out@) =~= lpre.push(l.line));
            assert(diags@ =~= dpre + l.diags);
            assert(lpre + (seq![l.line] + rest.lines) =~= lines_view(out@) + rest.lines);
            assert(drel + (l.diags + rest.diags) =~= (drel + l.diags) + rest.diags);
            drel = drel + l.diags;
        }
        k = k + 1;
        if nl >= b.len() {
            proof {
                assert(rest.lines =~= Seq::<LexLineV>::empty());
                assert(rest.diags =~= Seq::<DiagV>::empty());
                assert(cur.lines =~= seq![l.line]);
                assert(full.lines =~= lines_view(out@));
                assert(full.diags =~= drel);
                assert(diags@ =~= d0 + drel);
                assert(lines_view(out@) + Seq::<LexLineV>::empty() =~= lines_view(out@));
                assert(drel + Seq::<DiagV>::empty() =~= drel);
            }
            return out;
        }
        proof {
            lemma_after_ascii(b@, nl as int);
        }
        s = nl + 1;
    }
    proof {
        assert(lines_view(out@) + Seq::<LexLineV>::empty() =~= lines_view(out@));
        assert(drel + Seq::<DiagV>::empty() =~= drel);
    }
    out
}

/// Every line holds at least one byte of the source, so there are no more
/// lines than bytes.
pub proof fn lemma_lex_lines_len(b: Seq<u8>, s: int, k: int)
    requires
        0 <= s <= b.len(),
    ensures
        lex_from(b, s, k).lines.len() <= b.len() - s,
    decreases b.len() - s,
{
    if s < b.len() {
        let nl = next_nl(b, s);
        lemma_next_nl(b, s);
        if nl < b.len() {
            lemma_lex_lines_len(b, nl + 1, k + 1);
        }
    }
}

/// A quoted string that is closed ends right after a `"` and holds at least
/// its two quotes; one that is not reaches the end of the content.
proof fn lemma_quote_close(c: Seq<u8>, p: int)
    requires
        0 <= p <= c.len(),
    ensures
        scan_quoted(c, p).closed ==> p < scan_quoted(c, p).end <= c.len() && c[scan_quoted(c, p).end - 1] == 34,
        !scan_quoted(c, p).closed ==> scan_quoted(c, p).end == c.len(),
    decreases c.len() - p,
{
    if p < c.len() && c[p] != 34 {
        if c[p] == 92 && p + 1 < c.len() {
            lemma_quote_close(c, p + 2);
        } else {
            lemma_quote_close(c, p + 1);
        }
    }
}

/// Every quoted string that does not end with its closing quote is reported
/// as an error: for each quoted-string token of a line's content whose text
/// is shorter than two bytes or does not end with `"`, the diagnostics hold
/// the error "unterminated string literal" over that token's span.
pub proof fn lemma_unterminated_strings_are_errors(c: Seq<u8>, p: int, ln: u32, base: int)
    requires
        0 <= p <= c.len(),
        0 <= base,
        base + c.len() < usize::MAX,
    ensures
        forall|i: int|
            0 <= i < tokenize(c, p, ln, base).toks.len() && (#[trigger] tokenize(c, p, ln, base).toks[i]).token is Quoted
                && ({
                let sp = tokenize(c, p, ln, base).toks[i].span;
                sp.end - sp.start < 2 || c[sp.end - base - 1] != 34
            }) ==> tokenize(c, p, ln, base).diags.contains(
                dg(
                    Severity::Error,
                    "unterminated string literal"@,
                    Some(tokenize(c, p, ln, base).toks[i].span),
                ),
            ),
    decreases c.len() - p,
{
    let t = tokenize(c, p, ln, base);
    if p < c.len() {
        let x = c[p];
        if x == 32 || x == 9 {
            lemma_unterminated_strings_are_errors(c, p + 1, ln, base);
        } else if x == 35 {
        } else if punct_token(x) is Some {
            let r = tokenize(c, p + 1, ln, base);
            lemma_unterminated_strings_are_errors(c, p + 1, ln, base);
            assert forall|i: int|
                0 <= i < t.toks.len() && (#[trigger] t.toks[i]).token is Quoted && (t.toks[i].span.end
                    - t.toks[i].span.start < 2 || c[t.toks[i].span.end - base - 1] != 34) implies t.diags.contains(
                dg(Severity::Error, "unterminated string literal"@, Some(t.toks[i].span)),
            ) by {
                assert(i > 0);
                assert(t.toks[i] == r.toks[i - 1]);
            }
        } else if x == 34 {
            lemma_scan_quoted(c, p + 1);
            lemma_quote_close(c, p + 1);
            let q = scan_quoted(c, p + 1);
            let r = tokenize(c, q.end, ln, base);
            lemma_unterminated_strings_are_errors(c, q.end, ln, base);
            let d = dg(Severity::Error, "unterminated string literal"@, Some(tspan(ln, base, p, q.end)));
            assert forall|i: int|
                0 <= i < t.toks.len() && (#[trigger] t.toks[i]).token is Quoted && (t.toks[i].span.end
                    - t.toks[i].span.start < 2 || c[t.toks[i].span.end - base - 1] != 34) implies t.diags.contains(
                dg(Severity::Error, "unterminated string literal"@, Some(t.toks[i].span)),
            ) by {
                if i == 0 {
                    assert(t.toks[0].span == tspan(ln, base, p, q.end));
                    if q.closed {
                        assert(false);
                    } else {
                        assert(t.diags[0] == d);
                    }
                } else {
                    assert(t.toks[i] == r.toks[i - 1]);
                    let k = choose|k: int| 0 <= k < r.diags.len() && r.diags[k] == dg(
                        Severity::Error,
                        "unterminated string literal"@,
                        Some(t.toks[i].span),
                    );
                    if q.closed {
                        assert(t.diags[k] == r.diags[k]);
                    } else {
                        assert(t.diags[k + 1] == r.diags[k]);
                    }
                }
            }
        } else if is_ident_byte(x) {
            let q = ident_end(c, p);
            lemma_ident_end(c, p);
            if at_boundary(c, p) && at_boundary(c, q) {
                let r = tokenize(c, q, ln, base);
                lemma_unterminated_strings_are_errors(c, q, ln, base);
                assert forall|i: int|
                    0 <= i < t.toks.len() && (#[trigger] t.toks[i]).token is Quoted && (t.toks[i].span.end
                        - t.toks[i].span.start < 2 || c[t.toks[i].span.end - base - 1] != 34) implies t.diags.contains(
                    dg(Severity::Error, "unterminated string literal"@, Some(t.toks[i].span)),
                ) by {
                    assert(i > 0);
                    assert(t.toks[i] == r.toks[i - 1]);
                }
            } else if at_boundary(c, p) {
                lemma_cont_end(c, q);
                let e = cont_end(c, q);
                let r = tokenize(c, e, ln, base);
                lemma_unterminated_strings_are_errors(c, e, ln, base);
                assert forall|i: int|
                    0 <= i < t.toks.len() && (#[trigger] t.toks[i]).token is Quoted && (t.toks[i].span.end
                        - t.toks[i].span.start < 2 || c[t.toks[i].span.end - base - 1] != 34) implies t.diags.contains(
                    dg(Severity::Error, "unterminated string literal"@, Some(t.toks[i].span)),
                ) by {
                    assert(t.toks[i] == r.toks[i]);
                    let k = choose|k: int| 0 <= k < r.diags.len() && r.diags[k] == dg(
                        Severity::Error,
                        "unterminated string literal"@,
                        Some(t.toks[i].span),
                    );
                    assert(t.diags[k + 1] == r.diags[k]);
                }
            } else {
                let r = tokenize(c, p + 1, ln, base);
                lemma_unterminated_strings_are_errors(c, p + 1, ln, base);
                assert forall|i: int|
                    0 <= i < t.toks.len() && (#[trigger] t.toks[i]).token is Quoted && (t.toks[i].span.end
                        - t.toks[i].span.start < 2 || c[t.toks[i].span.end - base - 1] != 34) implies t.diags.contains(
                    dg(Severity::Error, "unterminated string literal"@, Some(t.toks[i].span)),
                ) by {
                    assert(t.toks[i] == r.toks[i]);
                    let k = choose|k: int| 0 <= k < r.diags.len() && r.diags[k] == dg(
                        Severity::Error,
                        "unterminated string literal"@,
                        Some(t.toks[i].span),
                    );
                    assert(t.diags[k + 1] == r.diags[k]);
                }
            }
        } else {
            let nx = if x >= 128 && at_boundary(c, p) { non_ascii_end(c, p) } else { p + 1 };
            lemma_non_ascii_end(c, p);
            let r = tokenize(c, nx, ln, base);
            lemma_unterminated_strings_are_errors(c, nx, ln, base);
            assert forall|i: int|
                0 <= i < t.toks.len() && (#[trigger] t.toks[i]).token is Quoted && (t.toks[i].span.end
                    - t.toks[i].span.start < 2 || c[t.toks[i].span.end - base - 1] != 34) implies t.diags.contains(
                dg(Severity::Error, "unterminated string literal"@, Some(t.toks[i].span)),
            ) by {
                assert(t.toks[i] == r.toks[i]);
                let k = choose|k: int| 0 <= k < r.diags.len() && r.diags[k] == dg(
                    Severity::Error,
                    "unterminated string literal"@,
                    Some(t.toks[i].span),
                );
                assert(t.diags[k + 1] == r.diags[k]);
            }
        }
    }
}


// ---- Laws of indentation and comments ----

proof fn lemma_first_tab(b: Seq<u8>, i: int, e: int)
    requires
        0 <= i <= e <= b.len(),
    ensures
        i <= first_tab(b, i, e) <= e,
        first_tab(b, i, e) < e <==> exists|j: int| i <= j < e && b[j] == 9,
    decreases e - i,
{
    if i < e {
        lemma_first_tab(b, i + 1, e);
        if exists|j: int| i <= j < e && b[j] == 9 {
            let j = choose|j: int| i <= j < e && b[j] == 9;
            if b[i] != 9 {
                assert(i + 1 <= j);
            }
        }
    }
}

/// A line's indentation is its run of leading spaces and tabs. A tab in it
/// is an error, reported first; so is a run of spaces of odd length.
/// A line whose first character after the indentation is `#` is a comment
/// and carries no tokens.
pub proof fn lemma_indentation_rules(b: Seq<u8>, s: int, e: int, ln: u32)
    requires
        0 <= s <= e <= b.len(),
        e - s < usize::MAX,
    ensures
        ({
            let l = lex_line_spec(b, s, e, ln);
            let n = l.line.indent as int;
            &&& s + n <= e
            &&& forall|j: int| s <= j < s + n ==> b[j] == 32 || b[j] == 9
            &&& s + n < e ==> b[s + n] != 32 && b[s + n] != 9
            &&& (exists|j: int| s <= j < s + n && b[j] == 9) ==> l.diags.len() > 0
                && l.diags[0].severity == Severity::Error
                && l.diags[0].message == "tabs are not allowed for indentation; use 2 spaces per level"@
                && l.diags[0].help == Some("replace the tab character with spaces"@)
            &&& (forall|j: int| s <= j < s + n ==> b[j] == 32) && n % 2 == 1 ==> l.diags.len() > 0
                && l.diags[0].severity == Severity::Error
                && l.diags[0].message == "indentation must be a multiple of 2 spaces, found "@ + dec_nat(n as nat)
                + " space(s)"@
                && l.diags[0].help == Some("use 2-space indentation only"@)
            &&& decode_utf8(b.subrange(s + n, e)).len() > 0 && decode_utf8(b.subrange(s + n, e))[0] == '#'
                ==> l.line.is_comment && l.line.tokens.len() == 0
        }),
{
    reveal(lex_line_spec);
    lemma_ws_end(b, s, e);
    let we = ws_end(b, s, e);
    lemma_first_tab(b, s, we);
    let l = lex_line_spec(b, s, e, ln);
    assert(l.line.indent as int == we - s);
    if exists|j: int| s <= j < we && b[j] == 9 {
        assert(first_tab(b, s, we) < we);
    }
    if (forall|j: int| s <= j < we ==> b[j] == 32) && (we - s) % 2 == 1 {
        if first_tab(b, s, we) < we {
            let j = choose|j: int| s <= j < we && b[j] == 9;
            assert(b[j] == 32);
        }
    }
    let cs = decode_utf8(b.subrange(we, e));
    if cs.len() > 0 && cs[0] == '#' {
        assert(!is_ws_char(cs[0]));
        assert(skip_ws_chars(cs, 0) == 0);
    }
}

// ---- Laws of quoted strings ----

/// The bytes `[p, q)` of `c`, each read as the character of the same value.
pub open spec fn latin_chars(c: Seq<u8>, p: int, q: int) -> Seq<char> {
    Seq::new((q - p) as nat, |i: int| c[p + i] as char)
}

/// A quoted string reads its content as it stands up to the first `"`, and
/// ends right after it; where no `"` comes, it runs to the end of the line
/// and stays open.
pub proof fn lemma_quoted_content(c: Seq<u8>, p: int, q: int)
    requires
        0 <= p <= q <= c.len(),
        forall|i: int| p <= i < q ==> c[i] != 34 && c[i] != 92,
    ensures
        q < c.len() && c[q] == 34 ==> scan_quoted(c, p) == (QuoteScan {
            text: latin_chars(c, p, q),
            end: q + 1,
            closed: true,
        }),
        q == c.len() ==> scan_quoted(c, p) == (QuoteScan { text: latin_chars(c, p, q), end: q, closed: false }),
    decreases q - p,
{
    if p < q {
        lemma_quoted_content(c, p + 1, q);
        assert(seq![c[p] as char] + latin_chars(c, p + 1, q) =~= latin_chars(c, p, q));
    } else {
        assert(latin_chars(c, p, q) =~= Seq::<char>::empty());
    }
}

/// An escaped quote reads as a quote and does not end the string: the
/// scan goes on after it.
pub proof fn lemma_escaped_quote_continues(c: Seq<u8>, p: int)
    requires
        0 <= p,
        p + 1 < c.len(),
        c[p] == 92,
        c[p + 1] == 34,
    ensures
        scan_quoted(c, p).text == seq!['"'] + scan_quoted(c, p + 2).text,
        scan_quoted(c, p).end == scan_quoted(c, p + 2).end,
        scan_quoted(c, p).closed == scan_quoted(c, p + 2).closed,
{
}

/// A quote that no other quote follows on its line opens a string that runs
/// to the end of the line: the line's first diagnostic from there on is the
/// error "unterminated string literal", spanning from the quote to the end
/// of the content.
pub proof fn lemma_quote_without_close_is_reported(c: Seq<u8>, p: int, ln: u32, base: int)
    requires
        0 <= p < c.len(),
        c[p] == 34,
        forall|i: int| p < i < c.len() ==> c[i] != 34 && c[i] != 92,
    ensures
        tokenize(c, p, ln, base).diags.len() > 0,
        tokenize(c, p, ln, base).diags[0] == dg(
            Severity::Error,
            "unterminated string literal"@,
            Some(tspan(ln, base, p, c.len() as int)),
        ),
{
    lemma_quoted_content(c, p + 1, c.len() as int);
}

/// Where the `j`-th line after the one that starts at `s` starts.
pub open spec fn line_start(b: Seq<u8>, s: int, j: nat) -> int
    decreases j,
{
    if j == 0 {
        s
    } else {
        line_start(b, next_nl(b, s) + 1, (j - 1) as nat)
    }
}

/// Every diagnostic of every line is a diagnostic of the lexer: for the
/// `j`-th line after `s`, if it starts inside the source, what lexing that
/// line reports is reported by lexing from `s`.
pub proof fn lemma_lex_reports_each_line(b: Seq<u8>, s: int, k: int, j: nat, d: DiagV)
    requires
        0 <= s,
        line_start(b, s, j) < b.len(),
        ({
            let t = line_start(b, s, j);
            lex_line_spec(b, t, line_end(b, t, next_nl(b, t)), (k + j + 1) as u32).diags.contains(d)
        }),
    ensures
        lex_from(b, s, k).diags.contains(d),
    decreases j,
{
    if s >= b.len() {
        if j > 0 {
            assert(next_nl(b, s) == b.len());
            lemma_line_start_past(b, b.len() as int + 1, (j - 1) as nat);
        }
        assert(false);
    }
    lemma_next_nl(b, s);
    let nl = next_nl(b, s);
    let l = lex_line_spec(b, s, line_end(b, s, nl), (k + 1) as u32);
    let rest = if nl < b.len() {
        lex_from(b, nl + 1, k + 1)
    } else {
        LexOut { lines: Seq::empty(), diags: Seq::empty() }
    };
    assert(lex_from(b, s, k).diags == l.diags + rest.diags);
    if j == 0 {
        let i = choose|i: int| 0 <= i < l.diags.len() && l.diags[i] == d;
        assert((l.diags + rest.diags)[i] == d);
    } else {
        assert(line_start(b, s, j) == line_start(b, nl + 1, (j - 1) as nat));
        if nl >= b.len() {
            lemma_line_start_past(b, nl + 1, (j - 1) as nat);
        }
        assert(k + 1 + (j - 1) + 1 == k + j + 1);
        lemma_lex_reports_each_line(b, nl + 1, k + 1, (j - 1) as nat, d);
        let i = choose|i: int| 0 <= i < rest.diags.len() && rest.diags[i] == d;
        assert((l.diags + rest.diags)[l.diags.len() + i] == d);
    }
}

pub(crate) proof fn lemma_line_start_nonneg(b: Seq<u8>, s: int, j: nat)
    requires
        0 <= s,
    ensures
        0 <= line_start(b, s, j),
    decreases j,
{
    if j > 0 {
        if s <= b.len() {
            lemma_next_nl(b, s);
        }
        lemma_line_start_nonneg(b, next_nl(b, s) + 1, (j - 1) as nat);
    }
}

proof fn lemma_line_start_past(b: Seq<u8>, s: int, j: nat)
    requires
        s > b.len(),
    ensures
        line_start(b, s, j) > b.len(),
    decreases j,
{
    if j > 0 {
        assert(next_nl(b, s) == b.len());
        lemma_line_start_past(b, next_nl(b, s) + 1, (j - 1) as nat);
    }
}

proof fn lemma_runs_stop_at_quote(c: Seq<u8>, q: int, p: int)
    requires
        0 <= q <= p < c.len(),
        c[p] == 34,
    ensures
        ident_end(c, q) <= p,
        non_ascii_end(c, q) <= p,
        cont_end(c, q) <= p,
    decreases p - q,
{
    if q < p {
        lemma_runs_stop_at_quote(c, q + 1, p);
    }
}

/// Tokens are read from the start of a line's content through to its first
/// quote when no `#` comes before it: whatever is reported from that quote
/// on is reported for the content.
pub proof fn lemma_tokenize_reaches_quote(c: Seq<u8>, q: int, p: int, ln: u32, base: int, d: DiagV)
    requires
        0 <= q <= p < c.len(),
        c[p] == 34,
        forall|i: int| q <= i < p ==> c[i] != 34 && c[i] != 35,
        tokenize(c, p, ln, base).diags.contains(d),
    ensures
        tokenize(c, q, ln, base).diags.contains(d),
    decreases p - q,
{
    if q < p {
        let x = c[q];
        lemma_runs_stop_at_quote(c, q, p);
        lemma_ident_end(c, q);
        lemma_non_ascii_end(c, q);
        let t = tokenize(c, q, ln, base);
        if x == 32 || x == 9 {
            lemma_tokenize_reaches_quote(c, q + 1, p, ln, base, d);
        } else if punct_token(x) is Some {
            lemma_tokenize_reaches_quote(c, q + 1, p, ln, base, d);
        } else if is_ident_byte(x) {
            let e = ident_end(c, q);
            if at_boundary(c, q) && at_boundary(c, e) {
                lemma_tokenize_reaches_quote(c, e, p, ln, base, d);
            } else if at_boundary(c, q) {
                lemma_cont_end(c, e);
                lemma_runs_stop_at_quote(c, e, p);
                let f = cont_end(c, e);
                lemma_tokenize_reaches_quote(c, f, p, ln, base, d);
                let r = tokenize(c, f, ln, base);
                let k = choose|k: int| 0 <= k < r.diags.len() && r.diags[k] == d;
                assert(t.diags[k + 1] == d);
            } else {
                lemma_tokenize_reaches_quote(c, q + 1, p, ln, base, d);
                let r = tokenize(c, q + 1, ln, base);
                let k = choose|k: int| 0 <= k < r.diags.len() && r.diags[k] == d;
                assert(t.diags[k + 1] == d);
            }
        } else if x >= 128 && at_boundary(c, q) {
            let e = non_ascii_end(c, q);
            lemma_tokenize_reaches_quote(c, e, p, ln, base, d);
            let r = tokenize(c, e, ln, base);
            let k = choose|k: int| 0 <= k < r.diags.len() && r.diags[k] == d;
            assert(t.diags[k + 1] == d);
        } else {
            lemma_tokenize_reaches_quote(c, q + 1, p, ln, base, d);
            let r = tokenize(c, q + 1, ln, base);
            let k = choose|k: int| 0 <= k < r.diags.len() && r.diags[k] == d;
            assert(t.diags[k + 1] == d);
        }
    }
}

proof fn lemma_decode_first_ascii(c: Seq<u8>)
    requires
        valid_utf8(c),
        c.len() > 0,
        c[0] < 128,
    ensures
        decode_utf8(c).len() > 0,
        decode_utf8(c)[0] as u32 == c[0] as u32,
{
    let x = c[0];
    assert(x & 0x7F == x) by (bit_vector)
        requires
            x < 128u8,
    ;
    assert(decode_first_scalar(c) == x as u32);
}

/// A line whose content (after its indentation, in valid UTF-8, starting
/// with a printable ASCII character other than `#`) holds a quote that no
/// later quote closes, with no quote or `#` before it, is reported by the
/// error "unterminated string literal" from that quote to the end of the
/// line.
pub proof fn lemma_unclosed_quote_fails_the_line(b: Seq<u8>, s: int, w: int, p: int, e: int, ln: u32)
    requires
        0 <= s <= w <= p < e <= b.len(),
        e - s < usize::MAX,
        forall|i: int| s <= i < w ==> b[i] == 32 || b[i] == 9,
        32 < b[w] < 127,
        b[w] != 35,
        valid_utf8(b.subrange(w, e)),
        b[p] == 34,
        forall|i: int| w <= i < p ==> b[i] != 34 && b[i] != 35,
        forall|i: int| p < i < e ==> b[i] != 34 && b[i] != 92,
    ensures
        lex_line_spec(b, s, e, ln).diags.contains(
            dg(Severity::Error, "unterminated string literal"@, Some(tspan(ln, w - s, p - w, e - w))),
        ),
{
    reveal(lex_line_spec);
    lemma_ws_end(b, s, e);
    let we = ws_end(b, s, e);
    if we < w {
        assert(b[we] == 32 || b[we] == 9);
    }
    if we > w {
        assert(b[w] == 32 || b[w] == 9);
    }
    assert(we == w);
    let c = b.subrange(w, e);
    lemma_decode_first_ascii(c);
    let cs = decode_utf8(c);
    assert(c[0] == b[w]);
    assert(!is_ws_char(cs[0]));
    assert(skip_ws_chars(cs, 0) == 0);
    assert(cs[0] != '#');
    let q = p - w;
    let indent = w - s;
    assert forall|i: int| q < i < c.len() implies c[i] != 34 && c[i] != 92 by {
        assert(c[i] == b[w + i]);
    }
    assert forall|i: int| 0 <= i < q implies c[i] != 34 && c[i] != 35 by {
        assert(c[i] == b[w + i]);
    }
    assert(c[q] == b[p]);
    lemma_quote_without_close_is_reported(c, q, ln, indent);
    let d = dg(Severity::Error, "unterminated string literal"@, Some(tspan(ln, indent, q, c.len() as int)));
    assert(tokenize(c, q, ln, indent).diags[0] == d);
    lemma_tokenize_reaches_quote(c, 0, q, ln, indent, d);
    let t = tokenize(c, 0, ln, indent);
    let l = lex_line_spec(b, s, e, ln);
    let k = choose|k: int| 0 <= k < t.diags.len() && t.diags[k] == d;
    let pre = l.diags.len() - t.diags.len();
    assert(l.diags[pre + k] == d);
}

} // verus!
