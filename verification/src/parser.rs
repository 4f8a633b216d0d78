//! Parser: turns lexed lines into declarations with inline (`key=value`) or
//! block (indented `key: value`) properties.

use vstd::prelude::*;
use crate::ast::{
    Decl, DeclForm, DeclFormV, DeclKind, DeclV, Document, Prop, PropV, PropVal, PropValV, Value,
    ValueV, kind_name, kind_of_keyword, lemma_props_view_push, prop_view, props_view, strings_view,
    decls_view,
};
use crate::diag::{DiagEngine, Diagnostic, DiagV, Severity, dg, dg_help};
use crate::lexer::{LexLine, LexLineV, STokV, SpannedToken, Token, TokenV, lines_view, token_text, toks_view};
use crate::span::{Span, merged, zero_span};
use crate::text::{bytes_of, dec_nat, fmt_usize, push_char, push_str, string_of};

verus! {

// ---- Integers ----

/// Value of a run of ASCII digits, or `None` when some byte is no digit.
pub open spec fn digits_value(d: Seq<u8>) -> Option<nat>
    decreases d.len(),
{
    if d.len() == 0 {
        Some(0)
    } else if 48 <= d.last() <= 57 {
        match digits_value(d.drop_last()) {
            Some(v) => Some(v * 10 + (d.last() - 48) as nat),
            None => None,
        }
    } else {
        None
    }
}

/// The `i32` that decimal text denotes: an optional `+` or `-` sign and at
/// least one digit, within range; `None` otherwise.
pub open spec fn parse_i32_spec(b: Seq<u8>) -> Option<i32> {
    if b.len() == 0 {
        None
    } else if (b[0] == 43 || b[0] == 45) && b.len() == 1 {
        None
    } else {
        let neg = b[0] == 45;
        let digits = if b[0] == 43 || b[0] == 45 { b.subrange(1, b.len() as int) } else { b };
        match digits_value(digits) {
            Some(v) => if neg {
                if v <= 0x8000_0000 {
                    Some((-(v as int)) as i32)
                } else {
                    None
                }
            } else {
                if v <= 0x7fff_ffff {
                    Some(v as i32)
                } else {
                    None
                }
            },
            None => None,
        }
    }
}

proof fn lemma_digits_grow(d: Seq<u8>, k: int)
    requires
        0 <= k <= d.len(),
        digits_value(d) is Some,
    ensures
        digits_value(d.subrange(0, k)) is Some,
        digits_value(d.subrange(0, k))->0 <= digits_value(d)->0,
    decreases d.len(),
{
    if k < d.len() {
        assert(d.drop_last() =~= d.subrange(0, d.len() - 1));
        lemma_digits_grow(d.drop_last(), k);
        assert(d.drop_last().subrange(0, k) =~= d.subrange(0, k));
    } else {
        assert(d.subrange(0, k) =~= d);
    }
}

/// Value of the digits `b[start..]`, when all of them are digits and the
/// value is at most 2^31; `None` when a byte is no digit or the value is
/// larger.
fn digits_capped(b: &[u8], start: usize) -> (r: Option<u64>)
    requires
        start <= b@.len(),
    ensures
        ({
            let d = digits_value(b@.subrange(start as int, b@.len() as int));
            match r {
                Some(v) => d == Some(v as nat) && v <= 0x8000_0000,
                None => d is None || d->0 > 0x8000_0000,
            }
        }),
{
    let ghost digits = b@.subrange(start as int, b@.len() as int);
    let mut v: u64 = 0;
    let mut i = start;
    assert(digits.subrange(0, 0) =~= Seq::<u8>::empty());
    while i < b.len()
        invariant
            start <= i <= b@.len(),
            digits == b@.subrange(start as int, b@.len() as int),
            digits_value(digits.subrange(0, i - start)) == Some(v as nat),
            v <= 0x8000_0000,
        decreases b@.len() - i,
    {
        let x = b[i];
        let ghost pre = digits.subrange(0, i + 1 - start);
        assert(pre.drop_last() =~= digits.subrange(0, i - start));
        assert(pre.last() == x);
        if x < 48 || x > 57 {
            proof {
                assert(digits_value(pre) is None);
                if digits_value(digits) is Some {
                    lemma_digits_grow(digits, i + 1 - start);
                }
            }
            return None;
        }
        let nv = v * 10 + (x - 48) as u64;
        assert(digits_value(pre) == Some(nv as nat));
        if nv > 0x8000_0000 {
            proof {
                if digits_value(digits) is Some {
                    lemma_digits_grow(digits, i + 1 - start);
                }
            }
            return None;
        }
        v = nv;
        i = i + 1;
    }
    assert(digits.subrange(0, i - start) =~= digits);
    Some(v)
}

/// Parses an `i32` like `str::parse` does; 0 where that fails.
fn parse_i32_or_zero(s: &str) -> (r: i32)
    ensures
        r == match parse_i32_spec(bytes_of(s@)) {
            Some(v) => v,
            None => 0i32,
        },
{
    let b = s.as_bytes();
    if b.len() == 0 {
        return 0;
    }
    if (b[0] == 43 || b[0] == 45) && b.len() == 1 {
        return 0;
    }
    let neg = b[0] == 45;
    let start: usize = if b[0] == 43 || b[0] == 45 { 1 } else { 0 };
    assert(start == 0 ==> b@.subrange(0, b@.len() as int) =~= b@);
    match digits_capped(b, start) {
        None => 0,
        Some(v) => {
            if neg {
                if v == 0x8000_0000 {
                    i32::MIN
                } else {
                    -(v as i32)
                }
            } else if v <= 0x7fff_ffff {
                v as i32
            } else {
                0
            }
        },
    }
}

// ---- Values ----

/// Result of parsing a value: the value, the position after it and its span.
pub struct ValOut {
    pub value: ValueV,
    pub next: int,
    pub span: Span,
}

/// Tuple scan from `p`: the numbers read, the position after the closing
/// parenthesis (or the end), and the span of the last token read.
pub struct TupOut {
    pub nums: Seq<i32>,
    pub next: int,
    pub end: Span,
}

pub open spec fn ident_int(s: Seq<char>) -> i32 {
    match parse_i32_spec(bytes_of(s)) {
        Some(v) => v,
        None => 0i32,
    }
}

pub open spec fn scan_tuple(ts: Seq<STokV>, p: int, end: Span) -> TupOut
    decreases ts.len() - p,
{
    if p < 0 || p >= ts.len() {
        TupOut { nums: Seq::empty(), next: p, end }
    } else {
        match ts[p].token {
            TokenV::RParen => TupOut { nums: Seq::empty(), next: p + 1, end: ts[p].span },
            TokenV::Comma => scan_tuple(ts, p + 1, end),
            TokenV::Ident(s) => {
                let r = scan_tuple(ts, p + 1, ts[p].span);
                TupOut { nums: seq![ident_int(s)] + r.nums, ..r }
            },
            _ => scan_tuple(ts, p + 1, end),
        }
    }
}

/// List scan from `p`: identifiers and quoted strings separated by commas;
/// `a.b` joins into one item.
pub struct ListOut {
    pub items: Seq<Seq<char>>,
    pub next: int,
    pub end: Span,
}

pub open spec fn scan_list(ts: Seq<STokV>, p: int, items: Seq<Seq<char>>, end: Span) -> ListOut
    decreases ts.len() - p,
{
    if p < 0 || p >= ts.len() {
        ListOut { items, next: p, end }
    } else {
        match ts[p].token {
            TokenV::Ident(s) => scan_list(ts, p + 1, items.push(s), ts[p].span),
            TokenV::Quoted(s) => scan_list(ts, p + 1, items.push(s), ts[p].span),
            TokenV::Comma => scan_list(ts, p + 1, items, end),
            TokenV::Dot => {
                if items.len() > 0 && p + 1 < ts.len() && ts[p + 1].token is Ident {
                    scan_list(
                        ts,
                        p + 2,
                        items.update(items.len() - 1, items.last() + seq!['.'] + ts[p + 1].token->Ident_0),
                        ts[p + 1].span,
                    )
                } else {
                    scan_list(ts, p + 1, items, end)
                }
            },
            _ => ListOut { items, next: p, end },
        }
    }
}

pub open spec fn list_value(ts: Seq<STokV>, s: int) -> ValOut {
    let r = scan_list(ts, s, Seq::empty(), ts[s].span);
    ValOut {
        value: if r.items.len() == 1 {
            ValueV::Str(r.items[0])
        } else {
            ValueV::List(r.items)
        },
        next: r.next,
        span: merged(ts[s].span, r.end),
    }
}

/// Parses the value that starts at token `s`.
pub open spec fn parse_value_spec(ts: Seq<STokV>, s: int) -> ValOut {
    if s < 0 || s >= ts.len() {
        ValOut { value: ValueV::Str(Seq::empty()), next: s, span: zero_span() }
    } else {
        match ts[s].token {
            TokenV::LParen => {
                let r = scan_tuple(ts, s + 1, ts[s].span);
                ValOut { value: ValueV::Tuple(r.nums), next: r.next, span: merged(ts[s].span, r.end) }
            },
            TokenV::Quoted(q) => ValOut { value: ValueV::Str(q), next: s + 1, span: ts[s].span },
            TokenV::Ident(id) => {
                if s + 2 < ts.len() && ts[s + 1].token is Dot && ts[s + 2].token is Ident {
                    if s + 3 < ts.len() && ts[s + 3].token is Comma {
                        list_value(ts, s)
                    } else {
                        ValOut {
                            value: ValueV::Ref(id, Some(ts[s + 2].token->Ident_0)),
                            next: s + 3,
                            span: merged(ts[s].span, ts[s + 2].span),
                        }
                    }
                } else if s + 1 < ts.len() && ts[s + 1].token is Comma {
                    list_value(ts, s)
                } else {
                    ValOut { value: ValueV::Ref(id, None), next: s + 1, span: ts[s].span }
                }
            },
            _ => ValOut { value: ValueV::Str(token_text(ts[s].token)), next: s + 1, span: ts[s].span },
        }
    }
}

pub proof fn lemma_scan_tuple(ts: Seq<STokV>, p: int, end: Span)
    requires
        0 <= p <= ts.len(),
    ensures
        p <= scan_tuple(ts, p, end).next <= ts.len(),
    decreases ts.len() - p,
{
    if p < ts.len() {
        match ts[p].token {
            TokenV::RParen => {},
            TokenV::Ident(_) => lemma_scan_tuple(ts, p + 1, ts[p].span),
            _ => lemma_scan_tuple(ts, p + 1, end),
        }
    }
}

pub proof fn lemma_scan_list(ts: Seq<STokV>, p: int, items: Seq<Seq<char>>, end: Span)
    requires
        0 <= p <= ts.len(),
    ensures
        p <= scan_list(ts, p, items, end).next <= ts.len(),
    decreases ts.len() - p,
{
    if p < ts.len() {
        match ts[p].token {
            TokenV::Ident(s) => lemma_scan_list(ts, p + 1, items.push(s), ts[p].span),
            TokenV::Quoted(s) => lemma_scan_list(ts, p + 1, items.push(s), ts[p].span),
            TokenV::Comma => lemma_scan_list(ts, p + 1, items, end),
            TokenV::Dot => {
                if items.len() > 0 && p + 1 < ts.len() && ts[p + 1].token is Ident {
                    lemma_scan_list(
                        ts,
                        p + 2,
                        items.update(items.len() - 1, items.last() + seq!['.'] + ts[p + 1].token->Ident_0),
                        ts[p + 1].span,
                    );
                } else {
                    lemma_scan_list(ts, p + 1, items, end);
                }
            },
            _ => {},
        }
    }
}

pub proof fn lemma_parse_value(ts: Seq<STokV>, s: int)
    requires
        0 <= s <= ts.len(),
    ensures
        s <= parse_value_spec(ts, s).next <= ts.len(),
        s < ts.len() ==> s < parse_value_spec(ts, s).next,
{
    if s < ts.len() {
        lemma_scan_tuple(ts, s + 1, ts[s].span);
        lemma_scan_list(ts, s, Seq::empty(), ts[s].span);
        if let TokenV::Ident(id) = ts[s].token {
            lemma_scan_list(ts, s + 1, seq![id], ts[s].span);
        }
    }
}

fn parse_tuple(tokens: &[SpannedToken], s: usize) -> (r: (Value, usize, Span))
    requires
        s < tokens@.len(),
        tokens@[s as int].token is LParen,
    ensures
        r.0@ == parse_value_spec(toks_view(tokens@), s as int).value,
        r.1 == parse_value_spec(toks_view(tokens@), s as int).next,
        r.2 == parse_value_spec(toks_view(tokens@), s as int).span,
{
    let ghost ts = toks_view(tokens@);
    let start_span = tokens[s].span;
    let mut pos = s + 1;
    let mut nums: Vec<i32> = Vec::new();
    let mut end_span = start_span;
    let ghost full = scan_tuple(ts, s + 1, start_span);
    proof {
        lemma_scan_tuple(ts, s + 1, start_span);
    }
    assert(ts[s as int].token == TokenV::LParen && ts[s as int].span == start_span);
    while pos < tokens.len()
        invariant
            ts == toks_view(tokens@),
            ts[s as int].token == TokenV::LParen && ts[s as int].span == start_span,
            s < pos <= tokens@.len(),
            full == scan_tuple(ts, s + 1, start_span),
            full == (TupOut { nums: nums@ + scan_tuple(ts, pos as int, end_span).nums, ..scan_tuple(ts, pos as int, end_span) }),
        decreases tokens@.len() - pos,
    {
        let ghost npre = nums@;
        let tok = &tokens[pos];
        assert(ts[pos as int] == tok@);
        match &tok.token {
            Token::RParen => {
                assert(ts[pos as int].token == TokenV::RParen);
                let ghost cur = scan_tuple(ts, pos as int, end_span);
                assert(cur.next == pos + 1 && cur.end == tok.span && cur.nums =~= Seq::<i32>::empty());
                end_span = tok.span;
                pos = pos + 1;
                assert(nums@ + Seq::<i32>::empty() =~= nums@);
                assert(full.nums =~= nums@ && full.next == pos && full.end == end_span);
                assert(ts[s as int].token == TokenV::LParen);
                return (Value::Tuple(nums), pos, start_span.merge(end_span));
            },
            Token::Comma => {
                assert(ts[pos as int].token == TokenV::Comma);
                pos = pos + 1;
            },
            Token::Ident(t) => {
                assert(ts[pos as int].token == TokenV::Ident(t@));
                let n = parse_i32_or_zero(t.as_str());
                nums.push(n);
                end_span = tok.span;
                proof {
                    let r = scan_tuple(ts, pos + 1, end_span);
                    assert(npre + (seq![n] + r.nums) =~= nums@ + r.nums);
                }
                pos = pos + 1;
            },
            _ => {
                pos = pos + 1;
            },
        }
    }
    assert(nums@ + Seq::<i32>::empty() =~= nums@);
    (Value::Tuple(nums), pos, start_span.merge(end_span))
}

fn parse_list_of_strings(tokens: &[SpannedToken], s: usize) -> (r: (Value, usize, Span))
    requires
        s < tokens@.len(),
    ensures
        r.0@ == list_value(toks_view(tokens@), s as int).value,
        r.1 == list_value(toks_view(tokens@), s as int).next,
        r.2 == list_value(toks_view(tokens@), s as int).span,
{
    let ghost ts = toks_view(tokens@);
    let start_span = tokens[s].span;
    let mut items: Vec<String> = Vec::new();
    let mut pos = s;
    let mut end_span = start_span;
    let ghost full = scan_list(ts, s as int, Seq::empty(), start_span);
    assert(strings_view(items@) =~= Seq::<Seq<char>>::empty());
    loop
        invariant_except_break
            ts == toks_view(tokens@),
            s <= pos <= tokens@.len(),
            full == scan_list(ts, pos as int, strings_view(items@), end_span),
        ensures
            full == (ListOut { items: strings_view(items@), next: pos as int, end: end_span }),
        decreases tokens@.len() - pos,
    {
        if pos >= tokens.len() {
            break ;
        }
        let tok = &tokens[pos];
        assert(ts[pos as int] == tok@);
        match &tok.token {
            Token::Ident(t) => {
                let ghost pre = strings_view(items@);
                items.push(t.clone());
                end_span = tok.span;
                pos = pos + 1;
                assert(strings_view(items@) =~= pre.push(t@));
            },
            Token::Quoted(t) => {
                let ghost pre = strings_view(items@);
                items.push(t.clone());
                end_span = tok.span;
                pos = pos + 1;
                assert(strings_view(items@) =~= pre.push(t@));
            },
            Token::Comma => {
                pos = pos + 1;
            },
            Token::Dot => {
                pos = pos + 1;
                if items.len() > 0 && pos < tokens.len() {
                    let nt = &tokens[pos];
                    assert(ts[pos as int] == nt@);
                    if let Token::Ident(t) = &nt.token {
                        let last = items.len() - 1;
                        let mut joined = items[last].clone();
                        push_char(&mut joined, '.');
                        push_str(&mut joined, t.as_str());
                        let ghost pre = strings_view(items@);
                        let ghost old_items = items@;
                        items.set(last, joined);
                        proof {
                            let want = pre.update(pre.len() - 1, pre.last() + seq!['.'] + t@);
                            assert(items@ == old_items.update(last as int, joined));
                            assert forall|j: int| 0 <= j < items@.len() implies strings_view(items@)[j] == want[j] by {
                                if j != last {
                                    assert(items@[j] == old_items[j]);
                                }
                            }
                            assert(strings_view(items@) =~= want);
                        }
                        end_span = nt.span;
                        pos = pos + 1;
                    }
                }
            },
            _ => {
                break ;
            },
        }
    }
    if items.len() == 1 {
        let ghost sv = strings_view(items@);
        let item = items.remove(0);
        assert(item@ == sv[0]);
        (Value::Str(item), pos, start_span.merge(end_span))
    } else {
        (Value::List(items), pos, start_span.merge(end_span))
    }
}


fn parse_value(tokens: &[SpannedToken], s: usize) -> (r: (Value, usize, Span))
    requires
        s <= tokens@.len(),
    ensures
        r.0@ == parse_value_spec(toks_view(tokens@), s as int).value,
        r.1 == parse_value_spec(toks_view(tokens@), s as int).next,
        r.2 == parse_value_spec(toks_view(tokens@), s as int).span,
{
    let ghost ts = toks_view(tokens@);
    if s >= tokens.len() {
        return (Value::Str(String::new()), s, Span::default());
    }
    let len = tokens.len();
    assert(ts[s as int] == tokens@[s as int]@);
    match &tokens[s].token {
        Token::LParen => parse_tuple(tokens, s),
        Token::Quoted(q) => (Value::Str(q.clone()), s + 1, tokens[s].span),
        Token::Ident(id) => {
            if len - s > 2 && matches!(tokens[s + 1].token, Token::Dot) {
                assert(ts[s + 1] == tokens@[s + 1]@);
                assert(ts[s + 2] == tokens@[s + 2]@);
                if let Token::Ident(port) = &tokens[s + 2].token {
                    if len - s > 3 && matches!(tokens[s + 3].token, Token::Comma) {
                        assert(ts[s + 3] == tokens@[s + 3]@);
                        return parse_list_of_strings(tokens, s);
                    }
                    proof {
                        if len - s > 3 {
                            assert(ts[s + 3] == tokens@[s + 3]@);
                        }
                    }
                    return (
                        Value::Ref(id.clone(), Some(port.clone())),
                        s + 3,
                        tokens[s].span.merge(tokens[s + 2].span),
                    );
                }
            }
            proof {
                if len - s > 2 {
                    assert(ts[s + 1] == tokens@[s + 1]@);
                    assert(ts[s + 2] == tokens@[s + 2]@);
                }
                if len - s > 1 {
                    assert(ts[s + 1] == tokens@[s + 1]@);
                }
            }
            if len - s > 1 && matches!(tokens[s + 1].token, Token::Comma) {
                return parse_list_of_strings(tokens, s);
            }
            (Value::Ref(id.clone(), None), s + 1, tokens[s].span)
        },
        _ => (Value::Str(tokens[s].token.display()), s + 1, tokens[s].span),
    }
}

// ---- Messages ----

/// `a` followed by `b` and `c`.
fn msg3(a: &str, b: &str, c: &str) -> (r: String)
    ensures
        r@ == a@ + b@ + c@,
{
    let mut m = string_of(a);
    push_str(&mut m, b);
    push_str(&mut m, c);
    m
}

pub open spec fn msg_key_expected(t: TokenV) -> Seq<char> {
    "expected property key, found `"@ + token_text(t) + "`"@
}

// ---- Inline properties ----

pub struct PropsOut {
    pub props: Seq<PropV>,
    pub diags: Seq<DiagV>,
}

/// `key=value` pairs from token `p` to the end of the line.
pub open spec fn inline_props(ts: Seq<STokV>, p: int) -> PropsOut
    decreases ts.len() - p,
{
    if p < 0 || p >= ts.len() {
        PropsOut { props: Seq::empty(), diags: Seq::empty() }
    } else {
        match ts[p].token {
            TokenV::Ident(key) => {
                let p1 = p + 1;
                if p1 >= ts.len() || !(ts[p1].token is Equals) {
                    let sp = if p1 < ts.len() { ts[p1].span } else { ts[p].span };
                    let r = inline_props(ts, p1);
                    PropsOut {
                        diags: seq![
                            dg(
                                Severity::Error,
                                "expected `=` after property key `"@ + key + "`"@,
                                Some(sp),
                            ),
                        ] + r.diags,
                        ..r
                    }
                } else {
                    let v = parse_value_spec(ts, p1 + 1);
                    proof {
                        lemma_parse_value(ts, p1 + 1);
                    }
                    let r = inline_props(ts, v.next);
                    // A property with nothing after its `=` spans `key=`.
                    let vspan = if p1 + 1 < ts.len() { v.span } else { ts[p1].span };
                    PropsOut {
                        props: seq![
                            PropV {
                                key,
                                value: PropValV::Value(v.value),
                                span: merged(ts[p].span, vspan),
                            },
                        ] + r.props,
                        ..r
                    }
                }
            },
            _ => {
                let r = inline_props(ts, p + 1);
                PropsOut {
                    diags: seq![
                        dg(Severity::Error, msg_key_expected(ts[p].token), Some(ts[p].span)),
                    ] + r.diags,
                    ..r
                }
            },
        }
    }
}

/// Parses inline properties: `key=value key=value ...` from token `s` on.
fn parse_inline_props(tokens: &[SpannedToken], s: usize, diags: &mut DiagEngine) -> (r: Vec<Prop>)
    requires
        s <= tokens@.len(),
    ensures
        props_view(r@) == inline_props(toks_view(tokens@), s as int).props,
        final(diags)@ == old(diags)@ + inline_props(toks_view(tokens@), s as int).diags,
        final(diags).strict == old(diags).strict,
{
    let ghost ts = toks_view(tokens@);
    let ghost full = inline_props(ts, s as int);
    let ghost d0 = diags@;
    let mut props: Vec<Prop> = Vec::new();
    let mut pos = s;
    let ghost mut drel: Seq<DiagV> = Seq::empty();
    proof {
        assert(props_view(props@) + full.props =~= full.props);
        assert(drel + full.diags =~= full.diags);
        assert(diags@ =~= d0 + drel);
    }
    while pos < tokens.len()
        invariant
            ts == toks_view(tokens@),
            s <= pos <= tokens@.len(),
            full == inline_props(ts, s as int),
            full.props == props_view(props@) + inline_props(ts, pos as int).props,
            full.diags == drel + inline_props(ts, pos as int).diags,
            diags@ == d0 + drel,
            d0 == old(diags)@,
            diags.strict == old(diags).strict,
        decreases tokens@.len() - pos,
    {
        let ghost cur = inline_props(ts, pos as int);
        let ghost ppre = props_view(props@);
        assert(ts[pos as int] == tokens@[pos as int]@);
        let key_tok = &tokens[pos];
        match &key_tok.token {
            Token::Ident(key) => {
                let key_span = key_tok.span;
                let p1 = pos + 1;
                proof {
                    if p1 < tokens.len() {
                        assert(ts[p1 as int] == tokens@[p1 as int]@);
                    }
                }
                if p1 >= tokens.len() || !matches!(tokens[p1].token, Token::Equals) {
                    let sp = if p1 < tokens.len() { tokens[p1].span } else { key_span };
                    let m = msg3("expected `=` after property key `", key.as_str(), "`");
                    let ghost dv = dg(Severity::Error, m@, Some(sp));
                    diags.emit(Diagnostic::error(m).with_span(sp));
                    proof {
                        let r = inline_props(ts, p1 as int);
                        assert(drel + (seq![dv] + r.diags) =~= (drel + seq![dv]) + r.diags);
                        drel = drel + seq![dv];
                        assert(diags@ =~= d0 + drel);
                    }
                    pos = p1;
                } else {
                    proof {
                        lemma_parse_value(ts, p1 + 1);
                    }
                    let (value, next, val_span) = parse_value(tokens, p1 + 1);
                    let vspan = if p1 + 1 < tokens.len() { val_span } else { tokens[p1].span };
                    let span = key_span.merge(vspan);
                    let prop = Prop { key: key.clone(), value: PropVal::Value(value), span };
                    proof {
                        lemma_props_view_push(props@, prop);
                    }
                    props.push(prop);
                    proof {
                        let r = inline_props(ts, next as int);
                        assert(prop_view(prop) == PropV { key: key@, value: PropValV::Value(value@), span });
                        assert(ppre + (seq![prop_view(prop)] + r.props) =~= props_view(props@) + r.props);
                    }
                    pos = next;
                }
            },
            _ => {
                let t = key_tok.token.display();
                let m = msg3("expected property key, found `", t.as_str(), "`");
                let ghost dv = dg(Severity::Error, m@, Some(key_tok.span));
                diags.emit(Diagnostic::error(m).with_span(key_tok.span));
                proof {
                    let r = inline_props(ts, pos + 1);
                    assert(m@ == msg_key_expected(ts[pos as int].token));
                    assert(drel + (seq![dv] + r.diags) =~= (drel + seq![dv]) + r.diags);
                    drel = drel + seq![dv];
                    assert(diags@ =~= d0 + drel);
                }
                pos = pos + 1;
            },
        }
    }
    proof {
        assert(props_view(props@) + Seq::<PropV>::empty() =~= props_view(props@));
        assert(drel + Seq::<DiagV>::empty() =~= drel);
    }
    props
}


// ---- Block properties ----

/// The span of a line's first token, or the zero span.
pub open spec fn first_span(l: LexLineV) -> Span {
    if l.tokens.len() > 0 {
        l.tokens[0].span
    } else {
        zero_span()
    }
}

pub struct BlockOut {
    pub props: Seq<PropV>,
    pub diags: Seq<DiagV>,
    pub next: int,
}

pub struct PropOut {
    pub prop: Option<PropV>,
    pub diags: Seq<DiagV>,
    pub next: int,
}

/// The lines from `i` on that belong to a block at nesting level `ex`
/// (indented `2 * ex` spaces): its properties, diagnostics, and the line
/// where the block ends.
pub open spec fn block_props(ls: Seq<LexLineV>, i: int, ex: int) -> BlockOut
    decreases ls.len() - i, 1int,
{
    if i < 0 || i >= ls.len() {
        BlockOut { props: Seq::empty(), diags: Seq::empty(), next: i }
    } else {
        let line = ls[i];
        if line.is_blank || line.is_comment {
            block_props(ls, i + 1, ex)
        } else if line.indent < ex * 2 {
            BlockOut { props: Seq::empty(), diags: Seq::empty(), next: i }
        } else if line.indent == ex * 2 {
            let r = block_prop(ls, i, ex);
            let n = match r.prop {
                Some(_) => if r.next > i { r.next } else { i + 1 },
                None => if r.next >= i { r.next + 1 } else { i + 1 },
            };
            let rest = if n <= ls.len() {
                block_props(ls, n, ex)
            } else {
                BlockOut { props: Seq::empty(), diags: Seq::empty(), next: n }
            };
            BlockOut {
                props: match r.prop {
                    Some(p) => seq![p] + rest.props,
                    None => rest.props,
                },
                diags: r.diags + rest.diags,
                next: rest.next,
            }
        } else {
            let rest = block_props(ls, i + 1, ex);
            BlockOut {
                diags: seq![
                    dg(
                        Severity::Error,
                        "unexpected indentation level "@ + dec_nat(line.indent as nat)
                            + " (expected "@ + dec_nat((ex * 2) as nat) + ")"@,
                        Some(first_span(line)),
                    ),
                ] + rest.diags,
                ..rest
            }
        }
    }
}

/// The property on line `i` of a block at level `ex`: `key: value`, or
/// `key:` followed by a nested block.
pub open spec fn block_prop(ls: Seq<LexLineV>, i: int, ex: int) -> PropOut
    decreases ls.len() - i, 0int,
{
    if i < 0 || i >= ls.len() || ls[i].tokens.len() == 0 {
        PropOut { prop: None, diags: Seq::empty(), next: i }
    } else {
        let ts = ls[i].tokens;
        match ts[0].token {
            TokenV::Ident(key) => {
                if ts.len() < 2 || !(ts[1].token is Colon) {
                    let sp = if ts.len() > 1 { ts[1].span } else { ts[0].span };
                    PropOut {
                        prop: None,
                        diags: seq![
                            dg(
                                Severity::Error,
                                "expected `:` after property key `"@ + key + "`"@,
                                Some(sp),
                            ),
                        ],
                        next: i + 1,
                    }
                } else if ts.len() == 2 {
                    let sub = block_props(ls, i + 1, ex + 1);
                    PropOut {
                        prop: Some(PropV { key, value: PropValV::Block(sub.props), span: ts[0].span }),
                        diags: sub.diags,
                        next: sub.next,
                    }
                } else {
                    let v = parse_value_spec(ts, 2);
                    PropOut {
                        prop: Some(
                            PropV { key, value: PropValV::Value(v.value), span: merged(ts[0].span, v.span) },
                        ),
                        diags: Seq::empty(),
                        next: i + 1,
                    }
                }
            },
            _ => PropOut {
                prop: None,
                diags: seq![dg(Severity::Error, msg_key_expected(ts[0].token), Some(ts[0].span))],
                next: i,
            },
        }
    }
}

/// A block ends no earlier than it starts; a property line that yields a
/// property is consumed.
pub proof fn lemma_block_next(ls: Seq<LexLineV>, i: int, ex: int)
    requires
        0 <= i <= ls.len(),
    ensures
        i <= block_props(ls, i, ex).next <= ls.len() + 1,
        i < ls.len() ==> i <= block_prop(ls, i, ex).next <= ls.len() + 1,
        i < ls.len() && block_prop(ls, i, ex).prop is None ==> block_prop(ls, i, ex).next <= i + 1,
        i < ls.len() && block_prop(ls, i, ex).prop is Some ==> i < block_prop(ls, i, ex).next,
    decreases ls.len() - i,
{
    if i < ls.len() {
        lemma_block_next(ls, i + 1, ex);
        lemma_block_next(ls, i + 1, ex + 1);
        let r = block_prop(ls, i, ex);
        let n = match r.prop {
            Some(_) => if r.next > i { r.next } else { i + 1 },
            None => if r.next >= i { r.next + 1 } else { i + 1 },
        };
        if n <= ls.len() && n > i {
            lemma_block_next(ls, n, ex);
        }
    }
}

fn parse_block_prop(lines: &[LexLine], i: &mut usize, ex: usize, diags: &mut DiagEngine) -> (r: Option<Prop>)
    requires
        *old(i) < lines@.len(),
        lines@.len() < usize::MAX / 4,
        1 <= ex <= *old(i),
    ensures
        ({
            let o = block_prop(lines_view(lines@), *old(i) as int, ex as int);
            &&& match r {
                Some(p) => o.prop == Some(prop_view(p)),
                None => o.prop is None,
            }
            &&& *final(i) == o.next
            &&& final(diags)@ == old(diags)@ + o.diags
        }),
        final(diags).strict == old(diags).strict,
    decreases lines@.len() - *old(i), 0int,
{
    let ghost ls = lines_view(lines@);
    let ghost i0 = *i;
    let line = &lines[*i];
    assert(ls[i0 as int] == line@);
    let tokens = &line.tokens;
    if tokens.len() == 0 {
        assert(diags@ =~= old(diags)@ + Seq::<DiagV>::empty());
        return None;
    }
    let ghost ts = toks_view(tokens@);
    assert(ts[0] == tokens@[0]@);
    let key_tok = &tokens[0];
    match &key_tok.token {
        Token::Ident(key) => {
            let key_span = key_tok.span;
            proof {
                if tokens@.len() > 1 {
                    assert(ts[1] == tokens@[1]@);
                }
            }
            if tokens.len() < 2 || !matches!(tokens[1].token, Token::Colon) {
                let sp = if tokens.len() > 1 { tokens[1].span } else { key_span };
                let m = msg3("expected `:` after property key `", key.as_str(), "`");
                diags.emit(Diagnostic::error(m).with_span(sp));
                *i = *i + 1;
                return None;
            }
            if tokens.len() == 2 {
                *i = *i + 1;
                proof {
                    lemma_block_next(ls, i0 + 1, ex + 1);
                }
                let sub = collect_block_props(lines, i, ex + 1, diags);
                return Some(Prop { key: key.clone(), value: PropVal::Block(sub), span: key_span });
            }
            let (value, _next, val_span) = parse_value(tokens, 2);
            *i = *i + 1;
            assert(diags@ =~= old(diags)@ + Seq::<DiagV>::empty());
            Some(Prop { key: key.clone(), value: PropVal::Value(value), span: key_span.merge(val_span) })
        },
        _ => {
            let t = key_tok.token.display();
            let m = msg3("expected property key, found `", t.as_str(), "`");
            diags.emit(Diagnostic::error(m).with_span(key_tok.span));
            None
        },
    }
}

/// Collects the properties of a block at level `ex` (indentation `2 * ex`).
fn collect_block_props(lines: &[LexLine], i: &mut usize, ex: usize, diags: &mut DiagEngine) -> (r: Vec<Prop>)
    requires
        *old(i) <= lines@.len(),
        lines@.len() < usize::MAX / 4,
        1 <= ex <= *old(i),
    ensures
        ({
            let o = block_props(lines_view(lines@), *old(i) as int, ex as int);
            &&& props_view(r@) == o.props
            &&& *final(i) == o.next
            &&& final(diags)@ == old(diags)@ + o.diags
        }),
        final(diags).strict == old(diags).strict,
    decreases lines@.len() - *old(i), 1int,
{
    let ghost ls = lines_view(lines@);
    let ghost i0 = *i;
    let ghost full = block_props(ls, i0 as int, ex as int);
    let ghost d0 = diags@;
    let mut props: Vec<Prop> = Vec::new();
    let ghost mut drel: Seq<DiagV> = Seq::empty();
    proof {
        assert(props_view(props@) + full.props =~= full.props);
        assert(drel + full.diags =~= full.diags);
        assert(diags@ =~= d0 + drel);
    }
    while *i < lines.len()
        invariant
            ls == lines_view(lines@),
            lines@.len() < usize::MAX / 4,
            i0 <= *i <= lines@.len() + 1,
            i0 == *old(i),
            1 <= ex <= i0,
            full == block_props(ls, i0 as int, ex as int),
            full.props == props_view(props@) + block_props(ls, *i as int, ex as int).props,
            full.diags == drel + block_props(ls, *i as int, ex as int).diags,
            full.next == block_props(ls, *i as int, ex as int).next,
            diags@ == d0 + drel,
            d0 == old(diags)@,
            diags.strict == old(diags).strict,
        decreases lines@.len() + 1 - *i,
    {
        let ghost ic = *i as int;
        let ghost cur = block_props(ls, ic, ex as int);
        let ghost ppre = props_view(props@);
        let line = &lines[*i];
        assert(ls[ic] == line@);
        if line.is_blank || line.is_comment {
            *i = *i + 1;
            continue;
        }
        if line.indent / 2 < ex {
            assert(line.indent < ex * 2);
            proof {
                assert(cur.props =~= Seq::<PropV>::empty());
                assert(cur.diags =~= Seq::<DiagV>::empty());
                assert(props_view(props@) + Seq::<PropV>::empty() =~= props_view(props@));
                assert(drel + Seq::<DiagV>::empty() =~= drel);
            }
            return props;
        }
        if line.indent % 2 == 0 && line.indent / 2 == ex {
            assert(line.indent == ex * 2);
            let ghost dpre = diags@;
            let ghost r = block_prop(ls, ic, ex as int);
            proof {
                lemma_block_next(ls, ic, ex as int);
            }
            let res = parse_block_prop(lines, i, ex, diags);
            let ghost nd = diags@.subrange(dpre.len() as int, diags@.len() as int);
            assert(diags@ =~= dpre + nd);
            assert(nd =~= r.diags);
            match res {
                Some(prop) => {
                    proof {
                        lemma_props_view_push(props@, prop);
                    }
                    props.push(prop);
                    proof {
                        let rest = if (*i as int) <= ls.len() {
                            block_props(ls, *i as int, ex as int)
                        } else {
                            BlockOut { props: Seq::empty(), diags: Seq::empty(), next: *i as int }
                        };
                        assert(rest == block_props(ls, *i as int, ex as int));
                        assert(ppre + (seq![prop_view(prop)] + rest.props) =~= props_view(props@) + rest.props);
                        assert(drel + (nd + rest.diags) =~= (drel + nd) + rest.diags);
                        drel = drel + nd;
                    }
                },
                None => {
                    *i = *i + 1;
                    proof {
                        let rest = if (*i as int) <= ls.len() {
                            block_props(ls, *i as int, ex as int)
                        } else {
                            BlockOut { props: Seq::empty(), diags: Seq::empty(), next: *i as int }
                        };
                        assert(rest == block_props(ls, *i as int, ex as int));
                        assert(drel + (nd + rest.diags) =~= (drel + nd) + rest.diags);
                        drel = drel + nd;
                    }
                },
            }
        } else {
            let n = fmt_usize(line.indent);
            let e2 = fmt_usize(ex * 2);
            let mut m = string_of("unexpected indentation level ");
            push_str(&mut m, n.as_str());
            push_str(&mut m, " (expected ");
            push_str(&mut m, e2.as_str());
            push_str(&mut m, ")");
            let sp = if line.tokens.len() > 0 { line.tokens[0].span } else { Span::default() };
            proof {
                if line.tokens@.len() > 0 {
                    assert(line@.tokens[0] == line.tokens@[0]@);
                }
            }
            let ghost dv = dg(Severity::Error, m@, Some(sp));
            diags.emit(Diagnostic::error(m).with_span(sp));
            proof {
                let rest = block_props(ls, ic + 1, ex as int);
                assert(line.indent > ex * 2);
                assert(drel + (seq![dv] + rest.diags) =~= (drel + seq![dv]) + rest.diags);
                drel = drel + seq![dv];
                assert(diags@ =~= d0 + drel);
            }
            *i = *i + 1;
        }
    }
    proof {
        let rest = block_props(ls, *i as int, ex as int);
        assert(rest.props =~= Seq::<PropV>::empty());
        assert(rest.diags =~= Seq::<DiagV>::empty());
        assert(props_view(props@) + Seq::<PropV>::empty() =~= props_view(props@));
        assert(drel + Seq::<DiagV>::empty() =~= drel);
    }
    props
}


// ---- Declarations ----

pub struct DeclOut {
    pub decl: Option<DeclV>,
    pub diags: Seq<DiagV>,
    pub next: int,
}

pub open spec fn err_at(m: Seq<char>, sp: Span) -> DiagV {
    dg(Severity::Error, m, Some(sp))
}

/// The declaration that starts on line `i`: `kind id` followed by inline
/// properties, or by a colon (or nothing) and an indented block.
pub open spec fn parse_decl_spec(ls: Seq<LexLineV>, i: int) -> DeclOut {
    let ts = ls[i].tokens;
    match ts[0].token {
        TokenV::Ident(w) => match kind_of_keyword(w) {
            None => DeclOut {
                decl: None,
                diags: seq![
                    dg_help(
                        "unknown declaration kind `"@ + w + "`"@,
                        ts[0].span,
                        "expected one of: equipment, valve, line, instrument, signal, group, area, note, junction"@,
                    ),
                ],
                next: i + 1,
            },
            Some(kind) => if ts.len() < 2 {
                DeclOut {
                    decl: None,
                    diags: seq![err_at("expected identifier after `"@ + kind_name(kind) + "`"@, ts[0].span)],
                    next: i + 1,
                }
            } else {
                match ts[1].token {
                    TokenV::Ident(id) => {
                        let dspan = merged(ts[0].span, ts[1].span);
                        if ts.len() == 2 {
                            let sub = block_props(ls, i + 1, 1);
                            DeclOut {
                                decl: Some(DeclV { kind, id, form: DeclFormV::Block(sub.props), span: dspan }),
                                diags: sub.diags,
                                next: sub.next,
                            }
                        } else if ts.last().token is Colon {
                            let mixed: Seq<DiagV> = if ts.len() > 3 {
                                seq![
                                    dg_help(
                                        "declaration `"@ + kind_name(kind) + " "@ + id
                                            + "` mixes inline and block syntax"@,
                                        dspan,
                                        "use either inline (key=value) or block (colon + indented lines), not both"@,
                                    ),
                                ]
                            } else {
                                Seq::empty()
                            };
                            let sub = block_props(ls, i + 1, 1);
                            DeclOut {
                                decl: Some(DeclV { kind, id, form: DeclFormV::Block(sub.props), span: dspan }),
                                diags: mixed + sub.diags,
                                next: sub.next,
                            }
                        } else {
                            let r = inline_props(ts, 2);
                            DeclOut {
                                decl: Some(DeclV { kind, id, form: DeclFormV::Inline(r.props), span: dspan }),
                                diags: r.diags,
                                next: i + 1,
                            }
                        }
                    },
                    _ => DeclOut {
                        decl: None,
                        diags: seq![err_at("expected identifier (declaration ID)"@, ts[1].span)],
                        next: i + 1,
                    },
                }
            },
        },
        _ => DeclOut {
            decl: None,
            diags: seq![err_at("expected declaration kind keyword"@, ts[0].span)],
            next: i + 1,
        },
    }
}

pub proof fn lemma_decl_next(ls: Seq<LexLineV>, i: int)
    requires
        0 <= i < ls.len(),
        ls[i].tokens.len() > 0,
    ensures
        i < parse_decl_spec(ls, i).next <= ls.len() + 1,
        parse_decl_spec(ls, i).decl is None ==> parse_decl_spec(ls, i).next == i + 1,
{
    lemma_block_next(ls, i + 1, 1);
}

fn parse_decl(lines: &[LexLine], i: &mut usize, diags: &mut DiagEngine) -> (r: Option<Decl>)
    requires
        *old(i) < lines@.len(),
        lines@.len() < usize::MAX / 4,
        lines@[*old(i) as int].tokens@.len() > 0,
    ensures
        ({
            let o = parse_decl_spec(lines_view(lines@), *old(i) as int);
            &&& match r {
                Some(d) => o.decl == Some(d@),
                None => o.decl is None,
            }
            &&& *final(i) == o.next
            &&& final(diags)@ == old(diags)@ + o.diags
        }),
        final(diags).strict == old(diags).strict,
{
    let ghost ls = lines_view(lines@);
    let ghost i0 = *i;
    let line = &lines[*i];
    assert(ls[i0 as int] == line@);
    let tokens = &line.tokens;
    let ghost ts = toks_view(tokens@);
    assert(ts[0] == tokens@[0]@);
    let t0 = &tokens[0];
    let kind = match &t0.token {
        Token::Ident(w) => match DeclKind::from_str(w.as_str()) {
            Some(k) => k,
            None => {
                let m = msg3("unknown declaration kind `", w.as_str(), "`");
                let h = string_of(
                    "expected one of: equipment, valve, line, instrument, signal, group, area, note, junction",
                );
                diags.emit(Diagnostic::error(m).with_span(t0.span).with_help(h));
                *i = *i + 1;
                return None;
            },
        },
        _ => {
            let m = string_of("expected declaration kind keyword");
            diags.emit(Diagnostic::error(m).with_span(t0.span));
            *i = *i + 1;
            return None;
        },
    };
    let kind_span = t0.span;
    if tokens.len() < 2 {
        let m = msg3("expected identifier after `", kind.name(), "`");
        diags.emit(Diagnostic::error(m).with_span(kind_span));
        *i = *i + 1;
        return None;
    }
    assert(ts[1] == tokens@[1]@);
    let id = match &tokens[1].token {
        Token::Ident(s) => s.clone(),
        _ => {
            let m = string_of("expected identifier (declaration ID)");
            diags.emit(Diagnostic::error(m).with_span(tokens[1].span));
            *i = *i + 1;
            return None;
        },
    };
    let decl_span = kind_span.merge(tokens[1].span);
    let n = tokens.len();
    if n == 2 {
        *i = *i + 1;
        let props = collect_block_props(lines, i, 1, diags);
        return Some(Decl { kind, id, form: DeclForm::Block(props), span: decl_span });
    }
    assert(ts[n - 1] == tokens@[n - 1]@);
    if matches!(tokens[n - 1].token, Token::Colon) {
        if n > 3 {
            let mut m = string_of("declaration `");
            push_str(&mut m, kind.name());
            push_str(&mut m, " ");
            push_str(&mut m, id.as_str());
            push_str(&mut m, "` mixes inline and block syntax");
            let h = string_of(
                "use either inline (key=value) or block (colon + indented lines), not both",
            );
            diags.emit(Diagnostic::error(m).with_span(decl_span).with_help(h));
        }
        let ghost dmid = diags@;
        *i = *i + 1;
        let props = collect_block_props(lines, i, 1, diags);
        proof {
            let sub = block_props(ls, i0 + 1, 1);
            let mixed = dmid.subrange(old(diags)@.len() as int, dmid.len() as int);
            assert(dmid =~= old(diags)@ + mixed);
            assert(diags@ =~= old(diags)@ + (mixed + sub.diags));
        }
        return Some(Decl { kind, id, form: DeclForm::Block(props), span: decl_span });
    }
    let props = parse_inline_props(tokens, 2, diags);
    *i = *i + 1;
    Some(Decl { kind, id, form: DeclForm::Inline(props), span: decl_span })
}

// ---- Documents ----

pub struct DocOut {
    pub decls: Seq<DeclV>,
    pub diags: Seq<DiagV>,
}

/// The declarations from line `i` on. Blank and comment lines are skipped,
/// indented lines at top level are reported and skipped, and after a
/// declaration that could not be read the following line is skipped too.
pub open spec fn parse_from(ls: Seq<LexLineV>, i: int) -> DocOut
    decreases ls.len() - i,
{
    if i < 0 || i >= ls.len() {
        DocOut { decls: Seq::empty(), diags: Seq::empty() }
    } else {
        let line = ls[i];
        if line.is_blank || line.is_comment {
            parse_from(ls, i + 1)
        } else if line.indent != 0 {
            let r = parse_from(ls, i + 1);
            DocOut {
                diags: seq![
                    dg_help(
                        "unexpected indentation at top level"@,
                        first_span(line),
                        "top-level declarations must start at column 1"@,
                    ),
                ] + r.diags,
                ..r
            }
        } else if line.tokens.len() == 0 {
            parse_from(ls, i + 1)
        } else {
            let d = parse_decl_spec(ls, i);
            let n = match d.decl {
                Some(_) => if d.next > i { d.next } else { i + 1 },
                None => if d.next >= i { d.next + 1 } else { i + 1 },
            };
            let rest = if n <= ls.len() {
                parse_from(ls, n)
            } else {
                DocOut { decls: Seq::empty(), diags: Seq::empty() }
            };
            DocOut {
                decls: match d.decl {
                    Some(x) => seq![x] + rest.decls,
                    None => rest.decls,
                },
                diags: d.diags + rest.diags,
            }
        }
    }
}

/// The parser's result on lexed lines.
pub open spec fn spec_parse(ls: Seq<LexLineV>) -> DocOut {
    parse_from(ls, 0)
}

/// Parses the declarations of a lexed source.
pub fn parse(lines: &[LexLine], diags: &mut DiagEngine) -> (r: Document)
    requires
        lines@.len() < usize::MAX / 4,
    ensures
        r@ == spec_parse(lines_view(lines@)).decls,
        final(diags)@ == old(diags)@ + spec_parse(lines_view(lines@)).diags,
        final(diags).strict == old(diags).strict,
{
    let ghost ls = lines_view(lines@);
    let ghost full = parse_from(ls, 0);
    let ghost d0 = diags@;
    let mut decls: Vec<Decl> = Vec::new();
    let mut i: usize = 0;
    let ghost mut drel: Seq<DiagV> = Seq::empty();
    proof {
        assert(decls_view(decls@) + full.decls =~= full.decls);
        assert(drel + full.diags =~= full.diags);
        assert(diags@ =~= d0 + drel);
    }
    while i < lines.len()
        invariant
            ls == lines_view(lines@),
            lines@.len() < usize::MAX / 4,
            i <= lines@.len() + 1,
            full == parse_from(ls, 0),
            full.decls == decls_view(decls@) + parse_from(ls, i as int).decls,
            full.diags == drel + parse_from(ls, i as int).diags,
            diags@ == d0 + drel,
            d0 == old(diags)@,
            diags.strict == old(diags).strict,
        decreases lines@.len() + 1 - i,
    {
        let ghost ic = i as int;
        let ghost dpre = decls_view(decls@);
        let line = &lines[i];
        assert(ls[ic] == line@);
        if line.is_blank || line.is_comment {
            i = i + 1;
            continue;
        }
        if line.indent != 0 {
            let sp = if line.tokens.len() > 0 { line.tokens[0].span } else { Span::default() };
            proof {
                if line.tokens@.len() > 0 {
                    assert(line@.tokens[0] == line.tokens@[0]@);
                }
            }
            let m = string_of("unexpected indentation at top level");
            let h = string_of("top-level declarations must start at column 1");
            let ghost dv = dg_help(m@, sp, h@);
            diags.emit(Diagnostic::error(m).with_span(sp).with_help(h));
            proof {
                let rest = parse_from(ls, ic + 1);
                assert(drel + (seq![dv] + rest.diags) =~= (drel + seq![dv]) + rest.diags);
                drel = drel + seq![dv];
                assert(diags@ =~= d0 + drel);
            }
            i = i + 1;
            continue;
        }
        if line.tokens.len() == 0 {
            i = i + 1;
            continue;
        }
        let ghost dd = diags@;
        let ghost d = parse_decl_spec(ls, ic);
        proof {
            lemma_decl_next(ls, ic);
        }
        let res = parse_decl(lines, &mut i, diags);
        let ghost nd = diags@.subrange(dd.len() as int, diags@.len() as int);
        assert(diags@ =~= dd + nd);
        assert(nd =~= d.diags);
        match res {
            Some(decl) => {
                let ghost dv = decl@;
                decls.push(decl);
                proof {
                    let rest = parse_from(ls, i as int);
                    assert(decls_view(decls@) =~= dpre.push(dv));
                    assert(dpre + (seq![dv] + rest.decls) =~= decls_view(decls@) + rest.decls);
                    assert(drel + (nd + rest.diags) =~= (drel + nd) + rest.diags);
                    drel = drel + nd;
                }
            },
            None => {
                i = i + 1;
                proof {
                    let rest = parse_from(ls, i as int);
                    assert(drel + (nd + rest.diags) =~= (drel + nd) + rest.diags);
                    drel = drel + nd;
                }
            },
        }
    }
    proof {
        assert(decls_view(decls@) + Seq::<DeclV>::empty() =~= decls_view(decls@));
        assert(drel + Seq::<DiagV>::empty() =~= drel);
    }
    Document { decls }
}


// ---- Laws of declaration heads and inline properties ----

/// A line that starts with the keyword of a kind and an identifier declares
/// an object of that kind under that identifier: inline when more tokens
/// follow and the last is no colon, as a block otherwise; a colon after
/// inline properties is reported as mixing the two forms. A first word that
/// is no keyword declares nothing and is reported as an unknown kind.
pub proof fn lemma_declaration_heads(ls: Seq<LexLineV>, i: int, k: DeclKind, w: Seq<char>, id: Seq<char>)
    requires
        0 <= i < ls.len(),
        ls[i].tokens.len() >= 2,
        ls[i].tokens[0].token == TokenV::Ident(w),
    ensures
        kind_of_keyword(w) == Some(k) && ls[i].tokens[1].token == TokenV::Ident(id) ==> {
            let ts = ls[i].tokens;
            let out = parse_decl_spec(ls, i);
            &&& out.decl is Some
            &&& out.decl->Some_0.kind == k
            &&& out.decl->Some_0.id == id
            &&& (ts.len() > 2 && !(ts.last().token is Colon)) ==> out.decl->Some_0.form is Inline
                && out.next == i + 1
            &&& (ts.len() == 2 || ts.last().token is Colon) ==> out.decl->Some_0.form is Block
            &&& (ts.len() > 3 && ts.last().token is Colon) ==> out.diags.len() > 0
                && out.diags[0].severity == Severity::Error
                && out.diags[0].message == "declaration `"@ + kind_name(k) + " "@ + id
                + "` mixes inline and block syntax"@
        },
        kind_of_keyword(w) is None ==> parse_decl_spec(ls, i).decl is None
            && parse_decl_spec(ls, i).next == i + 1
            && parse_decl_spec(ls, i).diags.len() == 1
            && parse_decl_spec(ls, i).diags[0].severity == Severity::Error
            && parse_decl_spec(ls, i).diags[0].message == "unknown declaration kind `"@ + w + "`"@,
{
}

/// Inline properties are read pair by pair: a key, `=` and a value give a
/// property of that key first; a key without `=` is an error and gives no
/// property for it.
pub proof fn lemma_inline_pairs(ts: Seq<STokV>, p: int, key: Seq<char>)
    requires
        0 <= p,
        p + 1 < ts.len(),
        ts[p].token == TokenV::Ident(key),
    ensures
        ts[p + 1].token is Equals ==> inline_props(ts, p).props.len() > 0 && inline_props(ts, p).props[0].key == key,
        !(ts[p + 1].token is Equals) ==> inline_props(ts, p).props == inline_props(ts, p + 1).props
            && inline_props(ts, p).diags.len() > 0
            && inline_props(ts, p).diags[0].severity == Severity::Error
            && inline_props(ts, p).diags[0].message == "expected `=` after property key `"@ + key + "`"@,
{
}

} // verus!
