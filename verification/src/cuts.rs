//! Where a position edit cuts the source: the proof that both cut points
//! of every splice are character boundaries, so that an edit never needs
//! more of its source than a length bound.

use vstd::prelude::*;
use vstd::utf8::*;
use crate::edit::{edit_plan, find_decl, first_value_at, newline_starts, span_base, splice_for};
use crate::lexer::{
    LexLineV, STokV, TokenV, cont_end, ident_end, lemma_cont_end, is_ident_byte, lemma_ident_end, lemma_next_nl,
    lemma_non_ascii_end, lemma_ws_end, lex_from, lex_line_spec, line_end, next_nl, non_ascii_end,
    punct_token, scan_quoted, spec_lex, tokenize, tspan, ws_end,
};
use crate::ast::{DeclV, PropV, form_props};
use crate::parser::{
    block_prop, block_props, inline_props, lemma_parse_value, parse_decl_spec, parse_from,
    parse_value_spec, scan_list, scan_tuple,
};
use crate::span::{Span, merged};
use crate::text::{at_boundary, lemma_after_ascii};

verus! {

broadcast use vstd::utf8::group_utf8_lib;

// ---- Line starts ----

/// `next_nl` on a text and on the same text without its last byte agree,
/// up to where the shorter text ends.
proof fn lemma_next_nl_drop_last(b: Seq<u8>, i: int)
    requires
        b.len() > 0,
        0 <= i <= b.len() - 1,
    ensures
        next_nl(b.drop_last(), i) < b.len() - 1 ==> next_nl(b, i) == next_nl(b.drop_last(), i),
        next_nl(b.drop_last(), i) == b.len() - 1 ==> next_nl(b, i) == (if b.last() == 10 {
            b.len() - 1
        } else {
            b.len() as int
        }),
    decreases b.len() - i,
{
    let c = b.drop_last();
    if i < c.len() && c[i] != 10 {
        lemma_next_nl_drop_last(b, i + 1);
    }
    if i == c.len() {
        if b[i] != 10 {
            assert(next_nl(b, i + 1) == b.len());
        }
    }
}

/// Each line start is 0 or follows a newline, and the next line start is
/// right after the first newline at or after it, when there is one.
pub proof fn lemma_newline_starts_next(b: Seq<u8>, k: int)
    requires
        0 <= k < newline_starts(b).len(),
    ensures
        0 <= newline_starts(b)[k] <= b.len(),
        newline_starts(b)[k] == 0 || b[newline_starts(b)[k] - 1] == 10,
        (k + 1 < newline_starts(b).len()) == (next_nl(b, newline_starts(b)[k]) < b.len()),
        k + 1 < newline_starts(b).len() ==> newline_starts(b)[k + 1] == next_nl(
            b,
            newline_starts(b)[k],
        ) + 1,
    decreases b.len(),
{
    let st = newline_starts(b);
    if b.len() == 0 {
        assert(st == seq![0int]);
    } else {
        let c = b.drop_last();
        let sc = newline_starts(c);
        assert(st == (if b.last() == 10 { sc.push(b.len() as int) } else { sc }));
        if k < sc.len() {
            lemma_newline_starts_next(c, k);
            let s = sc[k];
            assert(st[k] == s);
            lemma_next_nl_drop_last(b, s);
            lemma_next_nl(c, s);
            if s > 0 {
                assert(b[s - 1] == c[s - 1]);
            }
            if next_nl(c, s) < c.len() {
                assert(st[k + 1] == sc[k + 1]);
            } else {
                assert(k + 1 == sc.len());
                if b.last() == 10 {
                    assert(st[k + 1] == b.len());
                }
            }
        } else {
            assert(b.last() == 10 && k == sc.len());
            assert(st[k] == b.len());
        }
    }
}

// ---- Token spans ----

/// A span on line `sp.line` whose start and end, counted from that line's
/// first byte, are character boundaries of the text `b`, in order.
pub open spec fn span_ok(b: Seq<u8>, st: Seq<int>, sp: Span) -> bool {
    &&& 1 <= sp.line
    &&& sp.line - 1 < st.len()
    &&& sp.start <= sp.end
    &&& st[sp.line - 1] + sp.end <= b.len()
    &&& at_boundary(b, st[sp.line - 1] + sp.start)
    &&& at_boundary(b, st[sp.line - 1] + sp.end)
}

/// Every token is on line `ln`, with a span that cuts on boundaries.
pub open spec fn toks_ok(b: Seq<u8>, st: Seq<int>, ts: Seq<STokV>, ln: u32) -> bool {
    forall|i: int| 0 <= i < ts.len() ==> (#[trigger] ts[i]).span.line == ln && span_ok(b, st, ts[i].span)
}

proof fn lemma_quoted_end(c: Seq<u8>, p: int)
    requires
        0 <= p <= c.len(),
    ensures
        scan_quoted(c, p).closed ==> p < scan_quoted(c, p).end <= c.len() && c[scan_quoted(c, p).end - 1] == 34,
        !scan_quoted(c, p).closed ==> scan_quoted(c, p).end == c.len(),
    decreases c.len() - p,
{
    if p < c.len() && c[p] != 34 {
        if c[p] == 92 && p + 1 < c.len() {
            lemma_quoted_end(c, p + 2);
        } else {
            lemma_quoted_end(c, p + 1);
        }
    }
}

proof fn lemma_ident_last(c: Seq<u8>, p: int)
    requires
        0 <= p < c.len(),
        is_ident_byte(c[p]),
    ensures
        p < ident_end(c, p) <= c.len(),
        is_ident_byte(c[ident_end(c, p) - 1]),
    decreases c.len() - p,
{
    lemma_ident_end(c, p);
    assert(ident_end(c, p) == ident_end(c, p + 1));
    if p + 1 < c.len() && is_ident_byte(c[p + 1]) {
        lemma_ident_last(c, p + 1);
    } else {
        assert(ident_end(c, p + 1) == p + 1);
    }
}

/// The tokens of a line's content are on that line and cut it on
/// character boundaries.
pub proof fn lemma_tokenize_ok(
    b: Seq<u8>,
    st: Seq<int>,
    c: Seq<u8>,
    off: int,
    p: int,
    ln: u32,
    base: int,
)
    requires
        valid_utf8(b),
        b.len() < usize::MAX,
        1 <= ln,
        ln - 1 < st.len(),
        0 <= base,
        0 <= st[ln - 1],
        off - base == st[ln - 1],
        0 <= off,
        off + c.len() <= b.len(),
        c == b.subrange(off, off + c.len()),
        at_boundary(b, off + c.len()),
        0 <= p <= c.len(),
    ensures
        toks_ok(b, st, tokenize(c, p, ln, base).toks, ln),
    decreases c.len() - p,
{
    if p < c.len() {
        let x = c[p];
        assert(b[off + p] == x);
        if x == 32 || x == 9 {
            lemma_tokenize_ok(b, st, c, off, p + 1, ln, base);
        } else if x == 35 {
        } else if punct_token(x) is Some {
            lemma_tokenize_ok(b, st, c, off, p + 1, ln, base);
            lemma_after_ascii(b, off + p);
            let t = STokV { token: punct_token(x)->0, span: tspan(ln, base, p, p + 1) };
            let r = tokenize(c, p + 1, ln, base);
            assert(tokenize(c, p, ln, base).toks == seq![t] + r.toks);
            assert(span_ok(b, st, t.span));
        } else if x == 34 {
            lemma_quoted_end(c, p + 1);
            let q = scan_quoted(c, p + 1);
            lemma_tokenize_ok(b, st, c, off, q.end, ln, base);
            if q.closed {
                assert(b[off + q.end - 1] == c[q.end - 1]);
                lemma_after_ascii(b, off + q.end - 1);
            }
            let t = STokV { token: TokenV::Quoted(q.text), span: tspan(ln, base, p, q.end) };
            let r = tokenize(c, q.end, ln, base);
            assert(tokenize(c, p, ln, base).toks == seq![t] + r.toks);
            assert(span_ok(b, st, t.span));
        } else if is_ident_byte(x) {
            lemma_ident_last(c, p);
            let q = ident_end(c, p);
            if at_boundary(c, p) && at_boundary(c, q) {
                lemma_tokenize_ok(b, st, c, off, q, ln, base);
                if q < c.len() {
                    assert(b[off + q] == c[q]);
                }
                let t = STokV {
                    token: TokenV::Ident(decode_utf8(c.subrange(p, q))),
                    span: tspan(ln, base, p, q),
                };
                let r = tokenize(c, q, ln, base);
                assert(tokenize(c, p, ln, base).toks == seq![t] + r.toks);
                assert(span_ok(b, st, t.span));
            } else if at_boundary(c, p) {
                lemma_cont_end(c, q);
                lemma_tokenize_ok(b, st, c, off, cont_end(c, q), ln, base);
            } else {
                lemma_tokenize_ok(b, st, c, off, p + 1, ln, base);
            }
        } else if x >= 128 && at_boundary(c, p) {
            lemma_non_ascii_end(c, p);
            lemma_tokenize_ok(b, st, c, off, non_ascii_end(c, p), ln, base);
        } else {
            lemma_tokenize_ok(b, st, c, off, p + 1, ln, base);
        }
    }
}

// ---- Lexed lines ----

/// There is at most one more line start than there are bytes.
proof fn lemma_newline_starts_len(b: Seq<u8>)
    ensures
        1 <= newline_starts(b).len() <= b.len() + 1,
    decreases b.len(),
{
    if b.len() > 0 {
        lemma_newline_starts_len(b.drop_last());
    }
}

/// Every lexed line's tokens sit on that line and cut on boundaries.
pub open spec fn lines_ok(b: Seq<u8>, st: Seq<int>, ls: Seq<LexLineV>) -> bool {
    forall|j: int| 0 <= j < ls.len() ==> toks_ok(b, st, (#[trigger] ls[j]).tokens, ls[j].line_num)
}

proof fn lemma_lex_from_ok(b: Seq<u8>, s: int, k: int)
    requires
        valid_utf8(b),
        b.len() < u32::MAX,
        b.len() < usize::MAX,
        0 <= k < newline_starts(b).len(),
        s == newline_starts(b)[k],
    ensures
        lines_ok(b, newline_starts(b), lex_from(b, s, k).lines),
    decreases b.len() - s,
{
    let st = newline_starts(b);
    lemma_newline_starts_next(b, k);
    lemma_newline_starts_len(b);
    if 0 <= s < b.len() {
        let nl = next_nl(b, s);
        lemma_next_nl(b, s);
        let e = line_end(b, s, nl);
        let ln = (k + 1) as u32;
        let we = ws_end(b, s, e);
        lemma_ws_end(b, s, e);
        if s > 0 {
            lemma_after_ascii(b, s - 1);
        }
        if we > s {
            assert(b[we - 1] == 32 || b[we - 1] == 9);
            lemma_after_ascii(b, we - 1);
        }
        assert(at_boundary(b, e));
        let c = b.subrange(we, e);
        assert(c == b.subrange(we, we + c.len()));
        lemma_tokenize_ok(b, st, c, we, 0, ln, we - s);
        let l = lex_line_spec(b, s, e, ln);
        assert(toks_ok(b, st, l.line.tokens, l.line.line_num)) by {
            reveal(lex_line_spec);
        }
        let rest = if nl < b.len() {
            lex_from(b, nl + 1, k + 1)
        } else {
            crate::lexer::LexOut { lines: Seq::empty(), diags: Seq::empty() }
        };
        if nl < b.len() {
            lemma_lex_from_ok(b, nl + 1, k + 1);
        }
        let ls = lex_from(b, s, k).lines;
        assert(ls == seq![l.line] + rest.lines);
        assert forall|j: int| 0 <= j < ls.len() implies toks_ok(b, st, (#[trigger] ls[j]).tokens, ls[j].line_num) by {
            if j > 0 {
                assert(ls[j] == rest.lines[j - 1]);
            }
        }
    }
}

/// The lexed lines of a source are on their lines and cut on boundaries.
pub proof fn lemma_lex_ok(src: Seq<char>)
    requires
        crate::text::bytes_of(src).len() < u32::MAX,
        crate::text::bytes_of(src).len() < usize::MAX,
    ensures
        lines_ok(crate::text::bytes_of(src), newline_starts(crate::text::bytes_of(src)), spec_lex(src).lines),
{
    let b = crate::text::bytes_of(src);
    crate::text::lemma_decode_bytes(src);
    lemma_newline_starts_len(b);
    lemma_newline_starts_next(b, 0);
    assert(newline_starts(b)[0] == 0) by {
        crate::edit::lemma_newline_starts(b);
    }
    lemma_lex_from_ok(b, 0, 0);
}

// ---- Parsed spans ----

proof fn lemma_merged_ok(b: Seq<u8>, st: Seq<int>, a: Span, c: Span)
    requires
        span_ok(b, st, a),
        span_ok(b, st, c),
        a.line == c.line,
    ensures
        span_ok(b, st, merged(a, c)),
        merged(a, c).line == a.line,
{
}

proof fn lemma_scan_tuple_ok(b: Seq<u8>, st: Seq<int>, ts: Seq<STokV>, ln: u32, p: int, end: Span)
    requires
        toks_ok(b, st, ts, ln),
        span_ok(b, st, end),
        end.line == ln,
        0 <= p <= ts.len(),
    ensures
        span_ok(b, st, scan_tuple(ts, p, end).end),
        scan_tuple(ts, p, end).end.line == ln,
    decreases ts.len() - p,
{
    if p < ts.len() {
        match ts[p].token {
            TokenV::RParen => {},
            TokenV::Comma => lemma_scan_tuple_ok(b, st, ts, ln, p + 1, end),
            TokenV::Ident(_) => lemma_scan_tuple_ok(b, st, ts, ln, p + 1, ts[p].span),
            _ => lemma_scan_tuple_ok(b, st, ts, ln, p + 1, end),
        }
    }
}

proof fn lemma_scan_list_ok(
    b: Seq<u8>,
    st: Seq<int>,
    ts: Seq<STokV>,
    ln: u32,
    p: int,
    items: Seq<Seq<char>>,
    end: Span,
)
    requires
        toks_ok(b, st, ts, ln),
        span_ok(b, st, end),
        end.line == ln,
        0 <= p <= ts.len(),
    ensures
        span_ok(b, st, scan_list(ts, p, items, end).end),
        scan_list(ts, p, items, end).end.line == ln,
    decreases ts.len() - p,
{
    if p < ts.len() {
        match ts[p].token {
            TokenV::Ident(x) => lemma_scan_list_ok(b, st, ts, ln, p + 1, items.push(x), ts[p].span),
            TokenV::Quoted(x) => lemma_scan_list_ok(b, st, ts, ln, p + 1, items.push(x), ts[p].span),
            TokenV::Comma => lemma_scan_list_ok(b, st, ts, ln, p + 1, items, end),
            TokenV::Dot => {
                if items.len() > 0 && p + 1 < ts.len() && ts[p + 1].token is Ident {
                    lemma_scan_list_ok(
                        b,
                        st,
                        ts,
                        ln,
                        p + 2,
                        items.update(items.len() - 1, items.last() + seq!['.'] + ts[p + 1].token->Ident_0),
                        ts[p + 1].span,
                    );
                } else {
                    lemma_scan_list_ok(b, st, ts, ln, p + 1, items, end);
                }
            },
            _ => {},
        }
    }
}

proof fn lemma_value_ok(b: Seq<u8>, st: Seq<int>, ts: Seq<STokV>, ln: u32, s: int)
    requires
        toks_ok(b, st, ts, ln),
        0 <= s < ts.len(),
    ensures
        span_ok(b, st, parse_value_spec(ts, s).span),
        parse_value_spec(ts, s).span.line == ln,
{
    assert(span_ok(b, st, ts[s].span));
    lemma_scan_tuple_ok(b, st, ts, ln, s + 1, ts[s].span);
    lemma_scan_list_ok(b, st, ts, ln, s, Seq::empty(), ts[s].span);
    let r = scan_tuple(ts, s + 1, ts[s].span);
    lemma_merged_ok(b, st, ts[s].span, r.end);
    let l = scan_list(ts, s, Seq::empty(), ts[s].span);
    lemma_merged_ok(b, st, ts[s].span, l.end);
    if s + 2 < ts.len() {
        assert(span_ok(b, st, ts[s + 2].span));
        lemma_merged_ok(b, st, ts[s].span, ts[s + 2].span);
    }
}

/// Every property span cuts on boundaries.
pub open spec fn props_ok(b: Seq<u8>, st: Seq<int>, ps: Seq<PropV>) -> bool {
    forall|i: int| 0 <= i < ps.len() ==> span_ok(b, st, (#[trigger] ps[i]).span)
}

proof fn lemma_inline_ok(b: Seq<u8>, st: Seq<int>, ts: Seq<STokV>, ln: u32, p: int)
    requires
        toks_ok(b, st, ts, ln),
        0 <= p <= ts.len(),
    ensures
        props_ok(b, st, inline_props(ts, p).props),
    decreases ts.len() - p,
{
    if p < ts.len() {
        match ts[p].token {
            TokenV::Ident(key) => {
                let p1 = p + 1;
                if p1 >= ts.len() || !(ts[p1].token is Equals) {
                    lemma_inline_ok(b, st, ts, ln, p1);
                } else {
                    lemma_parse_value(ts, p1 + 1);
                    let v = parse_value_spec(ts, p1 + 1);
                    lemma_inline_ok(b, st, ts, ln, v.next);
                    let vspan = if p1 + 1 < ts.len() { v.span } else { ts[p1].span };
                    if p1 + 1 < ts.len() {
                        lemma_value_ok(b, st, ts, ln, p1 + 1);
                    }
                    assert(span_ok(b, st, ts[p].span));
                    assert(span_ok(b, st, ts[p1].span));
                    lemma_merged_ok(b, st, ts[p].span, vspan);
                    let r = inline_props(ts, v.next);
                    let all = inline_props(ts, p).props;
                    assert forall|i: int| 0 <= i < all.len() implies span_ok(b, st, (#[trigger] all[i]).span) by {
                        if i > 0 {
                            assert(all[i] == r.props[i - 1]);
                        }
                    }
                }
            },
            _ => lemma_inline_ok(b, st, ts, ln, p + 1),
        }
    }
}

proof fn lemma_block_prop_ok(b: Seq<u8>, st: Seq<int>, ls: Seq<LexLineV>, i: int, ex: int)
    requires
        lines_ok(b, st, ls),
        0 <= i < ls.len(),
    ensures
        block_prop(ls, i, ex).prop matches Some(p) ==> span_ok(b, st, p.span),
{
    let ts = ls[i].tokens;
    assert(toks_ok(b, st, ts, ls[i].line_num));
    if ts.len() > 2 {
        assert(span_ok(b, st, ts[0].span));
        lemma_value_ok(b, st, ts, ls[i].line_num, 2);
        lemma_merged_ok(b, st, ts[0].span, parse_value_spec(ts, 2).span);
    } else if ts.len() > 0 {
        assert(span_ok(b, st, ts[0].span));
    }
}

proof fn lemma_block_props_ok(b: Seq<u8>, st: Seq<int>, ls: Seq<LexLineV>, i: int, ex: int)
    requires
        lines_ok(b, st, ls),
    ensures
        props_ok(b, st, block_props(ls, i, ex).props),
    decreases ls.len() - i,
{
    if 0 <= i < ls.len() {
        let line = ls[i];
        if line.is_blank || line.is_comment {
            lemma_block_props_ok(b, st, ls, i + 1, ex);
        } else if line.indent < ex * 2 {
        } else if line.indent == ex * 2 {
            let r = block_prop(ls, i, ex);
            lemma_block_prop_ok(b, st, ls, i, ex);
            let n = match r.prop {
                Some(_) => if r.next > i { r.next } else { i + 1 },
                None => if r.next >= i { r.next + 1 } else { i + 1 },
            };
            if n <= ls.len() {
                lemma_block_props_ok(b, st, ls, n, ex);
            }
            let rest = if n <= ls.len() {
                block_props(ls, n, ex)
            } else {
                crate::parser::BlockOut { props: Seq::empty(), diags: Seq::empty(), next: n }
            };
            let all = block_props(ls, i, ex).props;
            assert forall|j: int| 0 <= j < all.len() implies span_ok(b, st, (#[trigger] all[j]).span) by {
                match r.prop {
                    Some(p) => {
                        if j > 0 {
                            assert(all[j] == rest.props[j - 1]);
                        }
                    },
                    None => {
                        assert(all[j] == rest.props[j]);
                    },
                }
            }
        } else {
            lemma_block_props_ok(b, st, ls, i + 1, ex);
        }
    }
}

/// A declaration whose span and properties cut on boundaries.
pub open spec fn decl_ok(b: Seq<u8>, st: Seq<int>, d: DeclV) -> bool {
    span_ok(b, st, d.span) && props_ok(b, st, form_props(d.form))
}

proof fn lemma_decl_ok(b: Seq<u8>, st: Seq<int>, ls: Seq<LexLineV>, i: int)
    requires
        lines_ok(b, st, ls),
        0 <= i < ls.len(),
        ls[i].tokens.len() > 0,
    ensures
        parse_decl_spec(ls, i).decl matches Some(d) ==> decl_ok(b, st, d),
{
    let ts = ls[i].tokens;
    assert(toks_ok(b, st, ts, ls[i].line_num));
    if ts.len() >= 2 {
        assert(span_ok(b, st, ts[0].span));
        assert(span_ok(b, st, ts[1].span));
        lemma_merged_ok(b, st, ts[0].span, ts[1].span);
        lemma_block_props_ok(b, st, ls, i + 1, 1);
        lemma_inline_ok(b, st, ts, ls[i].line_num, 2);
    }
}

/// Every declaration parsed from lexed lines cuts on boundaries.
pub open spec fn decls_ok(b: Seq<u8>, st: Seq<int>, ds: Seq<DeclV>) -> bool {
    forall|i: int| 0 <= i < ds.len() ==> decl_ok(b, st, #[trigger] ds[i])
}

proof fn lemma_parse_from_ok(b: Seq<u8>, st: Seq<int>, ls: Seq<LexLineV>, i: int)
    requires
        lines_ok(b, st, ls),
    ensures
        decls_ok(b, st, parse_from(ls, i).decls),
    decreases ls.len() - i,
{
    if 0 <= i < ls.len() {
        let line = ls[i];
        if line.is_blank || line.is_comment || line.indent != 0 || line.tokens.len() == 0 {
            lemma_parse_from_ok(b, st, ls, i + 1);
        } else {
            let d = parse_decl_spec(ls, i);
            lemma_decl_ok(b, st, ls, i);
            let n = match d.decl {
                Some(_) => if d.next > i { d.next } else { i + 1 },
                None => if d.next >= i { d.next + 1 } else { i + 1 },
            };
            if n <= ls.len() {
                lemma_parse_from_ok(b, st, ls, n);
            }
            let rest = if n <= ls.len() {
                parse_from(ls, n)
            } else {
                crate::parser::DocOut { decls: Seq::empty(), diags: Seq::empty() }
            };
            let all = parse_from(ls, i).decls;
            assert forall|j: int| 0 <= j < all.len() implies decl_ok(b, st, #[trigger] all[j]) by {
                match d.decl {
                    Some(x) => {
                        if j > 0 {
                            assert(all[j] == rest.decls[j - 1]);
                        }
                    },
                    None => {
                        assert(all[j] == rest.decls[j]);
                    },
                }
            }
        }
    }
}

// ---- Splices ----

proof fn lemma_find_decl_in(ds: Seq<DeclV>, id: Seq<char>)
    ensures
        find_decl(ds, id) matches Some(d) ==> exists|i: int| 0 <= i < ds.len() && ds[i] == d,
    decreases ds.len(),
{
    if ds.len() > 0 && ds[0].id != id {
        lemma_find_decl_in(ds.drop_first(), id);
        if let Some(d) = find_decl(ds, id) {
            let i = choose|i: int| 0 <= i < ds.drop_first().len() && ds.drop_first()[i] == d;
            assert(ds[i + 1] == d);
        }
    } else if ds.len() > 0 {
        assert(ds[0] == find_decl(ds, id)->Some_0);
    }
}

proof fn lemma_first_value_at_in(ps: Seq<PropV>)
    ensures
        first_value_at(ps) matches Some(p) ==> exists|i: int| 0 <= i < ps.len() && ps[i] == p,
    decreases ps.len(),
{
    if ps.len() > 0 && !(ps[0].key == "at"@ && ps[0].value is Value) {
        lemma_first_value_at_in(ps.drop_first());
        if let Some(p) = first_value_at(ps) {
            let i = choose|i: int| 0 <= i < ps.drop_first().len() && ps.drop_first()[i] == p;
            assert(ps[i + 1] == p);
        }
    } else if ps.len() > 0 {
        assert(ps[0] == first_value_at(ps)->Some_0);
    }
}

/// Both cut points of a span's offsets from its line start.
proof fn lemma_span_cuts(b: Seq<u8>, st: Seq<int>, sp: Span)
    requires
        span_ok(b, st, sp),
        forall|k: int| 0 <= k < st.len() ==> 0 <= #[trigger] st[k],
    ensures
        0 <= span_base(st, sp) + sp.start <= span_base(st, sp) + sp.end <= b.len(),
        at_boundary(b, span_base(st, sp) + sp.start),
        at_boundary(b, span_base(st, sp) + sp.end),
{
}

/// Every splice of a position edit keeps the source in order and cuts it on
/// character boundaries: it removes bytes `[cut, resume)`, which are the
/// whole text of the declaration's first plain `at` property when there is
/// one, and nothing otherwise.
pub proof fn lemma_splice_cuts(src: Seq<char>, id: Seq<char>, x: i32, y: i32)
    requires
        crate::text::bytes_of(src).len() < u32::MAX,
        crate::text::bytes_of(src).len() < usize::MAX,
    ensures
        edit_plan(src, id, x, y) matches Ok(sp) ==> {
            &&& 0 <= sp.cut <= sp.resume <= crate::text::bytes_of(src).len()
            &&& at_boundary(crate::text::bytes_of(src), sp.cut)
            &&& at_boundary(crate::text::bytes_of(src), sp.resume)
        },
{
    let b = crate::text::bytes_of(src);
    let st = newline_starts(b);
    let ls = spec_lex(src).lines;
    let ds = crate::compile::source_decls(src);
    crate::text::lemma_decode_bytes(src);
    lemma_lex_ok(src);
    lemma_parse_from_ok(b, st, ls, 0);
    lemma_find_decl_in(ds, id);
    crate::edit::lemma_newline_starts(b);
    if let Ok(sp) = edit_plan(src, id, x, y) {
        let d = find_decl(ds, id)->Some_0;
        let i = choose|i: int| 0 <= i < ds.len() && ds[i] == d;
        assert(decl_ok(b, st, ds[i]));
        assert(sp == splice_for(b, d, x, y));
        let ps = form_props(d.form);
        lemma_first_value_at_in(ps);
        lemma_span_cuts(b, st, d.span);
        match first_value_at(ps) {
            Some(p) => {
                let j = choose|j: int| 0 <= j < ps.len() && ps[j] == p;
                assert(span_ok(b, st, ps[j].span));
                lemma_span_cuts(b, st, p.span);
            },
            None => {
                if ps.len() > 0 {
                    assert(span_ok(b, st, ps[ps.len() - 1].span));
                    lemma_span_cuts(b, st, ps.last().span);
                }
                let hl = d.span.line as int;
                if hl < st.len() {
                    lemma_newline_starts_next(b, hl);
                    if st[hl] > 0 {
                        lemma_after_ascii(b, st[hl] - 1);
                    }
                }
            },
        }
    }
}

} // verus!
