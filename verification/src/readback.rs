//! What a position edit writes reads back as the position it was given:
//! the text `at: (x,y)` or `at=(x,y)` lexes into the tokens of an `at`
//! property whose value is the tuple (x, y), which normalization reads as
//! grid position (x, y).

use vstd::prelude::*;
use vstd::utf8::*;
use crate::lexer::{STokV, TokenV, TokOut, ident_end, is_ident_byte, tokenize};
use crate::ast::{PropV, PropValV, ValueV};
use crate::edit::placed;
use crate::model::GridPos;
use crate::normalize::prop_pos;
use crate::parser::{digits_value, ident_int, inline_props, parse_i32_spec, parse_value_spec, scan_tuple};
use crate::text::{bytes_of, dec_int, dec_nat, digit_char, lemma_bytes_concat};

verus! {

broadcast use vstd::utf8::group_utf8_lib;

// ---- Decimal numbers ----

/// The decimal text of a number is made of ASCII digits.
proof fn lemma_dec_nat_digits(n: nat)
    ensures
        dec_nat(n).len() >= 1,
        forall|i: int| 0 <= i < dec_nat(n).len() ==> '0' <= #[trigger] dec_nat(n)[i] <= '9',
    decreases n,
{
    if n >= 10 {
        lemma_dec_nat_digits(n / 10);
    }
}

/// One ASCII character encodes as its own byte.
proof fn lemma_ascii_byte(c: char)
    requires
        c <= '\u{7f}',
    ensures
        bytes_of(seq![c]) == seq![c as u8],
{
    assert(is_ascii_chars(seq![c]));
    is_ascii_chars_encode_utf8(seq![c]);
}

/// The digits of a number's decimal text read back as the number.
proof fn lemma_dec_nat_value(n: nat)
    ensures
        digits_value(bytes_of(dec_nat(n))) == Some(n),
        bytes_of(dec_nat(n)).len() >= 1,
        48 <= bytes_of(dec_nat(n))[0] <= 57,
    decreases n,
{
    let d = digit_char(n % 10);
    assert(d as u32 == 48 + n % 10);
    assert((d as u8) as int == 48 + n % 10);
    lemma_ascii_byte(d);
    if n < 10 {
        assert(dec_nat(n) == seq![d]);
        let b = bytes_of(dec_nat(n));
        assert(b == seq![d as u8]);
        assert(b.drop_last() =~= Seq::<u8>::empty());
        assert(b.last() == d as u8);
        assert(digits_value(b.drop_last()) == Some(0nat));
    } else {
        lemma_dec_nat_value(n / 10);
        lemma_bytes_concat(dec_nat(n / 10), seq![d]);
        assert(dec_nat(n) == dec_nat(n / 10) + seq![d]);
        let b = bytes_of(dec_nat(n));
        let b0 = bytes_of(dec_nat(n / 10));
        assert(b == b0 + seq![d as u8]);
        assert(b.drop_last() =~= b0);
        assert(b[0] == b0[0]);
        assert(b.last() == d as u8);
        assert((n / 10) * 10 + n % 10 == n) by (nonlinear_arith);
        assert(digits_value(b) == Some(((n / 10) * 10 + ((d as u8) - 48) as nat) as nat));
    }
}

/// The decimal text of an `i32` reads back as that `i32`.
pub proof fn lemma_dec_int_reads_back(x: i32)
    ensures
        ident_int(dec_int(x as int)) == x,
{
    if x < 0 {
        let m = (-(x as int)) as nat;
        lemma_dec_nat_value(m);
        lemma_ascii_byte('-');
        lemma_bytes_concat(seq!['-'], dec_nat(m));
        let b = bytes_of(dec_int(x as int));
        let db = bytes_of(dec_nat(m));
        assert(b == seq![45u8] + db);
        assert(b.subrange(1, b.len() as int) =~= db);
        assert(parse_i32_spec(b) == Some(x));
    } else {
        lemma_dec_nat_value(x as nat);
        assert(parse_i32_spec(bytes_of(dec_int(x as int))) == Some(x));
    }
}

// ---- Tokens of the written text ----

/// The decimal text of an integer is ASCII, made of identifier bytes.
proof fn lemma_dec_int_chars(x: int)
    ensures
        dec_int(x).len() >= 1,
        forall|i: int| 0 <= i < dec_int(x).len() ==> (#[trigger] dec_int(x)[i] == '-' || '0' <= dec_int(x)[i] <= '9'),
{
    if x < 0 {
        lemma_dec_nat_digits((-x) as nat);
        let d = dec_nat((-x) as nat);
        assert forall|i: int| 0 <= i < dec_int(x).len() implies (#[trigger] dec_int(x)[i] == '-' || '0' <= dec_int(x)[i] <= '9') by {
            if i > 0 {
                assert(dec_int(x)[i] == d[i - 1]);
            }
        }
    } else {
        lemma_dec_nat_digits(x as nat);
    }
}

/// A run of identifier bytes `[p, q)` followed by a non-identifier byte
/// (or the end) is one identifier.
proof fn lemma_ident_run(c: Seq<u8>, p: int, q: int)
    requires
        0 <= p <= q <= c.len(),
        forall|j: int| p <= j < q ==> is_ident_byte(#[trigger] c[j]),
        q < c.len() ==> !is_ident_byte(c[q]),
    ensures
        ident_end(c, p) == q,
    decreases q - p,
{
    if p < q {
        lemma_ident_run(c, p + 1, q);
    }
}

/// `(x,y)`.
pub open spec fn tuple_text(x: i32, y: i32) -> Seq<char> {
    seq!['('] + dec_int(x as int) + seq![','] + dec_int(y as int) + seq![')']
}

/// Lexing `(x,y)` in the middle of a line gives the tokens `(`, x, `,`, y,
/// `)` and no diagnostic, and then goes on as after it.
proof fn lemma_tuple_tokens(c: Seq<u8>, p: int, x: i32, y: i32, ln: u32, base: int)
    requires
        0 <= p,
        p + bytes_of(tuple_text(x, y)).len() <= c.len(),
        c.subrange(p, p + bytes_of(tuple_text(x, y)).len()) == bytes_of(tuple_text(x, y)),
    ensures
        ({
            let n = p + bytes_of(tuple_text(x, y)).len();
            let r = tokenize(c, p, ln, base);
            let rest = tokenize(c, n, ln, base);
            &&& r.diags == rest.diags
            &&& r.toks.len() == rest.toks.len() + 5
            &&& r.toks[0].token == TokenV::LParen
            &&& r.toks[1].token == TokenV::Ident(dec_int(x as int))
            &&& r.toks[2].token == TokenV::Comma
            &&& r.toks[3].token == TokenV::Ident(dec_int(y as int))
            &&& r.toks[4].token == TokenV::RParen
            &&& r.toks.subrange(5, r.toks.len() as int) == rest.toks
        }),
{
    let dx = dec_int(x as int);
    let dy = dec_int(y as int);
    let t = tuple_text(x, y);
    let lx = dx.len() as int;
    let ly = dy.len() as int;
    lemma_dec_int_chars(x as int);
    lemma_dec_int_chars(y as int);
    assert(t.len() == 3 + lx + ly);
    assert(t[0] == '(');
    assert(t[1 + lx] == ',');
    assert(t[2 + lx + ly] == ')');
    assert(forall|i: int| 0 <= i < lx ==> t[1 + i] == #[trigger] dx[i]);
    assert(forall|i: int| 0 <= i < ly ==> t[2 + lx + i] == #[trigger] dy[i]);
    assert(is_ascii_chars(t)) by {
        assert forall|i: int| 0 <= i < t.len() implies '\0' <= #[trigger] t[i] <= '\u{7f}' by {
            if 1 <= i < 1 + lx {
                assert(t[i] == dx[i - 1]);
            } else if 2 + lx <= i < 2 + lx + ly {
                assert(t[i] == dy[i - 2 - lx]);
            }
        }
    }
    is_ascii_chars_encode_utf8(t);
    let tb = bytes_of(t);
    let n = p + tb.len();
    assert(forall|i: int| 0 <= i < tb.len() ==> c[p + i] == #[trigger] tb[i]) by {
        assert forall|i: int| 0 <= i < tb.len() implies c[p + i] == #[trigger] tb[i] by {
            assert(c.subrange(p, n)[i] == c[p + i]);
        }
    }
    // The bytes of the two numbers.
    assert(is_ascii_chars(dx));
    assert(is_ascii_chars(dy));
    is_ascii_chars_encode_utf8(dx);
    is_ascii_chars_encode_utf8(dy);
    let xs = p + 1;
    let xe = p + 1 + lx;
    let ys = p + 2 + lx;
    let ye = p + 2 + lx + ly;
    assert(c[p] == 40u8) by { assert(tb[0] == t[0] as u8); }
    assert(c[xe] == 44u8) by { assert(tb[1 + lx] == t[1 + lx] as u8); }
    assert(c[ye] == 41u8) by { assert(tb[2 + lx + ly] == t[2 + lx + ly] as u8); }
    assert forall|j: int| xs <= j < xe implies is_ident_byte(#[trigger] c[j]) by {
        assert(c[j] == tb[j - p]);
        assert(tb[j - p] == t[j - p] as u8);
        assert(t[j - p] == dx[j - p - 1]);
    }
    assert forall|j: int| ys <= j < ye implies is_ident_byte(#[trigger] c[j]) by {
        assert(c[j] == tb[j - p]);
        assert(tb[j - p] == t[j - p] as u8);
        assert(t[j - p] == dy[j - p - 2 - lx]);
    }
    assert(c.subrange(xs, xe) =~= bytes_of(dx)) by {
        assert forall|i: int| 0 <= i < lx implies c.subrange(xs, xe)[i] == bytes_of(dx)[i] by {
            assert(c[xs + i] == tb[1 + i]);
            assert(tb[1 + i] == t[1 + i] as u8);
        }
    }
    assert(c.subrange(ys, ye) =~= bytes_of(dy)) by {
        assert forall|i: int| 0 <= i < ly implies c.subrange(ys, ye)[i] == bytes_of(dy)[i] by {
            assert(c[ys + i] == tb[2 + lx + i]);
            assert(tb[2 + lx + i] == t[2 + lx + i] as u8);
        }
    }
    lemma_ident_run(c, xs, xe);
    lemma_ident_run(c, ys, ye);
    assert(c[xs] == tb[1]);
    assert(c[ys] == tb[2 + lx]);
    // Unfold the scan step by step.
    let r5 = tokenize(c, n, ln, base);
    let r4 = tokenize(c, ye, ln, base);
    assert(r4.toks == seq![r4.toks[0]] + r5.toks && r4.diags == r5.diags && r4.toks[0].token == TokenV::RParen);
    let r3 = tokenize(c, ys, ln, base);
    assert(r3.toks == seq![r3.toks[0]] + r4.toks && r3.diags == r4.diags && r3.toks[0].token == TokenV::Ident(dy));
    let r2 = tokenize(c, xe, ln, base);
    assert(r2.toks == seq![r2.toks[0]] + r3.toks && r2.diags == r3.diags && r2.toks[0].token == TokenV::Comma);
    let r1 = tokenize(c, xs, ln, base);
    assert(r1.toks == seq![r1.toks[0]] + r2.toks && r1.diags == r2.diags && r1.toks[0].token == TokenV::Ident(dx));
    let r0 = tokenize(c, p, ln, base);
    assert(r0.toks == seq![r0.toks[0]] + r1.toks && r0.diags == r1.diags && r0.toks[0].token == TokenV::LParen);
    assert(r0.toks.subrange(5, r0.toks.len() as int) =~= r5.toks);
}

/// The tokens `(`, x, `,`, y, `)` from position `s` on are read as the tuple
/// (x, y).
proof fn lemma_tuple_value(ts: Seq<STokV>, s: int, x: i32, y: i32)
    requires
        0 <= s,
        s + 5 <= ts.len(),
        ts[s].token == TokenV::LParen,
        ts[s + 1].token == TokenV::Ident(dec_int(x as int)),
        ts[s + 2].token == TokenV::Comma,
        ts[s + 3].token == TokenV::Ident(dec_int(y as int)),
        ts[s + 4].token == TokenV::RParen,
    ensures
        parse_value_spec(ts, s).value == ValueV::Tuple(seq![x, y]),
{
    lemma_dec_int_reads_back(x);
    lemma_dec_int_reads_back(y);
    let e = ts[s].span;
    assert(scan_tuple(ts, s + 4, ts[s + 3].span).nums =~= Seq::<i32>::empty());
    assert(scan_tuple(ts, s + 3, ts[s + 1].span).nums =~= seq![y]);
    assert(scan_tuple(ts, s + 2, ts[s + 1].span).nums =~= seq![y]);
    assert(scan_tuple(ts, s + 1, e).nums =~= seq![x, y]);
}

/// Lexes `at` followed by the byte `sep` and `(x,y)`, with `rest` after it.
proof fn lemma_at_tokens(w: Seq<char>, k: int, x: i32, y: i32, rest: Seq<u8>, ln: u32, base: int)
    requires
        k == 3 || k == 4,
        w.len() == k,
        w[0] == 'a',
        w[1] == 't',
        k == 3 ==> w[2] == '=',
        k == 4 ==> w[2] == ':' && w[3] == ' ',
    ensures
        ({
            let c = bytes_of(w + tuple_text(x, y)) + rest;
            let n = bytes_of(w + tuple_text(x, y)).len() as int;
            let t = tokenize(c, 0, ln, base);
            let r = tokenize(c, n, ln, base);
            &&& t.diags == r.diags
            &&& t.toks.len() == r.toks.len() + 7
            &&& t.toks[0].token == TokenV::Ident("at"@)
            &&& t.toks[1].token == (if k == 3 { TokenV::Equals } else { TokenV::Colon })
            &&& t.toks.subrange(7, t.toks.len() as int) == r.toks
            &&& parse_value_spec(t.toks, 2).value == ValueV::Tuple(seq![x, y])
        }),
{
    reveal_strlit("at");
    assert(is_ascii_chars(w)) by {
        assert forall|i: int| 0 <= i < w.len() implies '\0' <= #[trigger] w[i] <= '\u{7f}' by {}
    }
    is_ascii_chars_encode_utf8(w);
    is_ascii_chars_encode_utf8("at"@);
    lemma_bytes_concat(w, tuple_text(x, y));
    let wb = bytes_of(w);
    let tb = bytes_of(tuple_text(x, y));
    let c = bytes_of(w + tuple_text(x, y)) + rest;
    let n = (wb.len() + tb.len()) as int;
    assert(c == wb + tb + rest);
    assert(wb.len() == k);
    assert(c[0] == 97u8 && c[1] == 116u8) by {
        assert(wb[0] == w[0] as u8);
        assert(wb[1] == w[1] as u8);
    }
    assert(c[2] == wb[2] && wb[2] == w[2] as u8);
    if k == 4 {
        assert(c[3] == wb[3] && wb[3] == w[3] as u8);
    }
    assert(c.subrange(k, k + tb.len()) =~= tb);
    lemma_tuple_tokens(c, k, x, y, ln, base);
    lemma_ident_run(c, 0, 2);
    assert(c.subrange(0, 2) =~= bytes_of("at"@));
    let r = tokenize(c, n, ln, base);
    let rt = tokenize(c, k, ln, base);
    let r2 = tokenize(c, 2, ln, base);
    if k == 4 {
        let r3 = tokenize(c, 3, ln, base);
        assert(r3 == rt);
        assert(r2.toks == seq![r2.toks[0]] + rt.toks && r2.diags == rt.diags);
    } else {
        assert(r2.toks == seq![r2.toks[0]] + rt.toks && r2.diags == rt.diags);
    }
    let t = tokenize(c, 0, ln, base);
    assert(t.toks == seq![t.toks[0]] + r2.toks && t.diags == r2.diags);
    assert(t.toks.subrange(7, t.toks.len() as int) =~= rt.toks.subrange(5, rt.toks.len() as int));
    lemma_tuple_value(t.toks, 2, x, y);
}

/// The text that a position edit writes into a block declaration reads
/// back as the position: lexed with anything after it on its line, it gives
/// the tokens `at`, `:`, `(`, x, `,`, y, `)` and no diagnostic of its own,
/// and the value after the colon is the tuple (x, y), which normalization
/// reads as grid position (x, y).
pub proof fn lemma_block_edit_text_reads_back(x: i32, y: i32, rest: Seq<u8>, ln: u32, base: int)
    ensures
        ({
            let c = bytes_of(placed("at: "@, x, y, ""@)) + rest;
            let n = bytes_of(placed("at: "@, x, y, ""@)).len() as int;
            let t = tokenize(c, 0, ln, base);
            let r = tokenize(c, n, ln, base);
            let v = parse_value_spec(t.toks, 2).value;
            &&& t.diags == r.diags
            &&& t.toks.len() == r.toks.len() + 7
            &&& t.toks[0].token == TokenV::Ident("at"@)
            &&& t.toks[1].token == TokenV::Colon
            &&& t.toks.subrange(7, t.toks.len() as int) == r.toks
            &&& v == ValueV::Tuple(seq![x, y])
            &&& prop_pos(PropV { key: "at"@, value: PropValV::Value(v), span: t.toks[0].span })
                == Some(GridPos { x, y })
        }),
{
    reveal_strlit("at: ");
    reveal_strlit("");
    let w = "at: "@;
    assert(placed(w, x, y, ""@) =~= w + tuple_text(x, y));
    lemma_at_tokens(w, 4, x, y, rest, ln, base);
}

/// The text that a position edit writes into an inline declaration reads
/// back as the position: lexed with anything after it on its line, it gives
/// the tokens `at`, `=`, `(`, x, `,`, y, `)` and no diagnostic of its own,
/// and its first inline property is `at` with the tuple (x, y), which
/// normalization reads as grid position (x, y).
pub proof fn lemma_inline_edit_text_reads_back(x: i32, y: i32, rest: Seq<u8>, ln: u32, base: int)
    ensures
        ({
            let c = bytes_of(placed("at="@, x, y, ""@)) + rest;
            let n = bytes_of(placed("at="@, x, y, ""@)).len() as int;
            let t = tokenize(c, 0, ln, base);
            let r = tokenize(c, n, ln, base);
            let ps = inline_props(t.toks, 0).props;
            &&& t.diags == r.diags
            &&& t.toks.len() == r.toks.len() + 7
            &&& t.toks.subrange(7, t.toks.len() as int) == r.toks
            &&& ps.len() >= 1
            &&& ps[0].key == "at"@
            &&& ps[0].value == PropValV::Value(ValueV::Tuple(seq![x, y]))
            &&& prop_pos(ps[0]) == Some(GridPos { x, y })
        }),
{
    reveal_strlit("at=");
    reveal_strlit("");
    let w = "at="@;
    assert(placed(w, x, y, ""@) =~= w + tuple_text(x, y));
    lemma_at_tokens(w, 3, x, y, rest, ln, base);
    let c = bytes_of(placed("at="@, x, y, ""@)) + rest;
    let t = tokenize(c, 0, ln, base);
    crate::parser::lemma_parse_value(t.toks, 2);
}

} // verus!
