//! Small string utilities used throughout the compiler: byte-level views of
//! strings, equality, substrings and decimal formatting.

use vstd::prelude::*;
use vstd::string::*;
use vstd::utf8::*;

verus! {

broadcast use vstd::utf8::group_utf8_lib;

/// The UTF-8 bytes of a string's characters.
pub open spec fn bytes_of(s: Seq<char>) -> Seq<u8> {
    encode_utf8(s)
}

/// Whether `i` is a character boundary of the UTF-8 byte string `b`
/// (the start of an encoded character, or the end).
pub open spec fn at_boundary(b: Seq<u8>, i: int) -> bool {
    i == b.len() || (0 <= i < b.len() && !is_continuation_byte(b[i]))
}

/// A character boundary is exactly a position that does not hold a
/// continuation byte.
pub proof fn lemma_boundary(b: Seq<u8>, i: int)
    requires
        valid_utf8(b),
        0 <= i <= b.len(),
    ensures
        is_char_boundary(b, i) == at_boundary(b, i),
{
    if i == b.len() {
        is_char_boundary_start_end_of_seq(b);
    } else {
        is_char_boundary_iff_not_is_continuation_byte(b, i);
    }
}

/// In valid UTF-8, the position right after an ASCII byte that starts a
/// character is again a character boundary.
pub proof fn lemma_after_ascii(b: Seq<u8>, k: int)
    requires
        valid_utf8(b),
        0 <= k < b.len(),
        at_boundary(b, k),
        b[k] < 128,
    ensures
        at_boundary(b, k + 1),
    decreases b.len(),
{
    lemma_boundary(b, k);
    let l = length_of_first_scalar(b);
    let t = pop_first_scalar(b);
    assert(valid_first_scalar(b) && valid_utf8(t));
    assert(1 <= l <= b.len());
    assert(t.len() == b.len() - l);
    if k == 0 {
        assert(l == 1);
        assert(is_char_boundary(t, 0));
        assert(is_char_boundary(b, 1));
    } else {
        assert(is_char_boundary(t, k - l));
        assert(0 <= k - l < t.len());
        assert(t[k - l] == b[k]);
        lemma_boundary(t, k - l);
        lemma_after_ascii(t, k - l);
        lemma_boundary(t, k - l + 1);
        assert(is_char_boundary(b, k + 1));
    }
    lemma_boundary(b, k + 1);
}

/// Decoding the bytes of a character sequence gives the characters back.
pub proof fn lemma_decode_bytes(s: Seq<char>)
    ensures
        decode_utf8(bytes_of(s)) == s,
        valid_utf8(bytes_of(s)),
{
}

/// Appends one character to a string.
/// Calls `String::push`, which appends the character at the end.
#[verifier::external_body]
pub(crate) fn push_char(s: &mut String, c: char)
    ensures
        final(s)@ == old(s)@.push(c),
{
    s.push(c)
}

/// Appends a string slice to a string.
pub fn push_str(s: &mut String, t: &str)
    ensures
        final(s)@ == old(s)@ + t@,
{
    s.append(t);
}

/// A new string holding a copy of `t`.
pub fn string_of(t: &str) -> (r: String)
    ensures
        r@ == t@,
{
    String::from_str(t)
}

/// Byte-wise equality of two string slices, which is equality of their characters.
pub fn str_eq(a: &str, b: &str) -> (r: bool)
    ensures
        r == (a@ == b@),
{
    let x = a.as_bytes();
    let y = b.as_bytes();
    proof {
        lemma_decode_bytes(a@);
        lemma_decode_bytes(b@);
    }
    if x.len() != y.len() {
        return false;
    }
    let mut i: usize = 0;
    while i < x.len()
        invariant
            x@ == bytes_of(a@),
            y@ == bytes_of(b@),
            x@.len() == y@.len(),
            i <= x@.len(),
            forall|j: int| 0 <= j < i ==> x@[j] == y@[j],
        decreases x@.len() - i,
    {
        if x[i] != y[i] {
            return false;
        }
        i = i + 1;
    }
    assert(x@ =~= y@);
    true
}

/// The part of `s` between byte offsets `from` and `to`, which must both be
/// character boundaries.
pub fn substr(s: &str, from: usize, to: usize) -> (r: &str)
    requires
        from <= to <= bytes_of(s@).len(),
        at_boundary(bytes_of(s@), from as int),
        at_boundary(bytes_of(s@), to as int),
    ensures
        bytes_of(r@) == bytes_of(s@).subrange(from as int, to as int),
        r@ == decode_utf8(bytes_of(s@).subrange(from as int, to as int)),
{
    let ghost b = bytes_of(s@);
    proof {
        lemma_decode_bytes(s@);
        lemma_boundary(b, to as int);
    }
    let (x, _) = s.split_at(to);
    proof {
        assert(x.spec_bytes() =~= b.subrange(0, to as int));
        lemma_decode_bytes(x@);
        lemma_boundary(x.spec_bytes(), from as int);
    }
    let (_, y) = x.split_at(from);
    proof {
        assert(y.spec_bytes() =~= b.subrange(from as int, to as int));
        lemma_decode_bytes(y@);
    }
    y
}

/// The decimal digit character for `d < 10`.
pub open spec fn digit_char(d: nat) -> char {
    (('0' as u32) + d) as char
}

/// Decimal representation of a natural number, without leading zeros.
pub open spec fn dec_nat(n: nat) -> Seq<char>
    decreases n,
{
    if n < 10 {
        seq![digit_char(n)]
    } else {
        dec_nat(n / 10).push(digit_char(n % 10))
    }
}

/// Decimal representation of an integer: a `-` sign for negative numbers.
pub open spec fn dec_int(n: int) -> Seq<char> {
    if n < 0 {
        seq!['-'] + dec_nat((-n) as nat)
    } else {
        dec_nat(n as nat)
    }
}

fn digit(d: u64) -> (c: char)
    requires
        d < 10,
    ensures
        c == digit_char(d as nat),
{
    let c = (48u8 + d as u8) as char;
    assert(c == digit_char(d as nat)) by {
        assert(('0' as u32) == 48);
    }
    c
}

/// Decimal text of an unsigned number.
pub fn fmt_u64(n: u64) -> (r: String)
    ensures
        r@ == dec_nat(n as nat),
    decreases n,
{
    if n < 10 {
        let mut s = String::new();
        push_char(&mut s, digit(n));
        assert(s@ =~= dec_nat(n as nat));
        s
    } else {
        let mut s = fmt_u64(n / 10);
        push_char(&mut s, digit(n % 10));
        s
    }
}

/// Decimal text of a `usize`.
pub fn fmt_usize(n: usize) -> (r: String)
    ensures
        r@ == dec_nat(n as nat),
{
    fmt_u64(n as u64)
}

/// Decimal text of an `i32`, with a leading `-` for negative values.
pub fn fmt_i32(n: i32) -> (r: String)
    ensures
        r@ == dec_int(n as int),
{
    if n < 0 {
        let m: i64 = -(n as i64);
        let mut s = String::new();
        push_char(&mut s, '-');
        let d = fmt_u64(m as u64);
        push_str(&mut s, d.as_str());
        assert(s@ =~= dec_int(n as int));
        s
    } else {
        fmt_u64(n as u64)
    }
}


/// The texts of a sequence of string slices.
pub open spec fn strs_view(v: Seq<&str>) -> Seq<Seq<char>> {
    v.map_values(|s: &str| s@)
}

/// Whether `key` is one of `keys`.
pub fn contains_str(keys: &Vec<&'static str>, key: &str) -> (r: bool)
    ensures
        r == strs_view(keys@).contains(key@),
{
    let mut i: usize = 0;
    while i < keys.len()
        invariant
            i <= keys@.len(),
            forall|j: int| 0 <= j < i ==> keys@[j]@ != key@,
        decreases keys@.len() - i,
    {
        if str_eq(keys[i], key) {
            assert(strs_view(keys@)[i as int] == key@);
            return true;
        }
        i = i + 1;
    }
    proof {
        if strs_view(keys@).contains(key@) {
            let j = choose|j: int| 0 <= j < strs_view(keys@).len() && strs_view(keys@)[j] == key@;
            assert(keys@[j]@ == key@);
        }
    }
    false
}


/// The bytes of two texts one after the other are the bytes of each.
pub proof fn lemma_bytes_concat(a: Seq<char>, b: Seq<char>)
    ensures
        bytes_of(a + b) == bytes_of(a) + bytes_of(b),
    decreases a.len(),
{
    if a.len() == 0 {
        assert(a + b =~= b);
        assert(bytes_of(a) =~= Seq::<u8>::empty());
        assert(bytes_of(a) + bytes_of(b) =~= bytes_of(b));
    } else {
        lemma_bytes_concat(a.drop_first(), b);
        assert((a + b).drop_first() =~= a.drop_first() + b);
        assert((a + b)[0] == a[0]);
        assert(bytes_of(a + b) =~= bytes_of(a) + bytes_of(b));
    }
}


/// The `Debug` text of a string slice: the characters in double quotes,
/// with quotes, backslashes and non-printable characters escaped.
pub uninterp spec fn str_debug(s: Seq<char>) -> Seq<char>;

/// Formats `s` with `<str as Debug>::fmt`.
#[verifier::external_body]
pub(crate) fn debug_str(s: &str) -> (r: String)
    ensures
        r@ == str_debug(s@),
{
    format!("{:?}", s)
}

/// The upper-case form of a string: each character mapped by Unicode's
/// upper-case mapping, which may turn one character into several.
pub uninterp spec fn str_upper(s: Seq<char>) -> Seq<char>;

/// `str::to_uppercase`.
#[verifier::external_body]
pub(crate) fn upper_str(s: &str) -> (r: String)
    ensures
        r@ == str_upper(s@),
{
    s.to_uppercase()
}

} // verus!
