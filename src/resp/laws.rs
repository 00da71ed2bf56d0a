//! What the parser makes of encoded values: the round trip, and prefixes.

use super::parser::{
    digit_run_end, digits_value, find_break, int_token, is_digit, number_end, parse_bulk, parse_list,
    lemma_skip_crlf, parse_text, parse_value_at, skip_crlf, IntTok, Listed, Parsed,
};
use super::value::{crlf, digits_of, encoding, encoding_list, int_text, line, Frame};
use vstd::prelude::*;
use vstd::utf8::{decode_utf8, encode_utf8, encode_utf8_decode_utf8, encode_utf8_valid_utf8};

verus! {

/// The bytes of `s` from `i` on agree with `e` as far as both go.
pub open spec fn agrees(s: Seq<u8>, i: int, e: Seq<u8>) -> bool {
    forall|k: int| #![trigger e[k]] 0 <= k < e.len() && i + k < s.len() ==> s[i + k] == e[k]
}

/// Text that fits on one line: no CR or LF byte.
pub open spec fn line_safe(b: Seq<u8>) -> bool {
    forall|k: int| 0 <= k < b.len() ==> #[trigger] b[k] != 13 && b[k] != 10
}

pub open spec fn is_break(b: u8) -> bool {
    b == 13 || b == 10
}

/// A value whose encoding reads back as itself: integers and lengths fit an
/// `i64`; simple strings and errors are non-empty and hold no line break,
/// and a bulk payload does not start with one (line breaks between tokens
/// are skipped).
pub open spec fn encodable(f: Frame) -> bool
    decreases f,
{
    match f {
        Frame::Array(fs) => fs.len() <= i64::MAX && encodable_list(fs),
        Frame::Simple(t) => encode_utf8(t).len() > 0 && line_safe(encode_utf8(t)),
        Frame::Error(t) => encode_utf8(t).len() > 0 && line_safe(encode_utf8(t)),
        Frame::Bulk(Some(t)) => encode_utf8(t).len() <= i64::MAX && (encode_utf8(t).len() == 0
            || !is_break(encode_utf8(t)[0])),
        Frame::Bulk(None) => true,
        Frame::Int(i) => i64::MIN <= i <= i64::MAX,
    }
}

pub open spec fn encodable_list(fs: Seq<Frame>) -> bool
    decreases fs,
{
    if fs.len() == 0 {
        true
    } else {
        encodable_list(fs.drop_last()) && encodable(fs.last())
    }
}

proof fn lemma_agrees_split(s: Seq<u8>, i: int, a: Seq<u8>, b: Seq<u8>)
    requires
        agrees(s, i, a + b),
    ensures
        agrees(s, i, a),
        agrees(s, i + a.len(), b),
{
    assert forall|k: int| #![trigger a[k]] 0 <= k < a.len() && i + k < s.len() implies s[i + k] == a[k] by {
        assert((a + b)[k] == a[k]);
    }
    assert forall|k: int| #![trigger b[k]] 0 <= k < b.len() && i + a.len() + k < s.len() implies s[i + a.len() + k] == b[k] by {
        assert((a + b)[a.len() + k] == b[k]);
    }
}

proof fn lemma_digits_of(n: nat)
    ensures
        digits_of(n).len() >= 1,
        forall|k: int| 0 <= k < digits_of(n).len() ==> is_digit(#[trigger] digits_of(n)[k]),
        n > 0 ==> digits_of(n)[0] != 48,
        n == 0 ==> digits_of(n) == seq![48u8],
        digits_value(digits_of(n)) == n,
    decreases n,
{
    if n >= 10 {
        lemma_digits_of(n / 10);
        let d = digits_of(n / 10);
        assert(digits_of(n) == d.push((n % 10 + 48) as u8));
        assert(digits_of(n).drop_last() =~= d);
        assert forall|k: int| 0 <= k < digits_of(n).len() implies is_digit(#[trigger] digits_of(n)[k]) by {
            if k < d.len() {
                assert(digits_of(n)[k] == d[k]);
            }
        }
        assert(digits_of(n)[0] == d[0]);
        assert(digits_of(n).last() == (n % 10 + 48) as u8);
        assert((n / 10) * 10 + n % 10 == n) by (nonlinear_arith);
        assert(digits_value(digits_of(n)) == digits_value(d) * 10 + (n % 10) as nat);
    } else {
        assert(digits_of(n).drop_last() =~= Seq::<u8>::empty());
        assert(digits_value(digits_of(n)) == digits_value(Seq::<u8>::empty()) * 10 + n);
    }
}

/// Over a run of digits followed by CR, the digit run ends where the digits
/// do, or where the buffer does.
proof fn lemma_digit_run(s: Seq<u8>, d: int, digits: Seq<u8>, q: int)
    requires
        agrees(s, d, digits + crlf()),
        forall|k: int| 0 <= k < digits.len() ==> is_digit(#[trigger] digits[k]),
        0 <= d <= q <= d + digits.len(),
        q <= s.len(),
    ensures
        digit_run_end(s, q) == if s.len() < d + digits.len() { s.len() as int } else { d + digits.len() },
    decreases d + digits.len() - q,
{
    let e = digits + crlf();
    if q < s.len() {
        if q < d + digits.len() {
            assert(s[q] == e[q - d]);
            assert(e[q - d] == digits[q - d]);
            lemma_digit_run(s, d, digits, q + 1);
        } else {
            assert(s[q] == e[q - d]);
            assert(e[q - d] == 13);
        }
    }
}

proof fn lemma_digits_value_prefix(d: Seq<u8>, k: int)
    requires
        0 <= k <= d.len(),
        forall|j: int| 0 <= j < d.len() ==> is_digit(#[trigger] d[j]),
    ensures
        digits_value(d.subrange(0, k)) <= digits_value(d),
    decreases d.len() - k,
{
    if k < d.len() {
        lemma_digits_value_prefix(d, k + 1);
        assert(d.subrange(0, k + 1).drop_last() =~= d.subrange(0, k));
        let v = digits_value(d.subrange(0, k));
        let w = (d[k] - 48) as nat;
        assert(v <= v * 10 + w) by (nonlinear_arith)
            requires
                v >= 0,
                w >= 0,
        ;
    } else {
        assert(d.subrange(0, k) =~= d);
    }
}

/// Skipping line breaks from `x` passes over a run of them up to `y`.
proof fn lemma_skip_over(s: Seq<u8>, x: int, y: int)
    requires
        0 <= x <= y <= s.len(),
        forall|k: int| x <= k < y ==> is_break(#[trigger] s[k]),
    ensures
        skip_crlf(s, x) == skip_crlf(s, y),
    decreases y - x,
{
    if x < y {
        lemma_skip_over(s, x + 1, y);
    }
}

/// The start of the digits of `m`, written from `d`, and what they read as.
proof fn lemma_unsigned_part(s: Seq<u8>, d: int, m: nat)
    requires
        agrees(s, d, digits_of(m) + crlf()),
        0 <= d < s.len(),
    ensures
        is_digit(s[d]),
        s[d] == 48 <==> m == 0,
        number_end(s, d) == if s.len() < d + digits_of(m).len() { s.len() as int } else { d + digits_of(m).len() },
        digits_value(s.subrange(d, number_end(s, d))) <= m,
        number_end(s, d) == d + digits_of(m).len() ==> digits_value(s.subrange(d, number_end(s, d))) == m,
{
    let dg = digits_of(m);
    lemma_digits_of(m);
    assert(s[d] == (dg + crlf())[0]);
    if m == 0 {
        assert(s.subrange(d, d + 1) =~= dg) by {
            assert(s[d] == dg[0]);
        }
    } else {
        lemma_digit_run(s, d, dg, d);
        let e = digit_run_end(s, d);
        assert forall|k: int| 0 <= k < e - d implies s.subrange(d, e)[k] == dg.subrange(0, e - d)[k] by {
            assert(s[d + k] == (dg + crlf())[k]);
        }
        assert(s.subrange(d, e) =~= dg.subrange(0, e - d));
        lemma_digits_value_prefix(dg, e - d);
        if e == d + dg.len() {
            assert(dg.subrange(0, e - d) =~= dg);
        }
    }
}

/// How the integer token of `n`, followed by `\r\n`, reads: complete once
/// the CR after it is there; before that never an error.
proof fn lemma_int_token(s: Seq<u8>, i: int, n: int)
    requires
        i64::MIN <= n <= i64::MAX,
        0 <= i <= s.len(),
        agrees(s, i, int_text(n) + crlf()),
    ensures
        s.len() > i + int_text(n).len() ==> int_token(s, i) == IntTok::Done(n, i + int_text(n).len()),
        s.len() <= i + int_text(n).len() ==> match int_token(s, i) {
            IntTok::More => true,
            IntTok::Partial(m) => (n >= 0 ==> m >= 0) && (n == -1 ==> m == -1),
            IntTok::Done(x, e) => x == n && e == s.len(),
            IntTok::Fail(_) => false,
        },
{
    let t = int_text(n);
    let e = t + crlf();
    if i < s.len() {
        assert(s[i] == e[0]);
    }
    if n < 0 {
        let m = (-n) as nat;
        let dg = digits_of(m);
        lemma_digits_of(m);
        assert(e =~= seq![45u8] + (dg + crlf()));
        lemma_agrees_split(s, i, seq![45u8], dg + crlf());
        if i < s.len() {
            assert(skip_crlf(s, i) == i);
            if i + 1 < s.len() {
                lemma_unsigned_part(s, i + 1, m);
            }
        }
    } else {
        let m = n as nat;
        let dg = digits_of(m);
        lemma_digits_of(m);
        if i < s.len() {
            assert(e[0] == dg[0]);
            assert(skip_crlf(s, i) == i);
            lemma_unsigned_part(s, i, m);
        }
    }
}

proof fn lemma_find_break(s: Seq<u8>, i: int, b: Seq<u8>, q: int)
    requires
        agrees(s, i, b + crlf()),
        line_safe(b),
        0 <= i <= q <= i + b.len(),
        q <= s.len(),
    ensures
        find_break(s, q) == if s.len() < i + b.len() { s.len() as int } else { i + b.len() },
    decreases i + b.len() - q,
{
    if q < s.len() {
        assert(s[q] == (b + crlf())[q - i]);
        if q < i + b.len() {
            assert((b + crlf())[q - i] == b[q - i]);
            lemma_find_break(s, i, b, q + 1);
        }
    }
}

proof fn lemma_text(s: Seq<u8>, i: int, t: Seq<char>, simple: bool)
    requires
        encode_utf8(t).len() > 0,
        line_safe(encode_utf8(t)),
        0 <= i <= s.len(),
        agrees(s, i, encode_utf8(t) + crlf()),
    ensures
        s.len() > i + encode_utf8(t).len() ==> parse_text(s, i, simple) == Parsed::Done(
            if simple { Frame::Simple(t) } else { Frame::Error(t) },
            skip_crlf(s, i + encode_utf8(t).len()),
        ),
        s.len() <= i + encode_utf8(t).len() ==> parse_text(s, i, simple) is More,
{
    let b = encode_utf8(t);
    if i < s.len() {
        assert(s[i] == (b + crlf())[0]);
        assert(skip_crlf(s, i) == i);
        lemma_find_break(s, i, b, i);
        let e = i + b.len();
        if s.len() > e {
            assert forall|k: int| 0 <= k < b.len() implies s.subrange(i, e)[k] == b[k] by {
                assert(s[i + k] == (b + crlf())[k]);
            }
            assert(s.subrange(i, e) =~= b);
            encode_utf8_valid_utf8(t);
            encode_utf8_decode_utf8(t);
        }
    }
}

/// The bytes of a bulk string after its `$`.
pub open spec fn bulk_body(t: Option<Seq<char>>) -> Seq<u8> {
    match t {
        None => int_text(-1) + crlf(),
        Some(x) => (int_text(encode_utf8(x).len() as int) + crlf()) + (encode_utf8(x) + crlf()),
    }
}

proof fn lemma_bulk(s: Seq<u8>, i: int, t: Option<Seq<char>>)
    requires
        0 <= i <= s.len(),
        encodable(Frame::Bulk(t)),
        agrees(s, i, bulk_body(t)),
    ensures
        s.len() > i + bulk_body(t).len() - 2 ==> parse_bulk(s, i) == Parsed::Done(
            Frame::Bulk(t),
            skip_crlf(s, i + bulk_body(t).len() - 2),
        ),
        s.len() <= i + bulk_body(t).len() - 2 ==> (parse_bulk(s, i) is More || parse_bulk(s, i) == Parsed::Done(
            Frame::Bulk(t),
            s.len() as int,
        )),
{
    lemma_skip_crlf(s, i);
    match t {
        None => {
            assert(digits_of(1) == seq![49u8]);
            assert(int_text(-1) =~= seq![45u8, 49u8]);
            assert(bulk_body(t).len() == 4);
            lemma_int_token(s, i, -1);
            lemma_skip_crlf(s, s.len() as int);
        },
        Some(x) => {
            let b = encode_utf8(x);
            let n = b.len() as int;
            let it = int_text(n);
            lemma_agrees_split(s, i, it + crlf(), b + crlf());
            lemma_int_token(s, i, n);
            let e = i + it.len();
            lemma_skip_crlf(s, s.len() as int);
            if n == 0 {
                encode_utf8_decode_utf8(x);
                assert(decode_utf8(b) =~= Seq::<char>::empty()) by {
                    assert(b =~= Seq::<u8>::empty());
                }
                if s.len() > e {
                    let stop = if s.len() < e + 4 { s.len() as int } else { e + 2 };
                    assert forall|k: int| e <= k < stop implies is_break(#[trigger] s[k]) by {
                        assert(s[k] == (it + crlf() + (b + crlf()))[k - i]);
                    }
                    lemma_skip_over(s, e, stop);
                    if e + 2 <= stop {
                        lemma_skip_over(s, e + 2, stop);
                    }
                }
            } else {
                if s.len() > e {
                    let stop = if s.len() < e + 2 { s.len() as int } else { e + 2 };
                    assert forall|k: int| e <= k < stop implies is_break(#[trigger] s[k]) by {
                        assert(s[k] == (it + crlf())[k - i]);
                    }
                    lemma_skip_over(s, e, stop);
                    if s.len() > e + 2 {
                        assert(s[e + 2] == (b + crlf())[0]);
                        assert(skip_crlf(s, e + 2) == e + 2);
                        let j = e + 2;
                        if s.len() > j + n {
                            assert(s[j + n] == (b + crlf())[n]);
                            assert forall|k: int| 0 <= k < n implies s.subrange(j, j + n)[k] == b[k] by {
                                assert(s[j + k] == (b + crlf())[k]);
                            }
                            assert(s.subrange(j, j + n) =~= b);
                            encode_utf8_valid_utf8(x);
                            encode_utf8_decode_utf8(x);
                        }
                    } else {
                        assert(skip_crlf(s, stop) == s.len());
                    }
                }
            }
        },
    }
}

proof fn lemma_list_front(fs: Seq<Frame>)
    requires
        fs.len() > 0,
    ensures
        encoding_list(fs) == encoding(fs[0]) + encoding_list(fs.drop_first()),
        encodable_list(fs) == (encodable(fs[0]) && encodable_list(fs.drop_first())),
    decreases fs.len(),
{
    if fs.len() == 1 {
        assert(fs.drop_first() =~= Seq::<Frame>::empty());
        assert(fs.drop_last() =~= Seq::<Frame>::empty());
        assert(encoding_list(fs) =~= encoding(fs[0]) + encoding_list(fs.drop_first()));
    } else {
        let init = fs.drop_last();
        let tail = fs.drop_first();
        lemma_list_front(init);
        assert(init.drop_first() =~= tail.drop_last());
        assert(tail.last() == fs.last());
        assert(init[0] == fs[0]);
        assert(encoding_list(fs) =~= encoding(fs[0]) + encoding_list(tail));
    }
}

proof fn lemma_encoding_shape(f: Frame)
    ensures
        encoding(f).len() >= 3,
        !is_break(encoding(f)[0]),
        encoding(f)[encoding(f).len() - 2] == 13,
        encoding(f)[encoding(f).len() - 1] == 10,
    decreases f,
{
    match f {
        Frame::Array(fs) => {
            assert(encoding(f)[0] == 42u8);
            if fs.len() > 0 {
                lemma_list_shape(fs);
            }
        },
        Frame::Simple(t) => assert(encoding(f)[0] == 43u8),
        Frame::Error(t) => assert(encoding(f)[0] == 45u8),
        Frame::Bulk(t) => assert(encoding(f)[0] == 36u8),
        Frame::Int(i) => assert(encoding(f)[0] == 58u8),
    }
}

proof fn lemma_list_shape(fs: Seq<Frame>)
    requires
        fs.len() > 0,
    ensures
        encoding_list(fs).len() >= 3,
        encoding_list(fs)[encoding_list(fs).len() - 2] == 13,
        encoding_list(fs)[encoding_list(fs).len() - 1] == 10,
    decreases fs,
{
    lemma_encoding_shape(fs.last());
    assert(encoding_list(fs) == encoding_list(fs.drop_last()) + encoding(fs.last()));
}

#[verifier::spinoff_prover]
#[verifier::rlimit(100)]
/// The value whose encoding starts at `i`, read from `x`, where only line
/// breaks stand between `x` and `i`: complete once the final CR of the
/// encoding is in the buffer, and until then incomplete or, when only line
/// breaks are missing, already the value.
proof fn lemma_value(s: Seq<u8>, x: int, i: int, f: Frame)
    requires
        encodable(f),
        0 <= x <= i,
        x <= s.len(),
        forall|k: int| x <= k < i && k < s.len() ==> is_break(#[trigger] s[k]),
        agrees(s, i, encoding(f)),
    ensures
        s.len() > i + encoding(f).len() - 2 ==> parse_value_at(s, x) == Parsed::Done(
            f,
            skip_crlf(s, i + encoding(f).len() - 2),
        ),
        s.len() <= i + encoding(f).len() - 2 ==> (parse_value_at(s, x) is More || (parse_value_at(s, x)
            == Parsed::Done(f, s.len() as int) && x < s.len())),
    decreases f, 1int,
{
    let e = encoding(f);
    lemma_encoding_shape(f);
    lemma_skip_crlf(s, x);
    lemma_skip_crlf(s, s.len() as int);
    if i >= s.len() {
        lemma_skip_over(s, x, s.len() as int);
    } else {
        lemma_skip_over(s, x, i);
        assert(s[i] == e[0]);
        assert(skip_crlf(s, i) == i);
        let rest = e.subrange(1, e.len() as int);
        assert(e =~= seq![e[0]] + rest);
        lemma_agrees_split(s, i, seq![e[0]], rest);
        lemma_value_at(s, x, i, f);
    }
}

/// The step of `lemma_value` once the start of the encoding is found.
#[verifier::spinoff_prover]
proof fn lemma_value_at(s: Seq<u8>, x: int, i: int, f: Frame)
    requires
        encodable(f),
        0 <= x <= i < s.len(),
        skip_crlf(s, x) == i,
        agrees(s, i, encoding(f)),
        s[i] == encoding(f)[0],
        agrees(s, i + 1, encoding(f).subrange(1, encoding(f).len() as int)),
        encoding(f).len() >= 3,
    ensures
        s.len() > i + encoding(f).len() - 2 ==> parse_value_at(s, x) == Parsed::Done(
            f,
            skip_crlf(s, i + encoding(f).len() - 2),
        ),
        s.len() <= i + encoding(f).len() - 2 ==> (parse_value_at(s, x) is More || (parse_value_at(s, x)
            == Parsed::Done(f, s.len() as int) && x < s.len())),
    decreases f, 0int,
{
    let e = encoding(f);
    let rest = e.subrange(1, e.len() as int);
    lemma_skip_crlf(s, s.len() as int);
    match f {
        Frame::Array(fs) => {
            let n = fs.len() as int;
            let it = int_text(n);
            assert(rest =~= (it + crlf()) + encoding_list(fs));
            lemma_agrees_split(s, i + 1, it + crlf(), encoding_list(fs));
            lemma_int_token(s, i + 1, n);
            let en = i + 1 + it.len();
            if s.len() > en {
                assert forall|k: int| en <= k < en + 2 && k < s.len() implies is_break(#[trigger] s[k]) by {
                    assert(s[k] == (it + crlf())[k - i - 1]);
                }
                lemma_list(s, en, en + 2, fs);
                if n > 0 {
                    lemma_list_shape(fs);
                    lemma_skip_crlf(s, i + e.len() - 2);
                }
            } else {
                lemma_list(s, s.len() as int, en + 2, fs);
            }
        },
        Frame::Simple(t) => {
            assert(rest =~= encode_utf8(t) + crlf());
            lemma_text(s, i + 1, t, true);
        },
        Frame::Error(t) => {
            assert(rest =~= encode_utf8(t) + crlf());
            lemma_text(s, i + 1, t, false);
        },
        Frame::Bulk(t) => {
            assert(rest =~= bulk_body(t));
            lemma_bulk(s, i + 1, t);
        },
        Frame::Int(n) => {
            assert(rest =~= int_text(n) + crlf());
            lemma_int_token(s, i + 1, n);
        },
    }
}

/// The values whose encodings follow each other from `i`, read from `x`.
proof fn lemma_list(s: Seq<u8>, x: int, i: int, fs: Seq<Frame>)
    requires
        encodable_list(fs),
        0 <= x <= i,
        x <= s.len(),
        forall|k: int| x <= k < i && k < s.len() ==> is_break(#[trigger] s[k]),
        agrees(s, i, encoding_list(fs)),
    ensures
        fs.len() == 0 ==> parse_list(s, x, 0) == Listed::Done(fs, x),
        fs.len() > 0 && s.len() > i + encoding_list(fs).len() - 2 ==> parse_list(s, x, fs.len()) == Listed::Done(
            fs,
            skip_crlf(s, i + encoding_list(fs).len() - 2),
        ),
        fs.len() > 0 && s.len() <= i + encoding_list(fs).len() - 2 ==> (parse_list(s, x, fs.len()) is More || (
        parse_list(s, x, fs.len()) == Listed::Done(fs, s.len() as int) && x < s.len())),
    decreases fs,
{
    if fs.len() == 0 {
        assert(fs =~= Seq::<Frame>::empty());
    } else {
        lemma_list_front(fs);
        let h = fs[0];
        let tail = fs.drop_first();
        let eh = encoding(h);
        lemma_encoding_shape(h);
        lemma_agrees_split(s, i, eh, encoding_list(tail));
        lemma_value(s, x, i, h);
        lemma_skip_crlf(s, s.len() as int);
        let i2 = i + eh.len();
        if s.len() > i2 - 2 {
            let j = skip_crlf(s, i2 - 2);
            lemma_skip_crlf(s, i2 - 2);
            let stop = if s.len() < i2 { s.len() as int } else { i2 };
            assert forall|k: int| i2 - 2 <= k < stop implies is_break(#[trigger] s[k]) by {
                assert(s[k] == eh[k - i]);
            }
            lemma_skip_over(s, i2 - 2, stop);
            if tail.len() > 0 {
                lemma_encoding_shape(tail[0]);
                lemma_list_front(tail);
                if s.len() > i2 {
                    assert(s[i2] == encoding_list(tail)[0]);
                    assert(skip_crlf(s, i2) == i2);
                }
                lemma_list(s, j, i2, tail);
                lemma_list_shape(tail);
            } else {
                assert(tail =~= Seq::<Frame>::empty());
                assert(encoding_list(tail) =~= Seq::<u8>::empty());
            }
            match parse_list(s, j, tail.len()) {
                Listed::Done(gs, k) => {
                    assert(seq![h] + gs =~= fs) by {
                        if tail.len() == 0 {
                            assert(gs =~= Seq::<Frame>::empty());
                        }
                    }
                },
                _ => {},
            }
        } else {
            if tail.len() > 0 {
                lemma_list(s, s.len() as int, i2, tail);
            }
            match parse_value_at(s, x) {
                Parsed::Done(_, _) => {
                    match parse_list(s, s.len() as int, tail.len()) {
                        Listed::Done(gs, k) => {
                            assert(tail.len() == 0);
                            assert(seq![h] + gs =~= fs);
                        },
                        _ => {},
                    }
                },
                _ => {},
            }
        }
    }
}

/// Parsing the encoding of a value yields that value and consumes every
/// byte of it.
pub proof fn lemma_round_trip(f: Frame)
    requires
        encodable(f),
    ensures
        parse_value_at(encoding(f), 0) == Parsed::Done(f, encoding(f).len() as int),
{
    let e = encoding(f);
    lemma_encoding_shape(f);
    lemma_value(e, 0, 0, f);
    lemma_skip_over(e, e.len() - 2, e.len() as int);
}

/// Parsing the encoding of a value followed by other bytes yields that
/// value, and consumes its bytes and the line breaks that follow them.
pub proof fn lemma_round_trip_then(f: Frame, rest: Seq<u8>)
    requires
        encodable(f),
    ensures
        parse_value_at(encoding(f) + rest, 0) == Parsed::Done(
            f,
            skip_crlf(encoding(f) + rest, encoding(f).len() as int),
        ),
        rest.len() == 0 || !is_break(rest[0]) ==> parse_value_at(encoding(f) + rest, 0) == Parsed::Done(
            f,
            encoding(f).len() as int,
        ),
{
    let e = encoding(f);
    let s = e + rest;
    lemma_encoding_shape(f);
    assert(agrees(s, 0, e));
    lemma_value(s, 0, 0, f);
    assert(s[e.len() - 2] == 13 && s[e.len() - 1] == 10);
    lemma_skip_over(s, e.len() - 2, e.len() as int);
    if rest.len() > 0 && !is_break(rest[0]) {
        assert(s[e.len() as int] == rest[0]);
    }
}

/// Parsing a strict prefix of an encoding never fails: it asks for more
/// bytes, or, when only line breaks are missing, yields the value and all
/// of the prefix.
pub proof fn lemma_incremental(f: Frame, k: int)
    requires
        encodable(f),
        0 <= k < encoding(f).len(),
    ensures
        parse_value_at(encoding(f).subrange(0, k), 0) is More || parse_value_at(encoding(f).subrange(0, k), 0)
            == Parsed::Done(f, k),
{
    let e = encoding(f);
    let s = e.subrange(0, k);
    lemma_encoding_shape(f);
    assert(agrees(s, 0, e));
    lemma_value(s, 0, 0, f);
    lemma_skip_crlf(s, k);
    if k > e.len() - 2 {
        assert(s[e.len() - 2] == 13);
        lemma_skip_over(s, e.len() - 2, k);
    }
}

/// Values written back to back on one connection are read back in the
/// order they were written, each once, and all the bytes are consumed.
pub proof fn lemma_stream_order(fs: Seq<Frame>)
    requires
        encodable_list(fs),
        fs.len() > 0,
    ensures
        parse_list(encoding_list(fs), 0, fs.len()) == Listed::Done(fs, encoding_list(fs).len() as int),
{
    let e = encoding_list(fs);
    lemma_list_shape(fs);
    lemma_list(e, 0, 0, fs);
    lemma_skip_over(e, e.len() - 2, e.len() as int);
}

} // verus!
