//! ASCII text helpers: case-insensitive keyword matching and decimal numbers.

use crate::resp::value::{digits_of, write_digits};
use vstd::prelude::*;
use vstd::string::is_ascii_spec_bytes;
use vstd::utf8::{
    decode_utf8, encode_utf8, encode_utf8_decode_utf8, encode_utf8_valid_utf8, is_ascii_chars,
    is_ascii_chars_encode_utf8, valid_utf8,
};

verus! {

/// The code of `c` with ASCII upper-case letters mapped to lower case.
pub open spec fn ascii_lower(c: char) -> u32 {
    if 65 <= c as u32 <= 90 {
        (c as u32 + 32) as u32
    } else {
        c as u32
    }
}

/// `a` and `b` are equal when ASCII letters are compared without case.
pub open spec fn eq_ignore_case(a: Seq<char>, b: Seq<char>) -> bool {
    a.len() == b.len() && forall|k: int| 0 <= k < a.len() ==> ascii_lower(#[trigger] a[k]) == ascii_lower(b[k])
}

proof fn lemma_char_ascii(c: char)
    ensures
        (c as u32 <= 127) <==> ('\0' <= c <= '\u{7f}'),
{
}

fn lower_byte(b: u8) -> (r: u8)
    ensures
        r as u32 == ascii_lower(b as char),
{
    if 65 <= b && b <= 90 {
        b + 32
    } else {
        b
    }
}

/// Whether `t` equals the ASCII keyword `kw` when letters are compared
/// without case.
pub fn matches_keyword(t: &str, kw: &str) -> (r: bool)
    requires
        is_ascii_chars(kw@),
    ensures
        r == eq_ignore_case(t@, kw@),
{
    broadcast use is_ascii_spec_bytes;

    if !t.is_ascii() {
        proof {
            if eq_ignore_case(t@, kw@) {
                assert forall|k: int| 0 <= k < t@.len() implies '\0' <= #[trigger] t@[k] <= '\u{7f}' by {
                    assert(ascii_lower(t@[k]) == ascii_lower(kw@[k]));
                    assert('\0' <= kw@[k] <= '\u{7f}');
                    assert(kw@[k] as u32 <= 127);
                    assert(ascii_lower(kw@[k]) <= 127);
                    assert(ascii_lower(t@[k]) <= 127);
                    assert(t@[k] as u32 <= 127);
                    lemma_char_ascii(t@[k]);
                }
            }
        }
        return false;
    }
    let tb = t.as_bytes();
    let kb = kw.as_bytes();
    proof {
        is_ascii_chars_encode_utf8(t@);
        is_ascii_chars_encode_utf8(kw@);
    }
    if tb.len() != kb.len() {
        return false;
    }
    let mut k: usize = 0;
    while k < tb.len()
        invariant
            k <= tb@.len() == kb@.len() == t@.len() == kw@.len(),
            tb@ == encode_utf8(t@),
            kb@ == encode_utf8(kw@),
            forall|j: int| 0 <= j < t@.len() ==> t@[j] as u8 == tb@[j] && kw@[j] as u8 == kb@[j],
            is_ascii_chars(t@),
            is_ascii_chars(kw@),
            forall|j: int| 0 <= j < k ==> ascii_lower(#[trigger] t@[j]) == ascii_lower(kw@[j]),
        decreases tb@.len() - k,
    {
        let a = lower_byte(tb[k]);
        let b = lower_byte(kb[k]);
        proof {
            assert(t@[k as int] as u8 as char == t@[k as int]);
            assert(kw@[k as int] as u8 as char == kw@[k as int]);
        }
        if a != b {
            return false;
        }
        k = k + 1;
    }
    true
}

pub open spec fn is_digit_char(c: char) -> bool {
    48 <= c as u32 <= 57
}

proof fn lemma_ascii_byte(c: char, b: u8)
    requires
        '\0' <= c <= '\u{7f}',
        c as u8 == b,
    ensures
        c as u32 == b as u32,
        is_digit_char(c) <==> 48 <= b <= 57,
        c == '+' <==> b == 43,
{
    assert(c as u32 <= 127);
}

/// The number written by a sequence of decimal digit characters.
pub open spec fn chars_value(d: Seq<char>) -> nat
    decreases d.len(),
{
    if d.len() == 0 {
        0
    } else {
        chars_value(d.drop_last()) * 10 + (d.last() as u32 - 48) as nat
    }
}

/// `t` without its leading `+`, if any.
pub open spec fn unsigned_digits(t: Seq<char>) -> Seq<char> {
    if t.len() > 0 && t[0] == '+' {
        t.drop_first()
    } else {
        t
    }
}

pub open spec fn all_digits(d: Seq<char>) -> bool {
    forall|k: int| 0 <= k < d.len() ==> is_digit_char(#[trigger] d[k])
}

/// What `str::parse::<u64>` accepts: an optional `+`, then one or more
/// decimal digits whose value fits in a `u64`.
pub open spec fn decimal_u64(t: Seq<char>) -> Option<u64> {
    let d = unsigned_digits(t);
    if d.len() > 0 && all_digits(d) && chars_value(d) <= u64::MAX {
        Some(chars_value(d) as u64)
    } else {
        None
    }
}

/// Parses `t` as a decimal `u64` the way `str::parse::<u64>` does.
pub fn parse_u64(t: &str) -> (r: Option<u64>)
    ensures
        r == decimal_u64(t@),
{
    broadcast use is_ascii_spec_bytes;

    let ghost c = t@;
    let ghost d = unsigned_digits(c);
    if !t.is_ascii() {
        proof {
            assert(exists|k: int| 0 <= k < c.len() && !('\0' <= #[trigger] c[k] <= '\u{7f}'));
            let k = choose|k: int| 0 <= k < c.len() && !('\0' <= #[trigger] c[k] <= '\u{7f}');
            lemma_char_ascii(c[k]);
            assert(!is_digit_char(c[k]));
            if c.len() > 0 && c[0] == '+' {
                assert(k != 0);
                assert(d[k - 1] == c[k]);
            } else {
                assert(d[k] == c[k]);
            }
        }
        return None;
    }
    let b = t.as_bytes();
    proof {
        is_ascii_chars_encode_utf8(c);
    }
    let start: usize = if b.len() > 0 && b[0] == 43 { 1 } else { 0 };
    proof {
        if b.len() > 0 {
            lemma_ascii_byte(c[0], b@[0]);
        }
        assert(d =~= c.subrange(start as int, c.len() as int));
    }
    if start >= b.len() {
        return None;
    }
    let mut k: usize = start;
    let mut acc: u64 = 0;
    proof {
        assert(c.subrange(start as int, start as int) =~= Seq::<char>::empty());
    }
    while k < b.len()
        invariant
            start <= k <= b@.len() == c.len(),
            b@ == encode_utf8(c),
            is_ascii_chars(c),
            forall|j: int| 0 <= j < c.len() ==> c[j] as u8 == b@[j],
            d =~= c.subrange(start as int, c.len() as int),
            c == t@,
            d == unsigned_digits(c),
            forall|j: int| start <= j < k ==> is_digit_char(#[trigger] c[j]),
            acc as int == chars_value(c.subrange(start as int, k as int)),
        decreases b@.len() - k,
    {
        let x = b[k];
        proof {
            lemma_ascii_byte(c[k as int], x);
        }
        if !(48 <= x && x <= 57) {
            proof {
                assert(!is_digit_char(d[k - start]));
                assert(!all_digits(d));
                assert(decimal_u64(c) is None);
            }
            return None;
        }
        let ghost prefix = c.subrange(start as int, k + 1 as int);
        proof {
            assert(prefix.drop_last() =~= c.subrange(start as int, k as int));
            assert(chars_value(prefix) == acc * 10 + (x - 48));
            if chars_value(prefix) > u64::MAX {
                lemma_chars_value_prefix(d, (k + 1 - start) as int);
                assert(d.subrange(0, (k + 1 - start) as int) =~= prefix);
            }
        }
        match acc.checked_mul(10) {
            None => {
                assert(acc * 10 + (x - 48) > u64::MAX) by (nonlinear_arith)
                    requires acc * 10 > u64::MAX, x >= 48;
                return None;
            },
            Some(m) => match m.checked_add((x - 48) as u64) {
                None => {
                    assert(chars_value(d) > u64::MAX);
                    assert(decimal_u64(c) is None);
                    return None;
                },
                Some(v) => {
                    acc = v;
                },
            },
        }
        k = k + 1;
    }
    assert(c.subrange(start as int, k as int) =~= d);
    Some(acc)
}

/// The value of a prefix of digits is at most the value of the whole.
proof fn lemma_chars_value_prefix(d: Seq<char>, n: int)
    requires
        0 <= n <= d.len(),
    ensures
        chars_value(d.subrange(0, n)) <= chars_value(d),
    decreases d.len() - n,
{
    if n < d.len() {
        lemma_chars_value_prefix(d, n + 1);
        assert(d.subrange(0, n + 1).drop_last() =~= d.subrange(0, n));
        let v = chars_value(d.subrange(0, n));
        let w = (d[n] as u32 - 48) as nat;
        assert(v <= v * 10 + w) by (nonlinear_arith)
            requires v >= 0, w >= 0;
    } else {
        assert(d.subrange(0, n) =~= d);
    }
}

/// Relies on `std::str::from_utf8`: it accepts exactly the valid UTF-8 byte
/// sequences, and the text it returns is what those bytes encode.
#[verifier::external_body]
pub fn utf8_string(b: &[u8]) -> (r: Option<String>)
    ensures
        r is Some <==> valid_utf8(b@),
        r matches Some(t) ==> t@ == decode_utf8(b@),
{
    std::str::from_utf8(b).ok().map(|t| t.to_owned())
}

/// ASCII bytes are valid UTF-8, and each stands for the character of
/// the same code.
pub proof fn lemma_ascii_bytes_text(b: Seq<u8>)
    requires
        forall|k: int| 0 <= k < b.len() ==> #[trigger] b[k] < 128,
    ensures
        valid_utf8(b),
        decode_utf8(b) == b.map_values(|x: u8| x as char),
{
    let c = b.map_values(|x: u8| x as char);
    assert forall|k: int| 0 <= k < c.len() implies '\0' <= #[trigger] c[k] <= '\u{7f}' by {
        lemma_char_ascii(c[k]);
    }
    is_ascii_chars_encode_utf8(c);
    assert forall|k: int| 0 <= k < c.len() implies #[trigger] encode_utf8(c)[k] == b[k] by {
        assert(c[k] as u8 == encode_utf8(c)[k]);
        assert(c[k] == b[k] as char);
    }
    assert(encode_utf8(c) =~= b);
    encode_utf8_valid_utf8(c);
    encode_utf8_decode_utf8(c);
}

/// The decimal text of `n`.
pub open spec fn decimal_text(n: nat) -> Seq<char> {
    digits_of(n).map_values(|b: u8| b as char)
}

proof fn lemma_digits_of_ascii(n: nat)
    ensures
        forall|k: int| 0 <= k < digits_of(n).len() ==> 48 <= #[trigger] digits_of(n)[k] <= 57,
        forall|k: int| 0 <= k < digits_of(n).len() ==> #[trigger] digits_of(n)[k] < 128,
    decreases n,
{
    if n >= 10 {
        lemma_digits_of_ascii(n / 10);
        let d = digits_of(n / 10);
        assert(digits_of(n) == d.push((n % 10 + 48) as u8));
        assert forall|k: int| 0 <= k < digits_of(n).len() implies 48 <= #[trigger] digits_of(n)[k] <= 57 by {
            if k < d.len() {
                assert(digits_of(n)[k] == d[k]);
            }
        }
    }
}

/// The decimal digits of `n` as text, most significant first.
pub fn decimal_string(n: u64) -> (r: String)
    ensures
        r@ == decimal_text(n as nat),
{
    let mut digits: Vec<u8> = Vec::new();
    write_digits(&mut digits, n);
    proof {
        lemma_digits_of_ascii(n as nat);
        assert(digits@ =~= digits_of(n as nat));
        lemma_ascii_bytes_text(digits@);
    }
    match utf8_string(digits.as_slice()) {
        Some(t) => t,
        None => String::new(),
    }
}

} // verus!
