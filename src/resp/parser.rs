use super::value::{frames_of, lemma_frames_of_push, Frame, StringValue, Value};
use super::RespError;
use vstd::prelude::*;
use crate::text::utf8_string;
use vstd::utf8::{decode_utf8, valid_utf8};

verus! {

/// Outcome of parsing one value at a position of a buffer.
pub enum Parsed {
    /// A complete value, and the position after it and the line breaks that
    /// follow it.
    Done(Frame, int),
    /// The buffer ends before the value does.
    More,
    /// The bytes cannot be the start of a value.
    Fail(RespError),
}

/// Outcome of parsing a number of consecutive values.
pub enum Listed {
    Done(Seq<Frame>, int),
    More,
    Fail(RespError),
}

/// Outcome of reading an integer token.
pub enum IntTok {
    /// A complete integer, and the position just after its last digit.
    Done(int, int),
    /// An integer whose digits run to the end of the buffer, so that more
    /// digits may follow; the value of the digits read so far.
    Partial(int),
    /// The buffer ends before the integer starts, or after a lone `-`.
    More,
    Fail(RespError),
}

pub open spec fn is_digit(b: u8) -> bool {
    48 <= b <= 57
}

/// The first position at or after `i` that is not a CR or LF byte.
pub open spec fn skip_crlf(s: Seq<u8>, i: int) -> int
    decreases s.len() - i,
{
    if 0 <= i < s.len() && (s[i] == 13 || s[i] == 10) {
        skip_crlf(s, i + 1)
    } else {
        i
    }
}

/// The end of the run of decimal digits that starts at `i`.
pub open spec fn digit_run_end(s: Seq<u8>, i: int) -> int
    decreases s.len() - i,
{
    if 0 <= i < s.len() && is_digit(s[i]) {
        digit_run_end(s, i + 1)
    } else {
        i
    }
}

/// The first CR or LF byte at or after `i`, or the end of the buffer.
pub open spec fn find_break(s: Seq<u8>, i: int) -> int
    decreases s.len() - i,
{
    if 0 <= i < s.len() && s[i] != 13 && s[i] != 10 {
        find_break(s, i + 1)
    } else {
        i
    }
}

/// The number written by a sequence of decimal digits.
pub open spec fn digits_value(d: Seq<u8>) -> nat
    decreases d.len(),
{
    if d.len() == 0 {
        0
    } else {
        digits_value(d.drop_last()) * 10 + (d.last() - 48) as nat
    }
}

/// The integer token `-?(0|[1-9][0-9]*)` at `i`, after any run of CR and LF
/// bytes. It ends at the first byte that is not one of its digits.
pub open spec fn int_token(s: Seq<u8>, i: int) -> IntTok {
    let p = skip_crlf(s, i);
    let neg = 0 <= p < s.len() && s[p] == 45;
    let d = if neg { p + 1 } else { p };
    if p < 0 || d >= s.len() {
        IntTok::More
    } else if !is_digit(s[d]) {
        IntTok::Fail(RespError::InvalidToken)
    } else {
        let e = number_end(s, d);
        let m = digits_value(s.subrange(d, e));
        let n = if neg { -m } else { m as int };
        if n < i64::MIN || n > i64::MAX {
            IntTok::Fail(RespError::InvalidToken)
        } else if e >= s.len() && s[d] != 48 {
            IntTok::Partial(n)
        } else {
            IntTok::Done(n, e)
        }
    }
}

/// The text of a simple string or error at `i`: after any run of CR and LF
/// bytes, every byte up to the next CR or LF, read as UTF-8. Until a line
/// break follows it, the text may still grow.
pub open spec fn parse_text(s: Seq<u8>, i: int, simple: bool) -> Parsed {
    let p = skip_crlf(s, i);
    let e = find_break(s, p);
    if e >= s.len() {
        Parsed::More
    } else if !valid_utf8(s.subrange(p, e)) {
        Parsed::Fail(RespError::Utf8Error)
    } else if simple {
        Parsed::Done(Frame::Simple(decode_utf8(s.subrange(p, e))), skip_crlf(s, e))
    } else {
        Parsed::Done(Frame::Error(decode_utf8(s.subrange(p, e))), skip_crlf(s, e))
    }
}

/// A bulk string whose length token starts at `i`. `-1` is the null bulk
/// string; another negative length fails as soon as it is read. A length
/// `n > 0` is followed, after any run of CR and LF bytes, by `n` bytes of
/// UTF-8 text that must be followed by a CR or LF: while the buffer ends
/// before that byte, or another byte stands there, the payload is
/// incomplete.
pub open spec fn parse_bulk(s: Seq<u8>, i: int) -> Parsed {
    match int_token(s, i) {
        IntTok::More => Parsed::More,
        IntTok::Fail(e) => Parsed::Fail(e),
        IntTok::Partial(n) => if n < -1 {
            Parsed::Fail(RespError::InvalidLength(n as i64))
        } else {
            Parsed::More
        },
        IntTok::Done(n, e) => if n == -1 {
            Parsed::Done(Frame::Bulk(None), skip_crlf(s, e))
        } else if n < 0 {
            Parsed::Fail(RespError::InvalidLength(n as i64))
        } else if n == 0 {
            Parsed::Done(Frame::Bulk(Some(seq![])), skip_crlf(s, e))
        } else {
            let j = skip_crlf(s, e);
            if j + n >= s.len() {
                Parsed::More
            } else if s[j + n] != 13 && s[j + n] != 10 {
                Parsed::More
            } else if !valid_utf8(s.subrange(j, j + n)) {
                Parsed::Fail(RespError::Utf8Error)
            } else {
                Parsed::Done(Frame::Bulk(Some(decode_utf8(s.subrange(j, j + n)))), skip_crlf(s, j + n))
            }
        },
    }
}

pub proof fn lemma_skip_crlf(s: Seq<u8>, i: int)
    ensures
        skip_crlf(s, i) >= i,
        0 <= i <= s.len() ==> skip_crlf(s, i) <= s.len(),
        0 <= i ==> skip_crlf(s, skip_crlf(s, i)) == skip_crlf(s, i),
        0 <= i && skip_crlf(s, i) < s.len() ==> s[skip_crlf(s, i)] != 13 && s[skip_crlf(s, i)] != 10,
    decreases s.len() - i,
{
    if 0 <= i < s.len() && (s[i] == 13 || s[i] == 10) {
        lemma_skip_crlf(s, i + 1);
    }
}

pub proof fn lemma_digit_run_end(s: Seq<u8>, i: int)
    ensures
        digit_run_end(s, i) >= i,
        0 <= i <= s.len() ==> digit_run_end(s, i) <= s.len(),
        forall|k: int| i <= k < digit_run_end(s, i) ==> is_digit(#[trigger] s[k]),
    decreases s.len() - i,
{
    if 0 <= i < s.len() && is_digit(s[i]) {
        lemma_digit_run_end(s, i + 1);
    }
}

pub proof fn lemma_int_token_bounds(s: Seq<u8>, i: int)
    requires
        0 <= i,
    ensures
        int_token(s, i) matches IntTok::Done(_, j) ==> i < j <= s.len(),
{
    lemma_skip_crlf(s, i);
    let p = skip_crlf(s, i);
    let neg = 0 <= p < s.len() && s[p] == 45;
    let d = if neg { p + 1 } else { p };
    if 0 <= d < s.len() {
        lemma_digit_run_end(s, d + 1);
    }
}

/// One value at `i`, after any run of CR and LF bytes, and the position
/// after the run of CR and LF bytes that follows it.
pub open spec fn parse_value_at(s: Seq<u8>, i: int) -> Parsed
    decreases s.len() - i, 0int, 0int,
{
    let p = skip_crlf(s, i);
    proof {
        lemma_skip_crlf(s, i);
    }
    if i < 0 || p >= s.len() {
        Parsed::More
    } else if s[p] == 42 {
        match int_token(s, p + 1) {
            IntTok::More => Parsed::More,
            IntTok::Fail(e) => Parsed::Fail(e),
            IntTok::Partial(n) => if n < 0 {
                Parsed::Fail(RespError::InvalidLength(n as i64))
            } else {
                Parsed::More
            },
            IntTok::Done(n, j) => if n < 0 {
                Parsed::Fail(RespError::InvalidLength(n as i64))
            } else {
                proof {
                    lemma_int_token_bounds(s, p + 1);
                }
                match parse_list(s, j, n as nat) {
                    Listed::Done(fs, k) => Parsed::Done(Frame::Array(fs), skip_crlf(s, k)),
                    Listed::More => Parsed::More,
                    Listed::Fail(e) => Parsed::Fail(e),
                }
            },
        }
    } else if s[p] == 36 {
        parse_bulk(s, p + 1)
    } else if s[p] == 43 {
        parse_text(s, p + 1, true)
    } else if s[p] == 45 {
        parse_text(s, p + 1, false)
    } else if s[p] == 58 {
        match int_token(s, p + 1) {
            IntTok::More => Parsed::More,
            IntTok::Partial(_) => Parsed::More,
            IntTok::Fail(e) => Parsed::Fail(e),
            IntTok::Done(n, j) => Parsed::Done(Frame::Int(n), skip_crlf(s, j)),
        }
    } else {
        Parsed::Fail(RespError::InvalidToken)
    }
}

pub open spec fn prepend(fs: Seq<Frame>, l: Listed) -> Listed {
    match l {
        Listed::Done(gs, k) => Listed::Done(fs + gs, k),
        other => other,
    }
}

/// `n` consecutive values starting at `i`.
pub open spec fn parse_list(s: Seq<u8>, i: int, n: nat) -> Listed
    decreases s.len() - i, 1int, n,
{
    if n == 0 {
        Listed::Done(seq![], i)
    } else {
        match parse_value_at(s, i) {
            // a value always ends after its start and inside the buffer
            Parsed::Done(f, j) => if i < j <= s.len() {
                prepend(seq![f], parse_list(s, j, (n - 1) as nat))
            } else {
                Listed::Fail(RespError::InvalidToken)
            },
            Parsed::More => Listed::More,
            Parsed::Fail(e) => Listed::Fail(e),
        }
    }
}

/// An integer token as the parser returns it.
pub enum IntToken {
    Done(i64, usize),
    Partial(i64),
    More,
}

pub open spec fn int_token_matches(r: Result<IntToken, RespError>, t: IntTok) -> bool {
    match t {
        IntTok::Done(n, j) => r matches Ok(IntToken::Done(m, k)) && m as int == n && k as int == j,
        IntTok::Partial(n) => r matches Ok(IntToken::Partial(m)) && m as int == n,
        IntTok::More => r matches Ok(IntToken::More),
        IntTok::Fail(e) => r == Err::<IntToken, RespError>(e),
    }
}

/// What a parse result means under the grammar: a value and the position
/// after it, a request for more bytes, or an error.
pub open spec fn parse_matches(r: Result<Option<(Value, usize)>, RespError>, p: Parsed) -> bool {
    match p {
        Parsed::Done(f, j) => r matches Ok(Some((v, k))) && v@ == f && k as int == j,
        Parsed::More => r matches Ok(None),
        Parsed::Fail(e) => r == Err::<Option<(Value, usize)>, RespError>(e),
    }
}

proof fn lemma_digits_value_step(s: Seq<u8>, d: int, k: int)
    requires
        0 <= d <= k < s.len(),
    ensures
        digits_value(s.subrange(d, k + 1)) == digits_value(s.subrange(d, k)) * 10 + (s[k] - 48) as nat,
{
    assert(s.subrange(d, k + 1).drop_last() =~= s.subrange(d, k));
}

pub(crate) fn skip_line_breaks(s: &[u8], i: usize) -> (p: usize)
    requires
        i <= s@.len(),
    ensures
        p as int == skip_crlf(s@, i as int),
        i <= p <= s@.len(),
{
    let mut p = i;
    while p < s.len() && (s[p] == 13 || s[p] == 10)
        invariant
            i <= p <= s@.len(),
            skip_crlf(s@, i as int) == skip_crlf(s@, p as int),
        decreases s@.len() - p,
    {
        p = p + 1;
    }
    p
}

fn find_line_break(s: &[u8], i: usize) -> (e: usize)
    requires
        i <= s@.len(),
    ensures
        e as int == find_break(s@, i as int),
        i <= e <= s@.len(),
{
    let mut e = i;
    while e < s.len() && s[e] != 13 && s[e] != 10
        invariant
            i <= e <= s@.len(),
            find_break(s@, i as int) == find_break(s@, e as int),
        decreases s@.len() - e,
    {
        e = e + 1;
    }
    e
}

/// The largest magnitude of an `i64`, that of `i64::MIN`.
pub const MAGNITUDE_LIMIT: u64 = 9223372036854775808;

/// Where the digits of an integer literal starting at `d` end: after a lone
/// `0`, or after the run of digits.
pub open spec fn number_end(s: Seq<u8>, d: int) -> int {
    if s[d] == 48 {
        d + 1
    } else {
        digit_run_end(s, d)
    }
}

/// Scans the digits of an integer literal at `d`; returns where they end and
/// their value, unless it exceeds the magnitude of `i64::MIN`.
pub(crate) fn scan_number(s: &[u8], d: usize) -> (r: (usize, Option<u64>))
    requires
        d < s@.len(),
        is_digit(s@[d as int]),
    ensures
        r.0 as int == number_end(s@, d as int),
        d < r.0 <= s@.len(),
        r.1 matches Some(m) ==> m as int == digits_value(s@.subrange(d as int, r.0 as int)) && m
            <= MAGNITUDE_LIMIT,
        r.1 is None ==> digits_value(s@.subrange(d as int, r.0 as int)) > MAGNITUDE_LIMIT,
{
    let len = s.len();
    proof {
        lemma_digit_run_end(s@, d as int);
        assert(s@.subrange(d as int, d as int) =~= Seq::<u8>::empty());
    }
    if s[d] == 48 {
        proof {
            lemma_digits_value_step(s@, d as int, d as int);
        }
        return (d + 1, Some(0));
    }
    let mut e: usize = d;
    let mut acc: u64 = 0;
    let mut big: bool = false;
    while e < len && 48 <= s[e] && s[e] <= 57
        invariant
            d <= e <= len == s@.len(),
            digit_run_end(s@, d as int) == digit_run_end(s@, e as int),
            !big ==> acc as int == digits_value(s@.subrange(d as int, e as int)) && acc <= MAGNITUDE_LIMIT,
            big ==> digits_value(s@.subrange(d as int, e as int)) > MAGNITUDE_LIMIT,
        decreases len - e,
    {
        let digit: u64 = (s[e] - 48) as u64;
        proof {
            lemma_digits_value_step(s@, d as int, e as int);
        }
        let ghost before = digits_value(s@.subrange(d as int, e as int));
        if big {
            assert(before * 10 + digit >= before) by (nonlinear_arith)
                requires
                    before >= 0,
                    digit >= 0,
            ;
        } else if acc > 922337203685477580 {
            big = true;
            assert(acc * 10 + digit > MAGNITUDE_LIMIT) by (nonlinear_arith)
                requires
                    acc > 922337203685477580u64,
                    digit >= 0,
            ;
        } else {
            assert(acc * 10 + digit <= 9223372036854775809) by (nonlinear_arith)
                requires
                    acc <= 922337203685477580u64,
                    digit <= 9,
            ;
            acc = acc * 10 + digit;
            if acc > MAGNITUDE_LIMIT {
                big = true;
            }
        }
        e = e + 1;
    }
    if big {
        (e, None)
    } else {
        (e, Some(acc))
    }
}

/// The integer a sign and a magnitude stand for, when it fits an `i64`.
pub(crate) fn signed_value(neg: bool, m: u64) -> (r: Option<i64>)
    requires
        m <= MAGNITUDE_LIMIT,
    ensures
        ({
            let n = if neg { -(m as int) } else { m as int };
            &&& r matches Some(x) ==> x as int == n
            &&& r is None <==> n > i64::MAX
        }),
{
    if neg {
        if m == MAGNITUDE_LIMIT {
            Some(i64::MIN)
        } else {
            Some(-(m as i64))
        }
    } else if m > i64::MAX as u64 {
        None
    } else {
        Some(m as i64)
    }
}

/// Reads the integer token at `i`, after any run of CR and LF bytes.
fn read_int_token(s: &[u8], i: usize) -> (r: Result<IntToken, RespError>)
    requires
        i <= s@.len(),
    ensures
        int_token_matches(r, int_token(s@, i as int)),
        r matches Ok(IntToken::Done(_, e)) ==> i < e <= s@.len(),
{
    let len = s.len();
    let p = skip_line_breaks(s, i);
    let neg = p < len && s[p] == 45;
    let d: usize = if neg { p + 1 } else { p };
    if d >= len {
        return Ok(IntToken::More);
    }
    if !(48 <= s[d] && s[d] <= 57) {
        return Err(RespError::InvalidToken);
    }
    let (e, magnitude) = scan_number(s, d);
    match magnitude {
        None => Err(RespError::InvalidToken),
        Some(m) => match signed_value(neg, m) {
            None => Err(RespError::InvalidToken),
            Some(n) => if e >= len && s[d] != 48 {
                Ok(IntToken::Partial(n))
            } else {
                Ok(IntToken::Done(n, e))
            },
        },
    }
}

/// Reads the text of a simple string or error at `i`.
fn read_text(s: &[u8], i: usize, simple: bool) -> (r: Result<Option<(Value, usize)>, RespError>)
    requires
        i <= s@.len(),
    ensures
        parse_matches(r, parse_text(s@, i as int, simple)),
        r matches Ok(Some((_, k))) ==> i <= k <= s@.len(),
{
    let p = skip_line_breaks(s, i);
    let e = find_line_break(s, p);
    if e >= s.len() {
        return Ok(None);
    }
    let end = skip_line_breaks(s, e);
    match utf8_string(&s[p..e]) {
        None => Err(RespError::Utf8Error),
        Some(t) => if simple {
            Ok(Some((Value::Str(StringValue::Simple(t)), end)))
        } else {
            Ok(Some((Value::Str(StringValue::Error(t)), end)))
        },
    }
}

/// Reads a bulk string whose length token starts at `i`.
fn read_bulk(s: &[u8], i: usize) -> (r: Result<Option<(Value, usize)>, RespError>)
    requires
        i <= s@.len(),
    ensures
        parse_matches(r, parse_bulk(s@, i as int)),
        r matches Ok(Some((_, k))) ==> i < k <= s@.len(),
{
    match read_int_token(s, i) {
        Err(e) => Err(e),
        Ok(IntToken::More) => Ok(None),
        Ok(IntToken::Partial(n)) => if n < -1 {
            Err(RespError::InvalidLength(n))
        } else {
            Ok(None)
        },
        Ok(IntToken::Done(n, e)) => {
            if n == -1 {
                return Ok(Some((Value::Str(StringValue::Bulk(None)), skip_line_breaks(s, e))));
            }
            if n < 0 {
                return Err(RespError::InvalidLength(n));
            }
            if n == 0 {
                let empty = String::new();
                return Ok(Some((Value::Str(StringValue::Bulk(Some(empty))), skip_line_breaks(s, e))));
            }
            let j = skip_line_breaks(s, e);
            let avail = s.len() - j;
            if (n as u64) >= avail as u64 {
                return Ok(None);
            }
            let m = n as usize;
            if s[j + m] != 13 && s[j + m] != 10 {
                return Ok(None);
            }
            let end = skip_line_breaks(s, j + m);
            match utf8_string(&s[j..j + m]) {
                None => Err(RespError::Utf8Error),
                Some(t) => Ok(Some((Value::Str(StringValue::Bulk(Some(t))), end))),
            }
        },
    }
}

/// Parses one value starting at `i`, after any run of CR and LF bytes.
/// Returns the value and the position after it and the line breaks that
/// follow it, `Ok(None)` when the buffer may end before the value does, or the error that makes the bytes
/// unreadable.
pub fn parse_value(s: &[u8], i: usize) -> (r: Result<Option<(Value, usize)>, RespError>)
    requires
        i <= s@.len(),
    ensures
        parse_matches(r, parse_value_at(s@, i as int)),
        r matches Ok(Some((_, j))) ==> i < j <= s@.len(),
    decreases s@.len() - i,
{
    let p = skip_line_breaks(s, i);
    if p >= s.len() {
        return Ok(None);
    }
    let sigil = s[p];
    if sigil == 42 {
        match read_int_token(s, p + 1) {
            Err(e) => Err(e),
            Ok(IntToken::More) => Ok(None),
            Ok(IntToken::Partial(n)) => if n < 0 {
                Err(RespError::InvalidLength(n))
            } else {
                Ok(None)
            },
            Ok(IntToken::Done(n, j)) => {
                if n < 0 {
                    return Err(RespError::InvalidLength(n));
                }
                parse_array_items(s, j, n as u64)
            },
        }
    } else if sigil == 36 {
        read_bulk(s, p + 1)
    } else if sigil == 43 {
        read_text(s, p + 1, true)
    } else if sigil == 45 {
        read_text(s, p + 1, false)
    } else if sigil == 58 {
        match read_int_token(s, p + 1) {
            Err(e) => Err(e),
            Ok(IntToken::More) => Ok(None),
            Ok(IntToken::Partial(_)) => Ok(None),
            Ok(IntToken::Done(n, j)) => Ok(Some((Value::Int(n), skip_line_breaks(s, j)))),
        }
    } else {
        Err(RespError::InvalidToken)
    }
}

/// Parses the `n` items of an array that start at `j`.
fn parse_array_items(s: &[u8], j: usize, n: u64) -> (r: Result<Option<(Value, usize)>, RespError>)
    requires
        0 < j <= s@.len(),
    ensures
        match parse_list(s@, j as int, n as nat) {
            Listed::Done(fs, k) => parse_matches(r, Parsed::Done(Frame::Array(fs), skip_crlf(s@, k))),
            Listed::More => parse_matches(r, Parsed::More),
            Listed::Fail(e) => parse_matches(r, Parsed::Fail(e)),
        },
        r matches Ok(Some((_, k))) ==> j <= k <= s@.len(),
    decreases s@.len() - j + 1, 0int,
{
    let mut items: Vec<Value> = Vec::new();
    let mut pos: usize = j;
    let mut count: u64 = 0;
    assert(frames_of(items@) =~= Seq::<Frame>::empty());
    assert(prepend(seq![], parse_list(s@, j as int, n as nat)) == parse_list(s@, j as int, n as nat)) by {
        match parse_list(s@, j as int, n as nat) {
            Listed::Done(gs, k) => { assert(Seq::<Frame>::empty() + gs =~= gs); }
            _ => {}
        }
    }
    while count < n
        invariant
            j <= pos <= s@.len(),
            count <= n,
            prepend(frames_of(items@), parse_list(s@, pos as int, (n - count) as nat))
                == parse_list(s@, j as int, n as nat),
        decreases n - count,
    {
        match parse_value(s, pos) {
            Err(e) => return Err(e),
            Ok(None) => return Ok(None),
            Ok(Some((v, next))) => {
                proof {
                    let rest = parse_list(s@, next as int, (n - count - 1) as nat);
                    lemma_frames_of_push(items@, v);
                    match rest {
                        Listed::Done(gs, k) => {
                            assert(frames_of(items@) + (seq![v@] + gs)
                                =~= frames_of(items@).push(v@) + gs);
                        }
                        _ => {}
                    }
                }
                items.push(v);
                pos = next;
                count = count + 1;
            },
        }
    }
    assert(frames_of(items@) + Seq::<Frame>::empty() =~= frames_of(items@));
    let end = skip_line_breaks(s, pos);
    Ok(Some((Value::Array(items), end)))
}

impl Value {
    /// Parses one value at the start of `input`: the value and the number of
    /// bytes it took, with the line breaks that follow it; `Ok(None)` when
    /// `input` may end before the value does; or the error that makes the
    /// bytes unreadable.
    pub fn parse(input: &[u8]) -> (r: Result<Option<(Value, usize)>, RespError>)
        ensures
            parse_matches(r, parse_value_at(input@, 0)),
            r matches Ok(Some((_, j))) ==> 0 < j <= input@.len(),
    {
        parse_value(input, 0)
    }
}

} // verus!
