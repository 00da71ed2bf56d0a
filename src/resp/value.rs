use vstd::prelude::*;
use vstd::utf8::encode_utf8;

verus! {

/// A string value of the protocol.
#[derive(Debug, Clone, Eq, PartialEq)]
pub enum StringValue {
    /// Short text without line breaks, encoded `+<text>\r\n`.
    Simple(String),
    /// A length-prefixed payload; `None` is the null bulk string `$-1\r\n`.
    Bulk(Option<String>),
    /// An error reply, encoded `-<text>\r\n`.
    Error(String),
}

/// A value of the Redis Serialization Protocol.
#[derive(Debug, Eq, PartialEq)]
pub enum Value {
    /// An ordered, possibly empty sequence of values.
    Array(Vec<Value>),
    /// A string value.
    Str(StringValue),
    /// A signed 64-bit integer.
    Int(i64),
}

/// The mathematical model of a [`Value`]: text as characters, integers unbounded.
pub enum Frame {
    Array(Seq<Frame>),
    Simple(Seq<char>),
    Bulk(Option<Seq<char>>),
    Error(Seq<char>),
    Int(int),
}

pub open spec fn frame_of(v: Value) -> Frame
    decreases v,
{
    match v {
        Value::Array(vs) => Frame::Array(frames_of(vs@)),
        Value::Str(StringValue::Simple(s)) => Frame::Simple(s@),
        Value::Str(StringValue::Bulk(None)) => Frame::Bulk(None),
        Value::Str(StringValue::Bulk(Some(s))) => Frame::Bulk(Some(s@)),
        Value::Str(StringValue::Error(s)) => Frame::Error(s@),
        Value::Int(i) => Frame::Int(i as int),
    }
}

pub open spec fn frames_of(vs: Seq<Value>) -> Seq<Frame>
    decreases vs,
{
    if vs.len() == 0 {
        seq![]
    } else {
        frames_of(vs.drop_last()).push(frame_of(vs.last()))
    }
}

impl View for Value {
    type V = Frame;

    open spec fn view(&self) -> Frame {
        frame_of(*self)
    }
}

pub open spec fn crlf() -> Seq<u8> {
    seq![13u8, 10u8]
}

/// Decimal digits of a natural number, most significant first, no leading zero.
pub open spec fn digits_of(n: nat) -> Seq<u8>
    decreases n,
{
    if n < 10 {
        seq![(n + 48) as u8]
    } else {
        digits_of(n / 10).push((n % 10 + 48) as u8)
    }
}

/// Decimal text of an integer, with a leading `-` when negative.
pub open spec fn int_text(i: int) -> Seq<u8> {
    if i < 0 {
        seq![45u8] + digits_of((-i) as nat)
    } else {
        digits_of(i as nat)
    }
}

/// One protocol line: a type byte, its body, and `\r\n`.
pub open spec fn line(sigil: u8, body: Seq<u8>) -> Seq<u8> {
    seq![sigil] + body + crlf()
}

pub open spec fn encoding(f: Frame) -> Seq<u8>
    decreases f,
{
    match f {
        Frame::Array(fs) => line(42u8, int_text(fs.len() as int)) + encoding_list(fs),
        Frame::Simple(t) => line(43u8, encode_utf8(t)),
        Frame::Error(t) => line(45u8, encode_utf8(t)),
        Frame::Bulk(None) => line(36u8, int_text(-1)),
        Frame::Bulk(Some(t)) => line(36u8, int_text(encode_utf8(t).len() as int)) + encode_utf8(t)
            + crlf(),
        Frame::Int(i) => line(58u8, int_text(i)),
    }
}

pub open spec fn encoding_list(fs: Seq<Frame>) -> Seq<u8>
    decreases fs,
{
    if fs.len() == 0 {
        seq![]
    } else {
        encoding_list(fs.drop_last()) + encoding(fs.last())
    }
}

pub proof fn lemma_frames_of_len(vs: Seq<Value>)
    ensures
        frames_of(vs).len() == vs.len(),
        forall|k: int| 0 <= k < vs.len() ==> #[trigger] frames_of(vs)[k] == frame_of(vs[k]),
    decreases vs.len(),
{
    if vs.len() > 0 {
        lemma_frames_of_len(vs.drop_last());
    }
}

pub proof fn lemma_frames_of_push(vs: Seq<Value>, v: Value)
    ensures
        frames_of(vs.push(v)) == frames_of(vs).push(frame_of(v)),
{
    assert(vs.push(v).drop_last() =~= vs);
}

pub proof fn lemma_encoding_list_push(fs: Seq<Frame>, f: Frame)
    ensures
        encoding_list(fs.push(f)) == encoding_list(fs) + encoding(f),
{
    assert(fs.push(f).drop_last() =~= fs);
}

/// Appends `bytes` to `buf`.
fn push_bytes(buf: &mut Vec<u8>, bytes: &[u8])
    ensures
        final(buf)@ == old(buf)@ + bytes@,
{
    let mut k: usize = 0;
    while k < bytes.len()
        invariant
            k <= bytes@.len(),
            buf@ == old(buf)@ + bytes@.subrange(0, k as int),
        decreases bytes@.len() - k,
    {
        buf.push(bytes[k]);
        k = k + 1;
        assert(bytes@.subrange(0, k as int) =~= bytes@.subrange(0, k - 1 as int).push(bytes@[k - 1]));
    }
    assert(bytes@.subrange(0, k as int) =~= bytes@);
}

/// Appends the decimal digits of `n` to `buf`.
pub fn write_digits(buf: &mut Vec<u8>, n: u64)
    ensures
        final(buf)@ == old(buf)@ + digits_of(n as nat),
    decreases n,
{
    if n >= 10 {
        write_digits(buf, n / 10);
    }
    buf.push((n % 10 + 48) as u8);
    assert(final(buf)@ =~= old(buf)@ + digits_of(n as nat));
}

/// Appends the decimal text of `i` to `buf`.
pub fn write_int(buf: &mut Vec<u8>, i: i64)
    ensures
        final(buf)@ == old(buf)@ + int_text(i as int),
{
    if i < 0 {
        buf.push(45u8);
        let magnitude: u64 = ((-(i + 1)) as u64) + 1;
        write_digits(buf, magnitude);
        assert(final(buf)@ =~= old(buf)@ + int_text(i as int));
    } else {
        write_digits(buf, i as u64);
    }
}

/// Appends `sigil`, the decimal text of `n` and `\r\n` to `buf`.
fn write_header(buf: &mut Vec<u8>, sigil: u8, n: i64)
    ensures
        final(buf)@ == old(buf)@ + line(sigil, int_text(n as int)),
{
    buf.push(sigil);
    write_int(buf, n);
    buf.push(13u8);
    buf.push(10u8);
    assert(final(buf)@ =~= old(buf)@ + line(sigil, int_text(n as int)));
}

/// Appends `sigil`, the decimal text of the length `n` and `\r\n` to `buf`.
fn write_len_header(buf: &mut Vec<u8>, sigil: u8, n: usize)
    ensures
        final(buf)@ == old(buf)@ + line(sigil, int_text(n as int)),
{
    buf.push(sigil);
    write_digits(buf, n as u64);
    buf.push(13u8);
    buf.push(10u8);
    assert(final(buf)@ =~= old(buf)@ + line(sigil, int_text(n as int)));
}

/// Appends `sigil`, the UTF-8 bytes of `text` and `\r\n` to `buf`.
fn write_text_line(buf: &mut Vec<u8>, sigil: u8, text: &String)
    ensures
        final(buf)@ == old(buf)@ + line(sigil, encode_utf8(text@)),
{
    buf.push(sigil);
    push_bytes(buf, text.as_str().as_bytes());
    buf.push(13u8);
    buf.push(10u8);
    assert(final(buf)@ =~= old(buf)@ + line(sigil, encode_utf8(text@)));
}

impl StringValue {
    /// Appends the wire encoding of this string to `buf`.
    pub fn encode(&self, buf: &mut Vec<u8>)
        ensures
            final(buf)@ == old(buf)@ + encoding(frame_of(Value::Str(*self))),
    {
        match self {
            StringValue::Simple(s) => write_text_line(buf, 43u8, s),
            StringValue::Error(s) => write_text_line(buf, 45u8, s),
            StringValue::Bulk(None) => write_header(buf, 36u8, -1),
            StringValue::Bulk(Some(s)) => {
                let bytes = s.as_str().as_bytes();
                write_len_header(buf, 36u8, bytes.len());
                push_bytes(buf, bytes);
                buf.push(13u8);
                buf.push(10u8);
                assert(final(buf)@ =~= old(buf)@ + encoding(frame_of(Value::Str(*self))));
            },
        }
    }

    /// The text of a simple or bulk string; `None` for a null bulk string
    /// and for an error.
    pub fn as_str(&self) -> (r: Option<&str>)
        ensures
            r is Some <==> (self is Simple || self matches StringValue::Bulk(Some(_))),
            self matches StringValue::Simple(s) ==> r.unwrap()@ == s@,
            self matches StringValue::Bulk(Some(s)) ==> r.unwrap()@ == s@,
    {
        match self {
            StringValue::Simple(s) => Some(s.as_str()),
            StringValue::Bulk(Some(s)) => Some(s.as_str()),
            StringValue::Bulk(None) => None,
            StringValue::Error(_) => None,
        }
    }
}

impl Value {
    /// A non-null bulk string holding `s`.
    pub fn bulk(s: &str) -> (r: Value)
        ensures
            r@ == Frame::Bulk(Some(s@)),
    {
        Value::Str(StringValue::Bulk(Some(s.to_owned())))
    }

    /// A simple string holding `s`.
    pub fn simple(s: &str) -> (r: Value)
        ensures
            r@ == Frame::Simple(s@),
    {
        Value::Str(StringValue::Simple(s.to_owned()))
    }

    /// An error reply holding `s`.
    pub fn error(s: &str) -> (r: Value)
        ensures
            r@ == Frame::Error(s@),
    {
        Value::Str(StringValue::Error(s.to_owned()))
    }

    /// The null bulk string.
    pub fn null_bulk() -> (r: Value)
        ensures
            r@ == Frame::Bulk(None),
    {
        Value::Str(StringValue::Bulk(None))
    }

    /// An array holding `values` in order.
    pub fn from_iter(values: Vec<Value>) -> (r: Value)
        ensures
            r@ == Frame::Array(frames_of(values@)),
    {
        Value::Array(values)
    }

    /// The text of a simple or bulk string value.
    pub fn as_str(&self) -> (r: Option<&str>)
        ensures
            r is Some <==> (self@ is Simple || self@ matches Frame::Bulk(Some(_))),
            self@ matches Frame::Simple(t) ==> r.unwrap()@ == t,
            self@ matches Frame::Bulk(Some(t)) ==> r.unwrap()@ == t,
    {
        match self {
            Value::Str(s) => s.as_str(),
            _ => None,
        }
    }

    /// Appends the wire encoding of this value to `buf`.
    pub fn encode(&self, buf: &mut Vec<u8>)
        ensures
            final(buf)@ == old(buf)@ + encoding(self@),
        decreases self,
    {
        match self {
            Value::Array(values) => {
                write_len_header(buf, 42u8, values.len());
                assert(frames_of(values@.subrange(0, 0)) =~= seq![]);
                let mut k: usize = 0;
                while k < values.len()
                    invariant
                        k <= values@.len(),
                        *self == Value::Array(*values),
                        buf@ == old(buf)@ + line(42u8, int_text(values@.len() as int))
                            + encoding_list(frames_of(values@.subrange(0, k as int))),
                    decreases values@.len() - k,
                {
                    proof {
                        assert(values@.subrange(0, k + 1 as int) =~= values@.subrange(0, k as int).push(values@[k as int]));
                        lemma_frames_of_push(values@.subrange(0, k as int), values@[k as int]);
                        lemma_encoding_list_push(frames_of(values@.subrange(0, k as int)), frame_of(values@[k as int]));
                        assert(decreases_to!(*values => values@[k as int]));
                        assert(decreases_to!(*self => self->Array_0));
                        assert(decreases_to!(self->Array_0 => self->Array_0@));
                        assert(decreases_to!(self->Array_0@ => self->Array_0@[k as int]));
                    }
                    values[k].encode(buf);
                    k = k + 1;
                }
                assert(values@.subrange(0, k as int) =~= values@);
                proof { lemma_frames_of_len(values@); }
            }
            Value::Str(s) => s.encode(buf),
            Value::Int(i) => write_header(buf, 58u8, *i),
        }
    }
}

} // verus!
