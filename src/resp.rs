//! The wire protocol: its values, how bytes decode into them and how replies
//! are written.
use vstd::prelude::*;
use vstd::slice::slice_to_vec;
use crate::decimal::{
    decimal, decimal_bytes, i32_of, is_digit, lemma_decimal_digits,
    lemma_decimal_round_trip, parse_i32, parse_usize, usize_of,
};

verus! {

/// The type tag that opens every frame.
#[derive(PartialEq, Eq, Structural, Clone, Copy, Debug)]
pub enum DataType {
    SimpleString,
    SimpleErr,
    Integer,
    BulkString,
    Array,
}

/// Why a buffer does not hold a well-formed frame at its start.
#[derive(PartialEq, Eq, Structural, Clone, Copy, Debug)]
pub enum DecodeError {
    /// The buffer ends before the frame does.
    Incomplete,
    /// The first byte is no supported type tag.
    UnknownType,
    /// An integer frame whose token is no signed 32-bit decimal.
    BadInteger,
    /// A bulk string or array whose length line is no non-negative decimal.
    BadLength,
    /// A bulk string whose payload is not followed by the delimiter where
    /// its declared length says it ends.
    LengthMismatch,
}

/// The mathematical form of a wire value.
pub enum Frame {
    Simple(Seq<u8>),
    Error(Seq<u8>),
    Int(int),
    Bulk(nat, Seq<u8>),
    Arr(Seq<Frame>),
}

/// A decoded wire value. Payloads are kept as raw bytes.
#[derive(Debug)]
pub enum RedisObject {
    SimpleString(Vec<u8>),
    SimpleErr(Vec<u8>),
    Integer(i32),
    BulkString(usize, Vec<u8>),
    Array(Vec<RedisObject>),
}

/// The frame a decoded value stands for.
pub open spec fn frame_of(o: RedisObject) -> Frame
    decreases o,
{
    match o {
        RedisObject::SimpleString(s) => Frame::Simple(s@),
        RedisObject::SimpleErr(s) => Frame::Error(s@),
        RedisObject::Integer(v) => Frame::Int(v as int),
        RedisObject::BulkString(n, s) => Frame::Bulk(n as nat, s@),
        RedisObject::Array(v) => Frame::Arr(
            Seq::new(
                v@.len(),
                |i: int|
                    if 0 <= i < v@.len() {
                        frame_of(v@[i])
                    } else {
                        Frame::Int(0)
                    },
            ),
        ),
    }
}

impl View for RedisObject {
    type V = Frame;

    open spec fn view(&self) -> Frame {
        frame_of(*self)
    }
}

/// A bulk string's declared length is the length of its payload, in every
/// value an array holds too.
pub open spec fn frame_wf(f: Frame) -> bool
    decreases f,
{
    match f {
        Frame::Bulk(n, p) => n == p.len(),
        Frame::Arr(fs) => forall|i: int| 0 <= i < fs.len() ==> frame_wf(#[trigger] fs[i]),
        _ => true,
    }
}

pub open spec fn views(v: Seq<RedisObject>) -> Seq<Frame> {
    Seq::new(v.len(), |i: int| v[i]@)
}

pub open spec fn tag_of(b: u8) -> Option<DataType> {
    if b == 0x2b {
        Some(DataType::SimpleString)
    } else if b == 0x2d {
        Some(DataType::SimpleErr)
    } else if b == 0x3a {
        Some(DataType::Integer)
    } else if b == 0x24 {
        Some(DataType::BulkString)
    } else if b == 0x2a {
        Some(DataType::Array)
    } else {
        None
    }
}

pub open spec fn crlf() -> Seq<u8> {
    seq![13u8, 10u8]
}

/// The delimiter `\r\n` starts at `i`.
pub open spec fn crlf_at(b: Seq<u8>, i: int) -> bool {
    0 <= i && i + 1 < b.len() && b[i] == 13 && b[i + 1] == 10
}

/// Where the first delimiter at or after `from` starts.
pub open spec fn line_end(b: Seq<u8>, from: int) -> Option<int>
    decreases b.len() - from,
{
    if from < 0 || from + 1 >= b.len() {
        None
    } else if crlf_at(b, from) {
        Some(from)
    } else {
        line_end(b, from + 1)
    }
}

pub proof fn lemma_line_end(b: Seq<u8>, from: int)
    requires
        0 <= from,
    ensures
        match line_end(b, from) {
            Some(e) => from <= e && crlf_at(b, e) && forall|j: int|
                from <= j < e ==> !crlf_at(b, j),
            None => forall|j: int| from <= j ==> !crlf_at(b, j),
        },
    decreases b.len() - from,
{
    if from < 0 || from + 1 >= b.len() {
    } else if crlf_at(b, from) {
    } else {
        lemma_line_end(b, from + 1);
    }
}

/// A frame that is one line: its token runs from after the tag to the
/// first delimiter, or, for a bulk string, gives the payload's length.
pub open spec fn line_item(b: Seq<u8>, t: DataType) -> Result<(Frame, int), DecodeError> {
    match line_end(b, 1) {
        None => Err(DecodeError::Incomplete),
        Some(e) => {
            let token = b.subrange(1, e);
            match t {
                DataType::SimpleString => Ok((Frame::Simple(token), e + 2)),
                DataType::SimpleErr => Ok((Frame::Error(token), e + 2)),
                DataType::Integer => match i32_of(token) {
                    Some(v) => Ok((Frame::Int(v as int), e + 2)),
                    None => Err(DecodeError::BadInteger),
                },
                _ => match usize_of(token) {
                    None => Err(DecodeError::BadLength),
                    Some(n) => if e + 4 + n > b.len() {
                        Err(DecodeError::Incomplete)
                    } else if !crlf_at(b, e + 2 + n) {
                        Err(DecodeError::LengthMismatch)
                    } else {
                        Ok((Frame::Bulk(n as nat, b.subrange(e + 2, e + 2 + n)), e + 4 + n))
                    },
                },
            }
        },
    }
}

/// One item at the start of `b` and the bytes it takes; `None` for a stray
/// delimiter, which takes two bytes.
pub open spec fn item(b: Seq<u8>) -> Result<(Option<Frame>, int), DecodeError>
    decreases b.len(), 0int,
{
    if b.len() == 0 {
        Err(DecodeError::Incomplete)
    } else if crlf_at(b, 0) {
        Ok((None, 2))
    } else {
        match tag_of(b[0]) {
            None => Err(DecodeError::UnknownType),
            Some(DataType::Array) => match array_body(b.drop_first()) {
                Ok((f, c)) => Ok((Some(f), c + 1)),
                Err(e) => Err(e),
            },
            Some(t) => match line_item(b, t) {
                Ok((f, c)) => Ok((Some(f), c)),
                Err(e) => Err(e),
            },
        }
    }
}

/// An array after its tag: a count line, then that many elements.
pub open spec fn array_body(b: Seq<u8>) -> Result<(Frame, int), DecodeError>
    decreases b.len(), 1int,
{
    proof {
        lemma_line_end(b, 0);
    }
    match line_end(b, 0) {
        None => Err(DecodeError::Incomplete),
        Some(e) => match usize_of(b.subrange(0, e)) {
            None => Err(DecodeError::BadLength),
            Some(n) => match elements(b.subrange(e + 2, b.len() as int), n as nat) {
                Ok((fs, c)) => Ok((Frame::Arr(fs), e + 2 + c)),
                Err(x) => Err(x),
            },
        },
    }
}

/// `n` elements at the start of `b`; stray delimiters between them count
/// for nothing.
pub open spec fn elements(b: Seq<u8>, n: nat) -> Result<(Seq<Frame>, int), DecodeError>
    decreases b.len(), 2int,
{
    if n == 0 {
        Ok((seq![], 0))
    } else {
        match item(b) {
            Err(e) => Err(e),
            Ok((x, c)) => if c <= 0 || c > b.len() {
                Err(DecodeError::Incomplete)
            } else {
                let left: nat = if x is Some {
                    (n - 1) as nat
                } else {
                    n
                };
                match elements(b.subrange(c, b.len() as int), left) {
                    Ok((fs, d)) => Ok((prepend(x, fs), c + d)),
                    Err(e) => Err(e),
                }
            },
        }
    }
}

pub open spec fn prepend(x: Option<Frame>, fs: Seq<Frame>) -> Seq<Frame> {
    match x {
        Some(f) => seq![f] + fs,
        None => fs,
    }
}

/// The first value of a buffer and the bytes it takes, stray delimiters
/// before it included.
pub open spec fn decode(b: Seq<u8>) -> Result<(Frame, int), DecodeError>
    decreases b.len(),
{
    if crlf_at(b, 0) {
        match decode(b.subrange(2, b.len() as int)) {
            Ok((f, c)) => Ok((f, c + 2)),
            Err(e) => Err(e),
        }
    } else {
        match item(b) {
            Ok((Some(f), c)) => Ok((f, c)),
            Ok((None, _)) => Err(DecodeError::Incomplete),
            Err(e) => Err(e),
        }
    }
}

/// A cursor over a buffer that holds back-to-back frames.
pub struct RESPParser<'a> {
    stream: &'a [u8],
    pos: usize,
}

pub open spec fn opt_view(x: Option<RedisObject>) -> Option<Frame> {
    match x {
        Some(o) => Some(o@),
        None => None,
    }
}

pub open spec fn item_view(r: Result<(Option<RedisObject>, usize), DecodeError>) -> Result<
    (Option<Frame>, int),
    DecodeError,
> {
    match r {
        Ok((Some(o), c)) => Ok((Some(o@), c as int)),
        Ok((None, c)) => Ok((None, c as int)),
        Err(e) => Err(e),
    }
}

pub open spec fn frame_view(r: Result<(RedisObject, usize), DecodeError>) -> Result<(Frame, int), DecodeError> {
    match r {
        Ok((o, c)) => Ok((o@, c as int)),
        Err(e) => Err(e),
    }
}

impl DataType {
    /// Reads a type tag; `None` for a byte that opens no supported frame.
    pub fn from_byte(b: u8) -> (r: Option<DataType>)
        ensures
            r == tag_of(b),
    {
        if b == 0x2b {
            Some(DataType::SimpleString)
        } else if b == 0x2d {
            Some(DataType::SimpleErr)
        } else if b == 0x3a {
            Some(DataType::Integer)
        } else if b == 0x24 {
            Some(DataType::BulkString)
        } else if b == 0x2a {
            Some(DataType::Array)
        } else {
            None
        }
    }
}

/// Whether two byte strings are equal.
pub fn same_bytes(a: &[u8], b: &[u8]) -> (r: bool)
    ensures
        r == (a@ == b@),
{
    if a.len() != b.len() {
        return false;
    }
    let mut i: usize = 0;
    while i < a.len()
        invariant
            a@.len() == b@.len(),
            i <= a@.len(),
            forall|j: int| 0 <= j < i ==> a@[j] == b@[j],
        decreases a@.len() - i,
    {
        if a[i] != b[i] {
            return false;
        }
        i = i + 1;
    }
    assert(a@ =~= b@);
    true
}

/// Where the first `\r\n` at or after `from` starts.
pub fn find_crlf(s: &[u8], from: usize) -> (r: Option<usize>)
    ensures
        match r {
            Some(e) => line_end(s@, from as int) == Some(e as int),
            None => line_end(s@, from as int) is None,
        },
{
    let mut i: usize = from;
    while i < s.len()
        invariant
            from <= i,
            line_end(s@, from as int) == line_end(s@, i as int),
        decreases s@.len() - i,
    {
        if i + 1 >= s.len() {
            return None;
        }
        if s[i] == 13 && s[i + 1] == 10 {
            return Some(i);
        }
        i = i + 1;
    }
    None
}

pub open spec fn shifted(r: Result<(Frame, int), DecodeError>, k: int) -> Result<(Frame, int), DecodeError> {
    match r {
        Ok((f, c)) => Ok((f, c + k)),
        Err(e) => Err(e),
    }
}

pub open spec fn after(fs: Seq<Frame>, k: int, r: Result<(Seq<Frame>, int), DecodeError>) -> Result<
    (Seq<Frame>, int),
    DecodeError,
> {
    match r {
        Ok((gs, d)) => Ok((fs + gs, k + d)),
        Err(e) => Err(e),
    }
}

proof fn lemma_array_view(v: Vec<RedisObject>)
    ensures
        RedisObject::Array(v)@ == Frame::Arr(views(v@)),
{
    let o = RedisObject::Array(v);
    assert(o@ is Arr);
    assert(o@->Arr_0.len() == v@.len());
    assert forall|i: int| 0 <= i < v@.len() implies o@->Arr_0[i] == views(v@)[i] by {}
    assert(o@->Arr_0 =~= views(v@));
}

/// A frame that is one line, or a bulk string; `stream` starts at its tag.
fn parse_line(stream: &[u8], t: DataType) -> (r: Result<(RedisObject, usize), DecodeError>)
    requires
        stream@.len() >= 1,
    ensures
        frame_view(r) == line_item(stream@, t),
        r matches Ok((_, c)) ==> 0 < c <= stream@.len(),
{
    let len = stream.len();
    proof {
        lemma_line_end(stream@, 1);
    }
    let e = match find_crlf(stream, 1) {
        Some(e) => e,
        None => {
            return Err(DecodeError::Incomplete);
        },
    };
    assert(crlf_at(stream@, e as int));
    let token = &stream[1..e];
    assert(token@ =~= stream@.subrange(1, e as int));
    match t {
        DataType::SimpleString => Ok((RedisObject::SimpleString(slice_to_vec(token)), e + 2)),
        DataType::SimpleErr => Ok((RedisObject::SimpleErr(slice_to_vec(token)), e + 2)),
        DataType::Integer => match parse_i32(token) {
            Some(v) => Ok((RedisObject::Integer(v), e + 2)),
            None => Err(DecodeError::BadInteger),
        },
        _ => {
            let n = match parse_usize(token) {
                Some(n) => n,
                None => {
                    return Err(DecodeError::BadLength);
                },
            };
            if n > stream.len() - (e + 2) || stream.len() - (e + 2) - n < 2 {
                return Err(DecodeError::Incomplete);
            }
            if !(stream[e + 2 + n] == 13 && stream[e + 3 + n] == 10) {
                return Err(DecodeError::LengthMismatch);
            }
            let payload = &stream[e + 2..e + 2 + n];
            assert(payload@ =~= stream@.subrange(e + 2, e + 2 + n));
            Ok((RedisObject::BulkString(n, slice_to_vec(payload)), e + 4 + n))
        },
    }
}

impl<'a> RESPParser<'a> {
    /// Decodes one item at the start of `stream`: a value, or nothing for a
    /// stray `\r\n`; with the number of bytes it takes.
    pub fn parse_object(stream: &[u8]) -> (r: Result<(Option<RedisObject>, usize), DecodeError>)
        ensures
            item_view(r) == item(stream@),
            r matches Ok((_, c)) ==> 0 < c <= stream@.len(),
        decreases stream@.len(), 0int,
    {
        if stream.len() == 0 {
            return Err(DecodeError::Incomplete);
        }
        if stream.len() >= 2 && stream[0] == 13 && stream[1] == 10 {
            return Ok((None, 2));
        }
        match DataType::from_byte(stream[0]) {
            None => Err(DecodeError::UnknownType),
            Some(DataType::Array) => {
                let body = &stream[1..stream.len()];
                assert(body@ =~= stream@.drop_first());
                match Self::parse_array(body) {
                    Ok((o, c)) => Ok((Some(o), c + 1)),
                    Err(e) => Err(e),
                }
            },
            Some(t) => match parse_line(stream, t) {
                Ok((o, c)) => Ok((Some(o), c)),
                Err(e) => Err(e),
            },
        }
    }

    /// Decodes an array whose tag has been read: a count line, then that
    /// many elements; whatever follows them is left alone.
    pub fn parse_array(stream: &[u8]) -> (r: Result<(RedisObject, usize), DecodeError>)
        ensures
            frame_view(r) == array_body(stream@),
            r matches Ok((_, c)) ==> 0 < c <= stream@.len(),
        decreases stream@.len(), 1int,
    {
        let len = stream.len();
        proof {
            lemma_line_end(stream@, 0);
        }
        let e = match find_crlf(stream, 0) {
            Some(e) => e,
            None => {
                return Err(DecodeError::Incomplete);
            },
        };
        assert(crlf_at(stream@, e as int));
        let count = &stream[0..e];
        assert(count@ =~= stream@.subrange(0, e as int));
        let n = match parse_usize(count) {
            Some(n) => n,
            None => {
                return Err(DecodeError::BadLength);
            },
        };
        let start: usize = e + 2;
        let ghost b0 = stream@.subrange(start as int, stream@.len() as int);
        let mut objects: Vec<RedisObject> = Vec::new();
        let mut pos: usize = start;
        let mut left: usize = n;
        proof {
            assert(stream@.subrange(pos as int, stream@.len() as int) == b0);
            let r = elements(b0, n as nat);
            match r {
                Ok((gs, d)) => {
                    assert(views(objects@) + gs =~= gs);
                },
                Err(_) => {},
            }
        }
        while left > 0
            invariant
                start <= pos <= stream@.len(),
                b0 == stream@.subrange(start as int, stream@.len() as int),
                array_body(stream@) == match elements(b0, n as nat) {
                    Ok((fs, c)) => Ok((Frame::Arr(fs), start + c)),
                    Err(x) => Err(x),
                },
                elements(b0, n as nat) == after(
                    views(objects@),
                    pos - start,
                    elements(stream@.subrange(pos as int, stream@.len() as int), left as nat),
                ),
            decreases stream@.len() - pos,
        {
            let rest = &stream[pos..stream.len()];
            let ghost rv = rest@;
            assert(rv =~= stream@.subrange(pos as int, stream@.len() as int));
            match Self::parse_object(rest) {
                Err(x) => {
                    return Err(x);
                },
                Ok((x, c)) => {
                    let ghost xv = opt_view(x);
                    let ghost old_views = views(objects@);
                    let ghost next_left: nat = if x is Some {
                        (left - 1) as nat
                    } else {
                        left as nat
                    };
                    assert(rv.subrange(c as int, rv.len() as int) =~= stream@.subrange(
                        pos + c,
                        stream@.len() as int,
                    ));
                    match x {
                        Some(o) => {
                            objects.push(o);
                            left = left - 1;
                        },
                        None => {},
                    }
                    proof {
                        assert(views(objects@) =~= match xv {
                            Some(f) => old_views.push(f),
                            None => old_views,
                        });
                        let tail = elements(
                            stream@.subrange(pos + c, stream@.len() as int),
                            next_left,
                        );
                        match tail {
                            Ok((gs, d)) => {
                                assert(views(objects@) + gs =~= old_views + prepend(xv, gs));
                            },
                            Err(_) => {},
                        }
                    }
                    pos = pos + c;
                },
            }
        }
        proof {
            lemma_array_view(objects);
            match elements(b0, n as nat) {
                Ok((fs, c)) => {
                    assert(views(objects@) + seq![] =~= views(objects@));
                },
                Err(_) => {},
            }
        }
        Ok((RedisObject::Array(objects), pos))
    }
}

/// Decodes the first value of `buf`, skipping stray `\r\n` before it;
/// returns it with the number of bytes taken. Bytes after it are left alone.
pub fn decode_frame(buf: &[u8]) -> (r: Result<(RedisObject, usize), DecodeError>)
    ensures
        frame_view(r) == decode(buf@),
        r matches Ok((o, _)) ==> frame_wf(o@),
        r matches Ok((_, c)) ==> 0 < c <= buf@.len(),
{
    let len = buf.len();
    let mut skip: usize = 0;
    proof {
        lemma_decoded_wf(buf@);
    }
    assert(buf@.subrange(0, len as int) =~= buf@);
    while skip < len && len - skip >= 2 && buf[skip] == 13 && buf[skip + 1] == 10
        invariant
            len == buf@.len(),
            skip <= len,
            decode(buf@) == shifted(decode(buf@.subrange(skip as int, len as int)), skip as int),
        decreases len - skip,
    {
        let ghost sub = buf@.subrange(skip as int, len as int);
        assert(crlf_at(sub, 0));
        assert(sub.subrange(2, sub.len() as int) =~= buf@.subrange(skip + 2, len as int));
        skip = skip + 2;
    }
    let rest = &buf[skip..len];
    assert(rest@ =~= buf@.subrange(skip as int, len as int));
    match RESPParser::parse_object(rest) {
        Ok((Some(o), c)) => Ok((o, skip + c)),
        Ok((None, _)) => Err(DecodeError::Incomplete),
        Err(e) => Err(e),
    }
}

impl<'a> RESPParser<'a> {
    pub closed spec fn input(&self) -> Seq<u8> {
        self.stream@
    }

    /// How many bytes of the input have been decoded.
    pub closed spec fn position(&self) -> int {
        self.pos as int
    }

    pub closed spec fn wf(&self) -> bool {
        self.pos <= self.stream@.len()
    }

    /// The input that has not been decoded yet.
    pub open spec fn rest(&self) -> Seq<u8> {
        self.input().subrange(self.position(), self.input().len() as int)
    }

    pub fn new(stream: &'a [u8]) -> (r: Self)
        ensures
            r.wf(),
            r.input() == stream@,
            r.position() == 0,
    {
        Self { stream, pos: 0 }
    }

    /// Number of bytes decoded so far.
    pub fn consumed(&self) -> (r: usize)
        ensures
            r == self.position(),
    {
        self.pos
    }

    /// Decodes the next value and moves past it; on an error nothing moves.
    pub fn parse(&mut self) -> (r: Result<RedisObject, DecodeError>)
        requires
            old(self).wf(),
        ensures
            final(self).wf(),
            final(self).input() == old(self).input(),
            match decode(old(self).rest()) {
                Ok((f, c)) => r matches Ok(o) && o@ == f && final(self).position()
                    == old(self).position() + c,
                Err(e) => r == Err::<RedisObject, DecodeError>(e) && final(self).position()
                    == old(self).position(),
            },
    {
        let rest = &self.stream[self.pos..self.stream.len()];
        assert(rest@ =~= self.rest());
        match decode_frame(rest) {
            Ok((o, c)) => {
                self.pos = self.pos + c;
                Ok(o)
            },
            Err(e) => Err(e),
        }
    }
}

/// `$`, the decimal length, `\r\n`, the payload, `\r\n`.
pub open spec fn bulk_bytes(p: Seq<u8>) -> Seq<u8> {
    seq![36u8] + decimal(p.len()) + crlf() + p + crlf()
}

/// `+`, the text, `\r\n`.
pub open spec fn simple_bytes(p: Seq<u8>) -> Seq<u8> {
    seq![43u8] + p + crlf()
}

/// The bulk strings of `items`, one after the other.
pub open spec fn bulks(items: Seq<Seq<u8>>) -> Seq<u8>
    decreases items.len(),
{
    if items.len() == 0 {
        seq![]
    } else {
        bulk_bytes(items[0]) + bulks(items.drop_first())
    }
}

/// `*`, the decimal count, `\r\n`, then each item as a bulk string.
pub open spec fn array_bytes(items: Seq<Seq<u8>>) -> Seq<u8> {
    seq![42u8] + decimal(items.len()) + crlf() + bulks(items)
}

/// The reply for a missing key.
pub open spec fn null_bulk_bytes() -> Seq<u8> {
    seq![36u8, 45u8, 49u8, 13u8, 10u8]
}

/// The one error reply: `-Error\r\n`.
pub open spec fn error_bytes() -> Seq<u8> {
    seq![45u8, 69u8, 114u8, 114u8, 111u8, 114u8, 13u8, 10u8]
}

pub open spec fn slice_views(strings: Seq<&[u8]>) -> Seq<Seq<u8>> {
    Seq::new(strings.len(), |i: int| strings[i]@)
}

proof fn lemma_bulks_push(items: Seq<Seq<u8>>, x: Seq<u8>)
    ensures
        bulks(items.push(x)) == bulks(items) + bulk_bytes(x),
    decreases items.len(),
{
    if items.len() == 0 {
        assert(items.push(x).drop_first() =~= Seq::<Seq<u8>>::empty());
        assert(items.push(x)[0] == x);
        assert(bulks(Seq::<Seq<u8>>::empty()) == Seq::<u8>::empty());
        assert(bulks(items.push(x)) =~= bulk_bytes(x) + Seq::<u8>::empty());
        assert(bulks(items) =~= Seq::<u8>::empty());
    } else {
        lemma_bulks_push(items.drop_first(), x);
        assert(items.push(x).drop_first() =~= items.drop_first().push(x));
        assert(bulks(items.push(x)) =~= bulks(items) + bulk_bytes(x));
    }
}

fn push_crlf(out: &mut Vec<u8>)
    ensures
        final(out)@ == old(out)@ + crlf(),
{
    out.push(13);
    out.push(10);
    assert(final(out)@ =~= old(out)@ + crlf());
}

/// Writes `s` as a bulk string.
pub fn serialize_to_bulk_string(s: &[u8]) -> (r: Vec<u8>)
    ensures
        r@ == bulk_bytes(s@),
{
    let mut out: Vec<u8> = vec![36];
    let mut digits = decimal_bytes(s.len() as u64);
    out.append(&mut digits);
    push_crlf(&mut out);
    out.extend_from_slice(s);
    push_crlf(&mut out);
    assert(out@ =~= bulk_bytes(s@));
    out
}

/// Writes `s` as a simple string.
pub fn serialize_to_simple_string(s: &[u8]) -> (r: Vec<u8>)
    ensures
        r@ == simple_bytes(s@),
{
    let mut out: Vec<u8> = vec![43];
    out.extend_from_slice(s);
    push_crlf(&mut out);
    assert(out@ =~= simple_bytes(s@));
    out
}

/// Writes `strings` as an array of bulk strings.
pub fn serialize_to_array(strings: &[&[u8]]) -> (r: Vec<u8>)
    ensures
        r@ == array_bytes(slice_views(strings@)),
{
    let ghost items = slice_views(strings@);
    let mut out: Vec<u8> = vec![42];
    let mut digits = decimal_bytes(strings.len() as u64);
    out.append(&mut digits);
    push_crlf(&mut out);
    let ghost head = out@;
    let mut i: usize = 0;
    assert(items.take(0) =~= Seq::<Seq<u8>>::empty());
    while i < strings.len()
        invariant
            i <= strings@.len(),
            items == slice_views(strings@),
            head == seq![42u8] + decimal(items.len()) + crlf(),
            out@ == head + bulks(items.take(i as int)),
        decreases strings@.len() - i,
    {
        let mut b = serialize_to_bulk_string(strings[i]);
        proof {
            lemma_bulks_push(items.take(i as int), items[i as int]);
            assert(items.take(i as int).push(items[i as int]) =~= items.take(i + 1));
        }
        out.append(&mut b);
        assert(out@ =~= head + bulks(items.take(i + 1)));
        i = i + 1;
    }
    assert(items.take(i as int) =~= items);
    assert(out@ =~= array_bytes(items));
    out
}

/// The reply for a missing key: a null bulk string.
pub fn null_bulk_string() -> (r: Vec<u8>)
    ensures
        r@ == null_bulk_bytes(),
{
    let r: Vec<u8> = vec![36, 45, 49, 13, 10];
    assert(r@ =~= null_bulk_bytes());
    r
}

/// The one error reply.
pub fn error_reply() -> (r: Vec<u8>)
    ensures
        r@ == error_bytes(),
{
    let r: Vec<u8> = vec![45, 69, 114, 114, 111, 114, 13, 10];
    assert(r@ =~= error_bytes());
    r
}

/// `p` holds the delimiter `\r\n` somewhere.
pub open spec fn has_crlf(p: Seq<u8>) -> bool {
    exists|j: int| crlf_at(p, j)
}

/// What an array of bulk strings decodes to.
pub open spec fn bulk_frames(items: Seq<Seq<u8>>) -> Seq<Frame> {
    Seq::new(items.len(), |i: int| Frame::Bulk(items[i].len(), items[i]))
}

proof fn lemma_first_line(b: Seq<u8>, from: int, e: int)
    requires
        0 <= from <= e,
        crlf_at(b, e),
        forall|j: int| from <= j < e ==> !crlf_at(b, j),
    ensures
        line_end(b, from) == Some(e),
{
    lemma_line_end(b, from);
    match line_end(b, from) {
        Some(x) => {
            if x < e {
                assert(!crlf_at(b, x));
            } else if x > e {
                assert(!crlf_at(b, e));
            }
        },
        None => {
            assert(!crlf_at(b, e));
        },
    }
}

proof fn lemma_bulk_item(p: Seq<u8>, rest: Seq<u8>)
    requires
        p.len() <= usize::MAX,
    ensures
        item(bulk_bytes(p) + rest) == Ok::<(Option<Frame>, int), DecodeError>(
            (Some(Frame::Bulk(p.len(), p)), bulk_bytes(p).len() as int),
        ),
{
    let d = decimal(p.len());
    let k = d.len() as int;
    let n = p.len() as int;
    let b = bulk_bytes(p) + rest;
    lemma_decimal_digits(p.len());
    lemma_decimal_round_trip(p.len());
    assert(b =~= seq![36u8] + d + crlf() + p + crlf() + rest);
    assert(b[0] == 36u8);
    assert forall|j: int| 1 <= j < 1 + k implies !crlf_at(b, j) by {
        assert(b[j] == d[j - 1]);
        assert(is_digit(d[j - 1]));
    }
    assert(b[1 + k] == 13u8 && b[2 + k] == 10u8);
    lemma_first_line(b, 1, 1 + k);
    assert(b.subrange(1, 1 + k) =~= d);
    assert(b[3 + k + n] == 13u8 && b[4 + k + n] == 10u8);
    assert(b.subrange(3 + k, 3 + k + n) =~= p);
}

proof fn lemma_simple_item(tag: u8, p: Seq<u8>, rest: Seq<u8>)
    requires
        tag == 43u8 || tag == 45u8,
        !has_crlf(p),
    ensures
        item(seq![tag] + p + crlf() + rest) == Ok::<(Option<Frame>, int), DecodeError>(
            (
                Some(
                    if tag == 43u8 {
                        Frame::Simple(p)
                    } else {
                        Frame::Error(p)
                    },
                ),
                p.len() + 3int,
            ),
        ),
{
    let n = p.len() as int;
    let b = seq![tag] + p + crlf() + rest;
    assert(b[0] == tag);
    assert forall|j: int| 1 <= j < 1 + n implies !crlf_at(b, j) by {
        assert(b[j] == p[j - 1]);
        if j + 1 < 1 + n {
            assert(b[j + 1] == p[j]);
            assert(!crlf_at(p, j - 1));
        } else {
            assert(b[j + 1] == 13u8);
        }
    }
    assert(b[1 + n] == 13u8 && b[2 + n] == 10u8);
    lemma_first_line(b, 1, 1 + n);
    assert(b.subrange(1, 1 + n) =~= p);
}

proof fn lemma_elements_bulks(items: Seq<Seq<u8>>, rest: Seq<u8>)
    requires
        forall|i: int| 0 <= i < items.len() ==> (#[trigger] items[i]).len() <= usize::MAX,
    ensures
        elements(bulks(items) + rest, items.len()) == Ok::<(Seq<Frame>, int), DecodeError>(
            (bulk_frames(items), bulks(items).len() as int),
        ),
    decreases items.len(),
{
    if items.len() == 0 {
        assert(bulk_frames(items) =~= Seq::<Frame>::empty());
    } else {
        let tail = items.drop_first();
        let first = bulk_bytes(items[0]);
        let b = bulks(items) + rest;
        assert(b =~= first + (bulks(tail) + rest));
        lemma_bulk_item(items[0], bulks(tail) + rest);
        lemma_elements_bulks(tail, rest);
        assert(b.subrange(first.len() as int, b.len() as int) =~= bulks(tail) + rest);
        assert(seq![Frame::Bulk(items[0].len(), items[0])] + bulk_frames(tail) =~= bulk_frames(
            items,
        ));
    }
}

proof fn lemma_array_item(items: Seq<Seq<u8>>, rest: Seq<u8>)
    requires
        items.len() <= usize::MAX,
        forall|i: int| 0 <= i < items.len() ==> (#[trigger] items[i]).len() <= usize::MAX,
    ensures
        item(array_bytes(items) + rest) == Ok::<(Option<Frame>, int), DecodeError>(
            (Some(Frame::Arr(bulk_frames(items))), array_bytes(items).len() as int),
        ),
{
    let d = decimal(items.len());
    let k = d.len() as int;
    let b = array_bytes(items) + rest;
    let body = b.drop_first();
    lemma_decimal_digits(items.len());
    lemma_decimal_round_trip(items.len());
    assert(b[0] == 42u8);
    assert(body =~= d + crlf() + (bulks(items) + rest));
    assert forall|j: int| 0 <= j < k implies !crlf_at(body, j) by {
        assert(body[j] == d[j]);
        assert(is_digit(d[j]));
    }
    assert(body[k] == 13u8 && body[k + 1] == 10u8);
    lemma_first_line(body, 0, k);
    assert(body.subrange(0, k) =~= d);
    assert(body.subrange(k + 2, body.len() as int) =~= bulks(items) + rest);
    lemma_elements_bulks(items, rest);
}

/// A bulk string that the encoder writes decodes to the same payload, with
/// its length, and takes exactly the bytes written.
pub proof fn lemma_bulk_string_round_trip(p: Seq<u8>)
    requires
        p.len() <= usize::MAX,
    ensures
        decode(bulk_bytes(p)) == Ok::<(Frame, int), DecodeError>(
            (Frame::Bulk(p.len(), p), bulk_bytes(p).len() as int),
        ),
{
    lemma_bulk_item(p, seq![]);
    assert(bulk_bytes(p) + seq![] =~= bulk_bytes(p));
    assert(bulk_bytes(p)[0] == 36u8);
}

/// A simple string that the encoder writes decodes to the same text and
/// takes exactly the bytes written, when the text holds no `\r\n`.
pub proof fn lemma_simple_string_round_trip(p: Seq<u8>)
    requires
        !has_crlf(p),
    ensures
        decode(simple_bytes(p)) == Ok::<(Frame, int), DecodeError>(
            (Frame::Simple(p), simple_bytes(p).len() as int),
        ),
{
    lemma_simple_item(43u8, p, seq![]);
    assert(seq![43u8] + p + crlf() + seq![] =~= simple_bytes(p));
    assert(simple_bytes(p)[0] == 43u8);
}

/// The error reply decodes to the error `Error` and takes all its bytes.
pub proof fn lemma_error_reply_round_trip()
    ensures
        decode(error_bytes()) == Ok::<(Frame, int), DecodeError>(
            (Frame::Error(seq![69u8, 114u8, 114u8, 111u8, 114u8]), 8),
        ),
{
    let p = seq![69u8, 114u8, 114u8, 111u8, 114u8];
    assert forall|j: int| !crlf_at(p, j) by {
        if 0 <= j < 5 {
            assert(p[j] != 13u8);
        }
    }
    lemma_simple_item(45u8, p, seq![]);
    assert(seq![45u8] + p + crlf() + seq![] =~= error_bytes());
}

/// An array of bulk strings that the encoder writes decodes to the same
/// strings, in order, and takes exactly the bytes written.
pub proof fn lemma_array_round_trip(items: Seq<Seq<u8>>)
    requires
        items.len() <= usize::MAX,
        forall|i: int| 0 <= i < items.len() ==> (#[trigger] items[i]).len() <= usize::MAX,
    ensures
        decode(array_bytes(items)) == Ok::<(Frame, int), DecodeError>(
            (Frame::Arr(bulk_frames(items)), array_bytes(items).len() as int),
        ),
{
    lemma_array_item(items, seq![]);
    assert(array_bytes(items) + seq![] =~= array_bytes(items));
    assert(array_bytes(items)[0] == 42u8);
}

/// Two commands sent back to back: the first decodes alone, and what is
/// left after the bytes it took decodes to the second, unchanged.
pub proof fn lemma_pipelined_commands(a: Seq<Seq<u8>>, b: Seq<Seq<u8>>)
    requires
        a.len() <= usize::MAX,
        forall|i: int| 0 <= i < a.len() ==> (#[trigger] a[i]).len() <= usize::MAX,
        b.len() <= usize::MAX,
        forall|i: int| 0 <= i < b.len() ==> (#[trigger] b[i]).len() <= usize::MAX,
    ensures
        decode(array_bytes(a) + array_bytes(b)) == Ok::<(Frame, int), DecodeError>(
            (Frame::Arr(bulk_frames(a)), array_bytes(a).len() as int),
        ),
        decode(
            (array_bytes(a) + array_bytes(b)).subrange(
                array_bytes(a).len() as int,
                (array_bytes(a) + array_bytes(b)).len() as int,
            ),
        ) == Ok::<(Frame, int), DecodeError>(
            (Frame::Arr(bulk_frames(b)), array_bytes(b).len() as int),
        ),
{
    lemma_array_item(a, array_bytes(b));
    assert((array_bytes(a) + array_bytes(b))[0] == 42u8);
    assert((array_bytes(a) + array_bytes(b)).subrange(
        array_bytes(a).len() as int,
        (array_bytes(a) + array_bytes(b)).len() as int,
    ) =~= array_bytes(b));
    lemma_array_round_trip(b);
}

/// A bulk string whose declared length is not the length of the payload
/// that follows never decodes.
pub proof fn lemma_bulk_length_mismatch(n: nat, p: Seq<u8>)
    requires
        n != p.len(),
        !has_crlf(p),
    ensures
        decode(seq![36u8] + decimal(n) + crlf() + p + crlf()) is Err,
{
    let d = decimal(n);
    let k = d.len() as int;
    let m = p.len() as int;
    let b = seq![36u8] + d + crlf() + p + crlf();
    lemma_decimal_digits(n);
    lemma_decimal_round_trip(n);
    assert(b[0] == 36u8);
    assert forall|j: int| 1 <= j < 1 + k implies !crlf_at(b, j) by {
        assert(b[j] == d[j - 1]);
        assert(is_digit(d[j - 1]));
    }
    assert(b[1 + k] == 13u8 && b[2 + k] == 10u8);
    lemma_first_line(b, 1, 1 + k);
    assert(b.subrange(1, 1 + k) =~= d);
    if n < m {
        let j = 3 + k + n;
        assert(b[j] == p[n as int]);
        if n + 1 < m {
            assert(b[j + 1] == p[n + 1int]);
            assert(!crlf_at(p, n as int));
        } else {
            assert(b[j + 1] == 13u8);
        }
    }
}

/// The non-empty pieces of `s` between `\r\n` delimiters, in order.
pub open spec fn lines(s: Seq<u8>) -> Seq<Seq<u8>>
    decreases s.len(),
{
    proof {
        lemma_line_end(s, 0);
    }
    match line_end(s, 0) {
        Some(e) => (if e > 0 {
            seq![s.subrange(0, e)]
        } else {
            seq![]
        }) + lines(s.subrange(e + 2, s.len() as int)),
        None => if s.len() > 0 {
            seq![s]
        } else {
            seq![]
        },
    }
}

pub open spec fn byte_views(v: Seq<Vec<u8>>) -> Seq<Seq<u8>> {
    Seq::new(v.len(), |i: int| v[i]@)
}

/// Splits `stream` at each `\r\n` and keeps the pieces that are not empty.
pub fn split_by_line(stream: &[u8]) -> (r: Vec<Vec<u8>>)
    ensures
        byte_views(r@) == lines(stream@),
{
    let len = stream.len();
    let mut out: Vec<Vec<u8>> = Vec::new();
    let mut start: usize = 0;
    assert(stream@.subrange(0, len as int) =~= stream@);
    assert(byte_views(out@) + lines(stream@) =~= lines(stream@));
    while start < len
        invariant
            len == stream@.len(),
            start <= len,
            byte_views(out@) + lines(stream@.subrange(start as int, len as int)) == lines(stream@),
        decreases len - start,
    {
        let rest = &stream[start..len];
        let ghost rv = rest@;
        assert(rv =~= stream@.subrange(start as int, len as int));
        let ghost before = byte_views(out@);
        proof {
            lemma_line_end(rv, 0);
        }
        match find_crlf(rest, 0) {
            Some(e) => {
                assert(rv.subrange(e + 2, rv.len() as int) =~= stream@.subrange(
                    start + e + 2,
                    len as int,
                ));
                if e > 0 {
                    let piece = slice_to_vec(&rest[0..e]);
                    assert(piece@ =~= rv.subrange(0, e as int));
                    out.push(piece);
                    assert(byte_views(out@) =~= before.push(rv.subrange(0, e as int)));
                    assert(byte_views(out@) + lines(rv.subrange(e + 2, rv.len() as int))
                        =~= before + lines(rv));
                } else {
                    assert(before + lines(rv.subrange(e + 2, rv.len() as int)) =~= before + lines(
                        rv,
                    ));
                }
                start = start + e + 2;
            },
            None => {
                let piece = slice_to_vec(rest);
                out.push(piece);
                assert(byte_views(out@) =~= before.push(rv));
                assert(stream@.subrange(len as int, len as int) =~= Seq::<u8>::empty());
                assert(lines(Seq::<u8>::empty()) == Seq::<Seq<u8>>::empty()) by {
                    lemma_line_end(Seq::<u8>::empty(), 0);
                }
                assert(byte_views(out@) + lines(stream@.subrange(len as int, len as int))
                    =~= before + lines(rv));
                start = len;
            },
        }
    }
    assert(stream@.subrange(start as int, len as int) =~= Seq::<u8>::empty());
    assert(lines(Seq::<u8>::empty()) == Seq::<Seq<u8>>::empty()) by {
        lemma_line_end(Seq::<u8>::empty(), 0);
    }
    assert(byte_views(out@) =~= byte_views(out@) + Seq::<Seq<u8>>::empty());
    out
}

pub proof fn lemma_item_wf(b: Seq<u8>)
    ensures
        item(b) matches Ok((Some(f), _)) ==> frame_wf(f),
    decreases b.len(), 0int,
{
    if b.len() > 0 && !crlf_at(b, 0) && tag_of(b[0]) == Some(DataType::Array) {
        lemma_array_wf(b.drop_first());
    } else {
        lemma_line_end(b, 1);
    }
}

pub proof fn lemma_array_wf(b: Seq<u8>)
    ensures
        array_body(b) matches Ok((f, _)) ==> frame_wf(f),
    decreases b.len(), 1int,
{
    lemma_line_end(b, 0);
    if let Some(e) = line_end(b, 0) {
        if let Some(n) = usize_of(b.subrange(0, e)) {
            lemma_elements_wf(b.subrange(e + 2, b.len() as int), n as nat);
        }
    }
}

pub proof fn lemma_elements_wf(b: Seq<u8>, n: nat)
    ensures
        elements(b, n) matches Ok((fs, _)) ==> forall|i: int|
            0 <= i < fs.len() ==> frame_wf(#[trigger] fs[i]),
    decreases b.len(), 2int,
{
    if n > 0 {
        lemma_item_wf(b);
        if let Ok((x, c)) = item(b) {
            if 0 < c <= b.len() {
                let left: nat = if x is Some {
                    (n - 1) as nat
                } else {
                    n
                };
                lemma_elements_wf(b.subrange(c, b.len() as int), left);
                if let Ok((fs, d)) = elements(b.subrange(c, b.len() as int), left) {
                    let all = prepend(x, fs);
                    assert forall|i: int| 0 <= i < all.len() implies frame_wf(#[trigger] all[i]) by {
                        if x is Some && i > 0 {
                            assert(all[i] == fs[i - 1]);
                        }
                    }
                }
            }
        }
    }
}

/// Every value the decoder produces is well formed.
pub proof fn lemma_decoded_wf(b: Seq<u8>)
    ensures
        decode(b) matches Ok((f, _)) ==> frame_wf(f),
    decreases b.len(),
{
    if crlf_at(b, 0) {
        lemma_decoded_wf(b.subrange(2, b.len() as int));
    } else {
        lemma_item_wf(b);
    }
}

} // verus!
