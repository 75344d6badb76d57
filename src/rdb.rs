//! The snapshot file: a header, a metadata section, then the keyspace, each
//! length and small integer written in the length encoding, whose leading
//! two bits pick the form.
use vstd::prelude::*;
use vstd::slice::slice_to_vec;
use crate::decimal::{decimal, decimal_bytes};
use crate::store::{map_of, Store, Stored};

verus! {

/// Why a snapshot does not load.
#[derive(PartialEq, Eq, Structural, Clone, Copy, Debug)]
pub enum SnapshotError {
    /// The file does not open with the magic signature.
    BadHeader,
    /// The file ends early or breaks the grammar.
    Malformed,
    /// An encoding or a value type that this reader does not implement.
    Unsupported,
}

/// A string or an integer, as the length encoding writes them.
#[derive(Debug)]
pub enum RDBFileObject {
    Str(Vec<u8>),
    Integer(i64),
}

pub enum ObjectView {
    Str(Seq<u8>),
    Integer(int),
}

impl View for RDBFileObject {
    type V = ObjectView;

    open spec fn view(&self) -> ObjectView {
        match self {
            RDBFileObject::Str(s) => ObjectView::Str(s@),
            RDBFileObject::Integer(v) => ObjectView::Integer(*v as int),
        }
    }
}

/// `256` to the power `n`.
pub open spec fn span(n: nat) -> nat
    decreases n,
{
    if n == 0 {
        1
    } else {
        256 * span((n - 1) as nat)
    }
}

/// Bytes read as an unsigned big-endian number.
pub open spec fn be_unsigned(b: Seq<u8>) -> nat
    decreases b.len(),
{
    if b.len() == 0 {
        0
    } else {
        be_unsigned(b.drop_last()) * 256 + b.last() as nat
    }
}

/// Bytes read as a two's complement big-endian number.
pub open spec fn be_signed(b: Seq<u8>) -> int {
    if b.len() > 0 && b[0] >= 128 {
        be_unsigned(b) - span(b.len())
    } else {
        be_unsigned(b) as int
    }
}

/// The width in bytes of the integer form whose low six bits are `low`.
pub open spec fn int_width(low: int) -> int {
    if low == 0 {
        1
    } else if low == 1 {
        2
    } else {
        4
    }
}

/// A length at the start of `d`, with the bytes it takes. The two leading
/// bits pick: `00` six bits, `01` fourteen bits (six, then a byte), `11` a
/// big-endian integer of 1, 2 or 4 bytes (low bits 0, 1, 2).
pub open spec fn length_spec(d: Seq<u8>) -> Result<(nat, int), SnapshotError> {
    if d.len() == 0 {
        Err(SnapshotError::Malformed)
    } else {
        let kind = d[0] / 64;
        let low = d[0] % 64;
        if kind == 0 {
            Ok((low as nat, 1))
        } else if kind == 1 {
            if d.len() < 2 {
                Err(SnapshotError::Malformed)
            } else {
                Ok(((low * 256 + d[1]) as nat, 2))
            }
        } else if kind == 2 || low > 2 {
            Err(SnapshotError::Unsupported)
        } else {
            let w = int_width(low as int);
            if d.len() < 1 + w {
                Err(SnapshotError::Malformed)
            } else {
                Ok((be_unsigned(d.subrange(1, 1 + w)), 1 + w))
            }
        }
    }
}

/// A string or integer at the start of `d`, with the bytes it takes: a
/// length-prefixed string for the forms `00` and `01`, a signed integer of
/// 1, 2 or 4 bytes for the form `11`.
pub open spec fn object_spec(d: Seq<u8>) -> Result<(ObjectView, int), SnapshotError> {
    if d.len() == 0 {
        Err(SnapshotError::Malformed)
    } else if d[0] / 64 == 3 {
        let low = d[0] % 64;
        if low > 2 {
            Err(SnapshotError::Unsupported)
        } else {
            let w = int_width(low as int);
            if d.len() < 1 + w {
                Err(SnapshotError::Malformed)
            } else {
                Ok((ObjectView::Integer(be_signed(d.subrange(1, 1 + w))), 1 + w))
            }
        }
    } else {
        match length_spec(d) {
            Err(e) => Err(e),
            Ok((n, c)) => if c + n > d.len() {
                Err(SnapshotError::Malformed)
            } else {
                Ok((ObjectView::Str(d.subrange(c, c + n)), c + n))
            },
        }
    }
}

proof fn lemma_be_bound(b: Seq<u8>)
    ensures
        be_unsigned(b) < span(b.len()),
    decreases b.len(),
{
    if b.len() > 0 {
        lemma_be_bound(b.drop_last());
        let u = be_unsigned(b.drop_last());
        let p = span(b.drop_last().len());
        assert(u * 256 + b.last() < p * 256) by (nonlinear_arith)
            requires
                u < p,
                b.last() < 256,
        ;
    }
}

proof fn lemma_span_values()
    ensures
        span(1) == 256,
        span(2) == 65536,
        span(4) == 4294967296,
        span(8) == 18446744073709551616,
{
    reveal_with_fuel(span, 9);
}

/// Reads `width` bytes from `start` as an unsigned big-endian number.
fn read_be(b: &[u8], start: usize, width: usize) -> (r: u64)
    requires
        width <= 8,
        start + width <= b@.len(),
    ensures
        r as nat == be_unsigned(b@.subrange(start as int, start + width)),
{
    let len = b.len();
    let mut acc: u64 = 0;
    let mut i: usize = 0;
    proof {
        lemma_span_values();
        assert(b@.subrange(start as int, start as int) =~= Seq::<u8>::empty());
    }
    while i < width
        invariant
            i <= width <= 8,
            start + width <= b@.len(),
            len == b@.len(),
            acc as nat == be_unsigned(b@.subrange(start as int, start + i)),
            span(8) == 18446744073709551616,
        decreases width - i,
    {
        let ghost prefix = b@.subrange(start as int, start + i);
        let ghost next = b@.subrange(start as int, start + i + 1);
        assert(next.drop_last() =~= prefix);
        proof {
            lemma_be_bound(next);
            lemma_span_grows(next.len(), 8);
        }
        acc = acc * 256 + b[start + i] as u64;
        i = i + 1;
    }
    acc
}

proof fn lemma_span_grows(a: nat, b: nat)
    requires
        a <= b,
    ensures
        span(a) <= span(b),
    decreases b - a,
{
    if a < b {
        lemma_span_grows(a, (b - 1) as nat);
    }
}

/// Reads the length at the start of `data`: its value and the bytes it
/// takes.
pub fn decode_length(data: &[u8]) -> (r: Result<(u64, usize), SnapshotError>)
    ensures
        match (r, length_spec(data@)) {
            (Ok((v, c)), Ok((w, d))) => v as nat == w && c as int == d,
            (Err(e), Err(f)) => e == f,
            _ => false,
        },
{
    if data.len() == 0 {
        return Err(SnapshotError::Malformed);
    }
    let kind = data[0] / 64;
    let low = data[0] % 64;
    if kind == 0 {
        Ok((low as u64, 1))
    } else if kind == 1 {
        if data.len() < 2 {
            Err(SnapshotError::Malformed)
        } else {
            Ok((low as u64 * 256 + data[1] as u64, 2))
        }
    } else if kind == 2 || low > 2 {
        Err(SnapshotError::Unsupported)
    } else {
        let w: usize = if low == 0 {
            1
        } else if low == 1 {
            2
        } else {
            4
        };
        if data.len() < 1 + w {
            Err(SnapshotError::Malformed)
        } else {
            Ok((read_be(data, 1, w), 1 + w))
        }
    }
}

/// Reads the string or integer at the start of `data`, with the bytes it
/// takes.
pub fn decode_object(data: &[u8]) -> (r: Result<(RDBFileObject, usize), SnapshotError>)
    ensures
        match (r, object_spec(data@)) {
            (Ok((o, c)), Ok((w, d))) => o@ == w && c as int == d,
            (Err(e), Err(f)) => e == f,
            _ => false,
        },
{
    if data.len() == 0 {
        return Err(SnapshotError::Malformed);
    }
    if data[0] / 64 == 3 {
        let low = data[0] % 64;
        if low > 2 {
            return Err(SnapshotError::Unsupported);
        }
        let w: usize = if low == 0 {
            1
        } else if low == 1 {
            2
        } else {
            4
        };
        if data.len() < 1 + w {
            return Err(SnapshotError::Malformed);
        }
        let u = read_be(data, 1, w);
        let ghost bytes = data@.subrange(1, 1 + w as int);
        proof {
            lemma_span_values();
            lemma_be_bound(bytes);
        }
        let full: i64 = if w == 1 {
            256
        } else if w == 2 {
            65536
        } else {
            4294967296
        };
        let v: i64 = if data[1] >= 128 {
            u as i64 - full
        } else {
            u as i64
        };
        assert(bytes[0] == data@[1]);
        return Ok((RDBFileObject::Integer(v), 1 + w));
    }
    match decode_length(data) {
        Err(e) => Err(e),
        Ok((n, c)) => {
            if n > (data.len() - c) as u64 {
                return Err(SnapshotError::Malformed);
            }
            let end = c + n as usize;
            let s = slice_to_vec(&data[c..end]);
            Ok((RDBFileObject::Str(s), end))
        },
    }
}

pub proof fn lemma_object_bounds(d: Seq<u8>)
    ensures
        object_spec(d) matches Ok((_, c)) ==> 0 < c <= d.len(),
        length_spec(d) matches Ok((_, c)) ==> 0 < c <= d.len(),
{
}

/// `REDIS`
pub open spec fn magic() -> Seq<u8> {
    seq![82u8, 69u8, 68u8, 73u8, 83u8]
}

/// An integer as signed decimal text.
pub open spec fn signed_decimal(v: int) -> Seq<u8> {
    if v < 0 {
        seq![45u8] + decimal((-v) as nat)
    } else {
        decimal(v as nat)
    }
}

/// Metadata values are kept as text: integers as their decimal form.
pub open spec fn object_text(o: ObjectView) -> Seq<u8> {
    match o {
        ObjectView::Str(s) => s,
        ObjectView::Integer(v) => signed_decimal(v),
    }
}

pub type Pairs = Seq<(Seq<u8>, Seq<u8>)>;

/// The metadata pairs from `pos` on: a string key and a value, then
/// another pair wherever the opcode `0xFA` follows. Ends at the first byte
/// after a pair that is not `0xFA`.
pub open spec fn metadata_spec(d: Seq<u8>, pos: int) -> Result<(Pairs, int), SnapshotError>
    decreases d.len() - pos,
{
    if pos < 0 || pos > d.len() {
        Err(SnapshotError::Malformed)
    } else {
        proof {
            lemma_object_bounds(d.subrange(pos, d.len() as int));
        }
        match object_spec(d.subrange(pos, d.len() as int)) {
            Err(e) => Err(e),
            Ok((ObjectView::Integer(_), _)) => Err(SnapshotError::Malformed),
            Ok((ObjectView::Str(k), c1)) => {
                proof {
                    lemma_object_bounds(d.subrange(pos + c1, d.len() as int));
                }
                match object_spec(d.subrange(pos + c1, d.len() as int)) {
                    Err(e) => Err(e),
                    Ok((v, c2)) => {
                        let p = pos + c1 + c2;
                        let pair = (k, object_text(v));
                        if p >= d.len() {
                            Err(SnapshotError::Malformed)
                        } else if d[p] == 0xFA {
                            match metadata_spec(d, p + 1) {
                                Ok((rest, e)) => Ok((seq![pair] + rest, e)),
                                Err(e) => Err(e),
                            }
                        } else {
                            Ok((seq![pair], p))
                        }
                    },
                }
            },
        }
    }
}

/// The optional expiry after an entry's value: `0xFC` and eight bytes of
/// milliseconds, or `0xFD` and four bytes of seconds, both big-endian.
pub open spec fn expiry_spec(d: Seq<u8>, p: int) -> Result<(Option<u64>, int), SnapshotError> {
    if 0 <= p < d.len() && d[p] == 0xFC {
        if p + 9 > d.len() {
            Err(SnapshotError::Malformed)
        } else {
            Ok((Some(be_unsigned(d.subrange(p + 1, p + 9)) as u64), p + 9))
        }
    } else if 0 <= p < d.len() && d[p] == 0xFD {
        if p + 5 > d.len() {
            Err(SnapshotError::Malformed)
        } else {
            Ok((Some((be_unsigned(d.subrange(p + 1, p + 5)) * 1000) as u64), p + 5))
        }
    } else {
        Ok((None, p))
    }
}

pub type Entries = Seq<(Seq<u8>, Stored)>;

/// One entry at `pos`: the value type `0` (a plain string), the key, the
/// value, then the optional expiry.
#[verifier::opaque]
pub open spec fn entry_spec(d: Seq<u8>, pos: int) -> Result<((Seq<u8>, Stored), int), SnapshotError> {
    if pos < 0 || pos >= d.len() {
        Err(SnapshotError::Malformed)
    } else if d[pos] != 0 {
        Err(SnapshotError::Unsupported)
    } else {
        match length_spec(d.subrange(pos + 1, d.len() as int)) {
            Err(e) => Err(e),
            Ok((klen, c1)) => {
                let ks = pos + 1 + c1;
                if ks + klen > d.len() {
                    Err(SnapshotError::Malformed)
                } else {
                    match length_spec(d.subrange(ks + klen, d.len() as int)) {
                        Err(e) => Err(e),
                        Ok((vlen, c2)) => {
                            let vs = ks + klen + c2;
                            if vs + vlen > d.len() {
                                Err(SnapshotError::Malformed)
                            } else {
                                match expiry_spec(d, vs + vlen) {
                                    Err(e) => Err(e),
                                    Ok((exp, q)) => Ok(
                                        (
                                            (
                                                d.subrange(ks, ks + klen),
                                                (exp, d.subrange(vs, vs + vlen)),
                                            ),
                                            q,
                                        ),
                                    ),
                                }
                            }
                        },
                    }
                }
            },
        }
    }
}

/// `count` entries from `pos` on.
pub open spec fn entries_spec(d: Seq<u8>, pos: int, count: nat) -> Result<(Entries, int), SnapshotError>
    decreases count,
{
    if count == 0 {
        Ok((seq![], pos))
    } else {
        match entry_spec(d, pos) {
            Err(e) => Err(e),
            Ok((x, q)) => match entries_spec(d, q, (count - 1) as nat) {
                Ok((rest, e)) => Ok((seq![x] + rest, e)),
                Err(e) => Err(e),
            },
        }
    }
}

/// What a snapshot holds.
pub struct SnapshotView {
    pub metadata: Pairs,
    pub entries: Entries,
}

/// A whole snapshot: the magic `REDIS`, four version bytes, the metadata
/// section (opcode `0xFA`), a database selector opcode and its index, the
/// opcode `0xFB` with the sizes of the hash table and of the expiry table,
/// then as many entries as the hash table size says.
pub open spec fn snapshot_spec(d: Seq<u8>) -> Result<SnapshotView, SnapshotError> {
    if d.len() < 9 || d.subrange(0, 5) != magic() {
        Err(SnapshotError::BadHeader)
    } else if d.len() <= 9 || d[9] != 0xFA {
        Err(SnapshotError::Malformed)
    } else {
        match metadata_spec(d, 10) {
            Err(e) => Err(e),
            Ok((meta, p)) => if p + 2 >= d.len() || d[p + 2] != 0xFB {
                Err(SnapshotError::Malformed)
            } else {
                match length_spec(d.subrange(p + 3, d.len() as int)) {
                    Err(e) => Err(e),
                    Ok((size, c1)) => match length_spec(d.subrange(p + 3 + c1, d.len() as int)) {
                        Err(e) => Err(e),
                        Ok((_, c2)) => match entries_spec(d, p + 3 + c1 + c2, size) {
                            Err(e) => Err(e),
                            Ok((es, _)) => Ok(SnapshotView { metadata: meta, entries: es }),
                        },
                    },
                }
            },
        }
    }
}

pub open spec fn pairs_view(v: Seq<(Vec<u8>, Vec<u8>)>) -> Pairs {
    Seq::new(v.len(), |i: int| (v[i].0@, v[i].1@))
}

pub open spec fn after_pairs(fs: Pairs, r: Result<(Pairs, int), SnapshotError>) -> Result<
    (Pairs, int),
    SnapshotError,
> {
    match r {
        Ok((gs, e)) => Ok((fs + gs, e)),
        Err(e) => Err(e),
    }
}

pub open spec fn after_entries(fs: Entries, r: Result<(Entries, int), SnapshotError>) -> Result<
    (Entries, int),
    SnapshotError,
> {
    match r {
        Ok((gs, e)) => Ok((fs + gs, e)),
        Err(e) => Err(e),
    }
}

/// The text kept for a metadata value.
fn text_bytes(o: RDBFileObject) -> (r: Vec<u8>)
    ensures
        r@ == object_text(o@),
{
    match o {
        RDBFileObject::Str(s) => s,
        RDBFileObject::Integer(v) => if v < 0 {
            let mut out: Vec<u8> = vec![45];
            let mut digits = decimal_bytes((0 - v as i128) as u64);
            out.append(&mut digits);
            assert(out@ =~= signed_decimal(v as int));
            out
        } else {
            decimal_bytes(v as u64)
        },
    }
}

/// Reads the metadata pairs from `start` on; returns them with the position
/// of the byte that ends the section.
fn read_metadata(data: &[u8], start: usize) -> (r: Result<(Vec<(Vec<u8>, Vec<u8>)>, usize), SnapshotError>)
    requires
        start <= data@.len(),
    ensures
        match (r, metadata_spec(data@, start as int)) {
            (Ok((ps, p)), Ok((qs, e))) => pairs_view(ps@) == qs && p as int == e,
            (Err(x), Err(y)) => x == y,
            _ => false,
        },
{
    let len = data.len();
    let ghost d = data@;
    let mut pairs: Vec<(Vec<u8>, Vec<u8>)> = Vec::new();
    let mut pos: usize = start;
    assert(after_pairs(pairs_view(pairs@), metadata_spec(d, pos as int)) =~= metadata_spec(
        d,
        start as int,
    )) by {
        match metadata_spec(d, pos as int) {
            Ok((gs, e)) => {
                assert(pairs_view(pairs@) + gs =~= gs);
            },
            Err(_) => {},
        }
    }
    loop
        invariant
            len == d.len(),
            d == data@,
            start <= pos <= len,
            metadata_spec(d, start as int) == after_pairs(
                pairs_view(pairs@),
                metadata_spec(d, pos as int),
            ),
        decreases len - pos,
    {
        let rest = &data[pos..len];
        assert(rest@ =~= d.subrange(pos as int, len as int));
        proof {
            lemma_object_bounds(rest@);
        }
        let (key, c1) = match decode_object(rest) {
            Err(e) => {
                return Err(e);
            },
            Ok((RDBFileObject::Integer(_), _)) => {
                return Err(SnapshotError::Malformed);
            },
            Ok((RDBFileObject::Str(k), c1)) => (k, c1),
        };
        let rest2 = &data[pos + c1..len];
        assert(rest2@ =~= d.subrange(pos + c1, len as int));
        proof {
            lemma_object_bounds(rest2@);
        }
        let (value, c2) = match decode_object(rest2) {
            Err(e) => {
                return Err(e);
            },
            Ok((v, c2)) => (v, c2),
        };
        let p = pos + c1 + c2;
        let ghost pair = (key@, object_text(value@));
        let text = text_bytes(value);
        let ghost before = pairs_view(pairs@);
        if p >= len {
            return Err(SnapshotError::Malformed);
        }
        pairs.push((key, text));
        assert(pairs_view(pairs@) =~= before.push(pair));
        if data[p] == 0xFA {
            proof {
                match metadata_spec(d, p + 1) {
                    Ok((gs, e)) => {
                        assert(before + (seq![pair] + gs) =~= pairs_view(pairs@) + gs);
                    },
                    Err(_) => {},
                }
            }
            pos = p + 1;
        } else {
            assert(before + seq![pair] =~= pairs_view(pairs@));
            return Ok((pairs, p));
        }
    }
}

/// Reads the optional expiry at `p`.
fn read_expiry(data: &[u8], p: usize) -> (r: Result<(Option<u64>, usize), SnapshotError>)
    requires
        p <= data@.len(),
    ensures
        match (r, expiry_spec(data@, p as int)) {
            (Ok((x, q)), Ok((y, e))) => x == y && q as int == e,
            (Err(x), Err(y)) => x == y,
            _ => false,
        },
{
    let len = data.len();
    if p < len && data[p] == 0xFC {
        if len - p < 9 {
            return Err(SnapshotError::Malformed);
        }
        let ms = read_be(data, p + 1, 8);
        Ok((Some(ms), p + 9))
    } else if p < len && data[p] == 0xFD {
        if len - p < 5 {
            return Err(SnapshotError::Malformed);
        }
        let secs = read_be(data, p + 1, 4);
        proof {
            lemma_span_values();
            lemma_be_bound(data@.subrange(p + 1, p + 5));
        }
        Ok((Some(secs * 1000), p + 5))
    } else {
        Ok((None, p))
    }
}

/// Reads the entry at `pos`: key, expiry, value, and where the next entry
/// starts.
fn read_entry(data: &[u8], pos: usize) -> (r: Result<(Vec<u8>, Option<u64>, Vec<u8>, usize), SnapshotError>)
    requires
        pos <= data@.len(),
    ensures
        match (r, entry_spec(data@, pos as int)) {
            (Ok((k, x, v, q)), Ok(((kk, (xx, vv)), e))) => k@ == kk && x == xx && v@ == vv && q
                as int == e && e <= data@.len(),
            (Err(x), Err(y)) => x == y,
            _ => false,
        },
{
    let len = data.len();
    let ghost d = data@;
    proof {
        reveal(entry_spec);
    }
    if pos >= len {
        return Err(SnapshotError::Malformed);
    }
    if data[pos] != 0 {
        return Err(SnapshotError::Unsupported);
    }
    let rest = &data[pos + 1..len];
    assert(rest@ =~= d.subrange(pos + 1, len as int));
    proof {
        lemma_object_bounds(rest@);
    }
    let (klen, c1) = match decode_length(rest) {
        Err(e) => {
            return Err(e);
        },
        Ok(x) => x,
    };
    let ks = pos + 1 + c1;
    if klen > (len - ks) as u64 {
        return Err(SnapshotError::Malformed);
    }
    let kend = ks + klen as usize;
    let key = slice_to_vec(&data[ks..kend]);
    let rest2 = &data[kend..len];
    assert(rest2@ =~= d.subrange(kend as int, len as int));
    proof {
        lemma_object_bounds(rest2@);
    }
    let (vlen, c2) = match decode_length(rest2) {
        Err(e) => {
            return Err(e);
        },
        Ok(x) => x,
    };
    let vs = kend + c2;
    if vlen > (len - vs) as u64 {
        return Err(SnapshotError::Malformed);
    }
    let vend = vs + vlen as usize;
    let value = slice_to_vec(&data[vs..vend]);
    match read_expiry(data, vend) {
        Err(e) => Err(e),
        Ok((exp, q)) => Ok((key, exp, value, q)),
    }
}

proof fn lemma_entries_step(d: Seq<u8>, pos: int, count: nat, taken: Entries, x: (Seq<u8>, Stored), q: int)
    requires
        count > 0,
        entry_spec(d, pos) == Ok::<((Seq<u8>, Stored), int), SnapshotError>((x, q)),
    ensures
        after_entries(taken, entries_spec(d, pos, count)) == after_entries(
            taken.push(x),
            entries_spec(d, q, (count - 1) as nat),
        ),
{
    match entries_spec(d, q, (count - 1) as nat) {
        Ok((gs, e)) => {
            assert(taken + (seq![x] + gs) =~= taken.push(x) + gs);
        },
        Err(_) => {},
    }
}

/// A loaded snapshot: its metadata pairs, in file order, and the store its
/// keyspace fills.
pub struct RDBObject {
    pub metadata: Vec<(Vec<u8>, Vec<u8>)>,
    pub storage: Store,
}

impl RDBObject {
    /// Parses a whole snapshot file.
    pub fn from_bytes(data: &[u8]) -> (r: Result<RDBObject, SnapshotError>)
        ensures
            match snapshot_spec(data@) {
                Ok(v) => (r matches Ok(o) && pairs_view(o.metadata@) == v.metadata && o.storage.wf()
                    && o.storage.view() == map_of(v.entries)),
                Err(e) => r == Err::<RDBObject, SnapshotError>(e),
            },
    {
        let len = data.len();
        let ghost d = data@;
        if len < 9 || !(data[0] == 82 && data[1] == 69 && data[2] == 68 && data[3] == 73 && data[4]
            == 83) {
            proof {
                if len >= 9 && d.subrange(0, 5) == magic() {
                    assert(d[0] == d.subrange(0, 5)[0]);
                    assert(d[1] == d.subrange(0, 5)[1]);
                    assert(d[2] == d.subrange(0, 5)[2]);
                    assert(d[3] == d.subrange(0, 5)[3]);
                    assert(d[4] == d.subrange(0, 5)[4]);
                }
            }
            return Err(SnapshotError::BadHeader);
        }
        assert(d.subrange(0, 5) =~= magic());
        if len <= 9 || data[9] != 0xFA {
            return Err(SnapshotError::Malformed);
        }
        let (metadata, p) = match read_metadata(data, 10) {
            Err(e) => {
                return Err(e);
            },
            Ok(x) => x,
        };
        if p >= len - 2 || data[p + 2] != 0xFB {
            return Err(SnapshotError::Malformed);
        }
        let rest = &data[p + 3..len];
        assert(rest@ =~= d.subrange(p + 3, len as int));
        proof {
            lemma_object_bounds(rest@);
        }
        let (size, c1) = match decode_length(rest) {
            Err(e) => {
                return Err(e);
            },
            Ok(x) => x,
        };
        let rest2 = &data[p + 3 + c1..len];
        assert(rest2@ =~= d.subrange(p + 3 + c1, len as int));
        proof {
            lemma_object_bounds(rest2@);
        }
        let c2 = match decode_length(rest2) {
            Err(e) => {
                return Err(e);
            },
            Ok((_, c2)) => c2,
        };
        let start = p + 3 + c1 + c2;
        assert(snapshot_spec(d) == match entries_spec(d, start as int, size as nat) {
            Err(e) => Err(e),
            Ok((es, _)) => Ok(SnapshotView { metadata: pairs_view(metadata@), entries: es }),
        });
        let mut storage = Store::new();
        let mut pos: usize = start;
        let mut done: u64 = 0;
        let ghost mut taken: Entries = seq![];
        assert(after_entries(taken, entries_spec(d, pos as int, size as nat)) =~= entries_spec(
            d,
            start as int,
            size as nat,
        )) by {
            match entries_spec(d, pos as int, size as nat) {
                Ok((gs, e)) => {
                    assert(taken + gs =~= gs);
                },
                Err(_) => {},
            }
        }
        while done < size
            invariant
                len == d.len(),
                d == data@,
                pos <= len,
                done <= size,
                storage.wf(),
                storage.view() == map_of(taken),
                snapshot_spec(d) == match entries_spec(d, start as int, size as nat) {
                    Err(e) => Err(e),
                    Ok((es, _)) => Ok(SnapshotView { metadata: pairs_view(metadata@), entries: es }),
                },
                entries_spec(d, start as int, size as nat) == after_entries(
                    taken,
                    entries_spec(d, pos as int, (size - done) as nat),
                ),
            decreases size - done,
        {
            let (key, exp, value, q) = match read_entry(data, pos) {
                Err(e) => {
                    assert(entries_spec(d, pos as int, (size - done) as nat) == Err::<
                        (Entries, int),
                        SnapshotError,
                    >(e));
                    return Err(e);
                },
                Ok(x) => x,
            };
            let ghost x = (key@, (exp, value@));
            proof {
                lemma_entries_step(d, pos as int, (size - done) as nat, taken, x, q as int);
                assert(taken.push(x).drop_last() =~= taken);
                taken = taken.push(x);
            }
            storage.insert(key, exp, value);
            pos = q;
            done = done + 1;
        }
        proof {
            assert(taken + seq![] =~= taken);
        }
        Ok(RDBObject { metadata, storage })
    }
}

} // verus!
