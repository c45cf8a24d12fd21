use vstd::prelude::*;
use vstd::utf8::*;

use crate::catalog::ColumnType;
use crate::error::DbError;

verus! {

broadcast use vstd::utf8::group_utf8_lib;

/// A single column value.
#[derive(Debug, Clone, PartialEq, Eq)]
pub enum Value {
    Int(i32),
    Varchar(String),
}

/// What a `Value` holds: an integer, or the characters of a string.
pub enum ValueView {
    Int(i32),
    Varchar(Seq<char>),
}

impl View for Value {
    type V = ValueView;

    open spec fn view(&self) -> ValueView {
        match self {
            Value::Int(v) => ValueView::Int(*v),
            Value::Varchar(s) => ValueView::Varchar(s@),
        }
    }
}

/// The four bytes of `x`, most significant first.
pub open spec fn be_bytes(x: u32) -> Seq<u8> {
    seq![
        (x >> 24u32) as u8,
        ((x >> 16u32) & 0xffu32) as u8,
        ((x >> 8u32) & 0xffu32) as u8,
        (x & 0xffu32) as u8,
    ]
}

/// The number whose big-endian bytes stand in `b` from `pos` on.
pub open spec fn be_u32_at(b: Seq<u8>, pos: int) -> u32 {
    ((b[pos] as u32) << 24u32) | ((b[pos + 1] as u32) << 16u32) | ((b[pos + 2] as u32) << 8u32)
        | (b[pos + 3] as u32)
}

/// Whether `v` is a value of column type `ty`.
pub open spec fn has_type(v: ValueView, ty: ColumnType) -> bool {
    match (v, ty) {
        (ValueView::Int(_), ColumnType::Int) => true,
        (ValueView::Varchar(_), ColumnType::Varchar) => true,
        _ => false,
    }
}

/// Whether the byte length of `v` can be written in its 4-byte prefix.
pub open spec fn value_fits(v: ValueView) -> bool {
    match v {
        ValueView::Int(_) => true,
        ValueView::Varchar(s) => encode_utf8(s).len() <= u32::MAX,
    }
}

/// The serialized form of a value: an integer as 4 big-endian bytes; a string as the
/// 4-byte big-endian length of its UTF-8 encoding, followed by that encoding.
pub open spec fn value_bytes(v: ValueView) -> Seq<u8> {
    match v {
        ValueView::Int(i) => be_bytes(#[verifier::truncate] (i as u32)),
        ValueView::Varchar(s) => be_bytes(encode_utf8(s).len() as u32) + encode_utf8(s),
    }
}

/// Reads a value of type `ty` from `b` at `pos`: the value and the number of bytes it
/// takes, or `None` where the bytes run out or a string is not valid UTF-8.
pub open spec fn parse_value_at(b: Seq<u8>, pos: int, ty: ColumnType) -> Option<(ValueView, int)> {
    if pos < 0 || pos + 4 > b.len() {
        None
    } else {
        let w = be_u32_at(b, pos);
        match ty {
            ColumnType::Int => Some((ValueView::Int(#[verifier::truncate] (w as i32)), 4)),
            ColumnType::Varchar => {
                if pos + 4 + w > b.len() {
                    None
                } else if valid_utf8(b.subrange(pos + 4, pos + 4 + w)) {
                    Some((ValueView::Varchar(decode_utf8(b.subrange(pos + 4, pos + 4 + w))), 4 + w))
                } else {
                    None
                }
            },
        }
    }
}

/// Reading back the four bytes of `x` gives `x`.
pub proof fn lemma_be_round_trip(x: u32)
    ensures
        be_bytes(x).len() == 4,
        be_u32_at(be_bytes(x), 0) == x,
{
    let b = be_bytes(x);
    let b0 = b[0];
    let b1 = b[1];
    let b2 = b[2];
    let b3 = b[3];
    assert(b0 == (x >> 24u32) as u8);
    assert(((b0 as u32) << 24u32) | ((b1 as u32) << 16u32) | ((b2 as u32) << 8u32) | (b3 as u32)
        == x) by (bit_vector)
        requires
            b0 == (x >> 24u32) as u8,
            b1 == ((x >> 16u32) & 0xffu32) as u8,
            b2 == ((x >> 8u32) & 0xffu32) as u8,
            b3 == (x & 0xffu32) as u8,
    ;
}

/// An `i32` survives the trip through `u32`.
pub proof fn lemma_i32_u32_round_trip(i: i32)
    ensures
        (i as u32) as i32 == i,
{
    assert((i as u32) as i32 == i) by (bit_vector);
}

/// A value whose bytes stand in `b` at `pos` is read back from there.
pub proof fn lemma_value_round_trip_in(b: Seq<u8>, pos: int, v: ValueView, ty: ColumnType)
    requires
        has_type(v, ty),
        value_fits(v),
        0 <= pos,
        pos + value_bytes(v).len() <= b.len(),
        b.subrange(pos, pos + value_bytes(v).len()) == value_bytes(v),
    ensures
        parse_value_at(b, pos, ty) == Some((v, value_bytes(v).len() as int)),
{
    let vb = value_bytes(v);
    match v {
        ValueView::Int(i) => {
            lemma_be_round_trip(#[verifier::truncate] (i as u32));
            lemma_i32_u32_round_trip(i);
            assert(b[pos] == vb[0] && b[pos + 1] == vb[1] && b[pos + 2] == vb[2] && b[pos + 3]
                == vb[3]);
        },
        ValueView::Varchar(s) => {
            let e = encode_utf8(s);
            lemma_be_round_trip(e.len() as u32);
            assert(b[pos] == vb[0] && b[pos + 1] == vb[1] && b[pos + 2] == vb[2] && b[pos + 3]
                == vb[3]);
            assert(be_u32_at(b, pos) == e.len());
            assert forall|i: int| 0 <= i < e.len() implies b[pos + 4 + i] == e[i] by {
                assert(b.subrange(pos, pos + vb.len())[4 + i] == vb[4 + i]);
            }
            assert(b.subrange(pos + 4, pos + 4 + e.len()) =~= e);
            encode_utf8_valid_utf8(s);
            encode_utf8_decode_utf8(s);
        },
    }
}

/// Writing back the number read from four bytes gives those bytes.
pub proof fn lemma_be_bytes_of_read(b: Seq<u8>, pos: int)
    requires
        0 <= pos,
        pos + 4 <= b.len(),
    ensures
        be_bytes(be_u32_at(b, pos)) == b.subrange(pos, pos + 4),
{
    let x = be_u32_at(b, pos);
    let b0 = b[pos];
    let b1 = b[pos + 1];
    let b2 = b[pos + 2];
    let b3 = b[pos + 3];
    assert((x >> 24u32) as u8 == b0 && ((x >> 16u32) & 0xffu32) as u8 == b1 && ((x >> 8u32)
        & 0xffu32) as u8 == b2 && (x & 0xffu32) as u8 == b3) by (bit_vector)
        requires
            x == ((b0 as u32) << 24u32) | ((b1 as u32) << 16u32) | ((b2 as u32) << 8u32) | (b3 as u32),
    ;
    assert(be_bytes(x) =~= b.subrange(pos, pos + 4));
}

/// A `u32` survives the trip through `i32`.
pub proof fn lemma_u32_i32_round_trip(x: u32)
    ensures
        (#[verifier::truncate] ((#[verifier::truncate] (x as i32)) as u32)) == x,
{
    assert((#[verifier::truncate] ((#[verifier::truncate] (x as i32)) as u32)) == x) by (bit_vector);
}

/// A value read from `b` at `pos` is of the type asked for, can be serialized, and its
/// serialized form is exactly the bytes it was read from.
pub proof fn lemma_parsed_value_bytes(b: Seq<u8>, pos: int, ty: ColumnType)
    requires
        parse_value_at(b, pos, ty) is Some,
    ensures
        ({
            let (v, n) = parse_value_at(b, pos, ty)->Some_0;
            &&& has_type(v, ty)
            &&& value_fits(v)
            &&& n == value_bytes(v).len()
            &&& pos + n <= b.len()
            &&& value_bytes(v) == b.subrange(pos, pos + n)
        }),
{
    let (v, n) = parse_value_at(b, pos, ty)->Some_0;
    let w = be_u32_at(b, pos);
    lemma_be_bytes_of_read(b, pos);
    match ty {
        ColumnType::Int => {
            lemma_u32_i32_round_trip(w);
            assert(value_bytes(v) =~= b.subrange(pos, pos + n));
        },
        ColumnType::Varchar => {
            let sub = b.subrange(pos + 4, pos + 4 + w);
            decode_utf8_encode_utf8(sub);
            assert(encode_utf8(decode_utf8(sub)) == sub);
            assert(value_bytes(v) =~= b.subrange(pos, pos + n));
        },
    }
}

/// Appends the four big-endian bytes of `x` to `buf`.
pub(crate) fn push_be_u32(buf: &mut Vec<u8>, x: u32)
    ensures
        final(buf)@ == old(buf)@ + be_bytes(x),
{
    buf.push((x >> 24u32) as u8);
    buf.push(((x >> 16u32) & 0xffu32) as u8);
    buf.push(((x >> 8u32) & 0xffu32) as u8);
    buf.push((x & 0xffu32) as u8);
    assert(final(buf)@ =~= old(buf)@ + be_bytes(x));
}

/// Reads the big-endian `u32` that starts at `pos`.
pub(crate) fn read_be_u32(data: &[u8], pos: usize) -> (r: u32)
    requires
        pos + 4 <= data@.len(),
    ensures
        r == be_u32_at(data@, pos as int),
{
    ((data[pos] as u32) << 24u32) | ((data[pos + 1] as u32) << 16u32) | ((data[pos + 2] as u32)
        << 8u32) | (data[pos + 3] as u32)
}

/// Relies on `String::from_utf8`: it succeeds exactly on valid UTF-8, and the string it
/// returns has the given bytes as its encoding.
#[verifier::external_body]
fn string_from_utf8(bytes: Vec<u8>) -> (r: Option<String>)
    ensures
        r is Some <==> valid_utf8(bytes@),
        r is Some ==> encode_utf8(r->Some_0@) == bytes@,
{
    String::from_utf8(bytes).ok()
}

impl Value {
    /// Serializes the value as `value_bytes` describes.
    pub fn serialize(&self) -> (r: Vec<u8>)
        requires
            value_fits(self@),
        ensures
            r@ == value_bytes(self@),
    {
        let mut buf: Vec<u8> = Vec::new();
        match self {
            Value::Int(v) => {
                push_be_u32(&mut buf, *v as u32);
            },
            Value::Varchar(s) => {
                let bytes = s.as_str().as_bytes();
                push_be_u32(&mut buf, bytes.len() as u32);
                buf.extend_from_slice(bytes);
                assert(buf@ =~= value_bytes(self@));
            },
        }
        buf
    }

    /// Reads a value of type `column_type` from the start of `data`: the value and the
    /// number of bytes it took.
    pub fn deserialize(data: &[u8], column_type: &ColumnType) -> (r: Result<(Value, usize), DbError>)
        ensures
            match parse_value_at(data@, 0, *column_type) {
                Some((v, n)) => r matches Ok((value, size)) && value@ == v && size == n,
                None => r == Err::<(Value, usize), DbError>(DbError::Corruption),
            },
    {
        Self::deserialize_at(data, 0, column_type)
    }

    /// Reads a value of type `column_type` from `data` at `pos`.
    pub(crate) fn deserialize_at(data: &[u8], pos: usize, column_type: &ColumnType) -> (r: Result<
        (Value, usize),
        DbError,
    >)
        ensures
            match parse_value_at(data@, pos as int, *column_type) {
                Some((v, n)) => r matches Ok((value, size)) && value@ == v && size == n,
                None => r == Err::<(Value, usize), DbError>(DbError::Corruption),
            },
    {
        if data.len() < 4 || pos > data.len() - 4 {
            return Err(DbError::Corruption);
        }
        let w = read_be_u32(data, pos);
        match column_type {
            ColumnType::Int => Ok((Value::Int(w as i32), 4)),
            ColumnType::Varchar => {
                let start = pos + 4;
                if w as usize > data.len() - start {
                    return Err(DbError::Corruption);
                }
                let end = start + w as usize;
                let bytes = vstd::slice::slice_to_vec(vstd::slice::slice_subrange(data, start, end));
                match string_from_utf8(bytes) {
                    Some(s) => {
                        proof {
                            encode_utf8_valid_utf8(s@);
                            encode_utf8_decode_utf8(s@);
                        }
                        Ok((Value::Varchar(s), 4 + w as usize))
                    },
                    None => Err(DbError::Corruption),
                }
            },
        }
    }
}

} // verus!
