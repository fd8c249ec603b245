//! The wire codec: little-endian fixed-width integers, length-prefixed byte
//! strings and UTF-8 strings, and two-byte tags for enum variants.
//!
//! Every reader takes the whole input and a position, and returns the value
//! with the position just past it. A reader succeeds exactly when the input
//! holds the encoding of some value at that position, and then returns that
//! value.
use vstd::prelude::*;
use vstd::bytes::*;
use vstd::utf8::*;
use vstd::slice::*;
use vstd::string::*;

verus! {

broadcast use vstd::utf8::encode_utf8_decode_utf8, vstd::utf8::decode_utf8_encode_utf8,
    vstd::utf8::encode_utf8_valid_utf8;

/// Why a sequence of bytes is not the encoding of a value.
#[derive(Debug, Clone, Copy, PartialEq, Eq, Structural)]
pub enum DecodeError {
    /// The input ends before the value does.
    UnexpectedEnd,
    /// A variant tag that the type does not have.
    InvalidTag(u16),
    /// A string whose bytes are not UTF-8.
    InvalidUtf8,
    /// Bytes are left over after a complete value.
    TrailingBytes,
}

/// Encoding of a `u16`: two bytes, least significant first.
pub open spec fn wire_u16(x: u16) -> Seq<u8> {
    spec_u16_to_le_bytes(x)
}

/// Encoding of a `u32`: four bytes, least significant first.
pub open spec fn wire_u32(x: u32) -> Seq<u8> {
    spec_u32_to_le_bytes(x)
}

/// Encoding of a `u64`: eight bytes, least significant first.
pub open spec fn wire_u64(x: u64) -> Seq<u8> {
    spec_u64_to_le_bytes(x)
}

/// Encoding of a `u128`: sixteen bytes, least significant first.
pub open spec fn wire_u128(x: u128) -> Seq<u8> {
    spec_u128_to_le_bytes(x)
}

/// Encoding of a byte string: its length as a `u64`, then the bytes.
pub open spec fn wire_bytes(b: Seq<u8>) -> Seq<u8> {
    wire_u64(b.len() as u64) + b
}

/// Encoding of a string: its UTF-8 bytes as a byte string.
pub open spec fn wire_str(s: Seq<char>) -> Seq<u8> {
    wire_bytes(encode_utf8(s))
}

/// `w` stands in `b` at position `pos`.
pub open spec fn holds_at(b: Seq<u8>, pos: int, w: Seq<u8>) -> bool {
    &&& 0 <= pos
    &&& pos + w.len() <= b.len()
    &&& b.subrange(pos, pos + w.len()) == w
}

pub proof fn lemma_holds_at_split(b: Seq<u8>, pos: int, x: Seq<u8>, y: Seq<u8>)
    ensures
        holds_at(b, pos, x + y) <==> (holds_at(b, pos, x) && holds_at(b, pos + x.len(), y)),
{
    if holds_at(b, pos, x + y) {
        let xy = x + y;
        assert(b.subrange(pos, pos + x.len()) =~= xy.subrange(0, x.len() as int));
        assert(xy.subrange(0, x.len() as int) =~= x);
        assert(b.subrange(pos + x.len(), pos + x.len() + y.len()) =~= xy.subrange(
            x.len() as int,
            xy.len() as int,
        ));
        assert(xy.subrange(x.len() as int, xy.len() as int) =~= y);
    }
    if holds_at(b, pos, x) && holds_at(b, pos + x.len(), y) {
        assert(b.subrange(pos, pos + (x + y).len()) =~= b.subrange(pos, pos + x.len())
            + b.subrange(pos + x.len(), pos + x.len() + y.len()));
    }
}

pub proof fn lemma_wire_ints()
    ensures
        forall|x: u16| #[trigger] wire_u16(x).len() == 2,
        forall|x: u32| #[trigger] wire_u32(x).len() == 4,
        forall|x: u64| #[trigger] wire_u64(x).len() == 8,
        forall|x: u128| #[trigger] wire_u128(x).len() == 16,
        forall|x: u16, y: u16| #[trigger] wire_u16(x) == #[trigger] wire_u16(y) ==> x == y,
        forall|x: u32, y: u32| #[trigger] wire_u32(x) == #[trigger] wire_u32(y) ==> x == y,
        forall|x: u64, y: u64| #[trigger] wire_u64(x) == #[trigger] wire_u64(y) ==> x == y,
        forall|x: u128, y: u128| #[trigger] wire_u128(x) == #[trigger] wire_u128(y) ==> x == y,
{
    lemma_auto_spec_u16_to_from_le_bytes();
    lemma_auto_spec_u32_to_from_le_bytes();
    lemma_auto_spec_u64_to_from_le_bytes();
    lemma_auto_spec_u128_to_from_le_bytes();
    assert forall|x: u16, y: u16| #[trigger] wire_u16(x) == #[trigger] wire_u16(y) implies x == y by {
        assert(wire_u16(x).len() == wire_u16(y).len());
        assert(spec_u16_from_le_bytes(wire_u16(x)) == spec_u16_from_le_bytes(wire_u16(y)));
    }
    assert forall|x: u32, y: u32| #[trigger] wire_u32(x) == #[trigger] wire_u32(y) implies x == y by {
        assert(wire_u32(x).len() == wire_u32(y).len());
        assert(spec_u32_from_le_bytes(wire_u32(x)) == spec_u32_from_le_bytes(wire_u32(y)));
    }
    assert forall|x: u64, y: u64| #[trigger] wire_u64(x) == #[trigger] wire_u64(y) implies x == y by {
        assert(wire_u64(x).len() == wire_u64(y).len());
        assert(spec_u64_from_le_bytes(wire_u64(x)) == spec_u64_from_le_bytes(wire_u64(y)));
    }
    assert forall|x: u128, y: u128| #[trigger] wire_u128(x) == #[trigger] wire_u128(y) implies x
        == y by {
        assert(wire_u128(x).len() == wire_u128(y).len());
        assert(spec_u128_from_le_bytes(wire_u128(x)) == spec_u128_from_le_bytes(wire_u128(y)));
    }
}

/// Appends the encoding of `x`.
pub fn put_u16(out: &mut Vec<u8>, x: u16)
    ensures
        final(out)@ == old(out)@ + wire_u16(x),
{
    let mut b = u16_to_le_bytes(x);
    out.append(&mut b);
}

/// Appends the encoding of `x`.
pub fn put_u32(out: &mut Vec<u8>, x: u32)
    ensures
        final(out)@ == old(out)@ + wire_u32(x),
{
    let mut b = u32_to_le_bytes(x);
    out.append(&mut b);
}

/// Appends the encoding of `x`.
pub fn put_u64(out: &mut Vec<u8>, x: u64)
    ensures
        final(out)@ == old(out)@ + wire_u64(x),
{
    let mut b = u64_to_le_bytes(x);
    out.append(&mut b);
}

/// Appends the encoding of `x`.
pub fn put_u128(out: &mut Vec<u8>, x: u128)
    ensures
        final(out)@ == old(out)@ + wire_u128(x),
{
    let mut b = u128_to_le_bytes(x);
    out.append(&mut b);
}

/// Appends the encoding of the byte string `b`.
pub fn put_bytes(out: &mut Vec<u8>, b: &[u8])
    ensures
        final(out)@ == old(out)@ + wire_bytes(b@),
{
    put_u64(out, b.len() as u64);
    let mut c = slice_to_vec(b);
    out.append(&mut c);
    assert(final(out)@ =~= old(out)@ + wire_bytes(b@));
}

/// Appends the encoding of the string `s`.
pub fn put_str(out: &mut Vec<u8>, s: &str)
    ensures
        final(out)@ == old(out)@ + wire_str(s@),
{
    let b = s.as_bytes();
    put_bytes(out, b);
}

/// Reads a `u16` at `pos`.
pub fn get_u16(b: &[u8], pos: usize) -> (r: Result<(u16, usize), DecodeError>)
    ensures
        match r {
            Ok((x, end)) => holds_at(b@, pos as int, wire_u16(x)) && end == pos + 2,
            Err(e) => e == DecodeError::UnexpectedEnd && pos + 2 > b@.len(),
        },
        forall|x: u16| #[trigger] holds_at(b@, pos as int, wire_u16(x)) ==> r == Ok::<
            (u16, usize),
            DecodeError,
        >((x, (pos + 2) as usize)),
{
    proof {
        lemma_wire_ints();
        lemma_auto_spec_u16_to_from_le_bytes();
    }
    if pos > b.len() || b.len() - pos < 2 {
        return Err(DecodeError::UnexpectedEnd);
    }
    let x = u16_from_le_bytes(slice_subrange(b, pos, pos + 2));
    Ok((x, pos + 2))
}

/// Reads a `u32` at `pos`.
pub fn get_u32(b: &[u8], pos: usize) -> (r: Result<(u32, usize), DecodeError>)
    ensures
        match r {
            Ok((x, end)) => holds_at(b@, pos as int, wire_u32(x)) && end == pos + 4,
            Err(e) => e == DecodeError::UnexpectedEnd && pos + 4 > b@.len(),
        },
        forall|x: u32| #[trigger] holds_at(b@, pos as int, wire_u32(x)) ==> r == Ok::<
            (u32, usize),
            DecodeError,
        >((x, (pos + 4) as usize)),
{
    proof {
        lemma_wire_ints();
        lemma_auto_spec_u32_to_from_le_bytes();
    }
    if pos > b.len() || b.len() - pos < 4 {
        return Err(DecodeError::UnexpectedEnd);
    }
    let x = u32_from_le_bytes(slice_subrange(b, pos, pos + 4));
    Ok((x, pos + 4))
}

/// Reads a `u64` at `pos`.
pub fn get_u64(b: &[u8], pos: usize) -> (r: Result<(u64, usize), DecodeError>)
    ensures
        match r {
            Ok((x, end)) => holds_at(b@, pos as int, wire_u64(x)) && end == pos + 8,
            Err(e) => e == DecodeError::UnexpectedEnd && pos + 8 > b@.len(),
        },
        forall|x: u64| #[trigger] holds_at(b@, pos as int, wire_u64(x)) ==> r == Ok::<
            (u64, usize),
            DecodeError,
        >((x, (pos + 8) as usize)),
{
    proof {
        lemma_wire_ints();
        lemma_auto_spec_u64_to_from_le_bytes();
    }
    if pos > b.len() || b.len() - pos < 8 {
        return Err(DecodeError::UnexpectedEnd);
    }
    let x = u64_from_le_bytes(slice_subrange(b, pos, pos + 8));
    Ok((x, pos + 8))
}

/// Reads a `u128` at `pos`.
pub fn get_u128(b: &[u8], pos: usize) -> (r: Result<(u128, usize), DecodeError>)
    ensures
        match r {
            Ok((x, end)) => holds_at(b@, pos as int, wire_u128(x)) && end == pos + 16,
            Err(e) => e == DecodeError::UnexpectedEnd && pos + 16 > b@.len(),
        },
        forall|x: u128| #[trigger] holds_at(b@, pos as int, wire_u128(x)) ==> r == Ok::<
            (u128, usize),
            DecodeError,
        >((x, (pos + 16) as usize)),
{
    proof {
        lemma_wire_ints();
        lemma_auto_spec_u128_to_from_le_bytes();
    }
    if pos > b.len() || b.len() - pos < 16 {
        return Err(DecodeError::UnexpectedEnd);
    }
    let x = u128_from_le_bytes(slice_subrange(b, pos, pos + 16));
    Ok((x, pos + 16))
}

/// Reads a byte string at `pos`.
pub fn get_bytes(b: &[u8], pos: usize) -> (r: Result<(Vec<u8>, usize), DecodeError>)
    ensures
        match r {
            Ok((v, end)) => holds_at(b@, pos as int, wire_bytes(v@)) && end == pos
                + wire_bytes(v@).len(),
            Err(e) => e == DecodeError::UnexpectedEnd && forall|v: Seq<u8>|
                !#[trigger] holds_at(b@, pos as int, wire_bytes(v)),
        },
        forall|v: Seq<u8>| #[trigger]
            holds_at(b@, pos as int, wire_bytes(v)) ==> (r matches Ok((x, end)) && x@ == v),
{
    proof {
        lemma_wire_ints();
    }
    let (n, start) = match get_u64(b, pos) {
        Ok(p) => p,
        Err(e) => {
            proof {
                assert forall|v: Seq<u8>| !#[trigger] holds_at(b@, pos as int, wire_bytes(v)) by {
                    lemma_holds_at_split(b@, pos as int, wire_u64(v.len() as u64), v);
                }
            }
            return Err(e);
        },
    };
    if n > (b.len() - start) as u64 {
        proof {
            assert forall|v: Seq<u8>| !#[trigger] holds_at(b@, pos as int, wire_bytes(v)) by {
                lemma_holds_at_split(b@, pos as int, wire_u64(v.len() as u64), v);
            }
        }
        return Err(DecodeError::UnexpectedEnd);
    }
    let end = start + n as usize;
    let v = slice_to_vec(slice_subrange(b, start, end));
    proof {
        lemma_holds_at_split(b@, pos as int, wire_u64(v@.len() as u64), v@);
        assert forall|w: Seq<u8>| #[trigger] holds_at(b@, pos as int, wire_bytes(w)) implies w
            == v@ by {
            lemma_holds_at_split(b@, pos as int, wire_u64(w.len() as u64), w);
        }
    }
    Ok((v, end))
}

/// Relies on String::from_utf8: it succeeds exactly on valid UTF-8, and then
/// holds the characters that the bytes encode.
#[verifier::external_body]
fn string_from_utf8(b: Vec<u8>) -> (r: Option<String>)
    ensures
        r is Some <==> valid_utf8(b@),
        r matches Some(s) ==> s@ == decode_utf8(b@),
{
    String::from_utf8(b).ok()
}

/// Reads a string at `pos`.
pub fn get_str(b: &[u8], pos: usize) -> (r: Result<(String, usize), DecodeError>)
    ensures
        match r {
            Ok((s, end)) => holds_at(b@, pos as int, wire_str(s@)) && end == pos + wire_str(
                s@,
            ).len(),
            Err(_) => forall|s: Seq<char>| !#[trigger] holds_at(b@, pos as int, wire_str(s)),
        },
        forall|s: Seq<char>| #[trigger]
            holds_at(b@, pos as int, wire_str(s)) ==> (r matches Ok((x, end)) && x@ == s),
{
    let (v, end) = match get_bytes(b, pos) {
        Ok(p) => p,
        Err(e) => {
            return Err(e);
        },
    };
    let ghost bytes = v@;
    match string_from_utf8(v) {
        Some(s) => Ok((s, end)),
        None => {
            proof {
                assert forall|s: Seq<char>| !#[trigger] holds_at(b@, pos as int, wire_str(s)) by {
                    if holds_at(b@, pos as int, wire_str(s)) {
                        assert(encode_utf8(s) == bytes);
                    }
                }
            }
            Err(DecodeError::InvalidUtf8)
        },
    }
}

pub proof fn lemma_same_len_at(b: Seq<u8>, pos: int, x: Seq<u8>, y: Seq<u8>)
    requires
        holds_at(b, pos, x),
        holds_at(b, pos, y),
        x.len() == y.len(),
    ensures
        x == y,
{
}

pub proof fn lemma_u16_unique(b: Seq<u8>, pos: int, x: u16, y: u16)
    requires
        holds_at(b, pos, wire_u16(x)),
        holds_at(b, pos, wire_u16(y)),
    ensures
        x == y,
{
    lemma_wire_ints();
    lemma_same_len_at(b, pos, wire_u16(x), wire_u16(y));
}

pub proof fn lemma_u128_unique(b: Seq<u8>, pos: int, x: u128, y: u128)
    requires
        holds_at(b, pos, wire_u128(x)),
        holds_at(b, pos, wire_u128(y)),
    ensures
        x == y,
{
    lemma_wire_ints();
    lemma_same_len_at(b, pos, wire_u128(x), wire_u128(y));
}

pub proof fn lemma_bytes_unique(b: Seq<u8>, pos: int, x: Seq<u8>, y: Seq<u8>)
    requires
        b.len() <= u64::MAX,
        holds_at(b, pos, wire_bytes(x)),
        holds_at(b, pos, wire_bytes(y)),
    ensures
        x == y,
{
    lemma_wire_ints();
    lemma_holds_at_split(b, pos, wire_u64(x.len() as u64), x);
    lemma_holds_at_split(b, pos, wire_u64(y.len() as u64), y);
    lemma_same_len_at(b, pos, wire_u64(x.len() as u64), wire_u64(y.len() as u64));
    lemma_same_len_at(b, pos + 8, x, y);
}

pub proof fn lemma_str_unique(b: Seq<u8>, pos: int, x: Seq<char>, y: Seq<char>)
    requires
        b.len() <= u64::MAX,
        holds_at(b, pos, wire_str(x)),
        holds_at(b, pos, wire_str(y)),
    ensures
        x == y,
{
    lemma_bytes_unique(b, pos, encode_utf8(x), encode_utf8(y));
    assert(decode_utf8(encode_utf8(x)) == decode_utf8(encode_utf8(y)));
}

/// A type with a wire encoding. Every encoding is non-empty, and no two values
/// share one: `get` reads back exactly the value that `put` wrote.
pub trait Wire: DeepView + Sized {
    /// The encoding of a value, given by its model.
    spec fn wire(v: Self::V) -> Seq<u8>;

    proof fn lemma_wire_nonempty(v: Self::V)
        ensures
            Self::wire(v).len() > 0,
    ;

    /// Two values whose encodings stand at the same place are equal.
    proof fn lemma_wire_unique(b: Seq<u8>, pos: int, v1: Self::V, v2: Self::V)
        requires
            b.len() <= u64::MAX,
            holds_at(b, pos, Self::wire(v1)),
            holds_at(b, pos, Self::wire(v2)),
        ensures
            v1 == v2,
    ;

    /// Appends the encoding of `self`.
    fn put(&self, out: &mut Vec<u8>)
        ensures
            final(out)@ == old(out)@ + Self::wire(self.deep_view()),
    ;

    /// Reads a value at `pos`.
    fn get(b: &[u8], pos: usize) -> (r: Result<(Self, usize), DecodeError>)
        ensures
            match r {
                Ok((x, end)) => holds_at(b@, pos as int, Self::wire(x.deep_view())) && end == pos
                    + Self::wire(x.deep_view()).len(),
                Err(_) => forall|v: Self::V| !#[trigger] holds_at(b@, pos as int, Self::wire(v)),
            },
            forall|v: Self::V| #[trigger]
                holds_at(b@, pos as int, Self::wire(v)) ==> (r matches Ok((x, end))
                    && x.deep_view() == v),
    ;
}

impl Wire for u8 {
    open spec fn wire(v: u8) -> Seq<u8> {
        seq![v]
    }

    proof fn lemma_wire_nonempty(v: u8) {
    }

    proof fn lemma_wire_unique(b: Seq<u8>, pos: int, v1: u8, v2: u8) {
        assert(b.subrange(pos, pos + 1)[0] == v1);
    }

    fn put(&self, out: &mut Vec<u8>) {
        out.push(*self);
        assert(final(out)@ =~= old(out)@ + seq![*self]);
    }

    fn get(b: &[u8], pos: usize) -> (r: Result<(u8, usize), DecodeError>) {
        if pos >= b.len() {
            return Err(DecodeError::UnexpectedEnd);
        }
        let x = b[pos];
        assert(b@.subrange(pos as int, pos + 1) =~= seq![x]);
        assert forall|v: u8| #[trigger] holds_at(b@, pos as int, Self::wire(v)) implies v == x by {
            assert(b@.subrange(pos as int, pos + 1)[0] == v);
        }
        Ok((x, pos + 1))
    }
}

impl Wire for u16 {
    open spec fn wire(v: u16) -> Seq<u8> {
        wire_u16(v)
    }

    proof fn lemma_wire_nonempty(v: u16) {
        lemma_wire_ints();
    }

    proof fn lemma_wire_unique(b: Seq<u8>, pos: int, v1: u16, v2: u16) {
        lemma_wire_ints();
        lemma_same_len_at(b, pos, wire_u16(v1), wire_u16(v2));
    }

    fn put(&self, out: &mut Vec<u8>) {
        put_u16(out, *self);
    }

    fn get(b: &[u8], pos: usize) -> (r: Result<(u16, usize), DecodeError>) {
        proof {
            lemma_wire_ints();
        }
        get_u16(b, pos)
    }
}

impl Wire for u32 {
    open spec fn wire(v: u32) -> Seq<u8> {
        wire_u32(v)
    }

    proof fn lemma_wire_nonempty(v: u32) {
        lemma_wire_ints();
    }

    proof fn lemma_wire_unique(b: Seq<u8>, pos: int, v1: u32, v2: u32) {
        lemma_wire_ints();
        lemma_same_len_at(b, pos, wire_u32(v1), wire_u32(v2));
    }

    fn put(&self, out: &mut Vec<u8>) {
        put_u32(out, *self);
    }

    fn get(b: &[u8], pos: usize) -> (r: Result<(u32, usize), DecodeError>) {
        proof {
            lemma_wire_ints();
        }
        get_u32(b, pos)
    }
}

impl Wire for u64 {
    open spec fn wire(v: u64) -> Seq<u8> {
        wire_u64(v)
    }

    proof fn lemma_wire_nonempty(v: u64) {
        lemma_wire_ints();
    }

    proof fn lemma_wire_unique(b: Seq<u8>, pos: int, v1: u64, v2: u64) {
        lemma_wire_ints();
        lemma_same_len_at(b, pos, wire_u64(v1), wire_u64(v2));
    }

    fn put(&self, out: &mut Vec<u8>) {
        put_u64(out, *self);
    }

    fn get(b: &[u8], pos: usize) -> (r: Result<(u64, usize), DecodeError>) {
        proof {
            lemma_wire_ints();
        }
        get_u64(b, pos)
    }
}

impl Wire for u128 {
    open spec fn wire(v: u128) -> Seq<u8> {
        wire_u128(v)
    }

    proof fn lemma_wire_nonempty(v: u128) {
        lemma_wire_ints();
    }

    proof fn lemma_wire_unique(b: Seq<u8>, pos: int, v1: u128, v2: u128) {
        lemma_wire_ints();
        lemma_same_len_at(b, pos, wire_u128(v1), wire_u128(v2));
    }

    fn put(&self, out: &mut Vec<u8>) {
        put_u128(out, *self);
    }

    fn get(b: &[u8], pos: usize) -> (r: Result<(u128, usize), DecodeError>) {
        proof {
            lemma_wire_ints();
        }
        get_u128(b, pos)
    }
}

impl Wire for String {
    open spec fn wire(v: Seq<char>) -> Seq<u8> {
        wire_str(v)
    }

    proof fn lemma_wire_nonempty(v: Seq<char>) {
        lemma_wire_ints();
    }

    proof fn lemma_wire_unique(b: Seq<u8>, pos: int, v1: Seq<char>, v2: Seq<char>) {
        lemma_str_unique(b, pos, v1, v2);
    }

    fn put(&self, out: &mut Vec<u8>) {
        put_str(out, self.as_str());
    }

    fn get(b: &[u8], pos: usize) -> (r: Result<(String, usize), DecodeError>) {
        get_str(b, pos)
    }
}

/// The encodings of the items of `v`, one after another.
pub open spec fn wire_seq<T: Wire>(v: Seq<T::V>) -> Seq<u8>
    decreases v.len(),
{
    if v.len() == 0 {
        Seq::empty()
    } else {
        T::wire(v[0]) + wire_seq::<T>(v.drop_first())
    }
}

pub proof fn lemma_wire_seq_push<T: Wire>(v: Seq<T::V>, x: T::V)
    ensures
        wire_seq::<T>(v.push(x)) == wire_seq::<T>(v) + T::wire(x),
    decreases v.len(),
{
    if v.len() == 0 {
        let w = v.push(x);
        assert(w.drop_first() =~= Seq::<T::V>::empty());
        assert(w[0] == x);
        assert(wire_seq::<T>(w.drop_first()) == Seq::<u8>::empty());
        assert(wire_seq::<T>(w) =~= wire_seq::<T>(v) + T::wire(x));
    } else {
        lemma_wire_seq_push::<T>(v.drop_first(), x);
        assert(v.push(x).drop_first() =~= v.drop_first().push(x));
        assert(wire_seq::<T>(v.push(x)) =~= wire_seq::<T>(v) + T::wire(x));
    }
}

pub proof fn lemma_wire_seq_len<T: Wire>(v: Seq<T::V>)
    ensures
        v.len() <= wire_seq::<T>(v).len(),
    decreases v.len(),
{
    if v.len() > 0 {
        T::lemma_wire_nonempty(v[0]);
        lemma_wire_seq_len::<T>(v.drop_first());
    }
}

pub proof fn lemma_wire_seq_unique<T: Wire>(b: Seq<u8>, pos: int, v1: Seq<T::V>, v2: Seq<T::V>)
    requires
        b.len() <= u64::MAX,
        v1.len() == v2.len(),
        holds_at(b, pos, wire_seq::<T>(v1)),
        holds_at(b, pos, wire_seq::<T>(v2)),
    ensures
        v1 == v2,
    decreases v1.len(),
{
    if v1.len() == 0 {
        assert(v1 =~= v2);
    } else {
        lemma_holds_at_split(b, pos, T::wire(v1[0]), wire_seq::<T>(v1.drop_first()));
        lemma_holds_at_split(b, pos, T::wire(v2[0]), wire_seq::<T>(v2.drop_first()));
        T::lemma_wire_unique(b, pos, v1[0], v2[0]);
        lemma_wire_seq_unique::<T>(b, pos + T::wire(v1[0]).len(), v1.drop_first(), v2.drop_first());
        assert(v1 =~= seq![v1[0]] + v1.drop_first());
        assert(v2 =~= seq![v2[0]] + v2.drop_first());
    }
}

/// A sequence: its length as a `u64`, then each item.
impl<T: Wire> Wire for Vec<T> {
    open spec fn wire(v: Seq<T::V>) -> Seq<u8> {
        wire_u64(v.len() as u64) + wire_seq::<T>(v)
    }

    proof fn lemma_wire_nonempty(v: Seq<T::V>) {
        lemma_wire_ints();
    }

    proof fn lemma_wire_unique(b: Seq<u8>, pos: int, v1: Seq<T::V>, v2: Seq<T::V>) {
        lemma_wire_ints();
        lemma_holds_at_split(b, pos, wire_u64(v1.len() as u64), wire_seq::<T>(v1));
        lemma_holds_at_split(b, pos, wire_u64(v2.len() as u64), wire_seq::<T>(v2));
        lemma_same_len_at(b, pos, wire_u64(v1.len() as u64), wire_u64(v2.len() as u64));
        lemma_wire_seq_len::<T>(v1);
        lemma_wire_seq_len::<T>(v2);
        lemma_wire_seq_unique::<T>(b, pos + 8, v1, v2);
    }

    fn put(&self, out: &mut Vec<u8>) {
        put_u64(out, self.len() as u64);
        let ghost start = out@;
        let mut i: usize = 0;
        while i < self.len()
            invariant
                i <= self.len(),
                out@ == start + wire_seq::<T>(self.deep_view().take(i as int)),
            decreases self.len() - i,
        {
            let ghost before = out@;
            self[i].put(out);
            proof {
                assert(self.deep_view().take(i + 1) =~= self.deep_view().take(i as int).push(
                    self[i as int].deep_view(),
                ));
                lemma_wire_seq_push::<T>(self.deep_view().take(i as int), self[i as int].deep_view());
            }
            i = i + 1;
        }
        assert(self.deep_view().take(i as int) =~= self.deep_view());
        assert(final(out)@ =~= old(out)@ + Self::wire(self.deep_view()));
    }

    fn get(b: &[u8], pos: usize) -> (r: Result<(Vec<T>, usize), DecodeError>) {
        proof {
            lemma_wire_ints();
        }
        let blen = b.len();
        let (n, start) = match get_u64(b, pos) {
            Ok(p) => p,
            Err(e) => {
                proof {
                    assert forall|v: Seq<T::V>| !#[trigger] holds_at(b@, pos as int, Self::wire(v)) by {
                        lemma_holds_at_split(b@, pos as int, wire_u64(v.len() as u64), wire_seq::<T>(v));
                    }
                }
                return Err(e);
            },
        };
        proof {
            assert forall|v: Seq<T::V>| #[trigger] holds_at(b@, pos as int, Self::wire(v)) implies v.len()
                == n && holds_at(b@, start as int, wire_seq::<T>(v)) by {
                lemma_holds_at_split(b@, pos as int, wire_u64(v.len() as u64), wire_seq::<T>(v));
                lemma_wire_seq_len::<T>(v);
            }
        }
        let mut out: Vec<T> = Vec::new();
        proof {
            assert(out.deep_view() =~= Seq::<T::V>::empty());
            assert(b@.subrange(start as int, start as int) =~= Seq::<u8>::empty());
            assert forall|v: Seq<T::V>| #[trigger] holds_at(b@, pos as int, Self::wire(v)) implies
                out.deep_view() == v.take(0) && holds_at(b@, start as int, wire_seq::<T>(v.skip(0))) by {
                assert(v.take(0) =~= Seq::<T::V>::empty());
                assert(v.skip(0) =~= v);
            }
        }
        let mut cur = start;
        let mut i: u64 = 0;
        while i < n
            invariant
                start == pos + 8,
                i <= n,
                out@.len() == i,
                holds_at(b@, start as int, wire_seq::<T>(out.deep_view())),
                cur == start + wire_seq::<T>(out.deep_view()).len(),
                forall|v: Seq<T::V>| #[trigger]
                    holds_at(b@, pos as int, Self::wire(v)) ==> v.len() == n && out.deep_view()
                        == v.take(i as int) && holds_at(b@, cur as int, wire_seq::<T>(v.skip(i as int))),
                forall|v: Seq<T::V>| #[trigger] holds_at(b@, pos as int, Self::wire(v)) ==> v.len() == n
                    && holds_at(b@, start as int, wire_seq::<T>(v)),
            decreases n - i,
        {
            let ghost cur0 = cur;
            match T::get(b, cur) {
                Ok((x, end)) => {
                    proof {
                        lemma_wire_seq_push::<T>(out.deep_view(), x.deep_view());
                        lemma_holds_at_split(b@, start as int, wire_seq::<T>(out.deep_view()), T::wire(x.deep_view()));
                        assert forall|v: Seq<T::V>| #[trigger] holds_at(b@, pos as int, Self::wire(v)) implies
                            x.deep_view() == v[i as int] && holds_at(b@, end as int, wire_seq::<T>(v.skip(i + 1))) by {
                            let rest = v.skip(i as int);
                            assert(rest.drop_first() =~= v.skip(i + 1));
                            lemma_holds_at_split(b@, cur0 as int, T::wire(rest[0]), wire_seq::<T>(rest.drop_first()));
                        }
                    }
                    let ghost old_out = out.deep_view();
                    out.push(x);
                    proof {
                        assert(out.deep_view() =~= old_out.push(x.deep_view()));
                        assert forall|v: Seq<T::V>| #[trigger] holds_at(b@, pos as int, Self::wire(v)) implies
                            out.deep_view() == v.take(i + 1) by {
                            assert(v.take(i + 1) =~= v.take(i as int).push(v[i as int]));
                        }
                    }
                    cur = end;
                },
                Err(e) => {
                    proof {
                        assert forall|v: Seq<T::V>| !#[trigger] holds_at(b@, pos as int, Self::wire(v)) by {
                            if holds_at(b@, pos as int, Self::wire(v)) {
                                let rest = v.skip(i as int);
                                lemma_holds_at_split(b@, cur0 as int, T::wire(rest[0]), wire_seq::<T>(rest.drop_first()));
                            }
                        }
                    }
                    return Err(e);
                },
            }
            i = i + 1;
        }
        proof {
            lemma_wire_seq_len::<T>(out.deep_view());
            lemma_holds_at_split(b@, pos as int, wire_u64(out.deep_view().len() as u64), wire_seq::<T>(out.deep_view()));
            assert forall|v: Seq<T::V>| #[trigger] holds_at(b@, pos as int, Self::wire(v)) implies
                out.deep_view() == v by {
                assert(v.take(n as int) =~= v);
            }
        }
        Ok((out, cur))
    }
}

/// A tuple: its fields one after another.
impl<A: Wire, B: Wire, C: Wire, D: Wire> Wire for (A, B, C, D) {
    open spec fn wire(v: (A::V, B::V, C::V, D::V)) -> Seq<u8> {
        A::wire(v.0) + B::wire(v.1) + C::wire(v.2) + D::wire(v.3)
    }

    proof fn lemma_wire_nonempty(v: (A::V, B::V, C::V, D::V)) {
        A::lemma_wire_nonempty(v.0);
    }

    proof fn lemma_wire_unique(
        b: Seq<u8>,
        pos: int,
        v1: (A::V, B::V, C::V, D::V),
        v2: (A::V, B::V, C::V, D::V),
    ) {
        let (a1, b1, c1, d1) = (A::wire(v1.0), B::wire(v1.1), C::wire(v1.2), D::wire(v1.3));
        let (a2, b2, c2, d2) = (A::wire(v2.0), B::wire(v2.1), C::wire(v2.2), D::wire(v2.3));
        lemma_holds_at_split(b, pos, a1 + b1 + c1, d1);
        lemma_holds_at_split(b, pos, a1 + b1, c1);
        lemma_holds_at_split(b, pos, a1, b1);
        lemma_holds_at_split(b, pos, a2 + b2 + c2, d2);
        lemma_holds_at_split(b, pos, a2 + b2, c2);
        lemma_holds_at_split(b, pos, a2, b2);
        A::lemma_wire_unique(b, pos, v1.0, v2.0);
        B::lemma_wire_unique(b, pos + a1.len(), v1.1, v2.1);
        C::lemma_wire_unique(b, pos + a1.len() + b1.len(), v1.2, v2.2);
        D::lemma_wire_unique(b, pos + a1.len() + b1.len() + c1.len(), v1.3, v2.3);
    }

    fn put(&self, out: &mut Vec<u8>) {
        self.0.put(out);
        self.1.put(out);
        self.2.put(out);
        self.3.put(out);
        assert(final(out)@ =~= old(out)@ + Self::wire(self.deep_view()));
    }

    fn get(b: &[u8], pos: usize) -> (r: Result<((A, B, C, D), usize), DecodeError>) {
        proof {
            assert forall|v: (A::V, B::V, C::V, D::V)| #[trigger]
                holds_at(b@, pos as int, Self::wire(v)) <==> {
                    &&& holds_at(b@, pos as int, A::wire(v.0))
                    &&& holds_at(b@, pos + A::wire(v.0).len(), B::wire(v.1))
                    &&& holds_at(b@, pos + A::wire(v.0).len() + B::wire(v.1).len(), C::wire(v.2))
                    &&& holds_at(
                        b@,
                        pos + A::wire(v.0).len() + B::wire(v.1).len() + C::wire(v.2).len(),
                        D::wire(v.3),
                    )
                } by {
                let (wa, wb, wc, wd) = (A::wire(v.0), B::wire(v.1), C::wire(v.2), D::wire(v.3));
                lemma_holds_at_split(b@, pos as int, wa + wb + wc, wd);
                lemma_holds_at_split(b@, pos as int, wa + wb, wc);
                lemma_holds_at_split(b@, pos as int, wa, wb);
            }
        }
        let (a, pos1) = match A::get(b, pos) {
            Ok(x) => x,
            Err(e) => {
                return Err(e);
            },
        };
        let (bb, pos2) = match B::get(b, pos1) {
            Ok(x) => x,
            Err(e) => {
                return Err(e);
            },
        };
        let (c, pos3) = match C::get(b, pos2) {
            Ok(x) => x,
            Err(e) => {
                return Err(e);
            },
        };
        let (d, pos4) = match D::get(b, pos3) {
            Ok(x) => x,
            Err(e) => {
                return Err(e);
            },
        };
        Ok(((a, bb, c, d), pos4))
    }
}

/// The encoding of `x` on its own.
pub fn encode<T: Wire>(x: &T) -> (r: Vec<u8>)
    ensures
        r@ == T::wire(x.deep_view()),
{
    let mut out: Vec<u8> = Vec::new();
    x.put(&mut out);
    assert(out@ =~= T::wire(x.deep_view()));
    out
}

/// The value that `b` is the encoding of, if there is one.
pub open spec fn decoded<T: Wire>(b: Seq<u8>) -> Option<T::V> {
    if exists|v: T::V| #[trigger] T::wire(v) == b {
        Some(choose|v: T::V| #[trigger] T::wire(v) == b)
    } else {
        None
    }
}

pub proof fn lemma_decoded<T: Wire>(b: Seq<u8>, v: T::V)
    requires
        b.len() <= u64::MAX,
        T::wire(v) == b,
    ensures
        decoded::<T>(b) == Some(v),
{
    assert(exists|x: T::V| #[trigger] T::wire(x) == b) by {
        assert(T::wire(v) == b);
    }
    let w = decoded::<T>(b)->Some_0;
    assert(T::wire(w) == b);
    assert(b.subrange(0, b.len() as int) =~= b);
    T::lemma_wire_unique(b, 0, v, w);
}

/// Decoding an encoding gives back the value that was encoded.
pub proof fn lemma_round_trip<T: Wire>(v: T::V)
    requires
        T::wire(v).len() <= u64::MAX,
    ensures
        decoded::<T>(T::wire(v)) == Some(v),
{
    lemma_decoded::<T>(T::wire(v), v);
}

/// Reads a value that fills `b` exactly: it succeeds exactly when `b` is the
/// encoding of some value, and then returns that value.
pub fn decode<T: Wire>(b: &[u8]) -> (r: Result<T, DecodeError>)
    ensures
        r is Ok <==> decoded::<T>(b@) is Some,
        r matches Ok(x) ==> decoded::<T>(b@) == Some(x.deep_view()),
        r matches Ok(x) ==> T::wire(x.deep_view()) == b@,
        forall|v: T::V| #[trigger] T::wire(v) == b@ ==> (r matches Ok(x) && x.deep_view() == v),
{
    proof {
        assert forall|v: T::V| #[trigger] T::wire(v) == b@ implies holds_at(b@, 0, T::wire(v)) by {
            assert(b@.subrange(0, b@.len() as int) =~= b@);
        }
    }
    match T::get(b, 0) {
        Ok((x, end)) => {
            if end != b.len() {
                return Err(DecodeError::TrailingBytes);
            }
            assert(b@.subrange(0, b@.len() as int) =~= b@);
            proof {
                lemma_decoded::<T>(b@, x.deep_view());
            }
            Ok(x)
        },
        Err(e) => Err(e),
    }
}

} // verus!
