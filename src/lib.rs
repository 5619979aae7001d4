//! A byte-exact binary serialization protocol: size-prefixed, tag-discriminated
//! encodings of integers, booleans, options, sequences, strings, maps and tuples,
//! with their decoders, size computations, and two framing envelopes.
pub mod compound;
mod error;
pub mod le;
pub mod map;
pub mod primitives;
pub mod sequence;
pub mod traits;
pub mod tuples;
pub mod varint;

pub use crate::error::Error;
pub use crate::map::{BinProtKey, BinProtMap};
pub use crate::traits::BinProt;

use crate::le::{le_bytes, le_bytes_of, le_value, lemma_le_bytes_len, lemma_le_round_trip, lemma_pow256_values};
use crate::varint::{lemma_nat0_round_trip, nat0_bytes, nat0_parse, nat0_size, read_nat0, write_nat0};
use vstd::prelude::*;

verus! {

/// A non-negative 64-bit integer, encoded in the unsigned variable-width form.
#[derive(Debug, Clone, Copy, PartialEq, Eq, Structural)]
pub struct Nat0(pub u64);

impl BinProt for Nat0 {
    type Model = u64;

    open spec fn model(&self) -> u64 {
        self.0
    }

    open spec fn well_formed(m: u64) -> bool {
        true
    }

    open spec fn encode(m: u64) -> Seq<u8> {
        nat0_bytes(m)
    }

    open spec fn parse(s: Seq<u8>) -> Result<(u64, nat), Error> {
        nat0_parse(s)
    }

    proof fn lemma_round_trip(m: u64, rest: Seq<u8>) {
        lemma_nat0_round_trip(m, rest);
    }

    fn binprot_size(&self) -> usize {
        nat0_size(self.0)
    }

    fn binprot_write(&self, out: &mut Vec<u8>) {
        write_nat0(out, self.0);
    }

    fn binprot_read(buf: &[u8], pos: &mut usize) -> Result<Nat0, Error> {
        let v = read_nat0(buf, pos)?;
        Ok(Nat0(v))
    }
}

/// A value preceded by the length of its encoding, as a natural number.
///
/// A reader takes the length and then decodes the value by its own structure: the
/// length is not used to bound that read.
#[derive(Debug, Clone, PartialEq, Eq)]
pub struct WithLen<T>(pub T);

/// What reading a length and then a value of type `T` gives.
pub open spec fn parse_with_len<T: BinProt>(s: Seq<u8>) -> Result<(T::Model, nat), Error> {
    match nat0_parse(s) {
        Err(e) => Err(e),
        Ok((len, n)) => match T::parse(s.subrange(n as int, s.len() as int)) {
            Err(e) => Err(e),
            Ok((m, n2)) => Ok((m, n + n2)),
        },
    }
}

impl<T: BinProt> BinProt for WithLen<T> {
    type Model = T::Model;

    open spec fn model(&self) -> T::Model {
        self.0.model()
    }

    open spec fn well_formed(m: T::Model) -> bool {
        T::well_formed(m) && T::encode(m).len() <= u64::MAX
    }

    open spec fn encode(m: T::Model) -> Seq<u8> {
        nat0_bytes(T::encode(m).len() as u64) + T::encode(m)
    }

    open spec fn parse(s: Seq<u8>) -> Result<(T::Model, nat), Error> {
        parse_with_len::<T>(s)
    }

    proof fn lemma_round_trip(m: T::Model, rest: Seq<u8>) {
        let inner = T::encode(m);
        let len = inner.len() as u64;
        lemma_nat0_round_trip(len, inner + rest);
        let s = Self::encode(m) + rest;
        assert(s =~= nat0_bytes(len) + (inner + rest));
        let n = nat0_bytes(len).len();
        assert(s.subrange(n as int, s.len() as int) =~= inner + rest);
        T::lemma_round_trip(m, rest);
    }

    fn binprot_size(&self) -> usize {
        let len = self.0.binprot_size();
        nat0_size(len as u64) + len
    }

    fn binprot_write(&self, out: &mut Vec<u8>) {
        let len = self.0.binprot_size();
        write_nat0(out, len as u64);
        self.0.binprot_write(out);
        assert(final(out)@ =~= old(out)@ + Self::encode(self.model()));
    }

    fn binprot_read(buf: &[u8], pos: &mut usize) -> Result<WithLen<T>, Error> {
        let ghost start = *pos;
        let _len = read_nat0(buf, pos)?;
        proof {
            let s = buf@.subrange(start as int, buf@.len() as int);
            assert(s.subrange(*pos - start, s.len() as int) =~= buf@.subrange(
                *pos as int,
                buf@.len() as int,
            ));
        }
        let t = T::binprot_read(buf, pos)?;
        Ok(WithLen(t))
    }
}

/// `payload` behind its length as eight little-endian bytes.
pub open spec fn framed(payload: Seq<u8>) -> Seq<u8> {
    le_bytes(payload.len(), 8) + payload
}

/// What reading an eight-byte length and then a value of type `B` gives.
pub open spec fn parse_framed<B: BinProt>(s: Seq<u8>) -> Result<(B::Model, nat), Error> {
    if s.len() < 8 {
        Err(Error::UnexpectedEof)
    } else {
        match B::parse(s.subrange(8, s.len() as int)) {
            Err(e) => Err(e),
            Ok((m, n)) => Ok((m, 8 + n)),
        }
    }
}

/// Appends the encoding of `b` behind its length as an eight-byte little-endian
/// signed integer.
pub fn binprot_write_with_size<B: BinProt>(b: &B, out: &mut Vec<u8>)
    requires
        B::encode(b.model()).len() <= i64::MAX,
        B::encode(b.model()).len() <= usize::MAX,
    ensures
        final(out)@ == old(out)@ + framed(B::encode(b.model())),
{
    proof {
        lemma_pow256_values();
    }
    let len = b.binprot_size();
    let mut prefix = le_bytes_of(len as u64, 8);
    out.append(&mut prefix);
    b.binprot_write(out);
    assert(final(out)@ =~= old(out)@ + framed(B::encode(b.model())));
}

/// Reads an eight-byte length and then a value of type `B`.
///
/// The length is read but not used to bound the read of the value, which ends
/// where its own encoding does.
pub fn binprot_read_with_size<B: BinProt>(buf: &[u8], pos: &mut usize) -> (r: Result<B, Error>)
    requires
        *old(pos) <= buf@.len(),
    ensures
        match parse_framed::<B>(buf@.subrange(*old(pos) as int, buf@.len() as int)) {
            Ok((m, n)) => r is Ok && r->Ok_0.model() == m && *final(pos) == *old(pos) + n,
            Err(e) => r == Err::<B, Error>(e),
        },
        *final(pos) <= buf@.len(),
{
    if buf.len() - *pos < 8 {
        return Err(Error::UnexpectedEof);
    }
    let ghost start = *pos;
    *pos = *pos + 8;
    proof {
        let s = buf@.subrange(start as int, buf@.len() as int);
        assert(s.subrange(8, s.len() as int) =~= buf@.subrange(*pos as int, buf@.len() as int));
    }
    B::binprot_read(buf, pos)
}

/// Framing a payload of `n` bytes gives `8 + n` bytes whose first eight read back
/// as `n`, and a reader of the framed form gets the value back, whatever follows.
pub proof fn lemma_framing<B: BinProt>(m: B::Model, rest: Seq<u8>)
    requires
        B::well_formed(m),
        B::encode(m).len() <= i64::MAX,
    ensures
        framed(B::encode(m)).len() == 8 + B::encode(m).len(),
        le_value(framed(B::encode(m)).subrange(0, 8)) == B::encode(m).len(),
        parse_framed::<B>(framed(B::encode(m)) + rest) == Ok::<(B::Model, nat), Error>(
            (m, framed(B::encode(m)).len()),
        ),
{
    let p = B::encode(m);
    lemma_pow256_values();
    lemma_le_bytes_len(p.len(), 8);
    lemma_le_round_trip(p.len(), 8);
    let f = framed(p);
    assert(f.subrange(0, 8) =~= le_bytes(p.len(), 8));
    B::lemma_round_trip(m, rest);
    let s = f + rest;
    assert(s.subrange(8, s.len() as int) =~= p + rest);
}

/// The length-wrapped form of a value whose encoding has `n` bytes takes the
/// canonical encoding of `n`, then those `n` bytes.
pub proof fn lemma_with_len_size<T: BinProt>(m: T::Model)
    requires
        T::encode(m).len() <= u64::MAX,
    ensures
        WithLen::<T>::encode(m).len() == nat0_bytes(T::encode(m).len() as u64).len() + T::encode(m).len(),
        WithLen::<T>::encode(m).subrange(0, nat0_bytes(T::encode(m).len() as u64).len() as int)
            == nat0_bytes(T::encode(m).len() as u64),
{
    let k = nat0_bytes(T::encode(m).len() as u64).len();
    assert(WithLen::<T>::encode(m).subrange(0, k as int) =~= nat0_bytes(T::encode(m).len() as u64));
}

} // verus!
