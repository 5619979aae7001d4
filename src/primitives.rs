use crate::error::Error;
use crate::traits::BinProt;
use crate::varint::{i64_bytes, i64_parse, i64_size, lemma_i64_round_trip, read_i64, write_i64};
use vstd::prelude::*;

verus! {

/// What decoding a one-byte value gives: the byte, or `UnexpectedEof`.
pub open spec fn first_byte(s: Seq<u8>) -> Result<u8, Error> {
    if s.len() == 0 {
        Err(Error::UnexpectedEof)
    } else {
        Ok(s[0])
    }
}

/// Reads the byte at `pos` and moves `pos` past it.
pub(crate) fn read_byte(buf: &[u8], pos: &mut usize) -> (r: Result<u8, Error>)
    requires
        *old(pos) <= buf@.len(),
    ensures
        r == first_byte(buf@.subrange(*old(pos) as int, buf@.len() as int)),
        r is Ok ==> *final(pos) == *old(pos) + 1,
        *final(pos) <= buf@.len(),
{
    if *pos >= buf.len() {
        return Err(Error::UnexpectedEof);
    }
    let c = buf[*pos];
    *pos = *pos + 1;
    Ok(c)
}

impl BinProt for () {
    type Model = ();

    open spec fn model(&self) -> () {
        ()
    }

    open spec fn well_formed(m: ()) -> bool {
        true
    }

    open spec fn encode(m: ()) -> Seq<u8> {
        seq![0u8]
    }

    open spec fn parse(s: Seq<u8>) -> Result<((), nat), Error> {
        match first_byte(s) {
            Err(e) => Err(e),
            Ok(c) => if c == 0 {
                Ok(((), 1))
            } else {
                Err(Error::UnexpectedValueForUnit(c))
            },
        }
    }

    proof fn lemma_round_trip(m: (), rest: Seq<u8>) {
    }

    fn binprot_size(&self) -> usize {
        1
    }

    fn binprot_write(&self, out: &mut Vec<u8>) {
        out.push(0u8);
        assert(final(out)@ =~= old(out)@ + seq![0u8]);
    }

    fn binprot_read(buf: &[u8], pos: &mut usize) -> Result<(), Error> {
        let c = read_byte(buf, pos)?;
        if c == 0 {
            Ok(())
        } else {
            Err(Error::UnexpectedValueForUnit(c))
        }
    }
}

impl BinProt for bool {
    type Model = bool;

    open spec fn model(&self) -> bool {
        *self
    }

    open spec fn well_formed(m: bool) -> bool {
        true
    }

    open spec fn encode(m: bool) -> Seq<u8> {
        seq![if m { 1u8 } else { 0u8 }]
    }

    open spec fn parse(s: Seq<u8>) -> Result<(bool, nat), Error> {
        match first_byte(s) {
            Err(e) => Err(e),
            Ok(c) => if c == 0 {
                Ok((false, 1))
            } else if c == 1 {
                Ok((true, 1))
            } else {
                Err(Error::UnexpectedValueForBool(c))
            },
        }
    }

    proof fn lemma_round_trip(m: bool, rest: Seq<u8>) {
    }

    fn binprot_size(&self) -> usize {
        1
    }

    fn binprot_write(&self, out: &mut Vec<u8>) {
        let b: u8 = if *self { 1 } else { 0 };
        out.push(b);
        assert(final(out)@ =~= old(out)@ + Self::encode(self.model()));
    }

    fn binprot_read(buf: &[u8], pos: &mut usize) -> Result<bool, Error> {
        let c = read_byte(buf, pos)?;
        if c == 0 {
            Ok(false)
        } else if c == 1 {
            Ok(true)
        } else {
            Err(Error::UnexpectedValueForBool(c))
        }
    }
}

impl BinProt for i64 {
    type Model = i64;

    open spec fn model(&self) -> i64 {
        *self
    }

    open spec fn well_formed(m: i64) -> bool {
        true
    }

    open spec fn encode(m: i64) -> Seq<u8> {
        i64_bytes(m)
    }

    open spec fn parse(s: Seq<u8>) -> Result<(i64, nat), Error> {
        i64_parse(s)
    }

    proof fn lemma_round_trip(m: i64, rest: Seq<u8>) {
        lemma_i64_round_trip(m, rest);
    }

    fn binprot_size(&self) -> usize {
        i64_size(*self)
    }

    fn binprot_write(&self, out: &mut Vec<u8>) {
        write_i64(out, *self);
    }

    fn binprot_read(buf: &[u8], pos: &mut usize) -> Result<i64, Error> {
        read_i64(buf, pos)
    }
}

} // verus!
