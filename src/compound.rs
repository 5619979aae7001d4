use crate::error::Error;
use crate::primitives::{first_byte, read_byte};
use crate::traits::BinProt;
use crate::varint::{lemma_nat0_round_trip, nat0_bytes, nat0_parse, nat0_size, read_nat0, write_nat0};
use vstd::prelude::*;
use vstd::slice::{slice_subrange, slice_to_vec};
use vstd::utf8::{decode_utf8, encode_utf8, encode_utf8_decode_utf8, encode_utf8_valid_utf8, valid_utf8};

verus! {

impl<T: BinProt> BinProt for Option<T> {
    type Model = Option<T::Model>;

    open spec fn model(&self) -> Option<T::Model> {
        match self {
            None => None,
            Some(v) => Some(v.model()),
        }
    }

    open spec fn well_formed(m: Option<T::Model>) -> bool {
        match m {
            None => true,
            Some(x) => T::well_formed(x),
        }
    }

    open spec fn encode(m: Option<T::Model>) -> Seq<u8> {
        match m {
            None => seq![0u8],
            Some(x) => seq![1u8] + T::encode(x),
        }
    }

    open spec fn parse(s: Seq<u8>) -> Result<(Option<T::Model>, nat), Error> {
        match first_byte(s) {
            Err(e) => Err(e),
            Ok(c) => if c == 0 {
                Ok((None, 1))
            } else if c == 1 {
                match T::parse(s.subrange(1, s.len() as int)) {
                    Ok((x, n)) => Ok((Some(x), 1 + n)),
                    Err(e) => Err(e),
                }
            } else {
                Err(Error::UnexpectedValueForOption(c))
            },
        }
    }

    proof fn lemma_round_trip(m: Option<T::Model>, rest: Seq<u8>) {
        if let Some(x) = m {
            T::lemma_round_trip(x, rest);
            let s = Self::encode(m) + rest;
            assert(s.subrange(1, s.len() as int) =~= T::encode(x) + rest);
        }
    }

    fn binprot_size(&self) -> usize {
        match self {
            None => 1,
            Some(v) => 1 + v.binprot_size(),
        }
    }

    fn binprot_write(&self, out: &mut Vec<u8>) {
        match self {
            None => {
                out.push(0u8);
            },
            Some(v) => {
                out.push(1u8);
                v.binprot_write(out);
            },
        }
        assert(final(out)@ =~= old(out)@ + Self::encode(self.model()));
    }

    fn binprot_read(buf: &[u8], pos: &mut usize) -> Result<Option<T>, Error> {
        let ghost start = *pos;
        let c = read_byte(buf, pos)?;
        if c == 0 {
            Ok(None)
        } else if c == 1 {
            proof {
                let s = buf@.subrange(start as int, buf@.len() as int);
                assert(s.subrange(1, s.len() as int) =~= buf@.subrange(*pos as int, buf@.len() as int));
            }
            let v = T::binprot_read(buf, pos)?;
            Ok(Some(v))
        } else {
            Err(Error::UnexpectedValueForOption(c))
        }
    }
}

/// Relies on `std::str::from_utf8`: the text whose UTF-8 encoding is `b`, where `b`
/// is valid UTF-8.
#[verifier::external_body]
fn utf8_text(b: &[u8]) -> (r: Option<&str>)
    ensures
        r is Some <==> valid_utf8(b@),
        r is Some ==> r->0@ == decode_utf8(b@),
{
    std::str::from_utf8(b).ok()
}

/// Where the `len` bytes from `start` on lie within `s`.
pub open spec fn fits(s: Seq<u8>, start: nat, len: nat) -> bool {
    start + len <= s.len()
}

/// A string encoding whose bytes are not valid UTF-8 is rejected with `Utf8Error`,
/// whatever follows it.
pub proof fn lemma_invalid_utf8_rejected(b: Seq<u8>, rest: Seq<u8>)
    requires
        b.len() <= u64::MAX,
        !valid_utf8(b),
    ensures
        String::parse(nat0_bytes(b.len() as u64) + b + rest) == Err::<(Seq<char>, nat), Error>(
            Error::Utf8Error,
        ),
{
    let len = b.len() as u64;
    lemma_nat0_round_trip(len, b + rest);
    let s = nat0_bytes(len) + b + rest;
    assert(s =~= nat0_bytes(len) + (b + rest));
    let n = nat0_bytes(len).len();
    assert(s.subrange(n as int, n + len) =~= b);
}

impl BinProt for String {
    type Model = Seq<char>;

    open spec fn model(&self) -> Seq<char> {
        self@
    }

    open spec fn well_formed(m: Seq<char>) -> bool {
        encode_utf8(m).len() <= u64::MAX
    }

    open spec fn encode(m: Seq<char>) -> Seq<u8> {
        nat0_bytes(encode_utf8(m).len() as u64) + encode_utf8(m)
    }

    open spec fn parse(s: Seq<u8>) -> Result<(Seq<char>, nat), Error> {
        match nat0_parse(s) {
            Err(e) => Err(e),
            Ok((len, n)) => if !fits(s, n, len as nat) {
                Err(Error::UnexpectedEof)
            } else {
                let b = s.subrange(n as int, n + len);
                if valid_utf8(b) {
                    Ok((decode_utf8(b), n + len as nat))
                } else {
                    Err(Error::Utf8Error)
                }
            },
        }
    }

    proof fn lemma_round_trip(m: Seq<char>, rest: Seq<u8>) {
        let b = encode_utf8(m);
        let len = b.len() as u64;
        lemma_nat0_round_trip(len, b + rest);
        let s = Self::encode(m) + rest;
        assert(s =~= nat0_bytes(len) + (b + rest));
        let n = nat0_bytes(len).len();
        assert(s.subrange(n as int, n + len) =~= b);
        encode_utf8_valid_utf8(m);
        encode_utf8_decode_utf8(m);
    }

    fn binprot_size(&self) -> usize {
        let bytes = self.as_str().as_bytes();
        nat0_size(bytes.len() as u64) + bytes.len()
    }

    fn binprot_write(&self, out: &mut Vec<u8>) {
        let bytes = self.as_str().as_bytes();
        write_nat0(out, bytes.len() as u64);
        let mut v = slice_to_vec(bytes);
        out.append(&mut v);
        assert(final(out)@ =~= old(out)@ + Self::encode(self.model()));
    }

    fn binprot_read(buf: &[u8], pos: &mut usize) -> Result<String, Error> {
        let ghost start = *pos;
        let len = read_nat0(buf, pos)?;
        if len > (buf.len() - *pos) as u64 {
            return Err(Error::UnexpectedEof);
        }
        let end = *pos + len as usize;
        let b = slice_subrange(buf, *pos, end);
        proof {
            let s = buf@.subrange(start as int, buf@.len() as int);
            let n = *pos - start;
            assert(s.subrange(n as int, n + len) =~= b@);
        }
        match utf8_text(b) {
            Some(t) => {
                *pos = end;
                Ok(t.to_owned())
            },
            None => Err(Error::Utf8Error),
        }
    }
}

} // verus!
