use crate::error::Error;
use vstd::prelude::*;

verus! {

/// A type with a binary encoding: how its values are written, read back and
/// measured.
///
/// `encode` is the canonical encoding of a value's model, `parse` what a read
/// makes of a byte sequence: the model of the value read and the number of bytes
/// it took, or the error. The three operations are held to these two.
pub trait BinProt: Sized {
    /// What a value of the type stands for.
    type Model;

    spec fn model(&self) -> Self::Model;

    /// The models that an encoding can carry (lengths that a count holds, keys
    /// that are distinct).
    spec fn well_formed(m: Self::Model) -> bool;

    spec fn encode(m: Self::Model) -> Seq<u8>;

    spec fn parse(s: Seq<u8>) -> Result<(Self::Model, nat), Error>;

    /// Reading a value back from its encoding gives it again, and takes exactly
    /// the bytes of the encoding, whatever follows them.
    proof fn lemma_round_trip(m: Self::Model, rest: Seq<u8>)
        requires
            Self::well_formed(m),
        ensures
            Self::parse(Self::encode(m) + rest) == Ok::<(Self::Model, nat), Error>(
                (m, Self::encode(m).len()),
            ),
    ;

    /// The number of bytes that `binprot_write` appends.
    fn binprot_size(&self) -> (r: usize)
        requires
            Self::encode(self.model()).len() <= usize::MAX,
        ensures
            r == Self::encode(self.model()).len(),
    ;

    /// Appends the encoding of `self` to `out`.
    fn binprot_write(&self, out: &mut Vec<u8>)
        requires
            Self::encode(self.model()).len() <= usize::MAX,
        ensures
            final(out)@ == old(out)@ + Self::encode(self.model()),
    ;

    /// Decodes one value from `buf` at `pos` and moves `pos` past it.
    fn binprot_read(buf: &[u8], pos: &mut usize) -> (r: Result<Self, Error>)
        requires
            *old(pos) <= buf@.len(),
        ensures
            match Self::parse(buf@.subrange(*old(pos) as int, buf@.len() as int)) {
                Ok((m, n)) => r is Ok && r->Ok_0.model() == m && *final(pos) == *old(pos) + n,
                Err(e) => r == Err::<Self, Error>(e),
            },
            *final(pos) <= buf@.len(),
    ;
}

} // verus!
