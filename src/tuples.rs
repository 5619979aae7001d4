use crate::error::Error;
use crate::traits::BinProt;
use vstd::prelude::*;

verus! {

impl<A: BinProt> BinProt for (A,) {
    type Model = (A::Model,);

    open spec fn model(&self) -> (A::Model,) {
        (self.0.model(),)
    }

    open spec fn well_formed(m: (A::Model,)) -> bool {
        A::well_formed(m.0)
    }

    open spec fn encode(m: (A::Model,)) -> Seq<u8> {
        A::encode(m.0)
    }

    open spec fn parse(s: Seq<u8>) -> Result<((A::Model,), nat), Error> {
        match A::parse(s) {
            Err(e) => Err(e),
            Ok((m0, n0)) => Ok(((m0,), n0)),
        }
    }

    proof fn lemma_round_trip(m: (A::Model,), rest: Seq<u8>) {
        let s = Self::encode(m) + rest;
        assert(s =~= A::encode(m.0) + rest);
        A::lemma_round_trip(m.0, rest);
    }

    fn binprot_size(&self) -> usize {
        self.0.binprot_size()
    }

    fn binprot_write(&self, out: &mut Vec<u8>) {
        self.0.binprot_write(out);
        assert(final(out)@ =~= old(out)@ + Self::encode(self.model()));
    }

    fn binprot_read(buf: &[u8], pos: &mut usize) -> Result<(A,), Error> {
        let ghost start = *pos;
        let ghost s = buf@.subrange(start as int, buf@.len() as int);
        let v0 = A::binprot_read(buf, pos)?;
        Ok((v0,))
    }
}

impl<A: BinProt, B: BinProt> BinProt for (A, B) {
    type Model = (A::Model, B::Model);

    open spec fn model(&self) -> (A::Model, B::Model) {
        (self.0.model(), self.1.model())
    }

    open spec fn well_formed(m: (A::Model, B::Model)) -> bool {
        A::well_formed(m.0) && B::well_formed(m.1)
    }

    open spec fn encode(m: (A::Model, B::Model)) -> Seq<u8> {
        A::encode(m.0) + B::encode(m.1)
    }

    open spec fn parse(s: Seq<u8>) -> Result<((A::Model, B::Model), nat), Error> {
        match A::parse(s) {
            Err(e) => Err(e),
            Ok((m0, n0)) => {
                match B::parse(s.subrange(n0 as int, s.len() as int)) {
                    Err(e) => Err(e),
                    Ok((m1, n1)) => Ok(((m0, m1), n0 + n1)),
                }
            },
        }
    }

    proof fn lemma_round_trip(m: (A::Model, B::Model), rest: Seq<u8>) {
        let s = Self::encode(m) + rest;
        assert(s =~= A::encode(m.0) + (B::encode(m.1) + rest));
        A::lemma_round_trip(m.0, B::encode(m.1) + rest);
        assert(s.subrange(A::encode(m.0).len() as int, s.len() as int) =~= B::encode(m.1) + rest);
        B::lemma_round_trip(m.1, rest);
    }

    fn binprot_size(&self) -> usize {
        self.0.binprot_size() + self.1.binprot_size()
    }

    fn binprot_write(&self, out: &mut Vec<u8>) {
        self.0.binprot_write(out);
        self.1.binprot_write(out);
        assert(final(out)@ =~= old(out)@ + Self::encode(self.model()));
    }

    fn binprot_read(buf: &[u8], pos: &mut usize) -> Result<(A, B), Error> {
        let ghost start = *pos;
        let ghost s = buf@.subrange(start as int, buf@.len() as int);
        let v0 = A::binprot_read(buf, pos)?;
        proof {
            assert(s.subrange(*pos - start, s.len() as int) =~= buf@.subrange(*pos as int, buf@.len() as int));
        }
        let v1 = B::binprot_read(buf, pos)?;
        Ok((v0, v1))
    }
}

impl<A: BinProt, B: BinProt, C: BinProt> BinProt for (A, B, C) {
    type Model = (A::Model, B::Model, C::Model);

    open spec fn model(&self) -> (A::Model, B::Model, C::Model) {
        (self.0.model(), self.1.model(), self.2.model())
    }

    open spec fn well_formed(m: (A::Model, B::Model, C::Model)) -> bool {
        A::well_formed(m.0) && B::well_formed(m.1) && C::well_formed(m.2)
    }

    open spec fn encode(m: (A::Model, B::Model, C::Model)) -> Seq<u8> {
        A::encode(m.0) + B::encode(m.1) + C::encode(m.2)
    }

    open spec fn parse(s: Seq<u8>) -> Result<((A::Model, B::Model, C::Model), nat), Error> {
        match A::parse(s) {
            Err(e) => Err(e),
            Ok((m0, n0)) => {
                match B::parse(s.subrange(n0 as int, s.len() as int)) {
                    Err(e) => Err(e),
                    Ok((m1, n1)) => {
                        match C::parse(s.subrange((n0 + n1) as int, s.len() as int)) {
                            Err(e) => Err(e),
                            Ok((m2, n2)) => Ok(((m0, m1, m2), (n0 + n1) + n2)),
                        }
                    },
                }
            },
        }
    }

    proof fn lemma_round_trip(m: (A::Model, B::Model, C::Model), rest: Seq<u8>) {
        let s = Self::encode(m) + rest;
        assert(s =~= A::encode(m.0) + (B::encode(m.1) + C::encode(m.2) + rest));
        A::lemma_round_trip(m.0, B::encode(m.1) + C::encode(m.2) + rest);
        assert(s.subrange(A::encode(m.0).len() as int, s.len() as int) =~= B::encode(m.1) + (C::encode(m.2) + rest));
        B::lemma_round_trip(m.1, C::encode(m.2) + rest);
        assert(s.subrange(A::encode(m.0).len() + B::encode(m.1).len() as int, s.len() as int) =~= C::encode(m.2) + rest);
        C::lemma_round_trip(m.2, rest);
    }

    fn binprot_size(&self) -> usize {
        self.0.binprot_size() + self.1.binprot_size() + self.2.binprot_size()
    }

    fn binprot_write(&self, out: &mut Vec<u8>) {
        self.0.binprot_write(out);
        self.1.binprot_write(out);
        self.2.binprot_write(out);
        assert(final(out)@ =~= old(out)@ + Self::encode(self.model()));
    }

    fn binprot_read(buf: &[u8], pos: &mut usize) -> Result<(A, B, C), Error> {
        let ghost start = *pos;
        let ghost s = buf@.subrange(start as int, buf@.len() as int);
        let v0 = A::binprot_read(buf, pos)?;
        proof {
            assert(s.subrange(*pos - start, s.len() as int) =~= buf@.subrange(*pos as int, buf@.len() as int));
        }
        let v1 = B::binprot_read(buf, pos)?;
        proof {
            assert(s.subrange(*pos - start, s.len() as int) =~= buf@.subrange(*pos as int, buf@.len() as int));
        }
        let v2 = C::binprot_read(buf, pos)?;
        Ok((v0, v1, v2))
    }
}

impl<A: BinProt, B: BinProt, C: BinProt, D: BinProt> BinProt for (A, B, C, D) {
    type Model = (A::Model, B::Model, C::Model, D::Model);

    open spec fn model(&self) -> (A::Model, B::Model, C::Model, D::Model) {
        (self.0.model(), self.1.model(), self.2.model(), self.3.model())
    }

    open spec fn well_formed(m: (A::Model, B::Model, C::Model, D::Model)) -> bool {
        A::well_formed(m.0) && B::well_formed(m.1) && C::well_formed(m.2) && D::well_formed(m.3)
    }

    open spec fn encode(m: (A::Model, B::Model, C::Model, D::Model)) -> Seq<u8> {
        A::encode(m.0) + B::encode(m.1) + C::encode(m.2) + D::encode(m.3)
    }

    open spec fn parse(s: Seq<u8>) -> Result<((A::Model, B::Model, C::Model, D::Model), nat), Error> {
        match A::parse(s) {
            Err(e) => Err(e),
            Ok((m0, n0)) => {
                match B::parse(s.subrange(n0 as int, s.len() as int)) {
                    Err(e) => Err(e),
                    Ok((m1, n1)) => {
                        match C::parse(s.subrange((n0 + n1) as int, s.len() as int)) {
                            Err(e) => Err(e),
                            Ok((m2, n2)) => {
                                match D::parse(s.subrange(((n0 + n1) + n2) as int, s.len() as int)) {
                                    Err(e) => Err(e),
                                    Ok((m3, n3)) => Ok(((m0, m1, m2, m3), ((n0 + n1) + n2) + n3)),
                                }
                            },
                        }
                    },
                }
            },
        }
    }

    proof fn lemma_round_trip(m: (A::Model, B::Model, C::Model, D::Model), rest: Seq<u8>) {
        let s = Self::encode(m) + rest;
        assert(s =~= A::encode(m.0) + (B::encode(m.1) + C::encode(m.2) + D::encode(m.3) + rest));
        A::lemma_round_trip(m.0, B::encode(m.1) + C::encode(m.2) + D::encode(m.3) + rest);
        assert(s.subrange(A::encode(m.0).len() as int, s.len() as int) =~= B::encode(m.1) + (C::encode(m.2) + D::encode(m.3) + rest));
        B::lemma_round_trip(m.1, C::encode(m.2) + D::encode(m.3) + rest);
        assert(s.subrange(A::encode(m.0).len() + B::encode(m.1).len() as int, s.len() as int) =~= C::encode(m.2) + (D::encode(m.3) + rest));
        C::lemma_round_trip(m.2, D::encode(m.3) + rest);
        assert(s.subrange(A::encode(m.0).len() + B::encode(m.1).len() + C::encode(m.2).len() as int, s.len() as int) =~= D::encode(m.3) + rest);
        D::lemma_round_trip(m.3, rest);
    }

    fn binprot_size(&self) -> usize {
        self.0.binprot_size() + self.1.binprot_size() + self.2.binprot_size() + self.3.binprot_size()
    }

    fn binprot_write(&self, out: &mut Vec<u8>) {
        self.0.binprot_write(out);
        self.1.binprot_write(out);
        self.2.binprot_write(out);
        self.3.binprot_write(out);
        assert(final(out)@ =~= old(out)@ + Self::encode(self.model()));
    }

    fn binprot_read(buf: &[u8], pos: &mut usize) -> Result<(A, B, C, D), Error> {
        let ghost start = *pos;
        let ghost s = buf@.subrange(start as int, buf@.len() as int);
        let v0 = A::binprot_read(buf, pos)?;
        proof {
            assert(s.subrange(*pos - start, s.len() as int) =~= buf@.subrange(*pos as int, buf@.len() as int));
        }
        let v1 = B::binprot_read(buf, pos)?;
        proof {
            assert(s.subrange(*pos - start, s.len() as int) =~= buf@.subrange(*pos as int, buf@.len() as int));
        }
        let v2 = C::binprot_read(buf, pos)?;
        proof {
            assert(s.subrange(*pos - start, s.len() as int) =~= buf@.subrange(*pos as int, buf@.len() as int));
        }
        let v3 = D::binprot_read(buf, pos)?;
        Ok((v0, v1, v2, v3))
    }
}

impl<A: BinProt, B: BinProt, C: BinProt, D: BinProt, E: BinProt> BinProt for (A, B, C, D, E) {
    type Model = (A::Model, B::Model, C::Model, D::Model, E::Model);

    open spec fn model(&self) -> (A::Model, B::Model, C::Model, D::Model, E::Model) {
        (self.0.model(), self.1.model(), self.2.model(), self.3.model(), self.4.model())
    }

    open spec fn well_formed(m: (A::Model, B::Model, C::Model, D::Model, E::Model)) -> bool {
        A::well_formed(m.0) && B::well_formed(m.1) && C::well_formed(m.2) && D::well_formed(m.3) && E::well_formed(m.4)
    }

    open spec fn encode(m: (A::Model, B::Model, C::Model, D::Model, E::Model)) -> Seq<u8> {
        A::encode(m.0) + B::encode(m.1) + C::encode(m.2) + D::encode(m.3) + E::encode(m.4)
    }

    open spec fn parse(s: Seq<u8>) -> Result<((A::Model, B::Model, C::Model, D::Model, E::Model), nat), Error> {
        match A::parse(s) {
            Err(e) => Err(e),
            Ok((m0, n0)) => {
                match B::parse(s.subrange(n0 as int, s.len() as int)) {
                    Err(e) => Err(e),
                    Ok((m1, n1)) => {
                        match C::parse(s.subrange((n0 + n1) as int, s.len() as int)) {
                            Err(e) => Err(e),
                            Ok((m2, n2)) => {
                                match D::parse(s.subrange(((n0 + n1) + n2) as int, s.len() as int)) {
                                    Err(e) => Err(e),
                                    Ok((m3, n3)) => {
                                        match E::parse(s.subrange((((n0 + n1) + n2) + n3) as int, s.len() as int)) {
                                            Err(e) => Err(e),
                                            Ok((m4, n4)) => Ok(((m0, m1, m2, m3, m4), (((n0 + n1) + n2) + n3) + n4)),
                                        }
                                    },
                                }
                            },
                        }
                    },
                }
            },
        }
    }

    proof fn lemma_round_trip(m: (A::Model, B::Model, C::Model, D::Model, E::Model), rest: Seq<u8>) {
        let s = Self::encode(m) + rest;
        assert(s =~= A::encode(m.0) + (B::encode(m.1) + C::encode(m.2) + D::encode(m.3) + E::encode(m.4) + rest));
        A::lemma_round_trip(m.0, B::encode(m.1) + C::encode(m.2) + D::encode(m.3) + E::encode(m.4) + rest);
        assert(s.subrange(A::encode(m.0).len() as int, s.len() as int) =~= B::encode(m.1) + (C::encode(m.2) + D::encode(m.3) + E::encode(m.4) + rest));
        B::lemma_round_trip(m.1, C::encode(m.2) + D::encode(m.3) + E::encode(m.4) + rest);
        assert(s.subrange(A::encode(m.0).len() + B::encode(m.1).len() as int, s.len() as int) =~= C::encode(m.2) + (D::encode(m.3) + E::encode(m.4) + rest));
        C::lemma_round_trip(m.2, D::encode(m.3) + E::encode(m.4) + rest);
        assert(s.subrange(A::encode(m.0).len() + B::encode(m.1).len() + C::encode(m.2).len() as int, s.len() as int) =~= D::encode(m.3) + (E::encode(m.4) + rest));
        D::lemma_round_trip(m.3, E::encode(m.4) + rest);
        assert(s.subrange(A::encode(m.0).len() + B::encode(m.1).len() + C::encode(m.2).len() + D::encode(m.3).len() as int, s.len() as int) =~= E::encode(m.4) + rest);
        E::lemma_round_trip(m.4, rest);
    }

    fn binprot_size(&self) -> usize {
        self.0.binprot_size() + self.1.binprot_size() + self.2.binprot_size() + self.3.binprot_size() + self.4.binprot_size()
    }

    fn binprot_write(&self, out: &mut Vec<u8>) {
        self.0.binprot_write(out);
        self.1.binprot_write(out);
        self.2.binprot_write(out);
        self.3.binprot_write(out);
        self.4.binprot_write(out);
        assert(final(out)@ =~= old(out)@ + Self::encode(self.model()));
    }

    fn binprot_read(buf: &[u8], pos: &mut usize) -> Result<(A, B, C, D, E), Error> {
        let ghost start = *pos;
        let ghost s = buf@.subrange(start as int, buf@.len() as int);
        let v0 = A::binprot_read(buf, pos)?;
        proof {
            assert(s.subrange(*pos - start, s.len() as int) =~= buf@.subrange(*pos as int, buf@.len() as int));
        }
        let v1 = B::binprot_read(buf, pos)?;
        proof {
            assert(s.subrange(*pos - start, s.len() as int) =~= buf@.subrange(*pos as int, buf@.len() as int));
        }
        let v2 = C::binprot_read(buf, pos)?;
        proof {
            assert(s.subrange(*pos - start, s.len() as int) =~= buf@.subrange(*pos as int, buf@.len() as int));
        }
        let v3 = D::binprot_read(buf, pos)?;
        proof {
            assert(s.subrange(*pos - start, s.len() as int) =~= buf@.subrange(*pos as int, buf@.len() as int));
        }
        let v4 = E::binprot_read(buf, pos)?;
        Ok((v0, v1, v2, v3, v4))
    }
}

impl<A: BinProt, B: BinProt, C: BinProt, D: BinProt, E: BinProt, F: BinProt> BinProt for (A, B, C, D, E, F) {
    type Model = (A::Model, B::Model, C::Model, D::Model, E::Model, F::Model);

    open spec fn model(&self) -> (A::Model, B::Model, C::Model, D::Model, E::Model, F::Model) {
        (self.0.model(), self.1.model(), self.2.model(), self.3.model(), self.4.model(), self.5.model())
    }

    open spec fn well_formed(m: (A::Model, B::Model, C::Model, D::Model, E::Model, F::Model)) -> bool {
        A::well_formed(m.0) && B::well_formed(m.1) && C::well_formed(m.2) && D::well_formed(m.3) && E::well_formed(m.4) && F::well_formed(m.5)
    }

    open spec fn encode(m: (A::Model, B::Model, C::Model, D::Model, E::Model, F::Model)) -> Seq<u8> {
        A::encode(m.0) + B::encode(m.1) + C::encode(m.2) + D::encode(m.3) + E::encode(m.4) + F::encode(m.5)
    }

    open spec fn parse(s: Seq<u8>) -> Result<((A::Model, B::Model, C::Model, D::Model, E::Model, F::Model), nat), Error> {
        match A::parse(s) {
            Err(e) => Err(e),
            Ok((m0, n0)) => {
                match B::parse(s.subrange(n0 as int, s.len() as int)) {
                    Err(e) => Err(e),
                    Ok((m1, n1)) => {
                        match C::parse(s.subrange((n0 + n1) as int, s.len() as int)) {
                            Err(e) => Err(e),
                            Ok((m2, n2)) => {
                                match D::parse(s.subrange(((n0 + n1) + n2) as int, s.len() as int)) {
                                    Err(e) => Err(e),
                                    Ok((m3, n3)) => {
                                        match E::parse(s.subrange((((n0 + n1) + n2) + n3) as int, s.len() as int)) {
                                            Err(e) => Err(e),
                                            Ok((m4, n4)) => {
                                                match F::parse(s.subrange(((((n0 + n1) + n2) + n3) + n4) as int, s.len() as int)) {
                                                    Err(e) => Err(e),
                                                    Ok((m5, n5)) => Ok(((m0, m1, m2, m3, m4, m5), ((((n0 + n1) + n2) + n3) + n4) + n5)),
                                                }
                                            },
                                        }
                                    },
                                }
                            },
                        }
                    },
                }
            },
        }
    }

    #[verifier::rlimit(80)]
    proof fn lemma_round_trip(m: (A::Model, B::Model, C::Model, D::Model, E::Model, F::Model), rest: Seq<u8>) {
        let s = Self::encode(m) + rest;
        assert(s =~= A::encode(m.0) + (B::encode(m.1) + C::encode(m.2) + D::encode(m.3) + E::encode(m.4) + F::encode(m.5) + rest));
        A::lemma_round_trip(m.0, B::encode(m.1) + C::encode(m.2) + D::encode(m.3) + E::encode(m.4) + F::encode(m.5) + rest);
        assert(s.subrange(A::encode(m.0).len() as int, s.len() as int) =~= B::encode(m.1) + (C::encode(m.2) + D::encode(m.3) + E::encode(m.4) + F::encode(m.5) + rest));
        B::lemma_round_trip(m.1, C::encode(m.2) + D::encode(m.3) + E::encode(m.4) + F::encode(m.5) + rest);
        assert(s.subrange(A::encode(m.0).len() + B::encode(m.1).len() as int, s.len() as int) =~= C::encode(m.2) + (D::encode(m.3) + E::encode(m.4) + F::encode(m.5) + rest));
        C::lemma_round_trip(m.2, D::encode(m.3) + E::encode(m.4) + F::encode(m.5) + rest);
        assert(s.subrange(A::encode(m.0).len() + B::encode(m.1).len() + C::encode(m.2).len() as int, s.len() as int) =~= D::encode(m.3) + (E::encode(m.4) + F::encode(m.5) + rest));
        D::lemma_round_trip(m.3, E::encode(m.4) + F::encode(m.5) + rest);
        assert(s.subrange(A::encode(m.0).len() + B::encode(m.1).len() + C::encode(m.2).len() + D::encode(m.3).len() as int, s.len() as int) =~= E::encode(m.4) + (F::encode(m.5) + rest));
        E::lemma_round_trip(m.4, F::encode(m.5) + rest);
        assert(s.subrange(A::encode(m.0).len() + B::encode(m.1).len() + C::encode(m.2).len() + D::encode(m.3).len() + E::encode(m.4).len() as int, s.len() as int) =~= F::encode(m.5) + rest);
        F::lemma_round_trip(m.5, rest);
    }

    fn binprot_size(&self) -> usize {
        self.0.binprot_size() + self.1.binprot_size() + self.2.binprot_size() + self.3.binprot_size() + self.4.binprot_size() + self.5.binprot_size()
    }

    fn binprot_write(&self, out: &mut Vec<u8>) {
        self.0.binprot_write(out);
        self.1.binprot_write(out);
        self.2.binprot_write(out);
        self.3.binprot_write(out);
        self.4.binprot_write(out);
        self.5.binprot_write(out);
        assert(final(out)@ =~= old(out)@ + Self::encode(self.model()));
    }

    fn binprot_read(buf: &[u8], pos: &mut usize) -> Result<(A, B, C, D, E, F), Error> {
        let ghost start = *pos;
        let ghost s = buf@.subrange(start as int, buf@.len() as int);
        let v0 = A::binprot_read(buf, pos)?;
        proof {
            assert(s.subrange(*pos - start, s.len() as int) =~= buf@.subrange(*pos as int, buf@.len() as int));
        }
        let v1 = B::binprot_read(buf, pos)?;
        proof {
            assert(s.subrange(*pos - start, s.len() as int) =~= buf@.subrange(*pos as int, buf@.len() as int));
        }
        let v2 = C::binprot_read(buf, pos)?;
        proof {
            assert(s.subrange(*pos - start, s.len() as int) =~= buf@.subrange(*pos as int, buf@.len() as int));
        }
        let v3 = D::binprot_read(buf, pos)?;
        proof {
            assert(s.subrange(*pos - start, s.len() as int) =~= buf@.subrange(*pos as int, buf@.len() as int));
        }
        let v4 = E::binprot_read(buf, pos)?;
        proof {
            assert(s.subrange(*pos - start, s.len() as int) =~= buf@.subrange(*pos as int, buf@.len() as int));
        }
        let v5 = F::binprot_read(buf, pos)?;
        Ok((v0, v1, v2, v3, v4, v5))
    }
}

impl<A: BinProt, B: BinProt, C: BinProt, D: BinProt, E: BinProt, F: BinProt, G: BinProt> BinProt for (A, B, C, D, E, F, G) {
    type Model = (A::Model, B::Model, C::Model, D::Model, E::Model, F::Model, G::Model);

    open spec fn model(&self) -> (A::Model, B::Model, C::Model, D::Model, E::Model, F::Model, G::Model) {
        (self.0.model(), self.1.model(), self.2.model(), self.3.model(), self.4.model(), self.5.model(), self.6.model())
    }

    open spec fn well_formed(m: (A::Model, B::Model, C::Model, D::Model, E::Model, F::Model, G::Model)) -> bool {
        A::well_formed(m.0) && B::well_formed(m.1) && C::well_formed(m.2) && D::well_formed(m.3) && E::well_formed(m.4) && F::well_formed(m.5) && G::well_formed(m.6)
    }

    open spec fn encode(m: (A::Model, B::Model, C::Model, D::Model, E::Model, F::Model, G::Model)) -> Seq<u8> {
        A::encode(m.0) + B::encode(m.1) + C::encode(m.2) + D::encode(m.3) + E::encode(m.4) + F::encode(m.5) + G::encode(m.6)
    }

    open spec fn parse(s: Seq<u8>) -> Result<((A::Model, B::Model, C::Model, D::Model, E::Model, F::Model, G::Model), nat), Error> {
        match A::parse(s) {
            Err(e) => Err(e),
            Ok((m0, n0)) => {
                match B::parse(s.subrange(n0 as int, s.len() as int)) {
                    Err(e) => Err(e),
                    Ok((m1, n1)) => {
                        match C::parse(s.subrange((n0 + n1) as int, s.len() as int)) {
                            Err(e) => Err(e),
                            Ok((m2, n2)) => {
                                match D::parse(s.subrange(((n0 + n1) + n2) as int, s.len() as int)) {
                                    Err(e) => Err(e),
                                    Ok((m3, n3)) => {
                                        match E::parse(s.subrange((((n0 + n1) + n2) + n3) as int, s.len() as int)) {
                                            Err(e) => Err(e),
                                            Ok((m4, n4)) => {
                                                match F::parse(s.subrange(((((n0 + n1) + n2) + n3) + n4) as int, s.len() as int)) {
                                                    Err(e) => Err(e),
                                                    Ok((m5, n5)) => {
                                                        match G::parse(s.subrange((((((n0 + n1) + n2) + n3) + n4) + n5) as int, s.len() as int)) {
                                                            Err(e) => Err(e),
                                                            Ok((m6, n6)) => Ok(((m0, m1, m2, m3, m4, m5, m6), (((((n0 + n1) + n2) + n3) + n4) + n5) + n6)),
                                                        }
                                                    },
                                                }
                                            },
                                        }
                                    },
                                }
                            },
                        }
                    },
                }
            },
        }
    }

    #[verifier::rlimit(80)]
    proof fn lemma_round_trip(m: (A::Model, B::Model, C::Model, D::Model, E::Model, F::Model, G::Model), rest: Seq<u8>) {
        let s = Self::encode(m) + rest;
        assert(s =~= A::encode(m.0) + (B::encode(m.1) + C::encode(m.2) + D::encode(m.3) + E::encode(m.4) + F::encode(m.5) + G::encode(m.6) + rest));
        A::lemma_round_trip(m.0, B::encode(m.1) + C::encode(m.2) + D::encode(m.3) + E::encode(m.4) + F::encode(m.5) + G::encode(m.6) + rest);
        assert(s.subrange(A::encode(m.0).len() as int, s.len() as int) =~= B::encode(m.1) + (C::encode(m.2) + D::encode(m.3) + E::encode(m.4) + F::encode(m.5) + G::encode(m.6) + rest));
        B::lemma_round_trip(m.1, C::encode(m.2) + D::encode(m.3) + E::encode(m.4) + F::encode(m.5) + G::encode(m.6) + rest);
        assert(s.subrange(A::encode(m.0).len() + B::encode(m.1).len() as int, s.len() as int) =~= C::encode(m.2) + (D::encode(m.3) + E::encode(m.4) + F::encode(m.5) + G::encode(m.6) + rest));
        C::lemma_round_trip(m.2, D::encode(m.3) + E::encode(m.4) + F::encode(m.5) + G::encode(m.6) + rest);
        assert(s.subrange(A::encode(m.0).len() + B::encode(m.1).len() + C::encode(m.2).len() as int, s.len() as int) =~= D::encode(m.3) + (E::encode(m.4) + F::encode(m.5) + G::encode(m.6) + rest));
        D::lemma_round_trip(m.3, E::encode(m.4) + F::encode(m.5) + G::encode(m.6) + rest);
        assert(s.subrange(A::encode(m.0).len() + B::encode(m.1).len() + C::encode(m.2).len() + D::encode(m.3).len() as int, s.len() as int) =~= E::encode(m.4) + (F::encode(m.5) + G::encode(m.6) + rest));
        E::lemma_round_trip(m.4, F::encode(m.5) + G::encode(m.6) + rest);
        assert(s.subrange(A::encode(m.0).len() + B::encode(m.1).len() + C::encode(m.2).len() + D::encode(m.3).len() + E::encode(m.4).len() as int, s.len() as int) =~= F::encode(m.5) + (G::encode(m.6) + rest));
        F::lemma_round_trip(m.5, G::encode(m.6) + rest);
        assert(s.subrange(A::encode(m.0).len() + B::encode(m.1).len() + C::encode(m.2).len() + D::encode(m.3).len() + E::encode(m.4).len() + F::encode(m.5).len() as int, s.len() as int) =~= G::encode(m.6) + rest);
        G::lemma_round_trip(m.6, rest);
    }

    fn binprot_size(&self) -> usize {
        self.0.binprot_size() + self.1.binprot_size() + self.2.binprot_size() + self.3.binprot_size() + self.4.binprot_size() + self.5.binprot_size() + self.6.binprot_size()
    }

    fn binprot_write(&self, out: &mut Vec<u8>) {
        self.0.binprot_write(out);
        self.1.binprot_write(out);
        self.2.binprot_write(out);
        self.3.binprot_write(out);
        self.4.binprot_write(out);
        self.5.binprot_write(out);
        self.6.binprot_write(out);
        assert(final(out)@ =~= old(out)@ + Self::encode(self.model()));
    }

    fn binprot_read(buf: &[u8], pos: &mut usize) -> Result<(A, B, C, D, E, F, G), Error> {
        let ghost start = *pos;
        let ghost s = buf@.subrange(start as int, buf@.len() as int);
        let v0 = A::binprot_read(buf, pos)?;
        proof {
            assert(s.subrange(*pos - start, s.len() as int) =~= buf@.subrange(*pos as int, buf@.len() as int));
        }
        let v1 = B::binprot_read(buf, pos)?;
        proof {
            assert(s.subrange(*pos - start, s.len() as int) =~= buf@.subrange(*pos as int, buf@.len() as int));
        }
        let v2 = C::binprot_read(buf, pos)?;
        proof {
            assert(s.subrange(*pos - start, s.len() as int) =~= buf@.subrange(*pos as int, buf@.len() as int));
        }
        let v3 = D::binprot_read(buf, pos)?;
        proof {
            assert(s.subrange(*pos - start, s.len() as int) =~= buf@.subrange(*pos as int, buf@.len() as int));
        }
        let v4 = E::binprot_read(buf, pos)?;
        proof {
            assert(s.subrange(*pos - start, s.len() as int) =~= buf@.subrange(*pos as int, buf@.len() as int));
        }
        let v5 = F::binprot_read(buf, pos)?;
        proof {
            assert(s.subrange(*pos - start, s.len() as int) =~= buf@.subrange(*pos as int, buf@.len() as int));
        }
        let v6 = G::binprot_read(buf, pos)?;
        Ok((v0, v1, v2, v3, v4, v5, v6))
    }
}

impl<A: BinProt, B: BinProt, C: BinProt, D: BinProt, E: BinProt, F: BinProt, G: BinProt, H: BinProt> BinProt for (A, B, C, D, E, F, G, H) {
    type Model = (A::Model, B::Model, C::Model, D::Model, E::Model, F::Model, G::Model, H::Model);

    open spec fn model(&self) -> (A::Model, B::Model, C::Model, D::Model, E::Model, F::Model, G::Model, H::Model) {
        (self.0.model(), self.1.model(), self.2.model(), self.3.model(), self.4.model(), self.5.model(), self.6.model(), self.7.model())
    }

    open spec fn well_formed(m: (A::Model, B::Model, C::Model, D::Model, E::Model, F::Model, G::Model, H::Model)) -> bool {
        A::well_formed(m.0) && B::well_formed(m.1) && C::well_formed(m.2) && D::well_formed(m.3) && E::well_formed(m.4) && F::well_formed(m.5) && G::well_formed(m.6) && H::well_formed(m.7)
    }

    open spec fn encode(m: (A::Model, B::Model, C::Model, D::Model, E::Model, F::Model, G::Model, H::Model)) -> Seq<u8> {
        A::encode(m.0) + B::encode(m.1) + C::encode(m.2) + D::encode(m.3) + E::encode(m.4) + F::encode(m.5) + G::encode(m.6) + H::encode(m.7)
    }

    open spec fn parse(s: Seq<u8>) -> Result<((A::Model, B::Model, C::Model, D::Model, E::Model, F::Model, G::Model, H::Model), nat), Error> {
        match A::parse(s) {
            Err(e) => Err(e),
            Ok((m0, n0)) => {
                match B::parse(s.subrange(n0 as int, s.len() as int)) {
                    Err(e) => Err(e),
                    Ok((m1, n1)) => {
                        match C::parse(s.subrange((n0 + n1) as int, s.len() as int)) {
                            Err(e) => Err(e),
                            Ok((m2, n2)) => {
                                match D::parse(s.subrange(((n0 + n1) + n2) as int, s.len() as int)) {
                                    Err(e) => Err(e),
                                    Ok((m3, n3)) => {
                                        match E::parse(s.subrange((((n0 + n1) + n2) + n3) as int, s.len() as int)) {
                                            Err(e) => Err(e),
                                            Ok((m4, n4)) => {
                                                match F::parse(s.subrange(((((n0 + n1) + n2) + n3) + n4) as int, s.len() as int)) {
                                                    Err(e) => Err(e),
                                                    Ok((m5, n5)) => {
                                                        match G::parse(s.subrange((((((n0 + n1) + n2) + n3) + n4) + n5) as int, s.len() as int)) {
                                                            Err(e) => Err(e),
                                                            Ok((m6, n6)) => {
                                                                match H::parse(s.subrange(((((((n0 + n1) + n2) + n3) + n4) + n5) + n6) as int, s.len() as int)) {
                                                                    Err(e) => Err(e),
                                                                    Ok((m7, n7)) => Ok(((m0, m1, m2, m3, m4, m5, m6, m7), ((((((n0 + n1) + n2) + n3) + n4) + n5) + n6) + n7)),
                                                                }
                                                            },
                                                        }
                                                    },
                                                }
                                            },
                                        }
                                    },
                                }
                            },
                        }
                    },
                }
            },
        }
    }

    #[verifier::rlimit(80)]
    proof fn lemma_round_trip(m: (A::Model, B::Model, C::Model, D::Model, E::Model, F::Model, G::Model, H::Model), rest: Seq<u8>) {
        let s = Self::encode(m) + rest;
        assert(s =~= A::encode(m.0) + (B::encode(m.1) + C::encode(m.2) + D::encode(m.3) + E::encode(m.4) + F::encode(m.5) + G::encode(m.6) + H::encode(m.7) + rest));
        A::lemma_round_trip(m.0, B::encode(m.1) + C::encode(m.2) + D::encode(m.3) + E::encode(m.4) + F::encode(m.5) + G::encode(m.6) + H::encode(m.7) + rest);
        assert(s.subrange(A::encode(m.0).len() as int, s.len() as int) =~= B::encode(m.1) + (C::encode(m.2) + D::encode(m.3) + E::encode(m.4) + F::encode(m.5) + G::encode(m.6) + H::encode(m.7) + rest));
        B::lemma_round_trip(m.1, C::encode(m.2) + D::encode(m.3) + E::encode(m.4) + F::encode(m.5) + G::encode(m.6) + H::encode(m.7) + rest);
        assert(s.subrange(A::encode(m.0).len() + B::encode(m.1).len() as int, s.len() as int) =~= C::encode(m.2) + (D::encode(m.3) + E::encode(m.4) + F::encode(m.5) + G::encode(m.6) + H::encode(m.7) + rest));
        C::lemma_round_trip(m.2, D::encode(m.3) + E::encode(m.4) + F::encode(m.5) + G::encode(m.6) + H::encode(m.7) + rest);
        assert(s.subrange(A::encode(m.0).len() + B::encode(m.1).len() + C::encode(m.2).len() as int, s.len() as int) =~= D::encode(m.3) + (E::encode(m.4) + F::encode(m.5) + G::encode(m.6) + H::encode(m.7) + rest));
        D::lemma_round_trip(m.3, E::encode(m.4) + F::encode(m.5) + G::encode(m.6) + H::encode(m.7) + rest);
        assert(s.subrange(A::encode(m.0).len() + B::encode(m.1).len() + C::encode(m.2).len() + D::encode(m.3).len() as int, s.len() as int) =~= E::encode(m.4) + (F::encode(m.5) + G::encode(m.6) + H::encode(m.7) + rest));
        E::lemma_round_trip(m.4, F::encode(m.5) + G::encode(m.6) + H::encode(m.7) + rest);
        assert(s.subrange(A::encode(m.0).len() + B::encode(m.1).len() + C::encode(m.2).len() + D::encode(m.3).len() + E::encode(m.4).len() as int, s.len() as int) =~= F::encode(m.5) + (G::encode(m.6) + H::encode(m.7) + rest));
        F::lemma_round_trip(m.5, G::encode(m.6) + H::encode(m.7) + rest);
        assert(s.subrange(A::encode(m.0).len() + B::encode(m.1).len() + C::encode(m.2).len() + D::encode(m.3).len() + E::encode(m.4).len() + F::encode(m.5).len() as int, s.len() as int) =~= G::encode(m.6) + (H::encode(m.7) + rest));
        G::lemma_round_trip(m.6, H::encode(m.7) + rest);
        assert(s.subrange(A::encode(m.0).len() + B::encode(m.1).len() + C::encode(m.2).len() + D::encode(m.3).len() + E::encode(m.4).len() + F::encode(m.5).len() + G::encode(m.6).len() as int, s.len() as int) =~= H::encode(m.7) + rest);
        H::lemma_round_trip(m.7, rest);
    }

    fn binprot_size(&self) -> usize {
        self.0.binprot_size() + self.1.binprot_size() + self.2.binprot_size() + self.3.binprot_size() + self.4.binprot_size() + self.5.binprot_size() + self.6.binprot_size() + self.7.binprot_size()
    }

    fn binprot_write(&self, out: &mut Vec<u8>) {
        self.0.binprot_write(out);
        self.1.binprot_write(out);
        self.2.binprot_write(out);
        self.3.binprot_write(out);
        self.4.binprot_write(out);
        self.5.binprot_write(out);
        self.6.binprot_write(out);
        self.7.binprot_write(out);
        assert(final(out)@ =~= old(out)@ + Self::encode(self.model()));
    }

    fn binprot_read(buf: &[u8], pos: &mut usize) -> Result<(A, B, C, D, E, F, G, H), Error> {
        let ghost start = *pos;
        let ghost s = buf@.subrange(start as int, buf@.len() as int);
        let v0 = A::binprot_read(buf, pos)?;
        proof {
            assert(s.subrange(*pos - start, s.len() as int) =~= buf@.subrange(*pos as int, buf@.len() as int));
        }
        let v1 = B::binprot_read(buf, pos)?;
        proof {
            assert(s.subrange(*pos - start, s.len() as int) =~= buf@.subrange(*pos as int, buf@.len() as int));
        }
        let v2 = C::binprot_read(buf, pos)?;
        proof {
            assert(s.subrange(*pos - start, s.len() as int) =~= buf@.subrange(*pos as int, buf@.len() as int));
        }
        let v3 = D::binprot_read(buf, pos)?;
        proof {
            assert(s.subrange(*pos - start, s.len() as int) =~= buf@.subrange(*pos as int, buf@.len() as int));
        }
        let v4 = E::binprot_read(buf, pos)?;
        proof {
            assert(s.subrange(*pos - start, s.len() as int) =~= buf@.subrange(*pos as int, buf@.len() as int));
        }
        let v5 = F::binprot_read(buf, pos)?;
        proof {
            assert(s.subrange(*pos - start, s.len() as int) =~= buf@.subrange(*pos as int, buf@.len() as int));
        }
        let v6 = G::binprot_read(buf, pos)?;
        proof {
            assert(s.subrange(*pos - start, s.len() as int) =~= buf@.subrange(*pos as int, buf@.len() as int));
        }
        let v7 = H::binprot_read(buf, pos)?;
        Ok((v0, v1, v2, v3, v4, v5, v6, v7))
    }
}

impl<A: BinProt, B: BinProt, C: BinProt, D: BinProt, E: BinProt, F: BinProt, G: BinProt, H: BinProt, I: BinProt> BinProt for (A, B, C, D, E, F, G, H, I) {
    type Model = (A::Model, B::Model, C::Model, D::Model, E::Model, F::Model, G::Model, H::Model, I::Model);

    open spec fn model(&self) -> (A::Model, B::Model, C::Model, D::Model, E::Model, F::Model, G::Model, H::Model, I::Model) {
        (self.0.model(), self.1.model(), self.2.model(), self.3.model(), self.4.model(), self.5.model(), self.6.model(), self.7.model(), self.8.model())
    }

    open spec fn well_formed(m: (A::Model, B::Model, C::Model, D::Model, E::Model, F::Model, G::Model, H::Model, I::Model)) -> bool {
        A::well_formed(m.0) && B::well_formed(m.1) && C::well_formed(m.2) && D::well_formed(m.3) && E::well_formed(m.4) && F::well_formed(m.5) && G::well_formed(m.6) && H::well_formed(m.7) && I::well_formed(m.8)
    }

    open spec fn encode(m: (A::Model, B::Model, C::Model, D::Model, E::Model, F::Model, G::Model, H::Model, I::Model)) -> Seq<u8> {
        A::encode(m.0) + B::encode(m.1) + C::encode(m.2) + D::encode(m.3) + E::encode(m.4) + F::encode(m.5) + G::encode(m.6) + H::encode(m.7) + I::encode(m.8)
    }

    open spec fn parse(s: Seq<u8>) -> Result<((A::Model, B::Model, C::Model, D::Model, E::Model, F::Model, G::Model, H::Model, I::Model), nat), Error> {
        match A::parse(s) {
            Err(e) => Err(e),
            Ok((m0, n0)) => {
                match B::parse(s.subrange(n0 as int, s.len() as int)) {
                    Err(e) => Err(e),
                    Ok((m1, n1)) => {
                        match C::parse(s.subrange((n0 + n1) as int, s.len() as int)) {
                            Err(e) => Err(e),
                            Ok((m2, n2)) => {
                                match D::parse(s.subrange(((n0 + n1) + n2) as int, s.len() as int)) {
                                    Err(e) => Err(e),
                                    Ok((m3, n3)) => {
                                        match E::parse(s.subrange((((n0 + n1) + n2) + n3) as int, s.len() as int)) {
                                            Err(e) => Err(e),
                                            Ok((m4, n4)) => {
                                                match F::parse(s.subrange(((((n0 + n1) + n2) + n3) + n4) as int, s.len() as int)) {
                                                    Err(e) => Err(e),
                                                    Ok((m5, n5)) => {
                                                        match G::parse(s.subrange((((((n0 + n1) + n2) + n3) + n4) + n5) as int, s.len() as int)) {
                                                            Err(e) => Err(e),
                                                            Ok((m6, n6)) => {
                                                                match H::parse(s.subrange(((((((n0 + n1) + n2) + n3) + n4) + n5) + n6) as int, s.len() as int)) {
                                                                    Err(e) => Err(e),
                                                                    Ok((m7, n7)) => {
                                                                        match I::parse(s.subrange((((((((n0 + n1) + n2) + n3) + n4) + n5) + n6) + n7) as int, s.len() as int)) {
                                                                            Err(e) => Err(e),
                                                                            Ok((m8, n8)) => Ok(((m0, m1, m2, m3, m4, m5, m6, m7, m8), (((((((n0 + n1) + n2) + n3) + n4) + n5) + n6) + n7) + n8)),
                                                                        }
                                                                    },
                                                                }
                                                            },
                                                        }
                                                    },
                                                }
                                            },
                                        }
                                    },
                                }
                            },
                        }
                    },
                }
            },
        }
    }

    #[verifier::rlimit(80)]
    proof fn lemma_round_trip(m: (A::Model, B::Model, C::Model, D::Model, E::Model, F::Model, G::Model, H::Model, I::Model), rest: Seq<u8>) {
        let s = Self::encode(m) + rest;
        assert(s =~= A::encode(m.0) + (B::encode(m.1) + C::encode(m.2) + D::encode(m.3) + E::encode(m.4) + F::encode(m.5) + G::encode(m.6) + H::encode(m.7) + I::encode(m.8) + rest));
        A::lemma_round_trip(m.0, B::encode(m.1) + C::encode(m.2) + D::encode(m.3) + E::encode(m.4) + F::encode(m.5) + G::encode(m.6) + H::encode(m.7) + I::encode(m.8) + rest);
        assert(s.subrange(A::encode(m.0).len() as int, s.len() as int) =~= B::encode(m.1) + (C::encode(m.2) + D::encode(m.3) + E::encode(m.4) + F::encode(m.5) + G::encode(m.6) + H::encode(m.7) + I::encode(m.8) + rest));
        B::lemma_round_trip(m.1, C::encode(m.2) + D::encode(m.3) + E::encode(m.4) + F::encode(m.5) + G::encode(m.6) + H::encode(m.7) + I::encode(m.8) + rest);
        assert(s.subrange(A::encode(m.0).len() + B::encode(m.1).len() as int, s.len() as int) =~= C::encode(m.2) + (D::encode(m.3) + E::encode(m.4) + F::encode(m.5) + G::encode(m.6) + H::encode(m.7) + I::encode(m.8) + rest));
        C::lemma_round_trip(m.2, D::encode(m.3) + E::encode(m.4) + F::encode(m.5) + G::encode(m.6) + H::encode(m.7) + I::encode(m.8) + rest);
        assert(s.subrange(A::encode(m.0).len() + B::encode(m.1).len() + C::encode(m.2).len() as int, s.len() as int) =~= D::encode(m.3) + (E::encode(m.4) + F::encode(m.5) + G::encode(m.6) + H::encode(m.7) + I::encode(m.8) + rest));
        D::lemma_round_trip(m.3, E::encode(m.4) + F::encode(m.5) + G::encode(m.6) + H::encode(m.7) + I::encode(m.8) + rest);
        assert(s.subrange(A::encode(m.0).len() + B::encode(m.1).len() + C::encode(m.2).len() + D::encode(m.3).len() as int, s.len() as int) =~= E::encode(m.4) + (F::encode(m.5) + G::encode(m.6) + H::encode(m.7) + I::encode(m.8) + rest));
        E::lemma_round_trip(m.4, F::encode(m.5) + G::encode(m.6) + H::encode(m.7) + I::encode(m.8) + rest);
        assert(s.subrange(A::encode(m.0).len() + B::encode(m.1).len() + C::encode(m.2).len() + D::encode(m.3).len() + E::encode(m.4).len() as int, s.len() as int) =~= F::encode(m.5) + (G::encode(m.6) + H::encode(m.7) + I::encode(m.8) + rest));
        F::lemma_round_trip(m.5, G::encode(m.6) + H::encode(m.7) + I::encode(m.8) + rest);
        assert(s.subrange(A::encode(m.0).len() + B::encode(m.1).len() + C::encode(m.2).len() + D::encode(m.3).len() + E::encode(m.4).len() + F::encode(m.5).len() as int, s.len() as int) =~= G::encode(m.6) + (H::encode(m.7) + I::encode(m.8) + rest));
        G::lemma_round_trip(m.6, H::encode(m.7) + I::encode(m.8) + rest);
        assert(s.subrange(A::encode(m.0).len() + B::encode(m.1).len() + C::encode(m.2).len() + D::encode(m.3).len() + E::encode(m.4).len() + F::encode(m.5).len() + G::encode(m.6).len() as int, s.len() as int) =~= H::encode(m.7) + (I::encode(m.8) + rest));
        H::lemma_round_trip(m.7, I::encode(m.8) + rest);
        assert(s.subrange(A::encode(m.0).len() + B::encode(m.1).len() + C::encode(m.2).len() + D::encode(m.3).len() + E::encode(m.4).len() + F::encode(m.5).len() + G::encode(m.6).len() + H::encode(m.7).len() as int, s.len() as int) =~= I::encode(m.8) + rest);
        I::lemma_round_trip(m.8, rest);
    }

    fn binprot_size(&self) -> usize {
        self.0.binprot_size() + self.1.binprot_size() + self.2.binprot_size() + self.3.binprot_size() + self.4.binprot_size() + self.5.binprot_size() + self.6.binprot_size() + self.7.binprot_size() + self.8.binprot_size()
    }

    fn binprot_write(&self, out: &mut Vec<u8>) {
        self.0.binprot_write(out);
        self.1.binprot_write(out);
        self.2.binprot_write(out);
        self.3.binprot_write(out);
        self.4.binprot_write(out);
        self.5.binprot_write(out);
        self.6.binprot_write(out);
        self.7.binprot_write(out);
        self.8.binprot_write(out);
        assert(final(out)@ =~= old(out)@ + Self::encode(self.model()));
    }

    fn binprot_read(buf: &[u8], pos: &mut usize) -> Result<(A, B, C, D, E, F, G, H, I), Error> {
        let ghost start = *pos;
        let ghost s = buf@.subrange(start as int, buf@.len() as int);
        let v0 = A::binprot_read(buf, pos)?;
        proof {
            assert(s.subrange(*pos - start, s.len() as int) =~= buf@.subrange(*pos as int, buf@.len() as int));
        }
        let v1 = B::binprot_read(buf, pos)?;
        proof {
            assert(s.subrange(*pos - start, s.len() as int) =~= buf@.subrange(*pos as int, buf@.len() as int));
        }
        let v2 = C::binprot_read(buf, pos)?;
        proof {
            assert(s.subrange(*pos - start, s.len() as int) =~= buf@.subrange(*pos as int, buf@.len() as int));
        }
        let v3 = D::binprot_read(buf, pos)?;
        proof {
            assert(s.subrange(*pos - start, s.len() as int) =~= buf@.subrange(*pos as int, buf@.len() as int));
        }
        let v4 = E::binprot_read(buf, pos)?;
        proof {
            assert(s.subrange(*pos - start, s.len() as int) =~= buf@.subrange(*pos as int, buf@.len() as int));
        }
        let v5 = F::binprot_read(buf, pos)?;
        proof {
            assert(s.subrange(*pos - start, s.len() as int) =~= buf@.subrange(*pos as int, buf@.len() as int));
        }
        let v6 = G::binprot_read(buf, pos)?;
        proof {
            assert(s.subrange(*pos - start, s.len() as int) =~= buf@.subrange(*pos as int, buf@.len() as int));
        }
        let v7 = H::binprot_read(buf, pos)?;
        proof {
            assert(s.subrange(*pos - start, s.len() as int) =~= buf@.subrange(*pos as int, buf@.len() as int));
        }
        let v8 = I::binprot_read(buf, pos)?;
        Ok((v0, v1, v2, v3, v4, v5, v6, v7, v8))
    }
}

} // verus!
