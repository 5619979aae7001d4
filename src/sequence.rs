use crate::error::Error;
use crate::traits::BinProt;
use crate::varint::{lemma_nat0_round_trip, nat0_bytes, nat0_parse, nat0_size, read_nat0, write_nat0};
use vstd::prelude::*;

verus! {

/// The models of the values in `v`, in order.
pub open spec fn models<T: BinProt>(v: Seq<T>) -> Seq<T::Model> {
    v.map_values(|x: T| x.model())
}

/// The encodings of `ms`, one after another, without a count.
pub open spec fn encode_items<T: BinProt>(ms: Seq<T::Model>) -> Seq<u8>
    decreases ms.len(),
{
    if ms.len() == 0 {
        Seq::empty()
    } else {
        encode_items::<T>(ms.drop_last()) + T::encode(ms.last())
    }
}

/// What reading `k` values one after another from the start of `s` gives: their
/// models and the bytes they took, or the first error.
pub open spec fn parse_items<T: BinProt>(s: Seq<u8>, k: nat) -> Result<(Seq<T::Model>, nat), Error>
    decreases k,
{
    if k == 0 {
        Ok((Seq::empty(), 0))
    } else {
        match parse_items::<T>(s, (k - 1) as nat) {
            Err(e) => Err(e),
            Ok((ms, n)) => match T::parse(s.subrange(n as int, s.len() as int)) {
                Err(e) => Err(e),
                Ok((m, n2)) => Ok((ms.push(m), n + n2)),
            },
        }
    }
}

/// A count of items followed by the items.
pub open spec fn encode_counted<T: BinProt>(ms: Seq<T::Model>) -> Seq<u8> {
    nat0_bytes(ms.len() as u64) + encode_items::<T>(ms)
}

/// What reading a count and then that many items gives.
pub open spec fn parse_counted<T: BinProt>(s: Seq<u8>) -> Result<(Seq<T::Model>, nat), Error> {
    match nat0_parse(s) {
        Err(e) => Err(e),
        Ok((c, n)) => match parse_items::<T>(s.subrange(n as int, s.len() as int), c as nat) {
            Err(e) => Err(e),
            Ok((ms, n2)) => Ok((ms, n + n2)),
        },
    }
}

pub proof fn lemma_encode_items_append<T: BinProt>(a: Seq<T::Model>, b: Seq<T::Model>)
    ensures
        encode_items::<T>(a + b) == encode_items::<T>(a) + encode_items::<T>(b),
    decreases b.len(),
{
    if b.len() == 0 {
        assert(a + b =~= a);
        assert(encode_items::<T>(a) + encode_items::<T>(b) =~= encode_items::<T>(a));
    } else {
        lemma_encode_items_append::<T>(a, b.drop_last());
        assert((a + b).drop_last() =~= a + b.drop_last());
        assert((a + b).last() == b.last());
        assert(encode_items::<T>(a + b) =~= encode_items::<T>(a) + encode_items::<T>(b));
    }
}

/// The encoding of a prefix, and of each item, is no longer than the whole.
pub proof fn lemma_encode_items_prefix<T: BinProt>(ms: Seq<T::Model>, i: int)
    requires
        0 <= i < ms.len(),
    ensures
        encode_items::<T>(ms.take(i + 1)) == encode_items::<T>(ms.take(i)) + T::encode(ms[i]),
        encode_items::<T>(ms.take(i + 1)).len() <= encode_items::<T>(ms).len(),
{
    assert(ms.take(i + 1).drop_last() =~= ms.take(i));
    lemma_encode_items_append::<T>(ms.take(i + 1), ms.skip(i + 1));
    assert(ms.take(i + 1) + ms.skip(i + 1) =~= ms);
}

pub proof fn lemma_parse_items_round_trip<T: BinProt>(ms: Seq<T::Model>, rest: Seq<u8>)
    requires
        forall|i: int| 0 <= i < ms.len() ==> T::well_formed(#[trigger] ms[i]),
    ensures
        parse_items::<T>(encode_items::<T>(ms) + rest, ms.len()) == Ok::<(Seq<T::Model>, nat), Error>(
            (ms, encode_items::<T>(ms).len()),
        ),
    decreases ms.len(),
{
    if ms.len() == 0 {
        assert(ms =~= Seq::<T::Model>::empty());
    } else {
        let front = ms.drop_last();
        let last = ms.last();
        let rest2 = T::encode(last) + rest;
        assert(forall|i: int| 0 <= i < front.len() ==> front[i] == #[trigger] ms[i]);
        assert(T::well_formed(ms[ms.len() - 1]));
        lemma_parse_items_round_trip::<T>(front, rest2);
        let s = encode_items::<T>(ms) + rest;
        assert(s =~= encode_items::<T>(front) + rest2);
        let n = encode_items::<T>(front).len();
        assert(s.subrange(n as int, s.len() as int) =~= rest2);
        T::lemma_round_trip(last, rest);
        assert(front.push(last) =~= ms);
        assert(encode_items::<T>(ms) == encode_items::<T>(front) + T::encode(last));
        assert(parse_items::<T>(s, front.len()) == Ok::<(Seq<T::Model>, nat), Error>((front, n)));
        assert(T::parse(s.subrange(n as int, s.len() as int)) == Ok::<(T::Model, nat), Error>(
            (last, T::encode(last).len()),
        ));
    }
}

/// Once reading items has failed, reading more fails in the same way.
pub proof fn lemma_parse_items_error_stays<T: BinProt>(s: Seq<u8>, k: nat, k2: nat)
    requires
        k <= k2,
        parse_items::<T>(s, k) is Err,
    ensures
        parse_items::<T>(s, k2) == parse_items::<T>(s, k),
    decreases k2,
{
    if k2 > k {
        lemma_parse_items_error_stays::<T>(s, k, (k2 - 1) as nat);
    }
}

pub proof fn lemma_counted_round_trip<T: BinProt>(ms: Seq<T::Model>, rest: Seq<u8>)
    requires
        ms.len() <= u64::MAX,
        forall|i: int| 0 <= i < ms.len() ==> T::well_formed(#[trigger] ms[i]),
    ensures
        parse_counted::<T>(encode_counted::<T>(ms) + rest) == Ok::<(Seq<T::Model>, nat), Error>(
            (ms, encode_counted::<T>(ms).len()),
        ),
{
    let c = ms.len() as u64;
    let body = encode_items::<T>(ms) + rest;
    lemma_nat0_round_trip(c, body);
    let s = encode_counted::<T>(ms) + rest;
    assert(s =~= nat0_bytes(c) + body);
    let n = nat0_bytes(c).len();
    assert(s.subrange(n as int, s.len() as int) =~= body);
    lemma_parse_items_round_trip::<T>(ms, rest);
}

/// The number of bytes of a count and the items of `v`.
pub(crate) fn counted_size<T: BinProt>(v: &[T]) -> (r: usize)
    requires
        encode_counted::<T>(models(v@)).len() <= usize::MAX,
    ensures
        r == encode_counted::<T>(models(v@)).len(),
{
    let ghost ms = models(v@);
    let mut total = nat0_size(v.len() as u64);
    let mut i: usize = 0;
    while i < v.len()
        invariant
            i <= v@.len(),
            ms == models(v@),
            encode_counted::<T>(ms).len() <= usize::MAX,
            total == nat0_bytes(v@.len() as u64).len() + encode_items::<T>(ms.take(i as int)).len(),
        decreases v@.len() - i,
    {
        proof {
            lemma_encode_items_prefix::<T>(ms, i as int);
        }
        total = total + v[i].binprot_size();
        i = i + 1;
    }
    assert(ms.take(v@.len() as int) =~= ms);
    total
}

/// Appends a count and the encodings of the items of `v`.
pub(crate) fn write_counted<T: BinProt>(v: &[T], out: &mut Vec<u8>)
    requires
        encode_counted::<T>(models(v@)).len() <= usize::MAX,
    ensures
        final(out)@ == old(out)@ + encode_counted::<T>(models(v@)),
{
    let ghost ms = models(v@);
    write_nat0(out, v.len() as u64);
    let mut i: usize = 0;
    while i < v.len()
        invariant
            i <= v@.len(),
            ms == models(v@),
            encode_counted::<T>(ms).len() <= usize::MAX,
            out@ == old(out)@ + nat0_bytes(v@.len() as u64) + encode_items::<T>(ms.take(i as int)),
        decreases v@.len() - i,
    {
        proof {
            lemma_encode_items_prefix::<T>(ms, i as int);
        }
        v[i].binprot_write(out);
        proof {
            assert(out@ =~= old(out)@ + nat0_bytes(v@.len() as u64) + encode_items::<T>(
                ms.take(i + 1),
            ));
        }
        i = i + 1;
    }
    assert(ms.take(v@.len() as int) =~= ms);
    assert(out@ =~= old(out)@ + encode_counted::<T>(ms));
}

/// Reads a count and then that many items.
pub(crate) fn read_counted<T: BinProt>(buf: &[u8], pos: &mut usize) -> (r: Result<Vec<T>, Error>)
    requires
        *old(pos) <= buf@.len(),
    ensures
        match parse_counted::<T>(buf@.subrange(*old(pos) as int, buf@.len() as int)) {
            Ok((ms, n)) => r is Ok && models(r->Ok_0@) == ms && *final(pos) == *old(pos) + n,
            Err(e) => r == Err::<Vec<T>, Error>(e),
        },
        *final(pos) <= buf@.len(),
{
    let ghost start = *pos;
    let count = read_nat0(buf, pos)?;
    let ghost first = *pos;
    let ghost s = buf@.subrange(first as int, buf@.len() as int);
    proof {
        let whole = buf@.subrange(start as int, buf@.len() as int);
        assert(whole.subrange(first - start, whole.len() as int) =~= s);
    }
    proof {
        let whole = buf@.subrange(start as int, buf@.len() as int);
        assert(whole.subrange(first - start, buf@.len() - start) =~= s);
    }
    let mut v: Vec<T> = Vec::new();
    let mut i: u64 = 0;
    assert(models(v@) =~= Seq::<T::Model>::empty());
    while i < count
        invariant
            start == *old(pos),
            start <= first <= *pos <= buf@.len(),
            nat0_parse(buf@.subrange(start as int, buf@.len() as int)) == Ok::<(u64, nat), Error>(
                (count, (first - start) as nat),
            ),
            buf@.subrange(start as int, buf@.len() as int).subrange(
                first - start,
                buf@.len() - start,
            ) == s,
            s == buf@.subrange(first as int, buf@.len() as int),
            i <= count,
            parse_items::<T>(s, i as nat) == Ok::<(Seq<T::Model>, nat), Error>(
                (models(v@), (*pos - first) as nat),
            ),
        decreases count - i,
    {
        proof {
            assert(s.subrange(*pos - first, s.len() as int) =~= buf@.subrange(
                *pos as int,
                buf@.len() as int,
            ));
        }
        let item = T::binprot_read(buf, pos);
        match item {
            Ok(x) => {
                let ghost before = v@;
                let ghost xm = x.model();
                v.push(x);
                proof {
                    assert(models(v@) =~= models(before).push(xm));
                }
            },
            Err(e) => {
                proof {
                    assert(parse_items::<T>(s, (i + 1) as nat) == Err::<(Seq<T::Model>, nat), Error>(e));
                    lemma_parse_items_error_stays::<T>(s, (i + 1) as nat, count as nat);
                    let whole = buf@.subrange(start as int, buf@.len() as int);
                    assert(whole.len() == buf@.len() - start);
                    assert(parse_counted::<T>(whole) == Err::<(Seq<T::Model>, nat), Error>(e));
                }
                return Err(e);
            },
        }
        i = i + 1;
    }
    Ok(v)
}

impl<T: BinProt> BinProt for Vec<T> {
    type Model = Seq<T::Model>;

    open spec fn model(&self) -> Seq<T::Model> {
        models(self@)
    }

    open spec fn well_formed(m: Seq<T::Model>) -> bool {
        m.len() <= u64::MAX && forall|i: int| 0 <= i < m.len() ==> T::well_formed(#[trigger] m[i])
    }

    open spec fn encode(m: Seq<T::Model>) -> Seq<u8> {
        encode_counted::<T>(m)
    }

    open spec fn parse(s: Seq<u8>) -> Result<(Seq<T::Model>, nat), Error> {
        parse_counted::<T>(s)
    }

    proof fn lemma_round_trip(m: Seq<T::Model>, rest: Seq<u8>) {
        lemma_counted_round_trip::<T>(m, rest);
    }

    fn binprot_size(&self) -> usize {
        counted_size(self.as_slice())
    }

    fn binprot_write(&self, out: &mut Vec<u8>) {
        write_counted(self.as_slice(), out);
    }

    fn binprot_read(buf: &[u8], pos: &mut usize) -> Result<Vec<T>, Error> {
        read_counted(buf, pos)
    }
}

} // verus!
