use crate::error::Error;
use crate::traits::BinProt;
use crate::sequence::{
    counted_size, encode_counted, encode_items, lemma_encode_items_prefix, models, write_counted,
};
use crate::varint::{lemma_nat0_round_trip, nat0_bytes, nat0_parse, read_nat0};
use crate::Nat0;
use vstd::prelude::*;

verus! {

/// A type whose values can be compared as map keys.
pub trait BinProtKey: BinProt {
    fn key_eq(&self, other: &Self) -> (r: bool)
        ensures
            r == (self.model() == other.model()),
    ;
}

impl BinProtKey for () {
    fn key_eq(&self, other: &()) -> bool {
        true
    }
}

impl BinProtKey for bool {
    fn key_eq(&self, other: &bool) -> bool {
        *self == *other
    }
}

impl BinProtKey for i64 {
    fn key_eq(&self, other: &i64) -> bool {
        *self == *other
    }
}

impl BinProtKey for Nat0 {
    fn key_eq(&self, other: &Nat0) -> bool {
        self.0 == other.0
    }
}

impl BinProtKey for String {
    fn key_eq(&self, other: &String) -> bool {
        *self == *other
    }
}

/// Whether some entry of `ms` has the key `k`.
pub open spec fn has_key<K, V>(ms: Seq<(K, V)>, k: K) -> bool {
    exists|i: int| 0 <= i < ms.len() && (#[trigger] ms[i]).0 == k
}

/// Whether no two entries of `ms` have equal keys.
pub open spec fn distinct_keys<K, V>(ms: Seq<(K, V)>) -> bool {
    forall|i: int, j: int| 0 <= i < j < ms.len() ==> (#[trigger] ms[i]).0 != (#[trigger] ms[j]).0
}

/// What reading `c` entries one after another gives: their models and the bytes
/// they took, or the first error, where an entry whose key came before is one.
pub open spec fn parse_entries<K: BinProtKey, V: BinProt>(s: Seq<u8>, c: nat) -> Result<
    (Seq<(K::Model, V::Model)>, nat),
    Error,
>
    decreases c,
{
    if c == 0 {
        Ok((Seq::empty(), 0))
    } else {
        match parse_entries::<K, V>(s, (c - 1) as nat) {
            Err(e) => Err(e),
            Ok((ms, n)) => match <(K, V)>::parse(s.subrange(n as int, s.len() as int)) {
                Err(e) => Err(e),
                Ok((m, n2)) => if has_key(ms, m.0) {
                    Err(Error::SameKeyAppearsTwiceInMap)
                } else {
                    Ok((ms.push(m), n + n2))
                },
            },
        }
    }
}

/// What reading a count and then that many entries gives.
pub open spec fn parse_map<K: BinProtKey, V: BinProt>(s: Seq<u8>) -> Result<
    (Seq<(K::Model, V::Model)>, nat),
    Error,
> {
    match nat0_parse(s) {
        Err(e) => Err(e),
        Ok((c, n)) => match parse_entries::<K, V>(s.subrange(n as int, s.len() as int), c as nat) {
            Err(e) => Err(e),
            Ok((ms, n2)) => Ok((ms, n + n2)),
        },
    }
}

proof fn lemma_parse_entries_round_trip<K: BinProtKey, V: BinProt>(
    ms: Seq<(K::Model, V::Model)>,
    rest: Seq<u8>,
)
    requires
        distinct_keys(ms),
        forall|i: int| 0 <= i < ms.len() ==> <(K, V)>::well_formed(#[trigger] ms[i]),
    ensures
        parse_entries::<K, V>(encode_items::<(K, V)>(ms) + rest, ms.len()) == Ok::<
            (Seq<(K::Model, V::Model)>, nat),
            Error,
        >((ms, encode_items::<(K, V)>(ms).len())),
    decreases ms.len(),
{
    if ms.len() == 0 {
        assert(ms =~= Seq::<(K::Model, V::Model)>::empty());
    } else {
        let front = ms.drop_last();
        let last = ms.last();
        let rest2 = <(K, V)>::encode(last) + rest;
        assert(forall|i: int| 0 <= i < front.len() ==> front[i] == #[trigger] ms[i]);
        assert(<(K, V)>::well_formed(ms[ms.len() - 1]));
        lemma_parse_entries_round_trip::<K, V>(front, rest2);
        let s = encode_items::<(K, V)>(ms) + rest;
        assert(s =~= encode_items::<(K, V)>(front) + rest2);
        let n = encode_items::<(K, V)>(front).len();
        assert(s.subrange(n as int, s.len() as int) =~= rest2);
        <(K, V)>::lemma_round_trip(last, rest);
        assert(front.push(last) =~= ms);
        assert(!has_key(front, last.0)) by {
            if has_key(front, last.0) {
                let i = choose|i: int| 0 <= i < front.len() && (#[trigger] front[i]).0 == last.0;
                assert(ms[i].0 == ms[ms.len() - 1].0);
            }
        }
        assert(encode_items::<(K, V)>(ms) == encode_items::<(K, V)>(front) + <(K, V)>::encode(last));
        assert(parse_entries::<K, V>(s, front.len()) == Ok::<(Seq<(K::Model, V::Model)>, nat), Error>(
            (front, n),
        ));
    }
}

proof fn lemma_parse_entries_error_stays<K: BinProtKey, V: BinProt>(s: Seq<u8>, c: nat, c2: nat)
    requires
        c <= c2,
        parse_entries::<K, V>(s, c) is Err,
    ensures
        parse_entries::<K, V>(s, c2) == parse_entries::<K, V>(s, c),
    decreases c2,
{
    if c2 > c {
        lemma_parse_entries_error_stays::<K, V>(s, c, (c2 - 1) as nat);
    }
}

/// A map encoding with a count of two whose entries share a key is rejected with
/// `SameKeyAppearsTwiceInMap`, whatever the two values and whatever follows.
pub proof fn lemma_duplicate_key_rejected<K: BinProtKey, V: BinProt>(
    k: K::Model,
    v1: V::Model,
    v2: V::Model,
    rest: Seq<u8>,
)
    requires
        K::well_formed(k),
        V::well_formed(v1),
        V::well_formed(v2),
    ensures
        BinProtMap::<K, V>::parse(
            nat0_bytes(2) + K::encode(k) + V::encode(v1) + K::encode(k) + V::encode(v2) + rest,
        ) == Err::<(Seq<(K::Model, V::Model)>, nat), Error>(Error::SameKeyAppearsTwiceInMap),
{
    let e1 = <(K, V)>::encode((k, v1));
    let e2 = <(K, V)>::encode((k, v2));
    let s = nat0_bytes(2) + K::encode(k) + V::encode(v1) + K::encode(k) + V::encode(v2) + rest;
    let body = e1 + (e2 + rest);
    lemma_nat0_round_trip(2, body);
    assert(s =~= nat0_bytes(2) + body);
    let n = nat0_bytes(2).len();
    assert(s.subrange(n as int, s.len() as int) =~= body);
    <(K, V)>::lemma_round_trip((k, v1), e2 + rest);
    assert(body.subrange(0, body.len() as int) =~= body);
    let one = seq![(k, v1)];
    assert(Seq::<(K::Model, V::Model)>::empty().push((k, v1)) =~= one);
    assert(!has_key(Seq::<(K::Model, V::Model)>::empty(), k));
    assert(parse_entries::<K, V>(body, 0) == Ok::<(Seq<(K::Model, V::Model)>, nat), Error>(
        (Seq::empty(), 0),
    ));
    assert(parse_entries::<K, V>(body, 1) == Ok::<(Seq<(K::Model, V::Model)>, nat), Error>(
        (one, e1.len()),
    ));
    <(K, V)>::lemma_round_trip((k, v2), rest);
    assert(body.subrange(e1.len() as int, body.len() as int) =~= e2 + rest);
    assert(one[0].0 == k);
    assert(has_key(one, k));
}

/// Whether some entry of `v` has a key equal to `k`.
fn contains_key<K: BinProtKey, V: BinProt>(v: &[(K, V)], k: &K) -> (r: bool)
    ensures
        r == has_key(models(v@), k.model()),
{
    let mut j: usize = 0;
    while j < v.len()
        invariant
            j <= v@.len(),
            forall|jj: int| 0 <= jj < j ==> (#[trigger] models(v@)[jj]).0 != k.model(),
        decreases v@.len() - j,
    {
        if v[j].0.key_eq(k) {
            assert(models(v@)[j as int].0 == k.model());
            return true;
        }
        j = j + 1;
    }
    false
}

/// A map held as its entries, no two of them with equal keys.
///
/// It is encoded as a count and then each key followed by its value, in the order
/// of the entries; a reader rejects an encoding in which a key comes twice.
pub struct BinProtMap<K, V> {
    entries: Vec<(K, V)>,
}

impl<K: BinProtKey, V: BinProt> BinProtMap<K, V> {
    /// The models of the entries, in order.
    pub closed spec fn entry_models(&self) -> Seq<(K::Model, V::Model)> {
        models(self.entries@)
    }

    /// The empty map.
    pub fn new() -> (r: Self)
        ensures
            r.entry_models() == Seq::<(K::Model, V::Model)>::empty(),
    {
        let r = BinProtMap { entries: Vec::new() };
        assert(r.entry_models() =~= Seq::<(K::Model, V::Model)>::empty());
        r
    }

    /// The number of entries.
    pub fn len(&self) -> (r: usize)
        ensures
            r == self.entry_models().len(),
    {
        self.entries.len()
    }

    /// The entries, in order.
    pub fn entries(&self) -> (r: &[(K, V)])
        ensures
            models(r@) == self.entry_models(),
    {
        self.entries.as_slice()
    }

    /// Sets the value of `k` to `v`: in place where `k` has an entry, else in a
    /// new last entry.
    pub fn insert(&mut self, k: K, v: V)
        requires
            distinct_keys(old(self).entry_models()),
        ensures
            distinct_keys(final(self).entry_models()),
            has_key(old(self).entry_models(), k.model()) ==> exists|i: int|
                0 <= i < old(self).entry_models().len() && (#[trigger] old(self).entry_models()[i]).0
                    == k.model() && final(self).entry_models() == old(self).entry_models().update(
                    i,
                    (k.model(), v.model()),
                ),
            !has_key(old(self).entry_models(), k.model()) ==> final(self).entry_models()
                == old(self).entry_models().push((k.model(), v.model())),
    {
        let ghost ms = self.entry_models();
        let ghost km = k.model();
        let ghost vm = v.model();
        let mut i: usize = 0;
        while i < self.entries.len()
            invariant
                i <= self.entries@.len(),
                ms == self.entry_models(),
                ms == old(self).entry_models(),
                distinct_keys(ms),
                km == k.model(),
                vm == v.model(),
                forall|j: int| 0 <= j < i ==> (#[trigger] ms[j]).0 != km,
            decreases self.entries@.len() - i,
        {
            if self.entries[i].0.key_eq(&k) {
                let ghost before = self.entries@;
                self.entries.set(i, (k, v));
                proof {
                    assert(self.entries@ == before.update(i as int, (k, v)));
                    assert(models(self.entries@) =~= ms.update(i as int, (km, vm)));
                    assert(ms[i as int].0 == km);
                    assert(distinct_keys(self.entry_models())) by {
                        assert forall|a: int, b: int| 0 <= a < b < ms.len() implies (
                        #[trigger] self.entry_models()[a]).0 != (#[trigger] self.entry_models()[b]).0 by {
                            assert(self.entry_models()[a].0 == ms[a].0);
                            assert(self.entry_models()[b].0 == ms[b].0);
                        }
                    }
                }
                return;
            }
            i = i + 1;
        }
        let ghost before = self.entries@;
        self.entries.push((k, v));
        proof {
            assert(self.entries@ == before.push((k, v)));
            assert(models(self.entries@) =~= ms.push((km, vm)));
            assert(!has_key(ms, km));
        }
    }
}

impl<K: BinProtKey, V: BinProt> BinProt for BinProtMap<K, V> {
    type Model = Seq<(K::Model, V::Model)>;

    open spec fn model(&self) -> Seq<(K::Model, V::Model)> {
        self.entry_models()
    }

    open spec fn well_formed(m: Seq<(K::Model, V::Model)>) -> bool {
        m.len() <= u64::MAX && distinct_keys(m) && forall|i: int|
            0 <= i < m.len() ==> <(K, V)>::well_formed(#[trigger] m[i])
    }

    open spec fn encode(m: Seq<(K::Model, V::Model)>) -> Seq<u8> {
        encode_counted::<(K, V)>(m)
    }

    open spec fn parse(s: Seq<u8>) -> Result<(Seq<(K::Model, V::Model)>, nat), Error> {
        parse_map::<K, V>(s)
    }

    proof fn lemma_round_trip(m: Seq<(K::Model, V::Model)>, rest: Seq<u8>) {
        let c = m.len() as u64;
        let body = encode_items::<(K, V)>(m) + rest;
        lemma_nat0_round_trip(c, body);
        let s = encode_counted::<(K, V)>(m) + rest;
        assert(s =~= nat0_bytes(c) + body);
        let n = nat0_bytes(c).len();
        assert(s.subrange(n as int, s.len() as int) =~= body);
        lemma_parse_entries_round_trip::<K, V>(m, rest);
    }

    fn binprot_size(&self) -> usize {
        counted_size(self.entries.as_slice())
    }

    fn binprot_write(&self, out: &mut Vec<u8>) {
        write_counted(self.entries.as_slice(), out);
    }

    fn binprot_read(buf: &[u8], pos: &mut usize) -> Result<BinProtMap<K, V>, Error> {
        let ghost start = *pos;
        let count = read_nat0(buf, pos)?;
        let ghost first = *pos;
        let ghost s = buf@.subrange(first as int, buf@.len() as int);
        proof {
            let whole = buf@.subrange(start as int, buf@.len() as int);
            assert(whole.subrange(first - start, buf@.len() - start) =~= s);
        }
        let mut v: Vec<(K, V)> = Vec::new();
        let mut i: u64 = 0;
        assert(models(v@) =~= Seq::<(K::Model, V::Model)>::empty());
        while i < count
            invariant
                start == *old(pos),
                start <= first <= *pos <= buf@.len(),
                nat0_parse(buf@.subrange(start as int, buf@.len() as int)) == Ok::<(u64, nat), Error>(
                    (count, (first - start) as nat),
                ),
                buf@.subrange(start as int, buf@.len() as int).subrange(
                    first - start,
                    buf@.len() - start,
                ) == s,
                s == buf@.subrange(first as int, buf@.len() as int),
                i <= count,
                parse_entries::<K, V>(s, i as nat) == Ok::<(Seq<(K::Model, V::Model)>, nat), Error>(
                    (models(v@), (*pos - first) as nat),
                ),
            decreases count - i,
        {
            proof {
                assert(s.subrange(*pos - first, s.len() as int) =~= buf@.subrange(
                    *pos as int,
                    buf@.len() as int,
                ));
            }
            let item = <(K, V)>::binprot_read(buf, pos);
            match item {
                Ok(x) => {
                    if contains_key(v.as_slice(), &x.0) {
                        proof {
                            assert(parse_entries::<K, V>(s, (i + 1) as nat) == Err::<
                                (Seq<(K::Model, V::Model)>, nat),
                                Error,
                            >(Error::SameKeyAppearsTwiceInMap));
                            lemma_parse_entries_error_stays::<K, V>(s, (i + 1) as nat, count as nat);
                            let whole = buf@.subrange(start as int, buf@.len() as int);
                            assert(whole.len() == buf@.len() - start);
                        }
                        return Err(Error::SameKeyAppearsTwiceInMap);
                    }
                    let ghost before = v@;
                    let ghost xm = x.model();
                    v.push(x);
                    proof {
                        assert(models(v@) =~= models(before).push(xm));
                    }
                },
                Err(e) => {
                    proof {
                        assert(parse_entries::<K, V>(s, (i + 1) as nat) == Err::<
                            (Seq<(K::Model, V::Model)>, nat),
                            Error,
                        >(e));
                        lemma_parse_entries_error_stays::<K, V>(s, (i + 1) as nat, count as nat);
                        let whole = buf@.subrange(start as int, buf@.len() as int);
                        assert(whole.len() == buf@.len() - start);
                    }
                    return Err(e);
                },
            }
            i = i + 1;
        }
        Ok(BinProtMap { entries: v })
    }
}

} // verus!
