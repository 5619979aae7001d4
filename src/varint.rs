use crate::error::Error;
use crate::le::{le_bytes, le_bytes_of, le_value, pow256, read_le};
use crate::le::{lemma_le_bytes_len, lemma_le_round_trip, lemma_le_value_bound, lemma_pow256_values};
use vstd::prelude::*;

verus! {

/// Tag of a value held in the two bytes that follow.
pub const CODE_INT16: u8 = 0xfe;

/// Tag of a value held in the four bytes that follow.
pub const CODE_INT32: u8 = 0xfd;

/// Tag of a value held in the eight bytes that follow.
pub const CODE_INT64: u8 = 0xfc;

/// Tag of a signed value held in the one byte that follows.
pub const CODE_NEG_INT8: u8 = 0xff;

/// The canonical encoding of a natural number: the narrowest form that holds it.
pub open spec fn nat0_bytes(n: u64) -> Seq<u8> {
    if n <= 0x7f {
        seq![n as u8]
    } else if n <= 0xffff {
        seq![CODE_INT16] + le_bytes(n as nat, 2)
    } else if n <= 0xffff_ffff {
        seq![CODE_INT32] + le_bytes(n as nat, 4)
    } else {
        seq![CODE_INT64] + le_bytes(n as nat, 8)
    }
}

/// The `k` bytes after the tag byte at the start of `s`, as an unsigned number.
pub open spec fn unsigned_after_tag(s: Seq<u8>, k: nat) -> Result<(nat, nat), Error> {
    if s.len() < 1 + k {
        Err(Error::UnexpectedEof)
    } else {
        Ok((le_value(s.subrange(1, 1 + k as int)), 1 + k))
    }
}

/// What decoding a natural number from the start of `s` gives: the value and the
/// number of bytes it took, or the error.
pub open spec fn nat0_parse(s: Seq<u8>) -> Result<(u64, nat), Error> {
    if s.len() == 0 {
        Err(Error::UnexpectedEof)
    } else if s[0] <= 0x7f {
        Ok((s[0] as u64, 1))
    } else if s[0] == CODE_INT16 || s[0] == CODE_INT32 || s[0] == CODE_INT64 {
        let k: nat = if s[0] == CODE_INT16 {
            2
        } else if s[0] == CODE_INT32 {
            4
        } else {
            8
        };
        match unsigned_after_tag(s, k) {
            Ok((v, n)) => Ok((v as u64, n)),
            Err(e) => Err(e),
        }
    } else {
        Err(Error::UnexpectedIntegerTag(s[0]))
    }
}

/// `v` in two's complement over `k` bytes, least significant first.
pub open spec fn twos_bytes(v: int, k: nat) -> Seq<u8> {
    le_bytes((if v < 0 {
        v + pow256(k)
    } else {
        v
    }) as nat, k)
}

/// The signed number whose `k`-byte two's complement form is the unsigned `u`.
pub open spec fn from_twos(u: nat, k: nat) -> int {
    if 2 * u >= pow256(k) {
        u - pow256(k)
    } else {
        u as int
    }
}

/// The canonical encoding of a signed integer.
pub open spec fn i64_bytes(v: i64) -> Seq<u8> {
    if 0 <= v <= 0x7f {
        seq![v as u8]
    } else if -0x80 <= v <= 0x7f {
        seq![CODE_NEG_INT8] + twos_bytes(v as int, 1)
    } else if -0x8000 <= v <= 0x7fff {
        seq![CODE_INT16] + twos_bytes(v as int, 2)
    } else if -0x8000_0000 <= v <= 0x7fff_ffff {
        seq![CODE_INT32] + twos_bytes(v as int, 4)
    } else {
        seq![CODE_INT64] + twos_bytes(v as int, 8)
    }
}

/// What decoding a signed integer from the start of `s` gives.
pub open spec fn i64_parse(s: Seq<u8>) -> Result<(i64, nat), Error> {
    if s.len() == 0 {
        Err(Error::UnexpectedEof)
    } else if s[0] <= 0x7f {
        Ok((s[0] as i64, 1))
    } else if s[0] == CODE_NEG_INT8 || s[0] == CODE_INT16 || s[0] == CODE_INT32 || s[0]
        == CODE_INT64 {
        let k: nat = if s[0] == CODE_NEG_INT8 {
            1
        } else if s[0] == CODE_INT16 {
            2
        } else if s[0] == CODE_INT32 {
            4
        } else {
            8
        };
        match unsigned_after_tag(s, k) {
            Ok((u, n)) => Ok((from_twos(u, k) as i64, n)),
            Err(e) => Err(e),
        }
    } else {
        Err(Error::UnexpectedIntegerTag(s[0]))
    }
}

proof fn lemma_tagged_round_trip(tag: u8, u: nat, k: nat, rest: Seq<u8>)
    requires
        u < pow256(k),
    ensures
        unsigned_after_tag(seq![tag] + le_bytes(u, k) + rest, k) == Ok::<(nat, nat), Error>(
            (u, 1 + k),
        ),
{
    lemma_le_bytes_len(u, k);
    lemma_le_round_trip(u, k);
    let s = seq![tag] + le_bytes(u, k) + rest;
    assert(s.subrange(1, 1 + k as int) =~= le_bytes(u, k));
}

/// Decoding the canonical encoding of a natural number gives it back, and uses
/// exactly its bytes, whatever follows.
pub proof fn lemma_nat0_round_trip(n: u64, rest: Seq<u8>)
    ensures
        nat0_parse(nat0_bytes(n) + rest) == Ok::<(u64, nat), Error>((n, nat0_bytes(n).len())),
{
    lemma_pow256_values();
    lemma_le_bytes_len(n as nat, 2);
    lemma_le_bytes_len(n as nat, 4);
    lemma_le_bytes_len(n as nat, 8);
    if n > 0x7f {
        let k: nat = if n <= 0xffff {
            2
        } else if n <= 0xffff_ffff {
            4
        } else {
            8
        };
        let tag = nat0_bytes(n)[0];
        lemma_tagged_round_trip(tag, n as nat, k, rest);
        assert(nat0_bytes(n) == seq![tag] + le_bytes(n as nat, k));
    }
}

/// Decoding the canonical encoding of a signed integer gives it back, and uses
/// exactly its bytes, whatever follows.
pub proof fn lemma_i64_round_trip(v: i64, rest: Seq<u8>)
    ensures
        i64_parse(i64_bytes(v) + rest) == Ok::<(i64, nat), Error>((v, i64_bytes(v).len())),
{
    lemma_pow256_values();
    if !(0 <= v <= 0x7f) {
        let k: nat = if -0x80 <= v <= 0x7f {
            1
        } else if -0x8000 <= v <= 0x7fff {
            2
        } else if -0x8000_0000 <= v <= 0x7fff_ffff {
            4
        } else {
            8
        };
        let u: nat = (if v < 0 {
            v + pow256(k)
        } else {
            v as int
        }) as nat;
        let tag = i64_bytes(v)[0];
        lemma_le_bytes_len(u, k);
        lemma_tagged_round_trip(tag, u, k, rest);
        assert(i64_bytes(v) == seq![tag] + le_bytes(u, k));
        assert(from_twos(u, k) == v);
    }
}

/// Appends the canonical encoding of the natural number `n`.
pub fn write_nat0(out: &mut Vec<u8>, n: u64)
    ensures
        final(out)@ == old(out)@ + nat0_bytes(n),
{
    proof {
        lemma_pow256_values();
    }
    if n <= 0x7f {
        out.push(n as u8);
    } else {
        let (tag, k): (u8, usize) = if n <= 0xffff {
            (CODE_INT16, 2)
        } else if n <= 0xffff_ffff {
            (CODE_INT32, 4)
        } else {
            (CODE_INT64, 8)
        };
        out.push(tag);
        let mut b = le_bytes_of(n, k);
        out.append(&mut b);
    }
    assert(final(out)@ =~= old(out)@ + nat0_bytes(n));
}

/// The number of bytes in the canonical encoding of `n`.
pub fn nat0_size(n: u64) -> (r: usize)
    ensures
        r == nat0_bytes(n).len(),
        1 <= r <= 9,
{
    proof {
        lemma_le_bytes_len(n as nat, 2);
        lemma_le_bytes_len(n as nat, 4);
        lemma_le_bytes_len(n as nat, 8);
    }
    if n <= 0x7f {
        1
    } else if n <= 0xffff {
        3
    } else if n <= 0xffff_ffff {
        5
    } else {
        9
    }
}


/// Appends the canonical encoding of the signed integer `v`.
pub fn write_i64(out: &mut Vec<u8>, v: i64)
    ensures
        final(out)@ == old(out)@ + i64_bytes(v),
{
    proof {
        lemma_pow256_values();
    }
    if 0 <= v && v <= 0x7f {
        out.push(v as u8);
    } else {
        let (tag, k, u): (u8, usize, u64) = if -0x80 <= v && v <= 0x7f {
            (CODE_NEG_INT8, 1, if v < 0 { (v + 0x100) as u64 } else { v as u64 })
        } else if -0x8000 <= v && v <= 0x7fff {
            (CODE_INT16, 2, if v < 0 { (v + 0x1_0000) as u64 } else { v as u64 })
        } else if -0x8000_0000 <= v && v <= 0x7fff_ffff {
            (CODE_INT32, 4, if v < 0 { (v + 0x1_0000_0000) as u64 } else { v as u64 })
        } else if v < 0 {
            (CODE_INT64, 8, (v + 0x7fff_ffff_ffff_ffff + 1) as u64 + 0x8000_0000_0000_0000)
        } else {
            (CODE_INT64, 8, v as u64)
        };
        out.push(tag);
        let mut b = le_bytes_of(u, k);
        out.append(&mut b);
    }
    assert(final(out)@ =~= old(out)@ + i64_bytes(v));
}

/// The number of bytes in the canonical encoding of `v`.
pub fn i64_size(v: i64) -> (r: usize)
    ensures
        r == i64_bytes(v).len(),
        1 <= r <= 9,
{
    proof {
        lemma_le_bytes_len((v + pow256(1)) as nat, 1);
        lemma_le_bytes_len(v as nat, 1);
        lemma_le_bytes_len((v + pow256(2)) as nat, 2);
        lemma_le_bytes_len(v as nat, 2);
        lemma_le_bytes_len((v + pow256(4)) as nat, 4);
        lemma_le_bytes_len(v as nat, 4);
        lemma_le_bytes_len((v + pow256(8)) as nat, 8);
        lemma_le_bytes_len(v as nat, 8);
    }
    if 0 <= v && v <= 0x7f {
        1
    } else if -0x80 <= v && v <= 0x7f {
        2
    } else if -0x8000 <= v && v <= 0x7fff {
        3
    } else if -0x8000_0000 <= v && v <= 0x7fff_ffff {
        5
    } else {
        9
    }
}

/// Reads the `k`-byte field after the tag at `pos`; `pos` moves past both.
fn read_tagged(buf: &[u8], pos: &mut usize, k: usize) -> (r: Result<u64, Error>)
    requires
        *old(pos) < buf@.len(),
        1 <= k <= 8,
    ensures
        match unsigned_after_tag(buf@.subrange(*old(pos) as int, buf@.len() as int), k as nat) {
            Ok((u, n)) => r == Ok::<u64, Error>(u as u64) && u == u as u64 && *final(pos) == *old(pos) + n,
            Err(e) => r == Err::<u64, Error>(e),
        },
        *final(pos) <= buf@.len(),
{
    let start = *pos;
    if buf.len() - start < 1 + k {
        return Err(Error::UnexpectedEof);
    }
    let u = read_le(buf, start + 1, k);
    proof {
        let s = buf@.subrange(start as int, buf@.len() as int);
        assert(s.subrange(1, 1 + k as int) =~= buf@.subrange(start + 1, start + 1 + k));
    }
    *pos = start + 1 + k;
    Ok(u)
}

/// Decodes a natural number at `pos` and moves `pos` past it.
pub fn read_nat0(buf: &[u8], pos: &mut usize) -> (r: Result<u64, Error>)
    requires
        *old(pos) <= buf@.len(),
    ensures
        match nat0_parse(buf@.subrange(*old(pos) as int, buf@.len() as int)) {
            Ok((v, n)) => r == Ok::<u64, Error>(v) && *final(pos) == *old(pos) + n,
            Err(e) => r == Err::<u64, Error>(e),
        },
        *final(pos) <= buf@.len(),
{
    if *pos >= buf.len() {
        return Err(Error::UnexpectedEof);
    }
    let c = buf[*pos];
    if c <= 0x7f {
        *pos = *pos + 1;
        Ok(c as u64)
    } else if c == CODE_INT16 {
        read_tagged(buf, pos, 2)
    } else if c == CODE_INT32 {
        read_tagged(buf, pos, 4)
    } else if c == CODE_INT64 {
        read_tagged(buf, pos, 8)
    } else {
        Err(Error::UnexpectedIntegerTag(c))
    }
}

/// Decodes a signed integer at `pos` and moves `pos` past it.
pub fn read_i64(buf: &[u8], pos: &mut usize) -> (r: Result<i64, Error>)
    requires
        *old(pos) <= buf@.len(),
    ensures
        match i64_parse(buf@.subrange(*old(pos) as int, buf@.len() as int)) {
            Ok((v, n)) => r == Ok::<i64, Error>(v) && *final(pos) == *old(pos) + n,
            Err(e) => r == Err::<i64, Error>(e),
        },
        *final(pos) <= buf@.len(),
{
    proof {
        lemma_pow256_values();
    }
    if *pos >= buf.len() {
        return Err(Error::UnexpectedEof);
    }
    let c = buf[*pos];
    if c <= 0x7f {
        *pos = *pos + 1;
        return Ok(c as i64);
    }
    let k: usize = if c == CODE_NEG_INT8 {
        1
    } else if c == CODE_INT16 {
        2
    } else if c == CODE_INT32 {
        4
    } else if c == CODE_INT64 {
        8
    } else {
        return Err(Error::UnexpectedIntegerTag(c));
    };
    let ghost start = *pos;
    let u = read_tagged(buf, pos, k)?;
    proof {
        let s = buf@.subrange(start as int, buf@.len() as int);
        lemma_le_value_bound(s.subrange(1, 1 + k as int));
    }
    let v: i64 = if k == 1 {
        if u >= 0x80 { u as i64 - 0x100 } else { u as i64 }
    } else if k == 2 {
        if u >= 0x8000 { u as i64 - 0x1_0000 } else { u as i64 }
    } else if k == 4 {
        if u >= 0x8000_0000 { u as i64 - 0x1_0000_0000 } else { u as i64 }
    } else {
        if u >= 0x8000_0000_0000_0000 {
            (u - 0x8000_0000_0000_0000) as i64 - 0x7fff_ffff_ffff_ffff - 1
        } else {
            u as i64
        }
    };
    Ok(v)
}

} // verus!
