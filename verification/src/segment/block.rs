//! The on-disk byte format of a segment's data blocks.
//!
//! A blocks file is a one-byte version tag followed by LZ4-compressed
//! blocks. Uncompressed, each block is `[u32 item count] [entry]* [u32 CRC]`,
//! and each entry is `[u64 seqno] [u8 kind] [u16 key len] [key bytes]
//! [u32 value len] [value bytes]`, all integers little-endian.

use vstd::prelude::*;

use crate::value::{Entry, Value, ValueType, copy_bytes};

verus! {

/// Version tag written as the first byte of a blocks file.
pub const FORMAT_VERSION: u8 = 0;

/// Little-endian bytes of a `u16`.
pub open spec fn u16_le(x: u16) -> Seq<u8> {
    seq![(x % 256) as u8, (x / 256) as u8]
}

/// Little-endian bytes of a `u32`.
pub open spec fn u32_le(x: u32) -> Seq<u8> {
    seq![
        (x % 256) as u8,
        ((x / 256) % 256) as u8,
        ((x / 65536) % 256) as u8,
        ((x / 16777216) % 256) as u8,
    ]
}

/// Little-endian bytes of a `u64`.
pub open spec fn u64_le(x: u64) -> Seq<u8> {
    seq![
        (x % 256) as u8,
        ((x / 256) % 256) as u8,
        ((x / 65536) % 256) as u8,
        ((x / 16777216) % 256) as u8,
        ((x / 4294967296) % 256) as u8,
        ((x / 1099511627776) % 256) as u8,
        ((x / 281474976710656) % 256) as u8,
        ((x / 72057594037927936) % 256) as u8,
    ]
}

/// The `u16` two little-endian bytes stand for.
pub open spec fn u16_from(s: Seq<u8>) -> u16
    recommends
        s.len() == 2,
{
    (s[0] + s[1] * 256) as u16
}

/// The `u32` four little-endian bytes stand for.
pub open spec fn u32_from(s: Seq<u8>) -> u32
    recommends
        s.len() == 4,
{
    (s[0] + s[1] * 256 + s[2] * 65536 + s[3] * 16777216) as u32
}

/// The `u64` eight little-endian bytes stand for.
pub open spec fn u64_from(s: Seq<u8>) -> u64
    recommends
        s.len() == 8,
{
    (s[0] + s[1] * 256 + s[2] * 65536 + s[3] * 16777216 + s[4] * 4294967296 + s[5]
        * 1099511627776 + s[6] * 281474976710656 + s[7] * 72057594037927936) as u64
}

pub proof fn lemma_u16_round(x: u16)
    ensures
        u16_le(x).len() == 2,
        u16_from(u16_le(x)) == x,
{
}

pub proof fn lemma_u32_round(x: u32)
    ensures
        u32_le(x).len() == 4,
        u32_from(u32_le(x)) == x,
{
}

pub proof fn lemma_u64_round(x: u64)
    ensures
        u64_le(x).len() == 8,
        u64_from(u64_le(x)) == x,
{
    let q1 = x / 256;
    let q2 = x / 65536;
    let q3 = x / 16777216;
    let q4 = x / 4294967296;
    let q5 = x / 1099511627776;
    let q6 = x / 281474976710656;
    let q7 = x / 72057594037927936;
    assert(q1 / 256 == q2) by {
        vstd::arithmetic::div_mod::lemma_div_denominator(x as int, 256, 256);
    }
    assert(q2 / 256 == q3) by {
        vstd::arithmetic::div_mod::lemma_div_denominator(x as int, 65536, 256);
    }
    assert(q3 / 256 == q4) by {
        vstd::arithmetic::div_mod::lemma_div_denominator(x as int, 16777216, 256);
    }
    assert(q4 / 256 == q5) by {
        vstd::arithmetic::div_mod::lemma_div_denominator(x as int, 4294967296, 256);
    }
    assert(q5 / 256 == q6) by {
        vstd::arithmetic::div_mod::lemma_div_denominator(x as int, 1099511627776, 256);
    }
    assert(q6 / 256 == q7) by {
        vstd::arithmetic::div_mod::lemma_div_denominator(x as int, 281474976710656, 256);
    }
    assert(q7 < 256);
}

/// Appends the two little-endian bytes of `x`.
pub fn push_u16_le(out: &mut Vec<u8>, x: u16)
    ensures
        final(out)@ == old(out)@ + u16_le(x),
{
    out.push((x % 256) as u8);
    out.push((x / 256) as u8);
    proof {
        assert(final(out)@ =~= old(out)@ + u16_le(x));
    }
}

/// Appends the four little-endian bytes of `x`.
pub fn push_u32_le(out: &mut Vec<u8>, x: u32)
    ensures
        final(out)@ == old(out)@ + u32_le(x),
{
    out.push((x % 256) as u8);
    out.push(((x / 256) % 256) as u8);
    out.push(((x / 65536) % 256) as u8);
    out.push(((x / 16777216) % 256) as u8);
    proof {
        assert(final(out)@ =~= old(out)@ + u32_le(x));
    }
}

/// Appends the eight little-endian bytes of `x`.
pub fn push_u64_le(out: &mut Vec<u8>, x: u64)
    ensures
        final(out)@ == old(out)@ + u64_le(x),
{
    out.push((x % 256) as u8);
    out.push(((x / 256) % 256) as u8);
    out.push(((x / 65536) % 256) as u8);
    out.push(((x / 16777216) % 256) as u8);
    out.push(((x / 4294967296) % 256) as u8);
    out.push(((x / 1099511627776) % 256) as u8);
    out.push(((x / 281474976710656) % 256) as u8);
    out.push(((x / 72057594037927936) % 256) as u8);
    proof {
        assert(final(out)@ =~= old(out)@ + u64_le(x));
    }
}

/// Appends all bytes of `b`.
pub fn push_bytes(out: &mut Vec<u8>, b: &Vec<u8>)
    ensures
        final(out)@ == old(out)@ + b@,
{
    let n = b.len();
    let mut i: usize = 0;
    while i < n
        invariant
            n == b@.len(),
            0 <= i <= n,
            out@ == old(out)@ + b@.subrange(0, i as int),
        decreases n - i,
    {
        out.push(b[i]);
        proof {
            assert(out@ =~= old(out)@ + b@.subrange(0, i + 1 as int));
        }
        i = i + 1;
    }
    proof {
        assert(old(out)@ + b@.subrange(0, n as int) =~= old(out)@ + b@);
    }
}

/// Reads the `u16` stored at `pos`.
pub fn read_u16_le(b: &Vec<u8>, pos: usize) -> (r: u16)
    requires
        pos + 2 <= b@.len(),
    ensures
        r == u16_from(b@.subrange(pos as int, pos + 2)),
{
    let total = b.len();
    let r = b[pos] as u16 + b[pos + 1] as u16 * 256;
    proof {
        let s = b@.subrange(pos as int, pos + 2);
        assert(s[0] == b@[pos as int] && s[1] == b@[pos + 1]);
    }
    r
}

/// Reads the `u32` stored at `pos`.
pub fn read_u32_le(b: &Vec<u8>, pos: usize) -> (r: u32)
    requires
        pos + 4 <= b@.len(),
    ensures
        r == u32_from(b@.subrange(pos as int, pos + 4)),
{
    let total = b.len();
    let r = b[pos] as u32 + b[pos + 1] as u32 * 256 + b[pos + 2] as u32 * 65536 + b[pos + 3] as u32
        * 16777216;
    proof {
        let s = b@.subrange(pos as int, pos + 4);
        assert(s[0] == b@[pos as int] && s[1] == b@[pos + 1] && s[2] == b@[pos + 2] && s[3] == b@[
            pos + 3
        ]);
    }
    r
}

/// Reads the `u64` stored at `pos`.
pub fn read_u64_le(b: &Vec<u8>, pos: usize) -> (r: u64)
    requires
        pos + 8 <= b@.len(),
    ensures
        r == u64_from(b@.subrange(pos as int, pos + 8)),
{
    let total = b.len();
    let r = b[pos] as u64 + b[pos + 1] as u64 * 256 + b[pos + 2] as u64 * 65536 + b[pos + 3] as u64
        * 16777216 + b[pos + 4] as u64 * 4294967296 + b[pos + 5] as u64 * 1099511627776 + b[pos
        + 6] as u64 * 281474976710656 + b[pos + 7] as u64 * 72057594037927936;
    proof {
        let s = b@.subrange(pos as int, pos + 8);
        assert forall|j: int| 0 <= j < 8 implies s[j] == b@[pos + j] by {}
    }
    r
}

/// Copies `n` bytes starting at `pos`.
pub fn read_bytes(b: &Vec<u8>, pos: usize, n: usize) -> (r: Vec<u8>)
    requires
        pos + n <= b@.len(),
    ensures
        r@ == b@.subrange(pos as int, pos + n),
{
    let total = b.len();
    let mut r: Vec<u8> = Vec::new();
    let mut i: usize = 0;
    while i < n
        invariant
            total == b@.len(),
            pos + n <= b@.len(),
            0 <= i <= n,
            r@ == b@.subrange(pos as int, pos + i),
        decreases n - i,
    {
        r.push(b[pos + i]);
        proof {
            assert(r@ =~= b@.subrange(pos as int, pos + i + 1));
        }
        i = i + 1;
    }
    r
}

/// One step of the reflected CRC-32 bit recurrence (polynomial 0xEDB88320).
pub open spec fn crc32_bit_step(c: u32) -> u32 {
    if c & 1 == 1 {
        (c >> 1) ^ 0xEDB88320u32
    } else {
        c >> 1
    }
}

/// `n` bit steps applied to `c`.
pub open spec fn crc32_bits(c: u32, n: nat) -> u32
    decreases n,
{
    if n == 0 {
        c
    } else {
        crc32_bit_step(crc32_bits(c, (n - 1) as nat))
    }
}

/// Folds one byte into the running CRC state.
pub open spec fn crc32_byte_step(c: u32, b: u8) -> u32 {
    crc32_bits(c ^ (b as u32), 8)
}

/// Folds a byte string into the running CRC state, front to back.
pub open spec fn crc32_acc(c: u32, s: Seq<u8>) -> u32
    decreases s.len(),
{
    if s.len() == 0 {
        c
    } else {
        crc32_acc(crc32_byte_step(c, s[0]), s.skip(1))
    }
}

/// CRC-32 checksum of a byte string (init and final xor 0xFFFFFFFF).
pub open spec fn crc32_of(s: Seq<u8>) -> u32 {
    crc32_acc(0xFFFFFFFFu32, s) ^ 0xFFFFFFFFu32
}

/// Computes the CRC-32 checksum of `b`.
pub fn crc32(b: &Vec<u8>) -> (r: u32)
    ensures
        r == crc32_of(b@),
{
    let n = b.len();
    let mut c: u32 = 0xFFFFFFFF;
    let mut i: usize = 0;
    proof {
        assert(b@.skip(0) =~= b@);
    }
    while i < n
        invariant
            n == b@.len(),
            0 <= i <= n,
            crc32_acc(c, b@.skip(i as int)) == crc32_acc(0xFFFFFFFFu32, b@),
        decreases n - i,
    {
        let ghost c0 = c;
        let byte = b[i];
        let mut cc: u32 = c ^ (byte as u32);
        let mut j: usize = 0;
        while j < 8
            invariant
                0 <= j <= 8,
                cc == crc32_bits(c0 ^ (byte as u32), j as nat),
            decreases 8 - j,
        {
            cc = if cc & 1 == 1 {
                (cc >> 1) ^ 0xEDB88320
            } else {
                cc >> 1
            };
            j = j + 1;
        }
        proof {
            assert(cc == crc32_byte_step(c0, byte));
            let rest = b@.skip(i as int);
            assert(rest[0] == b@[i as int]);
            assert(rest.skip(1) =~= b@.skip(i + 1));
            assert(crc32_acc(c0, rest) == crc32_acc(cc, b@.skip(i + 1)));
        }
        c = cc;
        i = i + 1;
    }
    proof {
        assert(b@.skip(n as int) =~= Seq::<u8>::empty());
    }
    c ^ 0xFFFFFFFF
}

/// The models of a vector of entries.
pub open spec fn views_of(s: Seq<Value>) -> Seq<Entry> {
    s.map_values(|v: Value| v@)
}

/// An entry whose lengths fit the on-disk length fields.
pub open spec fn valid_entry(e: Entry) -> bool {
    e.key.len() <= u16::MAX && e.value.len() <= u32::MAX
}

/// The encoded bytes of one entry.
pub open spec fn enc_entry(e: Entry) -> Seq<u8> {
    u64_le(e.seqno) + seq![e.value_type.spec_code()] + u16_le(e.key.len() as u16) + e.key + u32_le(
        e.value.len() as u32,
    ) + e.value
}

/// The concatenated encodings of a run of entries.
pub open spec fn enc_entries(s: Seq<Entry>) -> Seq<u8>
    decreases s.len(),
{
    if s.len() == 0 {
        Seq::empty()
    } else {
        enc_entry(s[0]) + enc_entries(s.skip(1))
    }
}

pub proof fn lemma_enc_entries_push(s: Seq<Entry>, e: Entry)
    ensures
        enc_entries(s.push(e)) == enc_entries(s) + enc_entry(e),
    decreases s.len(),
{
    if s.len() == 0 {
        assert(s.push(e)[0] == e);
        assert(s.push(e).skip(1) =~= Seq::<Entry>::empty());
        assert(enc_entries(s.push(e).skip(1)) == Seq::<u8>::empty());
        assert(enc_entries(s.push(e)) == enc_entry(e) + Seq::<u8>::empty());
        assert(enc_entries(s) == Seq::<u8>::empty());
        assert(enc_entries(s.push(e)) =~= enc_entries(s) + enc_entry(e));
    } else {
        assert(s.push(e)[0] == s[0]);
        assert(s.push(e).skip(1) =~= s.skip(1).push(e));
        lemma_enc_entries_push(s.skip(1), e);
        assert(enc_entries(s.push(e)) =~= enc_entries(s) + enc_entry(e));
    }
}

/// The encoding of a run splits at any index.
pub proof fn lemma_enc_entries_split(s: Seq<Entry>, i: int)
    requires
        0 <= i <= s.len(),
    ensures
        enc_entries(s) == enc_entries(s.take(i)) + enc_entries(s.skip(i)),
    decreases i,
{
    if i == 0 {
        assert(s.take(0) =~= Seq::<Entry>::empty());
        assert(s.skip(0) =~= s);
        assert(enc_entries(s) =~= enc_entries(s.take(0)) + enc_entries(s.skip(0)));
    } else {
        lemma_enc_entries_split(s, i - 1);
        assert(s.take(i) =~= s.take(i - 1).push(s[i - 1]));
        lemma_enc_entries_push(s.take(i - 1), s[i - 1]);
        assert(s.skip(i - 1)[0] == s[i - 1]);
        assert(s.skip(i - 1).skip(1) =~= s.skip(i));
        assert(enc_entries(s.skip(i - 1)) == enc_entry(s[i - 1]) + enc_entries(s.skip(i)));
        assert(enc_entries(s) =~= enc_entries(s.take(i)) + enc_entries(s.skip(i)));
    }
}

/// The uncompressed bytes of one block holding `items`.
pub open spec fn block_bytes(items: Seq<Entry>) -> Seq<u8> {
    u32_le(items.len() as u32) + enc_entries(items) + u32_le(crc32_of(enc_entries(items)))
}

/// `bs` is exactly the uncompressed block image of `items`.
pub open spec fn is_block_bytes(bs: Seq<u8>, items: Seq<Entry>) -> bool {
    &&& items.len() <= u32::MAX
    &&& (forall|i: int| 0 <= i < items.len() ==> valid_entry(#[trigger] items[i]))
    &&& bs == block_bytes(items)
}

/// Appends the encoding of one entry.
pub fn push_entry(out: &mut Vec<u8>, v: &Value)
    requires
        valid_entry(v@),
    ensures
        final(out)@ == old(out)@ + enc_entry(v@),
{
    push_u64_le(out, v.seqno);
    out.push(v.value_type.code());
    push_u16_le(out, v.key.len() as u16);
    push_bytes(out, &v.key);
    push_u32_le(out, v.value.len() as u32);
    push_bytes(out, &v.value);
    proof {
        assert(out@ =~= old(out)@ + enc_entry(v@));
    }
}

/// Serializes one block: item count, entries, and their CRC-32.
pub fn serialize_block(items: &Vec<Value>) -> (r: Vec<u8>)
    requires
        items@.len() <= u32::MAX,
        forall|i: int| 0 <= i < items@.len() ==> valid_entry(#[trigger] items@[i]@),
    ensures
        r@ == block_bytes(views_of(items@)),
        is_block_bytes(r@, views_of(items@)),
{
    let n = items.len();
    let mut body: Vec<u8> = Vec::new();
    let mut i: usize = 0;
    proof {
        assert(views_of(items@).take(0) =~= Seq::<Entry>::empty());
    }
    while i < n
        invariant
            n == items@.len() <= u32::MAX,
            forall|k: int| 0 <= k < items@.len() ==> valid_entry(#[trigger] items@[k]@),
            0 <= i <= n,
            body@ == enc_entries(views_of(items@).take(i as int)),
        decreases n - i,
    {
        push_entry(&mut body, &items[i]);
        proof {
            let vs = views_of(items@);
            assert(vs.take(i + 1) =~= vs.take(i as int).push(vs[i as int]));
            lemma_enc_entries_push(vs.take(i as int), vs[i as int]);
            assert(vs[i as int] == items@[i as int]@);
        }
        i = i + 1;
    }
    proof {
        assert(views_of(items@).take(n as int) =~= views_of(items@));
    }
    let c = crc32(&body);
    let mut out: Vec<u8> = Vec::new();
    push_u32_le(&mut out, n as u32);
    push_bytes(&mut out, &body);
    push_u32_le(&mut out, c);
    proof {
        assert(views_of(items@).len() == items@.len());
        assert(out@ =~= block_bytes(views_of(items@)));
        assert forall|k: int| 0 <= k < views_of(items@).len()
            implies valid_entry(#[trigger] views_of(items@)[k]) by {
            assert(views_of(items@)[k] == items@[k]@);
        }
    }
    out
}

/// The bytes starting at `pos` in `bs` are exactly the encoding of `e`.
pub open spec fn entry_at(bs: Seq<u8>, pos: int, e: Entry) -> bool {
    &&& valid_entry(e)
    &&& 0 <= pos
    &&& pos + enc_entry(e).len() <= bs.len()
    &&& bs.subrange(pos, pos + enc_entry(e).len()) == enc_entry(e)
}

/// Parses one entry at `pos`. Whenever the bytes there are the encoding of
/// some entry, that entry is returned together with the position after it.
#[verifier::rlimit(100)]
#[verifier::spinoff_prover]
pub fn parse_entry(b: &Vec<u8>, pos: usize) -> (r: Option<(Value, usize)>)
    ensures
        r matches Some(p) ==> pos <= p.1 <= b@.len(),
        forall|e: Entry|
            #[trigger] entry_at(b@, pos as int, e) ==> (r matches Some(p) && p.0@ == e && p.1
                == pos + enc_entry(e).len()),
{
    let total = b.len();
    if total < 15 || pos > total - 15 {
        proof {
            assert forall|e: Entry| !entry_at(b@, pos as int, e) by {
                if entry_at(b@, pos as int, e) {
                    assert(enc_entry(e).len() >= 15);
                }
            }
        }
        return None;
    }
    let seqno = read_u64_le(b, pos);
    let code = b[pos + 8];
    let klen = read_u16_le(b, pos + 9) as usize;
    let pos2 = pos + 11;
    let ghost decompose = |e: Entry|
        {
            let enc = enc_entry(e);
            &&& enc.len() == 15 + e.key.len() + e.value.len()
            &&& enc.subrange(0, 8) == u64_le(e.seqno)
            &&& enc[8] == e.value_type.spec_code()
            &&& enc.subrange(9, 11) == u16_le(e.key.len() as u16)
            &&& enc.subrange(11, 11 + e.key.len() as int) == e.key
            &&& enc.subrange(11 + e.key.len() as int, 15 + e.key.len() as int) == u32_le(e.value.len() as u32)
            &&& enc.subrange(15 + e.key.len() as int, enc.len() as int) == e.value
        };
    proof {
        assert forall|e: Entry| #[trigger] entry_at(b@, pos as int, e) implies decompose(e) by {
            let enc = enc_entry(e);
            assert(enc.subrange(0, 8) =~= u64_le(e.seqno));
            assert(enc.subrange(9, 11) =~= u16_le(e.key.len() as u16));
            assert(enc.subrange(11, 11 + e.key.len() as int) =~= e.key);
            assert(enc.subrange(11 + e.key.len() as int, 15 + e.key.len() as int) =~= u32_le(
                e.value.len() as u32,
            ));
            assert(enc.subrange(15 + e.key.len() as int, enc.len() as int) =~= e.value);
        }
        assert forall|e: Entry| #[trigger] entry_at(b@, pos as int, e) implies e.seqno == seqno
            && e.value_type.spec_code() == code && e.key.len() == klen by {
            let enc = enc_entry(e);
            assert(decompose(e));
            assert forall|j: int| 0 <= j < enc.len() implies b@[pos + j] == enc[j] by {
                assert(b@.subrange(pos as int, pos + enc.len())[j] == enc[j]);
            }
            assert(b@.subrange(pos as int, pos + 8) =~= enc.subrange(0, 8));
            lemma_u64_round(e.seqno);
            assert(b@.subrange(pos + 9, pos + 11) =~= enc.subrange(9, 11));
            lemma_u16_round(e.key.len() as u16);
        }
    }
    let vt = if code == 0 {
        ValueType::Value
    } else if code == 1 {
        ValueType::Tombstone
    } else {
        proof {
            assert forall|e: Entry| !entry_at(b@, pos as int, e) by {
                if entry_at(b@, pos as int, e) {
                    assert(e.value_type.spec_code() == code);
                }
            }
        }
        return None;
    };
    if klen > total - pos2 {
        proof {
            assert forall|e: Entry| !entry_at(b@, pos as int, e) by {
                if entry_at(b@, pos as int, e) {
                    assert(enc_entry(e).len() == 15 + e.key.len() + e.value.len());
                }
            }
        }
        return None;
    }
    let key = read_bytes(b, pos2, klen);
    let pos3 = pos2 + klen;
    if total - pos3 < 4 {
        proof {
            assert forall|e: Entry| !entry_at(b@, pos as int, e) by {
                if entry_at(b@, pos as int, e) {
                    assert(enc_entry(e).len() == 15 + e.key.len() + e.value.len());
                }
            }
        }
        return None;
    }
    let vlen_32 = read_u32_le(b, pos3);
    proof {
        assert forall|e: Entry| #[trigger] entry_at(b@, pos as int, e) implies e.value.len()
            == vlen_32 by {
            let enc = enc_entry(e);
            assert(decompose(e));
            assert forall|j: int| 0 <= j < enc.len() implies b@[pos + j] == enc[j] by {
                assert(b@.subrange(pos as int, pos + enc.len())[j] == enc[j]);
            }
            assert(b@.subrange(pos3 as int, pos3 + 4) =~= enc.subrange(
                11 + e.key.len() as int,
                15 + e.key.len() as int,
            ));
            lemma_u32_round(e.value.len() as u32);
        }
    }
    let vlen = vlen_32 as usize;
    let pos4 = pos3 + 4;
    if vlen > total - pos4 {
        proof {
            assert forall|e: Entry| !entry_at(b@, pos as int, e) by {
                if entry_at(b@, pos as int, e) {
                    assert(enc_entry(e).len() == 15 + e.key.len() + e.value.len());
                }
            }
        }
        return None;
    }
    let value = read_bytes(b, pos4, vlen);
    let end = pos4 + vlen;
    let out = Value { key, value, seqno, value_type: vt };
    proof {
        assert forall|e: Entry| #[trigger] entry_at(b@, pos as int, e) implies out@ == e && end
            == pos + enc_entry(e).len() by {
            let enc = enc_entry(e);
            assert(decompose(e));
            assert forall|j: int| 0 <= j < enc.len() implies b@[pos + j] == enc[j] by {
                assert(b@.subrange(pos as int, pos + enc.len())[j] == enc[j]);
            }
            assert(out@.key =~= e.key) by {
                assert(b@.subrange(pos2 as int, pos2 + e.key.len()) =~= enc.subrange(
                    11,
                    11 + e.key.len() as int,
                ));
            }
            assert(out@.value =~= e.value) by {
                assert(b@.subrange(pos4 as int, pos4 + e.value.len()) =~= enc.subrange(
                    15 + e.key.len() as int,
                    enc.len() as int,
                ));
            }
        }
    }
    Some((out, end))
}

/// Parses one uncompressed block image. Whenever the bytes are exactly the
/// block image of some run of entries, that run is returned.
#[verifier::rlimit(100)]
#[verifier::spinoff_prover]
pub fn parse_block(b: &Vec<u8>) -> (r: Option<Vec<Value>>)
    ensures
        forall|items: Seq<Entry>|
            #[trigger] is_block_bytes(b@, items) ==> (r matches Some(vs) && views_of(vs@) == items),
{
    let total = b.len();
    if total < 8 {
        proof {
            assert forall|items: Seq<Entry>| !is_block_bytes(b@, items) by {
                if is_block_bytes(b@, items) {
                    assert(b@.len() >= 8);
                }
            }
        }
        return None;
    }
    let cnt = read_u32_le(b, 0) as usize;
    proof {
        assert forall|items: Seq<Entry>| #[trigger] is_block_bytes(b@, items) implies items.len()
            == cnt by {
            assert(b@.subrange(0, 4) =~= u32_le(items.len() as u32));
            lemma_u32_round(items.len() as u32);
        }
    }
    let mut out: Vec<Value> = Vec::new();
    let mut pos: usize = 4;
    let mut k: usize = 0;
    proof {
        assert forall|items: Seq<Entry>| #[trigger] is_block_bytes(b@, items) implies views_of(
            Seq::<Value>::empty(),
        ) =~= items.take(0) && 4 == 4 + enc_entries(items.take(0)).len() by {
            assert(items.take(0) =~= Seq::<Entry>::empty());
        }
    }
    while k < cnt
        invariant
            total == b@.len(),
            0 <= k <= cnt,
            4 <= pos <= total,
            out@.len() == k,
            forall|items: Seq<Entry>|
                #[trigger] is_block_bytes(b@, items) ==> cnt == items.len() && views_of(out@)
                    == items.take(k as int) && pos == 4 + enc_entries(items.take(k as int)).len(),
        decreases cnt - k,
    {
        let step = parse_entry(b, pos);
        match step {
            Some(pair) => {
                let (v, p2) = pair;
                proof {
                    assert forall|items: Seq<Entry>| #[trigger] is_block_bytes(b@, items)
                        implies entry_at(b@, pos as int, items[k as int]) && views_of(
                        out@.push(v),
                    ) == items.take(k + 1) && p2 == 4 + enc_entries(items.take(k + 1)).len() by {
                        lemma_block_offsets(b@, items, k as int);
                        assert(entry_at(b@, pos as int, items[k as int]));
                        assert(v@ == items[k as int]);
                        assert(views_of(out@.push(v)) =~= views_of(out@).push(v@));
                        assert(items.take(k + 1) =~= items.take(k as int).push(items[k as int]));
                        lemma_enc_entries_push(items.take(k as int), items[k as int]);
                    }
                }
                out.push(v);
                pos = p2;
            },
            None => {
                proof {
                    assert forall|items: Seq<Entry>| !is_block_bytes(b@, items) by {
                        if is_block_bytes(b@, items) {
                            lemma_block_offsets(b@, items, k as int);
                            assert(entry_at(b@, pos as int, items[k as int]));
                        }
                    }
                }
                return None;
            },
        }
        k = k + 1;
    }
    if total - pos != 4 {
        proof {
            assert forall|items: Seq<Entry>| !is_block_bytes(b@, items) by {
                if is_block_bytes(b@, items) {
                    assert(items.take(cnt as int) =~= items);
                    assert(b@.len() == 4 + enc_entries(items).len() + 4);
                }
            }
        }
        return None;
    }
    let stored = read_u32_le(b, pos);
    let body = read_bytes(b, 4, pos - 4);
    let c = crc32(&body);
    if c != stored {
        proof {
            assert forall|items: Seq<Entry>| !is_block_bytes(b@, items) by {
                if is_block_bytes(b@, items) {
                    assert(items.take(cnt as int) =~= items);
                    assert(body@ =~= enc_entries(items));
                    assert(b@.subrange(pos as int, pos + 4) =~= u32_le(crc32_of(enc_entries(
                        items,
                    ))));
                    lemma_u32_round(crc32_of(enc_entries(items)));
                }
            }
        }
        return None;
    }
    proof {
        assert forall|items: Seq<Entry>| #[trigger] is_block_bytes(b@, items) implies views_of(
            out@,
        ) == items by {
            assert(items.take(cnt as int) =~= items);
        }
    }
    Some(out)
}

/// Within a block image of `items`, the encoding of `items[k]` sits right
/// after the count field and the first `k` encodings.
pub proof fn lemma_block_offsets(bs: Seq<u8>, items: Seq<Entry>, k: int)
    requires
        is_block_bytes(bs, items),
        0 <= k < items.len(),
    ensures
        entry_at(bs, 4 + enc_entries(items.take(k)).len() as int, items[k]),
{
    lemma_enc_entries_split(items, k);
    let pos = 4 + enc_entries(items.take(k)).len() as int;
    let enc = enc_entry(items[k]);
    assert(enc_entries(items.skip(k)) == enc + enc_entries(items.skip(k + 1))) by {
        assert(items.skip(k)[0] == items[k]);
        assert(items.skip(k).skip(1) =~= items.skip(k + 1));
    }
    assert(valid_entry(items[k]));
    assert(bs.subrange(pos, pos + enc.len()) =~= enc) by {
        assert forall|j: int| 0 <= j < enc.len() implies bs[pos + j] == enc[j] by {
            assert(bs == block_bytes(items));
        }
    }
}

} // verus!
