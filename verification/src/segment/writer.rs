//! The segment writer: consumes a sorted stream of entries, packs them into
//! LZ4-compressed blocks with a block index, and keeps the metadata counters
//! the segment's descriptor is built from. [`MultiWriter`] rotates to a new
//! segment whenever the current one passes a target size, yielding a sorted
//! run of segments.

use vstd::prelude::*;

use crate::error::Error;
use crate::id::generate_segment_id;
use crate::segment::meta::Metadata;
use crate::segment::block::{
    block_bytes, enc_entries, is_block_bytes, lemma_enc_entries_push, serialize_block, u16_le,
    u32_le, u64_le, push_u16_le, push_u32_le, push_u64_le, push_bytes, valid_entry, views_of,
    FORMAT_VERSION,
};
use crate::value::{copy_bytes, lex_le, lemma_lex_le_trans, lemma_lex_trans, Entry, SeqNo, Value, ValueType};

verus! {

/// One block-index record: the first user key of a block and where its
/// compressed bytes sit in the blocks file.
#[derive(Clone, Debug)]
pub struct IndexEntry {
    pub first_key: Vec<u8>,
    pub offset: u64,
    pub size: u32,
}

impl View for IndexEntry {
    type V = (Seq<u8>, u64, u32);

    open spec fn view(&self) -> (Seq<u8>, u64, u32) {
        (self.first_key@, self.offset, self.size)
    }
}

/// The models of a block index.
pub open spec fn index_views(s: Seq<IndexEntry>) -> Seq<(Seq<u8>, u64, u32)> {
    s.map_values(|e: IndexEntry| e@)
}

/// What `compress_prepend_size` returns for the given input; the result
/// depends on the input bytes alone.
pub uninterp spec fn lz4_of(input: Seq<u8>) -> Seq<u8>;

#[verifier::external_type_specification]
#[verifier::external_body]
pub struct ExDecompressError(lz4_flex::block::DecompressError);

/// Relies on `lz4_flex::compress_prepend_size`: deterministic block
/// compression with the uncompressed length prepended.
#[verifier::external_body]
pub(crate) fn lz4_compress(data: &Vec<u8>) -> (r: Vec<u8>)
    ensures
        r@ == lz4_of(data@),
{
    lz4_flex::compress_prepend_size(data)
}

/// Relies on `lz4_flex::decompress_size_prepended`: the inverse of
/// `compress_prepend_size` for inputs whose length fits the 32-bit size
/// prefix — on such a compressor output it returns exactly the bytes that
/// were compressed. (The compressor truncates the stored length of longer
/// inputs, so nothing is claimed of them; the writer never produces one.)
#[verifier::external_body]
pub(crate) fn lz4_decompress(data: &Vec<u8>) -> (r: Result<
    Vec<u8>,
    lz4_flex::block::DecompressError,
>)
    ensures
        forall|orig: Seq<u8>|
            orig.len() < 4294967296 && data@ == lz4_of(orig) ==> r is Ok && r->Ok_0@ == orig,
{
    lz4_flex::decompress_size_prepended(data)
}

/// The entries of a run of flushed blocks, in write order.
pub open spec fn concat_entries(chunks: Seq<Seq<Entry>>) -> Seq<Entry>
    decreases chunks.len(),
{
    if chunks.len() == 0 {
        Seq::empty()
    } else {
        chunks[0] + concat_entries(chunks.skip(1))
    }
}

pub proof fn lemma_concat_entries_push(chunks: Seq<Seq<Entry>>, c: Seq<Entry>)
    ensures
        concat_entries(chunks.push(c)) == concat_entries(chunks) + c,
    decreases chunks.len(),
{
    let p = chunks.push(c);
    assert(p.len() > 0);
    assert(concat_entries(p) == p[0] + concat_entries(p.skip(1)));
    if chunks.len() == 0 {
        assert(p[0] == c);
        assert(p.skip(1) =~= Seq::<Seq<Entry>>::empty());
        assert(concat_entries(Seq::<Seq<Entry>>::empty()) == Seq::<Entry>::empty());
        assert(concat_entries(chunks) == Seq::<Entry>::empty());
        assert(concat_entries(p) =~= concat_entries(chunks) + c);
    } else {
        assert(p[0] == chunks[0]);
        assert(p.skip(1) =~= chunks.skip(1).push(c));
        lemma_concat_entries_push(chunks.skip(1), c);
        assert(concat_entries(chunks) == chunks[0] + concat_entries(chunks.skip(1)));
        assert(concat_entries(p) =~= concat_entries(chunks) + c);
    }
}

/// Serialized size of one entry.
pub open spec fn entry_size(e: Entry) -> int {
    15 + e.key.len() as int + e.value.len() as int
}

/// Serialized size of a run of entries.
pub open spec fn total_size(s: Seq<Entry>) -> int
    decreases s.len(),
{
    if s.len() == 0 {
        0int
    } else {
        entry_size(s[0]) + total_size(s.skip(1))
    }
}

pub proof fn lemma_total_size_push(s: Seq<Entry>, e: Entry)
    ensures
        total_size(s.push(e)) == total_size(s) + entry_size(e),
    decreases s.len(),
{
    let p = s.push(e);
    assert(p.len() > 0);
    if s.len() == 0 {
        assert(p[0] == e);
        assert(p.skip(1) =~= Seq::<Entry>::empty());
        assert(total_size(p.skip(1)) == 0int);
        assert(total_size(s) == 0int);
    } else {
        assert(p[0] == s[0]);
        assert(p.skip(1) =~= s.skip(1).push(e));
        lemma_total_size_push(s.skip(1), e);
    }
}

/// Every entry takes at least its fixed overhead.
pub proof fn lemma_total_size_lower(s: Seq<Entry>)
    ensures
        total_size(s) >= 15 * s.len(),
    decreases s.len(),
{
    if s.len() > 0 {
        lemma_total_size_lower(s.skip(1));
    }
}

/// Smallest seqno in a run; `u64::MAX` when the run is empty.
pub open spec fn min_seqno(s: Seq<Entry>) -> u64
    decreases s.len(),
{
    if s.len() == 0 {
        u64::MAX
    } else {
        let rest = min_seqno(s.skip(1));
        if s[0].seqno < rest {
            s[0].seqno
        } else {
            rest
        }
    }
}

/// Largest seqno in a run; `0` when the run is empty.
pub open spec fn max_seqno(s: Seq<Entry>) -> u64
    decreases s.len(),
{
    if s.len() == 0 {
        0u64
    } else {
        let rest = max_seqno(s.skip(1));
        if s[0].seqno > rest {
            s[0].seqno
        } else {
            rest
        }
    }
}

pub proof fn lemma_min_seqno_push(s: Seq<Entry>, e: Entry)
    ensures
        min_seqno(s.push(e)) == if e.seqno < min_seqno(s) {
            e.seqno
        } else {
            min_seqno(s)
        },
    decreases s.len(),
{
    let p = s.push(e);
    assert(p.len() > 0);
    if s.len() == 0 {
        assert(p[0] == e);
        assert(p.skip(1) =~= Seq::<Entry>::empty());
        assert(min_seqno(p.skip(1)) == u64::MAX);
        assert(min_seqno(s) == u64::MAX);
    } else {
        assert(p[0] == s[0]);
        assert(p.skip(1) =~= s.skip(1).push(e));
        lemma_min_seqno_push(s.skip(1), e);
    }
}

pub proof fn lemma_max_seqno_push(s: Seq<Entry>, e: Entry)
    ensures
        max_seqno(s.push(e)) == if e.seqno > max_seqno(s) {
            e.seqno
        } else {
            max_seqno(s)
        },
    decreases s.len(),
{
    let p = s.push(e);
    assert(p.len() > 0);
    if s.len() == 0 {
        assert(p[0] == e);
        assert(p.skip(1) =~= Seq::<Entry>::empty());
        assert(max_seqno(p.skip(1)) == 0u64);
        assert(max_seqno(s) == 0u64);
    } else {
        assert(p[0] == s[0]);
        assert(p.skip(1) =~= s.skip(1).push(e));
        lemma_max_seqno_push(s.skip(1), e);
    }
}

/// Tombstones in a run.
pub open spec fn tombstones_in(s: Seq<Entry>) -> int
    decreases s.len(),
{
    if s.len() == 0 {
        0int
    } else {
        (if s[0].value_type == ValueType::Tombstone {
            1int
        } else {
            0int
        }) + tombstones_in(s.skip(1))
    }
}

pub proof fn lemma_tombstones_push(s: Seq<Entry>, e: Entry)
    ensures
        tombstones_in(s.push(e)) == tombstones_in(s) + (if e.value_type == ValueType::Tombstone {
            1int
        } else {
            0int
        }),
        tombstones_in(s) <= s.len(),
    decreases s.len(),
{
    let p = s.push(e);
    assert(p.len() > 0);
    if s.len() == 0 {
        assert(p[0] == e);
        assert(p.skip(1) =~= Seq::<Entry>::empty());
        assert(tombstones_in(p.skip(1)) == 0int);
        assert(tombstones_in(s) == 0int);
    } else {
        assert(p[0] == s[0]);
        assert(p.skip(1) =~= s.skip(1).push(e));
        lemma_tombstones_push(s.skip(1), e);
    }
}

/// A run never holds more tombstones than entries.
pub proof fn lemma_tombstones_le(s: Seq<Entry>)
    ensures
        tombstones_in(s) <= s.len(),
    decreases s.len(),
{
    if s.len() > 0 {
        lemma_tombstones_le(s.skip(1));
    }
}

/// A block of entries can be stored: its uncompressed image fits the
/// compressor's 32-bit length prefix, and its compressed image fits the
/// index record's 32-bit size field. Both are functions of the entries
/// alone, so success of a flush is decided by the chunk.
pub open spec fn block_fits(items: Seq<Entry>) -> bool {
    &&& block_bytes(items).len() < 4294967296
    &&& lz4_of(block_bytes(items)).len() <= u32::MAX
}

/// The run's user keys never descend.
pub open spec fn entries_sorted(s: Seq<Entry>) -> bool {
    forall|i: int, j: int| 0 <= i <= j < s.len() ==> lex_le((#[trigger] s[i]).key, (#[trigger] s[j]).key)
}

/// Appending an entry whose key is at or above the last one keeps the run
/// sorted.
pub proof fn lemma_sorted_push(s: Seq<Entry>, e: Entry)
    requires
        entries_sorted(s),
        s.len() > 0 ==> lex_le(s[s.len() - 1].key, e.key),
    ensures
        entries_sorted(s.push(e)),
{
    let p = s.push(e);
    assert forall|i: int, j: int|
        0 <= i <= j < p.len() implies lex_le((#[trigger] p[i]).key, (#[trigger] p[j]).key) by {
        if j < s.len() {
            assert(p[i] == s[i] && p[j] == s[j]);
        } else if i < s.len() {
            assert(p[i] == s[i] && p[j] == e);
            assert(lex_le(s[i].key, s[s.len() - 1].key));
            lemma_lex_le_trans(s[i].key, s[s.len() - 1].key, e.key);
        } else {
            assert(p[i] == e && p[j] == e);
        }
    }
}

/// A blocks-file image and a block index decode to the given chunks of
/// entries: the file starts with the version tag, and each index record
/// points at the LZ4 image of its chunk's block, whose first key the record
/// carries.
pub open spec fn run_decodes_to(
    blocks: Seq<u8>,
    index: Seq<(Seq<u8>, u64, u32)>,
    chunks: Seq<Seq<Entry>>,
) -> bool {
    &&& blocks.len() >= 1
    &&& blocks[0] == FORMAT_VERSION
    &&& index.len() == chunks.len()
    &&& forall|i: int|
        0 <= i < index.len() ==> {
            &&& (#[trigger] index[i]).1 + index[i].2 <= blocks.len()
            &&& chunks[i].len() > 0
            &&& is_block_bytes(block_bytes(chunks[i]), chunks[i])
            &&& block_bytes(chunks[i]).len() < 4294967296
            &&& blocks.subrange(index[i].1 as int, index[i].1 + index[i].2) == lz4_of(
                block_bytes(chunks[i]),
            )
            &&& index[i].0 == chunks[i][0].key
        }
}

/// Writer options.
#[derive(Clone, Copy, PartialEq, Eq, Structural, Debug)]
pub struct Options {
    /// Drop tombstones instead of writing them (used during compaction when
    /// the tombstone is older than every surviving version of its key).
    pub evict_tombstones: bool,
    /// Uncompressed size a block is flushed at.
    pub block_size: u32,
}

/// Serializes and compresses entries into blocks, building the blocks-file
/// image and the block index, and tracking the counters segment metadata is
/// made from.
pub struct Writer {
    pub opts: Options,
    /// Image of the blocks file: version tag, then compressed blocks.
    pub blocks: Vec<u8>,
    /// One record per flushed block.
    pub index: Vec<IndexEntry>,
    /// Entries buffered for the next block.
    pub chunk: Vec<Value>,
    /// The entries of each flushed block.
    pub chunks: Ghost<Seq<Seq<Entry>>>,
    pub block_count: usize,
    pub item_count: usize,
    pub file_pos: u64,
    /// Serialized size of the flushed entries before compression.
    pub uncompressed_size: u64,
    pub first_key: Option<Vec<u8>>,
    pub last_key: Option<Vec<u8>>,
    pub tombstone_count: usize,
    pub chunk_size: usize,
    pub lowest_seqno: SeqNo,
    pub highest_seqno: SeqNo,
}

impl Writer {
    /// Every entry accepted so far, flushed or still buffered, in write
    /// order (evicted tombstones excluded).
    pub open spec fn all_entries(self) -> Seq<Entry> {
        concat_entries(self.chunks@) + views_of(self.chunk@)
    }

    pub open spec fn first_key_model(self) -> Option<Seq<u8>> {
        match self.first_key {
            Some(k) => Some(k@),
            None => None,
        }
    }

    pub open spec fn last_key_model(self) -> Option<Seq<u8>> {
        match self.last_key {
            Some(k) => Some(k@),
            None => None,
        }
    }

    /// The writer's bookkeeping is consistent with the images it has built.
    /// Holds also mid-write, when the buffered block has just passed the
    /// flush threshold.
    pub open spec fn inv(self) -> bool {
        let all = self.all_entries();
        &&& run_decodes_to(self.blocks@, index_views(self.index@), self.chunks@)
        &&& self.block_count == self.index@.len()
        &&& self.index@.len() == self.chunks@.len()
        &&& self.item_count == concat_entries(self.chunks@).len()
        &&& self.item_count + self.chunk@.len() <= usize::MAX
        &&& self.file_pos == self.blocks@.len()
        &&& self.chunk_size == total_size(views_of(self.chunk@))
        &&& self.uncompressed_size == total_size(concat_entries(self.chunks@))
        &&& self.uncompressed_size + total_size(views_of(self.chunk@)) <= u64::MAX
        &&& (forall|i: int| 0 <= i < all.len() ==> valid_entry(#[trigger] all[i]))
        &&& self.tombstone_count == tombstones_in(all)
    }

    /// Between operations the buffered block is below the flush threshold
    /// and the key range and seqno range trackers describe the contents.
    pub open spec fn wf(self) -> bool {
        let all = self.all_entries();
        &&& self.inv()
        &&& (self.chunk@.len() == 0 || self.chunk_size < self.opts.block_size)
        &&& (self.first_key_model() is Some <==> all.len() > 0)
        &&& (self.last_key_model() is Some <==> all.len() > 0)
        &&& (all.len() > 0 ==> {
            &&& self.first_key_model() == Some(all[0].key)
            &&& self.last_key_model() == Some(all[all.len() - 1].key)
            &&& lex_le(all[0].key, all[all.len() - 1].key)
        })
        &&& self.lowest_seqno == min_seqno(all)
        &&& self.highest_seqno == max_seqno(all)
        &&& entries_sorted(all)
    }

    /// A fresh writer: an empty segment holding only the format tag.
    pub fn new(opts: Options) -> (r: Writer)
        ensures
            r.wf(),
            r.opts == opts,
            r.all_entries() == Seq::<Entry>::empty(),
            r.blocks@ == seq![FORMAT_VERSION],
            r.file_pos == 1,
            r.index@.len() == 0,
            r.item_count == 0,
            r.block_count == 0,
            r.tombstone_count == 0,
            r.chunk@.len() == 0,
            r.first_key is None,
            r.last_key is None,
            r.lowest_seqno == u64::MAX,
            r.highest_seqno == 0,
    {
        let mut blocks: Vec<u8> = Vec::new();
        blocks.push(FORMAT_VERSION);
        let r = Writer {
            opts,
            blocks,
            index: Vec::new(),
            chunk: Vec::new(),
            chunks: Ghost(Seq::empty()),
            block_count: 0,
            item_count: 0,
            file_pos: 1,
            uncompressed_size: 0,
            first_key: None,
            last_key: None,
            tombstone_count: 0,
            chunk_size: 0,
            lowest_seqno: u64::MAX,
            highest_seqno: 0,
        };
        proof {
            assert(r.chunk@ =~= Seq::<Value>::empty());
            assert(views_of(r.chunk@) =~= Seq::<Entry>::empty());
            assert(r.all_entries() =~= Seq::<Entry>::empty());
            assert(index_views(r.index@) =~= Seq::<(Seq<u8>, u64, u32)>::empty());
            assert(r.blocks@.len() == 1 && r.blocks@[0] == FORMAT_VERSION);
            assert(r.blocks@ =~= seq![FORMAT_VERSION]);
        }
        r
    }

    /// There is room in the counters to accept `e`.
    pub open spec fn has_room(self, e: Entry) -> bool {
        &&& self.item_count + self.chunk@.len() + 1 <= usize::MAX
        &&& self.chunk_size + entry_size(e) <= usize::MAX
        &&& self.uncompressed_size + self.chunk_size + entry_size(e) <= u64::MAX
        &&& self.tombstone_count + 1 <= usize::MAX
    }

    /// Accepting `e` flushes the buffered block.
    pub open spec fn must_flush(self, e: Entry) -> bool {
        self.chunk_size + entry_size(e) >= self.opts.block_size
    }

    /// The block that accepting `e` may flush can be stored.
    pub open spec fn write_accepts(self, e: Entry) -> bool {
        !self.must_flush(e) || block_fits(views_of(self.chunk@).push(e))
    }

    /// The final partial block, if any, can be stored.
    pub open spec fn finish_accepts(self) -> bool {
        self.chunk@.len() == 0 || block_fits(views_of(self.chunk@))
    }

    /// Compresses and appends the buffered block at the end of the blocks
    /// file, and registers exactly one index record for it at the old file
    /// position. Fails exactly when the block cannot be stored — its image
    /// overflowing the compressor's or the index record's length field —
    /// and changes nothing then.
    fn write_block(&mut self) -> (r: Result<(), Error>)
        requires
            old(self).inv(),
            old(self).chunk@.len() > 0,
            old(self).chunk@.len() <= u32::MAX,
        ensures
            r is Ok <==> block_fits(views_of(old(self).chunk@)),
            r matches Ok(u) ==> final(self).inv(),
            r matches Ok(u) ==> {
                &&& final(self).all_entries() == old(self).all_entries()
                &&& final(self).chunk@.len() == 0
                &&& final(self).item_count == old(self).item_count + old(self).chunk@.len()
                &&& final(self).opts == old(self).opts
                &&& final(self).first_key == old(self).first_key
                &&& final(self).last_key == old(self).last_key
                &&& final(self).lowest_seqno == old(self).lowest_seqno
                &&& final(self).highest_seqno == old(self).highest_seqno
                &&& final(self).tombstone_count == old(self).tombstone_count
                &&& final(self).blocks@ == old(self).blocks@ + lz4_of(
                    block_bytes(views_of(old(self).chunk@)),
                )
                &&& index_views(final(self).index@) == index_views(old(self).index@).push(
                    (
                        views_of(old(self).chunk@)[0].key,
                        old(self).file_pos,
                        lz4_of(block_bytes(views_of(old(self).chunk@))).len() as u32,
                    ),
                )
                &&& final(self).block_count == old(self).block_count + 1
                &&& final(self).file_pos == old(self).file_pos + lz4_of(
                    block_bytes(views_of(old(self).chunk@)),
                ).len()
            },
            r matches Err(e2) ==> e2 == Error::Serialize && *final(self) == *old(self),
    {
        proof {
            let all = self.all_entries();
            assert forall|i: int| 0 <= i < self.chunk@.len()
                implies valid_entry(#[trigger] self.chunk@[i]@) by {
                assert(views_of(self.chunk@)[i] == self.chunk@[i]@);
                assert(all[concat_entries(self.chunks@).len() + i] == views_of(self.chunk@)[i]);
                assert(valid_entry(all[concat_entries(self.chunks@).len() + i]));
            }
        }
        let bytes = serialize_block(&self.chunk);
        if bytes.len() as u64 >= 4294967296u64 {
            // the compressor's 32-bit length prefix would truncate
            return Err(Error::Serialize);
        }
        let compressed = lz4_compress(&bytes);
        if compressed.len() as u64 > u32::MAX as u64 {
            return Err(Error::Serialize);
        }
        let ghost old_self = *self;
        let first = copy_bytes(&self.chunk[0].key);
        let entry = IndexEntry { first_key: first, offset: self.file_pos, size: compressed.len() as u32 };
        push_bytes(&mut self.blocks, &compressed);
        self.index.push(entry);
        self.block_count = self.index.len();
        self.file_pos = self.blocks.len() as u64;
        self.item_count = self.item_count + self.chunk.len();
        self.uncompressed_size = self.uncompressed_size + self.chunk_size as u64;
        proof {
            self.chunks@ = old_self.chunks@.push(views_of(old_self.chunk@));
        }
        self.chunk = Vec::new();
        self.chunk_size = 0;
        proof {
            let c = views_of(old_self.chunk@);
            lemma_concat_entries_push(old_self.chunks@, c);
            assert(views_of(self.chunk@) =~= Seq::<Entry>::empty());
            assert(self.all_entries() =~= old_self.all_entries());
            lemma_total_size_push(concat_entries(old_self.chunks@), c[0]);
            // uncompressed size: flushed total grows by the chunk's total
            assert(total_size(concat_entries(old_self.chunks@) + c) == total_size(
                concat_entries(old_self.chunks@),
            ) + total_size(c)) by {
                lemma_total_size_concat(concat_entries(old_self.chunks@), c);
            }
            assert(total_size(views_of(self.chunk@)) == 0);
            // the new index record decodes to the new chunk; old records are
            // untouched because the file only grew at the end
            let iv = index_views(self.index@);
            let old_iv = index_views(old_self.index@);
            assert(iv.len() == old_iv.len() + 1);
            assert forall|i: int| 0 <= i < old_iv.len() implies iv[i] == old_iv[i] by {
                assert(self.index@[i] == old_self.index@[i]);
            }
            assert forall|i: int| 0 <= i < iv.len() implies {
                &&& (#[trigger] iv[i]).1 + iv[i].2 <= self.blocks@.len()
                &&& self.chunks@[i].len() > 0
                &&& is_block_bytes(block_bytes(self.chunks@[i]), self.chunks@[i])
                &&& self.blocks@.subrange(iv[i].1 as int, iv[i].1 + iv[i].2) == lz4_of(
                    block_bytes(self.chunks@[i]),
                )
                &&& iv[i].0 == self.chunks@[i][0].key
            } by {
                if i < old_iv.len() {
                    assert(old_iv[i].1 + old_iv[i].2 <= old_self.blocks@.len());
                    assert(self.blocks@.subrange(iv[i].1 as int, iv[i].1 + iv[i].2)
                        =~= old_self.blocks@.subrange(old_iv[i].1 as int, old_iv[i].1
                        + old_iv[i].2));
                } else {
                    assert(self.index@[i] == self.index@[self.index@.len() - 1]);
                    assert(iv[i].1 == old_self.blocks@.len());
                    assert(self.blocks@.subrange(iv[i].1 as int, iv[i].1 + iv[i].2)
                        =~= compressed@);
                    assert(c[0] == old_self.chunk@[0]@);
                }
            }
            assert(self.blocks@[0] == old_self.blocks@[0]);
            assert(index_views(self.index@) =~= index_views(old_self.index@).push(
                (c[0].key, old_self.file_pos, lz4_of(block_bytes(c)).len() as u32),
            ));
        }
        Ok(())
    }

    /// Accepts the next entry of the sorted input stream. A tombstone is
    /// dropped silently when eviction is on; otherwise an entry whose key or
    /// value does not fit the format's length fields is rejected with
    /// `Error::Serialize`, and an accepted entry is appended to the
    /// segment's contents — succeeding exactly when the block it may flush
    /// can be stored.
    pub fn write(&mut self, item: Value) -> (r: Result<(), Error>)
        requires
            old(self).wf(),
            old(self).has_room(item@),
            old(self).last_key_model() matches Some(k) ==> lex_le(k, item@.key),
        ensures
            r matches Ok(u) ==> final(self).wf(),
            r matches Err(e2) ==> e2 == Error::Serialize,
            final(self).opts == old(self).opts,
            // an evicted tombstone is dropped silently, fitting or not
            (item@.value_type == ValueType::Tombstone && old(self).opts.evict_tombstones) ==> (
            r matches Ok(u)) && *final(self) == *old(self),
            // anything else that does not fit the length fields is rejected
            (!valid_entry(item@) && !(item@.value_type == ValueType::Tombstone
                && old(self).opts.evict_tombstones)) ==> (r matches Err(e2) && e2
                == Error::Serialize) && *final(self) == *old(self),
            // an accepted entry succeeds exactly when its flush fits
            (valid_entry(item@) && !(item@.value_type == ValueType::Tombstone
                && old(self).opts.evict_tombstones)) ==> (r is Ok <==> old(self).write_accepts(
                item@,
            )),
            (valid_entry(item@) && !(item@.value_type == ValueType::Tombstone
                && old(self).opts.evict_tombstones) && r matches Ok(u)) ==> {
                &&& final(self).all_entries() == old(self).all_entries().push(item@)
                &&& final(self).last_key_model() == Some(item@.key)
                &&& views_of(final(self).chunk@) == (if old(self).must_flush(item@) {
                    Seq::<Entry>::empty()
                } else {
                    views_of(old(self).chunk@).push(item@)
                })
                &&& final(self).blocks@ == old(self).blocks@ + (if old(self).must_flush(item@) {
                    lz4_of(block_bytes(views_of(old(self).chunk@).push(item@)))
                } else {
                    Seq::<u8>::empty()
                })
                &&& index_views(final(self).index@) == index_views(old(self).index@) + (if old(
                    self,
                ).must_flush(item@) {
                    seq![
                        (
                            views_of(old(self).chunk@).push(item@)[0].key,
                            old(self).file_pos,
                            lz4_of(block_bytes(views_of(old(self).chunk@).push(item@))).len()
                                as u32,
                        ),
                    ]
                } else {
                    Seq::<(Seq<u8>, u64, u32)>::empty()
                })
                &&& final(self).block_count == old(self).block_count + (if old(self).must_flush(
                    item@,
                ) {
                    1int
                } else {
                    0int
                })
                &&& final(self).file_pos == old(self).file_pos + (if old(self).must_flush(item@) {
                    lz4_of(block_bytes(views_of(old(self).chunk@).push(item@))).len() as int
                } else {
                    0int
                })
            },
    {
        if item.is_tombstone() {
            if self.opts.evict_tombstones {
                return Ok(());
            }
        }
        if item.key.len() > u16::MAX as usize || item.value.len() > u32::MAX as usize {
            return Err(Error::Serialize);
        }
        if item.is_tombstone() {
            self.tombstone_count = self.tombstone_count + 1;
        }
        let item_key = copy_bytes(&item.key);
        let seqno = item.seqno;
        let sz = item.size();
        let ghost pre = *self;
        let ghost olds = old(self).all_entries();
        self.chunk_size = self.chunk_size + sz;
        self.chunk.push(item);
        proof {
            let iv = item@;
            assert(views_of(self.chunk@) =~= views_of(old(self).chunk@).push(iv));
            lemma_total_size_push(views_of(old(self).chunk@), iv);
            assert(self.all_entries() =~= olds.push(iv));
            lemma_tombstones_push(olds, iv);
            lemma_min_seqno_push(olds, iv);
            lemma_max_seqno_push(olds, iv);
            assert forall|i: int| 0 <= i < olds.push(iv).len()
                implies valid_entry(#[trigger] olds.push(iv)[i]) by {
                if i < olds.len() {
                    assert(olds[i] == olds.push(iv)[i]);
                }
            }
        }
        proof {
            assert(self.chunk_size >= self.opts.block_size as usize <==> old(self).must_flush(
                item@,
            ));
        }
        if self.chunk_size >= self.opts.block_size as usize {
            proof {
                lemma_total_size_lower(views_of(old(self).chunk@));
            }
            let res = self.write_block();
            if res.is_err() {
                // the segment is abandoned on a failed flush
                return res;
            }
        }
        if self.first_key.is_none() {
            self.first_key = Some(copy_bytes(&item_key));
        }
        self.last_key = Some(item_key);
        if self.lowest_seqno > seqno {
            self.lowest_seqno = seqno;
        }
        if self.highest_seqno < seqno {
            self.highest_seqno = seqno;
        }
        proof {
            let iv = item@;
            let allp = olds.push(iv);
            assert(self.all_entries() =~= allp);
            assert(allp[allp.len() - 1] == iv);
            if olds.len() > 0 {
                assert(allp[0] == olds[0]);
                let k0 = olds[0].key;
                let k1 = olds[olds.len() - 1].key;
                assert(lex_le(k0, k1));
                assert(lex_le(k1, iv.key));
                if k0 == k1 || k1 == iv.key {
                } else {
                    lemma_lex_trans(k0, k1, iv.key);
                }
            }
            assert forall|i: int| 0 <= i < allp.len() implies valid_entry(#[trigger] allp[i]) by {
                if i < olds.len() {
                    assert(olds[i] == allp[i]);
                }
            }
            lemma_sorted_push(olds, iv);
        }
        Ok(())
    }

    /// Flushes the buffered partial block, completing the segment's images;
    /// it succeeds exactly when that final block (if any) can be stored, and
    /// changes nothing otherwise. After a successful finish `item_count`
    /// counts every accepted entry, and it is zero exactly when nothing was
    /// written.
    pub fn finish(&mut self) -> (r: Result<(), Error>)
        requires
            old(self).wf(),
        ensures
            final(self).wf(),
            final(self).opts == old(self).opts,
            r is Ok <==> old(self).finish_accepts(),
            r matches Err(e2) ==> e2 == Error::Serialize && *final(self) == *old(self),
            r matches Ok(u) ==> {
                &&& final(self).chunk@.len() == 0
                &&& final(self).all_entries() == old(self).all_entries()
                &&& final(self).item_count == old(self).all_entries().len()
                &&& (final(self).item_count == 0 <==> old(self).all_entries().len() == 0)
                &&& final(self).blocks@ == old(self).blocks@ + (if old(self).chunk@.len() == 0 {
                    Seq::<u8>::empty()
                } else {
                    lz4_of(block_bytes(views_of(old(self).chunk@)))
                })
                &&& final(self).block_count == old(self).block_count + (if old(self).chunk@.len()
                    == 0 {
                    0int
                } else {
                    1int
                })
                &&& final(self).first_key == old(self).first_key
                &&& final(self).last_key == old(self).last_key
                &&& final(self).lowest_seqno == old(self).lowest_seqno
                &&& final(self).highest_seqno == old(self).highest_seqno
                &&& final(self).tombstone_count == old(self).tombstone_count
            },
    {
        if self.chunk.len() > 0 {
            proof {
                lemma_total_size_lower(views_of(self.chunk@));
            }
            let res = self.write_block();
            if res.is_err() {
                return res;
            }
        }
        proof {
            assert(views_of(self.chunk@) =~= Seq::<Entry>::empty());
            assert(self.all_entries() =~= concat_entries(self.chunks@));
            assert(self.all_entries() == old(self).all_entries());
            if old(self).chunk@.len() == 0 {
                assert(self.blocks@ =~= old(self).blocks@ + Seq::<u8>::empty());
            }
        }
        Ok(())
    }
}

/// The bytes of one index-file record: key length, key, block offset,
/// compressed block size.
pub open spec fn enc_index_entry(k: Seq<u8>, off: u64, sz: u32) -> Seq<u8> {
    u16_le(k.len() as u16) + k + u64_le(off) + u32_le(sz)
}

/// The concatenated records of a block index.
pub open spec fn enc_index(s: Seq<(Seq<u8>, u64, u32)>) -> Seq<u8>
    decreases s.len(),
{
    if s.len() == 0 {
        Seq::empty()
    } else {
        enc_index_entry(s[0].0, s[0].1, s[0].2) + enc_index(s.skip(1))
    }
}

pub proof fn lemma_enc_index_push(s: Seq<(Seq<u8>, u64, u32)>, e: (Seq<u8>, u64, u32))
    ensures
        enc_index(s.push(e)) == enc_index(s) + enc_index_entry(e.0, e.1, e.2),
    decreases s.len(),
{
    let p = s.push(e);
    assert(p.len() > 0);
    if s.len() == 0 {
        assert(p[0] == e);
        assert(p.skip(1) =~= Seq::<(Seq<u8>, u64, u32)>::empty());
        assert(enc_index(p.skip(1)) == Seq::<u8>::empty());
        assert(enc_index(s) == Seq::<u8>::empty());
        assert(enc_index(p) =~= enc_index(s) + enc_index_entry(e.0, e.1, e.2));
    } else {
        assert(p[0] == s[0]);
        assert(p.skip(1) =~= s.skip(1).push(e));
        lemma_enc_index_push(s.skip(1), e);
        assert(enc_index(p) =~= enc_index(s) + enc_index_entry(e.0, e.1, e.2));
    }
}

/// The image of an index file: the block records, terminated by a sentinel
/// record with an empty key, the end offset of the blocks file, and size 0.
pub open spec fn index_file_bytes(s: Seq<(Seq<u8>, u64, u32)>, end: u64) -> Seq<u8> {
    enc_index(s) + enc_index_entry(Seq::empty(), end, 0u32)
}

impl Writer {
    /// Serializes the block index file, sentinel included.
    pub fn index_file_bytes(&self) -> (r: Vec<u8>)
        requires
            self.wf(),
        ensures
            r@ == index_file_bytes(index_views(self.index@), self.file_pos),
    {
        proof {
            // every record's key fits its length field: it is the first key
            // of a nonempty block of valid entries
            assert forall|i: int|
                0 <= i < self.index@.len() implies (#[trigger] self.index@[i])@.0.len()
                <= u16::MAX by {
                let iv = index_views(self.index@);
                assert(iv[i].1 + iv[i].2 <= self.blocks@.len());
                assert(is_block_bytes(block_bytes(self.chunks@[i]), self.chunks@[i]));
                assert(valid_entry(self.chunks@[i][0]));
                assert(iv[i].0 == self.chunks@[i][0].key);
                assert(iv[i] == self.index@[i]@);
            }
        }
        let r = index_file_image(&self.index, self.file_pos);
        match r {
            Ok(bytes) => bytes,
            Err(e) => {
                proof {
                    assert(false);
                }
                Vec::new()
            },
        }
    }
}

/// Serializes a block index to its file image, sentinel included; shared by
/// the writer and by the embedding program persisting a finished segment.
/// It fails exactly when some record's key does not fit its length field —
/// which a writer-built index never hits.
pub fn index_file_image(index: &Vec<IndexEntry>, end: u64) -> (r: Result<Vec<u8>, Error>)
    ensures
        r is Ok <==> (forall|i: int|
            0 <= i < index@.len() ==> (#[trigger] index@[i])@.0.len() <= u16::MAX),
        r matches Ok(bytes) ==> bytes@ == index_file_bytes(index_views(index@), end),
        r matches Err(e2) ==> e2 == Error::Serialize,
{
    let n = index.len();
    let mut out: Vec<u8> = Vec::new();
    let mut i: usize = 0;
    proof {
        assert(index_views(index@).take(0) =~= Seq::<(Seq<u8>, u64, u32)>::empty());
        assert(out@ =~= enc_index(index_views(index@).take(0)));
    }
    while i < n
        invariant
            n == index@.len(),
            0 <= i <= n,
            out@ == enc_index(index_views(index@).take(i as int)),
            forall|k: int| 0 <= k < i ==> (#[trigger] index@[k])@.0.len() <= u16::MAX,
        decreases n - i,
    {
        let e = &index[i];
        if e.first_key.len() > u16::MAX as usize {
            return Err(Error::Serialize);
        }
        let ghost out0 = out@;
        push_u16_le(&mut out, e.first_key.len() as u16);
        push_bytes(&mut out, &e.first_key);
        push_u64_le(&mut out, e.offset);
        push_u32_le(&mut out, e.size);
        proof {
            let iv = index_views(index@);
            assert(out@ =~= out0 + enc_index_entry(iv[i as int].0, iv[i as int].1, iv[
                i as int
            ].2));
            assert(iv.take(i + 1) =~= iv.take(i as int).push(iv[i as int]));
            lemma_enc_index_push(iv.take(i as int), iv[i as int]);
        }
        i = i + 1;
    }
    proof {
        assert(index_views(index@).take(n as int) =~= index_views(index@));
    }
    let ghost mid = out@;
    push_u16_le(&mut out, 0u16);
    push_u64_le(&mut out, end);
    push_u32_le(&mut out, 0u32);
    proof {
        assert(u16_le(0u16) =~= u16_le(Seq::<u8>::empty().len() as u16));
        assert(out@ =~= mid + enc_index_entry(Seq::empty(), end, 0u32));
    }
    Ok(out)
}

/// The in-memory images of one finished segment, written to its directory
/// by the embedding program.
#[derive(Debug)]
pub struct SegmentData {
    pub id: String,
    pub blocks: Vec<u8>,
    pub index: Vec<IndexEntry>,
}

/// Like [`Writer`], but rotates to a fresh segment once the current one
/// grows past `target_size`, producing a sorted run of segments.
pub struct MultiWriter {
    /// Target size of segments in bytes; passing it starts a new segment.
    pub target_size: u64,
    pub opts: Options,
    /// Metadata of the finished segments, in creation order.
    pub created_items: Vec<Metadata>,
    /// Images of the finished segments, parallel to `created_items`.
    pub segments: Vec<SegmentData>,
    /// Entries of each finished segment.
    pub runs: Ghost<Seq<Seq<Entry>>>,
    /// Block structure of each finished segment.
    pub seg_chunks: Ghost<Seq<Seq<Seq<Entry>>>>,
    pub current_segment_id: String,
    pub writer: Writer,
}

/// The buffered entries after a writer accepts `e`.
pub open spec fn post_write_chunk(w: Writer, e: Entry) -> Seq<Entry> {
    if w.must_flush(e) {
        Seq::empty()
    } else {
        views_of(w.chunk@).push(e)
    }
}

/// The writer's file position after it accepts `e`.
pub open spec fn post_write_file_pos(w: Writer, e: Entry) -> int {
    w.file_pos + if w.must_flush(e) {
        lz4_of(block_bytes(views_of(w.chunk@).push(e))).len() as int
    } else {
        0int
    }
}

/// The writer's block count after it accepts `e`.
pub open spec fn post_write_block_count(w: Writer, e: Entry) -> int {
    w.block_count + if w.must_flush(e) {
        1int
    } else {
        0int
    }
}

/// Rotation succeeds: the final partial block (if any) can be stored, and
/// the resulting block count fits the metadata record's field.
pub open spec fn rotate_accepts(chunk: Seq<Entry>, block_count: int) -> bool {
    &&& (chunk.len() == 0 || block_fits(chunk))
    &&& block_count + (if chunk.len() > 0 {
        1int
    } else {
        0int
    }) <= u32::MAX
}

impl MultiWriter {
    /// Every entry accepted so far, over all segments, in write order.
    pub open spec fn written(self) -> Seq<Entry> {
        concat_entries(self.runs@) + self.writer.all_entries()
    }

    pub open spec fn wf(self) -> bool {
        &&& self.writer.wf()
        &&& self.writer.opts == self.opts
        &&& self.created_items@.len() == self.segments@.len()
        &&& self.segments@.len() == self.runs@.len()
        &&& self.runs@.len() == self.seg_chunks@.len()
        &&& forall|i: int|
            0 <= i < self.runs@.len() ==> {
                &&& run_decodes_to(
                    (#[trigger] self.segments@[i]).blocks@,
                    index_views(self.segments@[i].index@),
                    self.seg_chunks@[i],
                )
                &&& concat_entries(self.seg_chunks@[i]) == self.runs@[i]
                &&& self.runs@[i].len() > 0
                &&& self.created_items@[i].item_count == self.runs@[i].len()
                &&& self.created_items@[i].wf()
                &&& self.created_items@[i].id@ == self.segments@[i].id@
                &&& entries_sorted(self.runs@[i])
            }
    }

    /// Sets up a multi writer with a fresh first segment.
    pub fn new(target_size: u64, opts: Options) -> (r: MultiWriter)
        ensures
            r.wf(),
            r.written() == Seq::<Entry>::empty(),
            r.target_size == target_size,
            r.opts == opts,
            r.created_items@.len() == 0,
    {
        let segment_id = generate_segment_id();
        let writer = Writer::new(opts);
        let r = MultiWriter {
            target_size,
            opts,
            created_items: Vec::new(),
            segments: Vec::new(),
            runs: Ghost(Seq::empty()),
            seg_chunks: Ghost(Seq::empty()),
            current_segment_id: segment_id,
            writer,
        };
        proof {
            assert(concat_entries(r.runs@) == Seq::<Entry>::empty());
            assert(r.written() =~= Seq::<Entry>::empty());
        }
        r
    }

    /// Finishes the current segment and, when it holds anything, records its
    /// metadata and images; then starts a fresh writer under a new id. It
    /// succeeds exactly when the final block and the block count of the
    /// finished segment can be stored.
    fn rotate(&mut self) -> (r: Result<(), Error>)
        requires
            old(self).wf(),
        ensures
            r is Ok <==> rotate_accepts(
                views_of(old(self).writer.chunk@),
                old(self).writer.block_count as int,
            ),
            r matches Ok(u) ==> {
                &&& final(self).wf()
                &&& final(self).written() == old(self).written()
                &&& final(self).writer.all_entries() == Seq::<Entry>::empty()
                &&& final(self).writer.chunk@.len() == 0
                &&& final(self).writer.file_pos == 1
                &&& final(self).writer.block_count == 0
                &&& final(self).target_size == old(self).target_size
                &&& final(self).opts == old(self).opts
                &&& final(self).created_items@.len() == old(self).created_items@.len() + (if old(
                    self,
                ).writer.all_entries().len() > 0 {
                    1int
                } else {
                    0int
                })
                &&& final(self).segments@.len() == old(self).segments@.len() + (if old(
                    self,
                ).writer.all_entries().len() > 0 {
                    1int
                } else {
                    0int
                })
                &&& (old(self).writer.all_entries().len() == 0 ==> final(self).runs@ == old(
                    self,
                ).runs@)
            },
            r matches Err(e2) ==> e2 == Error::Serialize,
    {
        let res = self.writer.finish();
        if res.is_err() {
            return res;
        }
        let new_segment_id = generate_segment_id();
        let mut old_writer = Writer::new(self.opts);
        core::mem::swap(&mut self.writer, &mut old_writer);
        let mut old_segment_id = new_segment_id;
        core::mem::swap(&mut self.current_segment_id, &mut old_segment_id);
        let ghost pre = *self;
        if old_writer.block_count > u32::MAX as usize {
            // a segment of more than four billion blocks cannot carry its
            // block count in the metadata record; the segment is abandoned
            return Err(Error::Serialize);
        }
        if old_writer.item_count > 0 {
            let id_copy = old_segment_id.clone();
            let metadata = Metadata::from_writer(old_segment_id, &old_writer);
            self.created_items.push(metadata);
            let seg = SegmentData { id: id_copy, blocks: old_writer.blocks, index: old_writer.index };
            self.segments.push(seg);
            proof {
                self.runs@ = pre.runs@.push(old_writer.all_entries());
                self.seg_chunks@ = pre.seg_chunks@.push(old_writer.chunks@);
                lemma_concat_entries_push(pre.runs@, old_writer.all_entries());
                assert(views_of(old_writer.chunk@) =~= Seq::<Entry>::empty());
                assert(old_writer.all_entries() =~= concat_entries(old_writer.chunks@));
                assert(self.written() =~= old(self).written());
                assert forall|i: int| 0 <= i < self.runs@.len() implies {
                    &&& run_decodes_to(
                        (#[trigger] self.segments@[i]).blocks@,
                        index_views(self.segments@[i].index@),
                        self.seg_chunks@[i],
                    )
                    &&& concat_entries(self.seg_chunks@[i]) == self.runs@[i]
                    &&& self.runs@[i].len() > 0
                    &&& self.created_items@[i].item_count == self.runs@[i].len()
                    &&& self.created_items@[i].wf()
                    &&& self.created_items@[i].id@ == self.segments@[i].id@
                } by {
                    if i < pre.runs@.len() {
                        assert(self.segments@[i] == pre.segments@[i]);
                        assert(self.created_items@[i] == pre.created_items@[i]);
                    }
                }
            }
        } else {
            proof {
                assert(old_writer.all_entries().len() == 0);
                assert(self.written() =~= old(self).written());
            }
        }
        Ok(())
    }

    /// Writes an entry; once the writer's file position has passed the
    /// target size, the current segment is finished and recorded and a
    /// fresh one is started. Success is decided by whether the blocks this
    /// may flush can be stored.
    #[verifier::rlimit(100)]
    #[verifier::spinoff_prover]
    pub fn write(&mut self, item: Value) -> (r: Result<(), Error>)
        requires
            old(self).wf(),
            old(self).writer.has_room(item@),
            old(self).writer.last_key_model() matches Some(k) ==> lex_le(k, item@.key),
        ensures
            r matches Ok(u) ==> final(self).wf(),
            r matches Ok(u) ==> final(self).target_size == old(self).target_size,
            r matches Ok(u) ==> final(self).opts == old(self).opts,
            r matches Err(e3) ==> e3 == Error::Serialize,
            // an evicted tombstone changes no contents, but rotation may
            // still trigger if the file position already passed the target
            (item@.value_type == ValueType::Tombstone && old(self).opts.evict_tombstones) ==> (
            r is Ok <==> (old(self).writer.file_pos >= old(self).target_size ==> rotate_accepts(
                views_of(old(self).writer.chunk@),
                old(self).writer.block_count as int,
            ))),
            (item@.value_type == ValueType::Tombstone && old(self).opts.evict_tombstones
                && r matches Ok(u)) ==> final(self).written() == old(self).written(),
            // anything else that does not fit the length fields is rejected
            (!valid_entry(item@) && !(item@.value_type == ValueType::Tombstone
                && old(self).opts.evict_tombstones)) ==> (r matches Err(e2) && e2
                == Error::Serialize) && *final(self) == *old(self),
            // an accepted entry succeeds exactly when its flush fits and,
            // should the target size be passed, the rotation fits too
            (valid_entry(item@) && !(item@.value_type == ValueType::Tombstone
                && old(self).opts.evict_tombstones)) ==> (r is Ok <==> old(
                self,
            ).writer.write_accepts(item@) && (post_write_file_pos(old(self).writer, item@) >= old(
                self,
            ).target_size ==> rotate_accepts(
                post_write_chunk(old(self).writer, item@),
                post_write_block_count(old(self).writer, item@),
            ))),
            (valid_entry(item@) && !(item@.value_type == ValueType::Tombstone
                && old(self).opts.evict_tombstones) && r matches Ok(u)) ==> {
                &&& final(self).written() == old(self).written().push(item@)
                &&& (post_write_file_pos(old(self).writer, item@) >= old(self).target_size ==> {
                    &&& final(self).writer.all_entries() == Seq::<Entry>::empty()
                    &&& final(self).created_items@.len() == old(self).created_items@.len() + 1
                    &&& final(self).segments@.len() == old(self).segments@.len() + 1
                })
                &&& (post_write_file_pos(old(self).writer, item@) < old(self).target_size ==> {
                    &&& final(self).created_items@.len() == old(self).created_items@.len()
                    &&& final(self).segments@.len() == old(self).segments@.len()
                    &&& final(self).runs@ == old(self).runs@
                })
            },
    {
        let ghost evicted = item@.value_type == ValueType::Tombstone
            && old(self).opts.evict_tombstones;
        let ghost w0 = old(self).writer;
        let res = self.writer.write(item);
        if res.is_err() {
            return res;
        }
        proof {
            if !evicted {
                assert(self.written() =~= old(self).written().push(item@));
                assert(views_of(self.writer.chunk@) == post_write_chunk(w0, item@));
                assert(self.writer.file_pos == post_write_file_pos(w0, item@));
                assert(self.writer.block_count == post_write_block_count(w0, item@));
            } else {
                assert(self.written() =~= old(self).written());
            }
        }
        if self.writer.file_pos >= self.target_size {
            let ghost had = self.writer.all_entries().len() > 0;
            let res2 = self.rotate();
            if res2.is_err() {
                return res2;
            }
            proof {
                if !evicted {
                    assert(old(self).written().push(item@).len() > 0);
                    assert(had);
                }
            }
        }
        Ok(())
    }

    /// Finishes the last segment and hands back the run: the metadata and
    /// images of every segment that holds at least one entry. Together the
    /// segments hold exactly the entries written, in write order; a segment
    /// that stayed empty leaves nothing behind.
    pub fn finish(self) -> (r: Result<(Vec<Metadata>, Vec<SegmentData>), Error>)
        requires
            self.wf(),
        ensures
            r is Ok <==> rotate_accepts(
                views_of(self.writer.chunk@),
                self.writer.block_count as int,
            ),
            r matches Ok(pair) ==> finished_run(pair, self.written()),
            r matches Err(e2) ==> e2 == Error::Serialize,
    {
        let mut this = self;
        let res = this.rotate();
        if let Err(e) = res {
            return Err(e);
        }
        proof {
            assert(this.written() =~= concat_entries(this.runs@)) by {
                assert(this.writer.all_entries().len() == 0);
                assert(this.written() == concat_entries(this.runs@)
                    + this.writer.all_entries());
                assert(this.writer.all_entries() =~= Seq::<Entry>::empty());
            }
        }
        let out = (this.created_items, this.segments);
        proof {
            let rs = this.runs@;
            let cs = this.seg_chunks@;
            assert(segment_run_matches(out.1@, rs, cs));
            assert(concat_entries(rs) == self.written());
            assert(out.0@.len() == out.1@.len());
            assert forall|i: int|
                0 <= i < rs.len() implies (#[trigger] out.0@[i]).item_count == rs[i].len()
                && out.0@[i].wf() by {
                let sd = this.segments@[i];
                assert(this.created_items@[i].item_count == this.runs@[i].len());
            }
            assert(segment_run_matches(out.1@, rs, cs) && concat_entries(rs) == self.written()
                && out.0@.len() == out.1@.len() && (forall|i: int|
                0 <= i < rs.len() ==> (#[trigger] out.0@[i]).item_count == rs[i].len()
                    && out.0@[i].wf()));
            assert(finished_run(out, self.written()));
        }
        Ok(out)
    }
}

/// What a successful [`MultiWriter::finish`] hands back: metadata and
/// images of equally many segments, which together decode to exactly the
/// entries written, each segment nonempty and described by its metadata.
pub open spec fn finished_run(pair: (Vec<Metadata>, Vec<SegmentData>), written: Seq<Entry>) -> bool {
    exists|rs: Seq<Seq<Entry>>, cs: Seq<Seq<Seq<Entry>>>|
        (#[trigger] segment_run_matches(pair.1@, rs, cs)) && concat_entries(rs) == written
            && pair.0@.len() == pair.1@.len() && (forall|i: int|
            0 <= i < rs.len() ==> (#[trigger] pair.0@[i]).item_count == rs[i].len()
                && pair.0@[i].wf())
}

/// The segment images decode, segment by segment, to the given runs of
/// entries (with `cs` their block structure).
pub open spec fn segment_run_matches(
    segs: Seq<SegmentData>,
    rs: Seq<Seq<Entry>>,
    cs: Seq<Seq<Seq<Entry>>>,
) -> bool {
    &&& segs.len() == rs.len()
    &&& rs.len() == cs.len()
    &&& forall|i: int|
        0 <= i < segs.len() ==> {
            &&& run_decodes_to(
                (#[trigger] segs[i]).blocks@,
                index_views(segs[i].index@),
                cs[i],
            )
            &&& concat_entries(cs[i]) == rs[i]
            &&& rs[i].len() > 0
            &&& entries_sorted(rs[i])
        }
}

/// Each flushed block is nonempty, so a segment never holds more blocks
/// than entries.
pub proof fn lemma_chunk_count_le_items(chunks: Seq<Seq<Entry>>)
    requires
        forall|i: int| 0 <= i < chunks.len() ==> (#[trigger] chunks[i]).len() > 0,
    ensures
        concat_entries(chunks).len() >= chunks.len(),
    decreases chunks.len(),
{
    if chunks.len() > 0 {
        assert(chunks[0].len() > 0);
        assert forall|i: int| 0 <= i < chunks.skip(1).len() implies (#[trigger] chunks.skip(1)[
            i
        ]).len() > 0 by {
            assert(chunks.skip(1)[i] == chunks[i + 1]);
        }
        lemma_chunk_count_le_items(chunks.skip(1));
    }
}

/// `total_size` distributes over concatenation.
pub proof fn lemma_total_size_concat(a: Seq<Entry>, b: Seq<Entry>)
    ensures
        total_size(a + b) == total_size(a) + total_size(b),
    decreases a.len(),
{
    if a.len() == 0 {
        assert(a + b =~= b);
    } else {
        assert((a + b)[0] == a[0]);
        assert((a + b).skip(1) =~= a.skip(1) + b);
        lemma_total_size_concat(a.skip(1), b);
    }
}

} // verus!
