//! Segment metadata: the record describing one finished segment, built from
//! a finished writer's counters.

use vstd::prelude::*;

use crate::id::now_micros;
use crate::segment::writer::{max_seqno, min_seqno, tombstones_in, Writer};
use crate::value::{bytes_le, copy_bytes, lex_le};

verus! {

/// The metadata record of one segment, stored beside its data as JSON.
#[derive(Debug)]
pub struct Metadata {
    /// Segment id (a directory name under the tree's folder).
    pub id: String,
    /// Creation time as microseconds since the epoch.
    pub created_at: u128,
    /// Number of entries, tombstones included.
    pub item_count: u64,
    /// Uncompressed block size the segment was written with.
    pub block_size: u32,
    /// Number of written blocks.
    pub block_count: u32,
    /// Whether the blocks are LZ4-compressed; always true.
    pub is_compressed: bool,
    /// Compressed size of the blocks file in bytes.
    pub file_size: u64,
    /// Serialized size of the entries had no compression been used.
    pub uncompressed_size: u64,
    /// Smallest and largest user key.
    pub key_range: (Vec<u8>, Vec<u8>),
    /// Smallest and largest sequence number.
    pub seqnos: (u64, u64),
    /// Number of tombstones.
    pub tombstone_count: u64,
}

impl Metadata {
    /// The record describes a possible segment.
    pub open spec fn wf(self) -> bool {
        &&& self.seqnos.0 <= self.seqnos.1
        &&& lex_le(self.key_range.0@, self.key_range.1@)
        &&& self.item_count >= self.tombstone_count
        &&& self.is_compressed
    }

    /// Builds the metadata of the segment a finished writer produced.
    pub fn from_writer(id: String, writer: &Writer) -> (r: Metadata)
        requires
            writer.wf(),
            writer.chunk@.len() == 0,
            writer.item_count > 0,
            writer.block_count <= u32::MAX,
        ensures
            r.wf(),
            r.id@ == id@,
            r.item_count == writer.item_count,
            r.block_size == writer.opts.block_size,
            r.block_count == writer.block_count,
            r.file_size == writer.file_pos,
            r.uncompressed_size == writer.uncompressed_size,
            Some(r.key_range.0@) == writer.first_key_model(),
            Some(r.key_range.1@) == writer.last_key_model(),
            r.seqnos.0 == writer.lowest_seqno,
            r.seqnos.1 == writer.highest_seqno,
            r.tombstone_count == writer.tombstone_count,
    {
        proof {
            let all = writer.all_entries();
            assert(all.len() == writer.item_count) by {
                assert(crate::segment::block::views_of(writer.chunk@) =~= Seq::<
                    crate::value::Entry,
                >::empty());
                assert(all =~= crate::segment::writer::concat_entries(writer.chunks@));
            }
            assert(all.len() > 0);
            lemma_min_le_max(all);
            crate::segment::writer::lemma_tombstones_le(all);
        }
        let first = match &writer.first_key {
            Some(k) => copy_bytes(k),
            None => Vec::new(),
        };
        let last = match &writer.last_key {
            Some(k) => copy_bytes(k),
            None => Vec::new(),
        };
        let t = now_micros();
        let created_at: u128 = if t < 0 {
            0
        } else {
            t as u128
        };
        Metadata {
            id,
            created_at,
            item_count: writer.item_count as u64,
            block_size: writer.opts.block_size,
            block_count: writer.block_count as u32,
            is_compressed: true,
            file_size: writer.file_pos,
            uncompressed_size: writer.uncompressed_size,
            key_range: (first, last),
            seqnos: (writer.lowest_seqno, writer.highest_seqno),
            tombstone_count: writer.tombstone_count as u64,
        }
    }

    /// Whether `key` lies inside the segment's key range.
    pub fn key_range_contains(&self, key: &Vec<u8>) -> (r: bool)
        ensures
            r == (lex_le(self.key_range.0@, key@) && lex_le(key@, self.key_range.1@)),
    {
        let ge_min = bytes_le(&self.key_range.0, key);
        if !ge_min {
            return false;
        }
        bytes_le(key, &self.key_range.1)
    }
}

/// In a nonempty run the smallest seqno does not exceed the largest.
pub proof fn lemma_min_le_max(s: Seq<crate::value::Entry>)
    requires
        s.len() > 0,
    ensures
        min_seqno(s) <= s[0].seqno,
        s[0].seqno <= max_seqno(s),
        min_seqno(s) <= max_seqno(s),
{
}

} // verus!
