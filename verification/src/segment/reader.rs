//! A reader over a segment's in-memory images: walks the block index,
//! decompresses each block and parses its entries back, in write order.

use vstd::prelude::*;

use crate::error::Error;
use crate::segment::block::{is_block_bytes, block_bytes, parse_block, read_bytes, views_of, FORMAT_VERSION};
use crate::segment::writer::{
    concat_entries, index_views, lemma_concat_entries_push, lz4_decompress, lz4_of,
    run_decodes_to, IndexEntry, Writer,
};
use crate::value::{Entry, Value};

verus! {

/// `map_values` distributes over concatenation of entry vectors.
proof fn lemma_views_concat(a: Seq<Value>, b: Seq<Value>)
    ensures
        views_of(a + b) == views_of(a) + views_of(b),
{
    assert(views_of(a + b) =~= views_of(a) + views_of(b));
}

/// Reads a whole segment back from its blocks image and block index.
/// Whenever the images decode to some run of chunks — as the images a
/// successful writer leaves behind do — the reader succeeds and returns
/// exactly those entries, in order; corrupt images are reported as
/// `Decompress` or `Deserialize` errors.
pub fn read_segment(blocks: &Vec<u8>, index: &Vec<IndexEntry>) -> (r: Result<Vec<Value>, Error>)
    ensures
        forall|chunks: Seq<Seq<Entry>>|
            #[trigger] run_decodes_to(blocks@, index_views(index@), chunks) ==> (r matches Ok(vs)
                && views_of(vs@) == concat_entries(chunks)),
{
    let total = blocks.len();
    if total < 1 {
        return Err(Error::Deserialize);
    }
    if blocks[0] != FORMAT_VERSION {
        return Err(Error::Deserialize);
    }
    let n = index.len();
    let mut out: Vec<Value> = Vec::new();
    let mut i: usize = 0;
    proof {
        assert forall|chunks: Seq<Seq<Entry>>|
            #[trigger] run_decodes_to(blocks@, index_views(index@), chunks) implies views_of(out@)
            == concat_entries(chunks.take(0)) && n == chunks.len() by {
            assert(chunks.take(0) =~= Seq::<Seq<Entry>>::empty());
            assert(views_of(out@) =~= Seq::<Entry>::empty());
            assert(index_views(index@).len() == index@.len());
        }
    }
    while i < n
        invariant
            total == blocks@.len(),
            n == index@.len(),
            0 <= i <= n,
            forall|chunks: Seq<Seq<Entry>>|
                #[trigger] run_decodes_to(blocks@, index_views(index@), chunks) ==> n
                    == chunks.len() && views_of(out@) == concat_entries(chunks.take(i as int)),
        decreases n - i,
    {
        let e = &index[i];
        let ghost iv = index_views(index@);
        proof {
            assert(iv[i as int] == index@[i as int]@);
        }
        if e.offset > total as u64 || e.size as u64 > total as u64 - e.offset {
            proof {
                assert forall|chunks: Seq<Seq<Entry>>|
                    !run_decodes_to(blocks@, index_views(index@), chunks) by {
                    if run_decodes_to(blocks@, index_views(index@), chunks) {
                        assert(iv[i as int].1 + iv[i as int].2 <= blocks@.len());
                    }
                }
            }
            return Err(Error::Deserialize);
        }
        let slice = read_bytes(blocks, e.offset as usize, e.size as usize);
        let dec = lz4_decompress(&slice);
        let bytes = match dec {
            Ok(bytes) => bytes,
            Err(_) => {
                proof {
                    assert forall|chunks: Seq<Seq<Entry>>|
                        !run_decodes_to(blocks@, index_views(index@), chunks) by {
                        if run_decodes_to(blocks@, index_views(index@), chunks) {
                            assert(iv[i as int].1 + iv[i as int].2 <= blocks@.len());
                            assert(slice@ == lz4_of(block_bytes(chunks[i as int])));
                        }
                    }
                }
                return Err(Error::Decompress);
            },
        };
        let parsed = parse_block(&bytes);
        let mut vs = match parsed {
            Some(vs) => vs,
            None => {
                proof {
                    assert forall|chunks: Seq<Seq<Entry>>|
                        !run_decodes_to(blocks@, index_views(index@), chunks) by {
                        if run_decodes_to(blocks@, index_views(index@), chunks) {
                            assert(iv[i as int].1 + iv[i as int].2 <= blocks@.len());
                            assert(slice@ == lz4_of(block_bytes(chunks[i as int])));
                            assert(bytes@ == block_bytes(chunks[i as int]));
                            assert(is_block_bytes(bytes@, chunks[i as int]));
                        }
                    }
                }
                return Err(Error::Deserialize);
            },
        };
        let ghost out0 = out@;
        let ghost vs0 = vs@;
        out.append(&mut vs);
        proof {
            assert(out@ == out0 + vs0);
            assert forall|chunks: Seq<Seq<Entry>>|
                #[trigger] run_decodes_to(blocks@, index_views(index@), chunks) implies views_of(
                out@,
            ) == concat_entries(chunks.take(i + 1)) by {
                assert(iv[i as int].1 + iv[i as int].2 <= blocks@.len());
                assert(slice@ == lz4_of(block_bytes(chunks[i as int])));
                assert(bytes@ == block_bytes(chunks[i as int]));
                assert(is_block_bytes(bytes@, chunks[i as int]));
                assert(views_of(vs0) == chunks[i as int]);
                lemma_views_concat(out0, vs0);
                assert(chunks.take(i + 1) =~= chunks.take(i as int).push(chunks[i as int]));
                lemma_concat_entries_push(chunks.take(i as int), chunks[i as int]);
            }
        }
        i = i + 1;
    }
    proof {
        assert forall|chunks: Seq<Seq<Entry>>|
            #[trigger] run_decodes_to(blocks@, index_views(index@), chunks) implies views_of(out@)
            == concat_entries(chunks) by {
            assert(chunks.take(n as int) =~= chunks);
        }
    }
    Ok(out)
}

/// Segment round trip: reading back the images a finished writer produced
/// yields exactly the entries that were written, in write order. The reader
/// hypothesis is `read_segment`'s postcondition on the writer's images.
pub proof fn lemma_segment_round_trip(w: Writer, res: Result<Vec<Value>, Error>)
    requires
        w.wf(),
        w.chunk@.len() == 0,
        forall|chunks: Seq<Seq<Entry>>|
            #[trigger] run_decodes_to(w.blocks@, index_views(w.index@), chunks) ==> (res matches Ok(
                vs,
            ) && views_of(vs@) == concat_entries(chunks)),
    ensures
        res matches Ok(vs) && views_of(vs@) == w.all_entries(),
{
    assert(run_decodes_to(w.blocks@, index_views(w.index@), w.chunks@));
    assert(views_of(w.chunk@) =~= Seq::<Entry>::empty());
    assert(w.all_entries() =~= concat_entries(w.chunks@));
}

} // verus!
