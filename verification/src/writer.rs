//! Building a table: pairs are accumulated into data blocks, each block is
//! sealed into the file image once its size estimate reaches the threshold,
//! and finishing appends the index block and the footer.

use crate::codec::{
    block_wf, blocks_wf, flatten_pairs, lemma_encode_blocks_snoc,
    lemma_encode_entries_snoc, lemma_encode_pairs_snoc,
    lemma_est_size_count, lemma_est_size_snoc, lemma_flatten_snoc, pair_wf, pairs_wf, push_bytes,
    push_u32, push_u64, spec_encode_block, spec_encode_blocks, spec_encode_entries,
    spec_encode_entry, spec_encode_footer, spec_encode_index, spec_encode_pair, spec_encode_pairs,
    spec_est_size, spec_index_of, spec_sst_file, table_fits, EntrySeq, PairSeq, SST_MAGIC,
};
use vstd::bytes::{lemma_auto_spec_u32_to_from_le_bytes, spec_u32_to_le_bytes};
use vstd::prelude::*;
use vstd::slice::slice_to_vec;

verus! {

/// A block is sealed once its size estimate reaches this many bytes.
pub const BLOCK_SIZE_THRESHOLD: usize = 4096;

/// An in-memory data block: the pairs appended so far and the running
/// serialized-size estimate that drives the flush decision.
pub struct DataBlock {
    entries: Vec<(Vec<u8>, Vec<u8>)>,
    size: usize,
}

impl View for DataBlock {
    type V = PairSeq;

    closed spec fn view(&self) -> PairSeq {
        self.entries@.map_values(|p: (Vec<u8>, Vec<u8>)| (p.0@, p.1@))
    }
}

impl DataBlock {
    /// The size field tracks the estimate, and every pair fits the format.
    pub closed spec fn wf(&self) -> bool {
        &&& self.size as int == spec_est_size(self@)
        &&& pairs_wf(self@)
        &&& self@.len() <= u32::MAX
    }

    /// The current size estimate.
    pub closed spec fn size_est(&self) -> int {
        self.size as int
    }

    pub fn new() -> (r: DataBlock)
        ensures
            r.wf(),
            r@ == Seq::<(Seq<u8>, Seq<u8>)>::empty(),
            r.size_est() == 0,
    {
        let r = DataBlock { entries: Vec::new(), size: 0 };
        proof {
            assert(r@ =~= Seq::<(Seq<u8>, Seq<u8>)>::empty());
        }
        r
    }

    /// Appends a pair and charges eight bytes of length fields plus the
    /// payload to the size estimate.
    pub fn add(&mut self, key: &[u8], value: &[u8])
        requires
            old(self).wf(),
            old(self)@.len() < u32::MAX,
            key@.len() <= u32::MAX,
            value@.len() <= u32::MAX,
            old(self).size_est() + 8 + key@.len() + value@.len() <= usize::MAX,
        ensures
            final(self).wf(),
            final(self)@ == old(self)@.push((key@, value@)),
            final(self).size_est() == old(self).size_est() + 8 + key@.len() + value@.len(),
    {
        self.size = self.size + 8 + key.len() + value.len();
        self.entries.push((slice_to_vec(key), slice_to_vec(value)));
        proof {
            assert(self@ =~= old(self)@.push((key@, value@)));
            lemma_est_size_snoc(old(self)@, (key@, value@));
        }
    }

    /// The key of the most recently appended pair, if any.
    pub fn last_key(&self) -> (r: Option<&[u8]>)
        ensures
            match r {
                Some(k) => self@.len() > 0 && k@ == self@.last().0,
                None => self@.len() == 0,
            },
    {
        match self.entries.as_slice().last() {
            Some(p) => {
                proof {
                    assert(self@[self@.len() - 1] == (self.entries@.last().0@,
                    self.entries@.last().1@));
                }
                Some(p.0.as_slice())
            },
            None => None,
        }
    }

    /// Serializes the block: entry count, then each pair with its length
    /// fields, all little-endian.
    pub fn to_bytes(&self) -> (r: Vec<u8>)
        requires
            self.wf(),
        ensures
            r@ == spec_encode_block(self@),
    {
        let mut out: Vec<u8> = Vec::new();
        let n: usize = self.entries.len();
        push_u32(&mut out, n as u32);
        proof {
            assert(out@ =~= spec_u32_to_le_bytes(n as u32) + spec_encode_pairs(
                self@.take(0),
            ));
        }
        let mut i: usize = 0;
        while i < n
            invariant
                self.wf(),
                n == self.entries@.len(),
                0 <= i <= n,
                out@ == spec_u32_to_le_bytes(n as u32) + spec_encode_pairs(self@.take(i as int)),
            decreases n - i,
        {
            let p = &self.entries[i];
            proof {
                assert(self@[i as int] == (p.0@, p.1@));
                assert(pair_wf(self@[i as int]));
            }
            push_u32(&mut out, p.0.len() as u32);
            push_bytes(&mut out, p.0.as_slice());
            push_u32(&mut out, p.1.len() as u32);
            push_bytes(&mut out, p.1.as_slice());
            proof {
                assert(self@.take(i + 1) =~= self@.take(i as int).push(self@[i as int]));
                lemma_encode_pairs_snoc(self@.take(i as int), self@[i as int]);
                assert(out@ =~= spec_u32_to_le_bytes(n as u32) + spec_encode_pairs(
                    self@.take(i + 1),
                ));
            }
            i = i + 1;
        }
        proof {
            assert(self@.take(n as int) =~= self@);
        }
        out
    }
}

/// One index record: the last key of a sealed block and the byte range the
/// block occupies in the file image.
pub struct IndexEntry {
    pub last_key: Vec<u8>,
    pub block_offset: u64,
    pub block_size: u64,
}

impl View for IndexEntry {
    type V = (Seq<u8>, u64, u64);

    open spec fn view(&self) -> (Seq<u8>, u64, u64) {
        (self.last_key@, self.block_offset, self.block_size)
    }
}

impl IndexEntry {
    /// Serializes the record: key length, key, offset, size, little-endian.
    pub fn to_bytes(&self) -> (r: Vec<u8>)
        requires
            self.last_key@.len() <= u32::MAX,
        ensures
            r@ == spec_encode_entry(self@),
    {
        let mut out: Vec<u8> = Vec::new();
        push_u32(&mut out, self.last_key.len() as u32);
        push_bytes(&mut out, self.last_key.as_slice());
        push_u64(&mut out, self.block_offset);
        push_u64(&mut out, self.block_size);
        proof {
            assert(out@ =~= spec_encode_entry(self@));
        }
        out
    }
}

/// Builds a table file image. Pairs must be added in non-decreasing key
/// order for lookups on the finished table to be answered correctly; the
/// writer itself does not check the order (the caller's contract).
pub struct SstWriter {
    file: Vec<u8>,
    current_block: DataBlock,
    index: Vec<IndexEntry>,
    offset: u64,
    block_size_threshold: usize,
    flushed: Ghost<Seq<PairSeq>>,
}

/// The abstract index entries a vector of records stands for.
pub open spec fn index_view(v: Seq<IndexEntry>) -> EntrySeq {
    Seq::new(v.len(), |i: int| v[i]@)
}

impl SstWriter {
    /// The pair sequences of the blocks sealed so far, in file order.
    pub closed spec fn blocks(&self) -> Seq<PairSeq> {
        self.flushed@
    }

    /// The pairs of the still-open block.
    pub closed spec fn pending(&self) -> PairSeq {
        self.current_block@
    }

    /// Every pair added so far, in order.
    pub open spec fn contents(&self) -> PairSeq {
        flatten_pairs(self.blocks()) + self.pending()
    }

    /// The blocks the finished file will hold: the sealed ones, plus the
    /// open one if it is non-empty.
    pub open spec fn table_blocks(&self) -> Seq<PairSeq> {
        if self.pending().len() == 0 {
            self.blocks()
        } else {
            self.blocks().push(self.pending())
        }
    }

    /// The writer's bookkeeping invariant, short of the threshold bound on
    /// the open block: the file image holds exactly the sealed blocks, the
    /// offset mirrors its length, and the index records describe the blocks.
    spec fn inv(&self) -> bool {
        &&& self.current_block.wf()
        &&& self.block_size_threshold == BLOCK_SIZE_THRESHOLD
        &&& self.file@ == spec_encode_blocks(self.flushed@)
        &&& self.offset as int == self.file@.len()
        &&& index_view(self.index@) == spec_index_of(self.flushed@)
        &&& self.flushed@.len() <= u32::MAX
        &&& forall|i: int| 0 <= i < self.flushed@.len() ==> block_wf(#[trigger] self.flushed@[i])
    }

    pub closed spec fn wf(&self) -> bool {
        &&& self.inv()
        &&& spec_est_size(self.current_block@) < BLOCK_SIZE_THRESHOLD as int
    }

    /// A fresh writer with an empty file image.
    pub fn new() -> (r: SstWriter)
        ensures
            r.wf(),
            r.blocks() == Seq::<PairSeq>::empty(),
            r.pending() == Seq::<(Seq<u8>, Seq<u8>)>::empty(),
            r.contents() == Seq::<(Seq<u8>, Seq<u8>)>::empty(),
    {
        let r = SstWriter {
            file: Vec::new(),
            current_block: DataBlock::new(),
            index: Vec::new(),
            offset: 0,
            block_size_threshold: BLOCK_SIZE_THRESHOLD,
            flushed: Ghost(Seq::empty()),
        };
        proof {
            assert(index_view(r.index@) =~= spec_index_of(r.flushed@));
            assert(r.contents() =~= Seq::<(Seq<u8>, Seq<u8>)>::empty());
        }
        r
    }

    /// Seals the open block: serializes it, appends it to the file image and
    /// records its index entry. A no-op on an empty block.
    fn flush_block(&mut self)
        requires
            old(self).inv(),
            old(self).blocks().len() + 1 <= u32::MAX,
        ensures
            final(self).wf(),
            final(self).pending().len() == 0,
            final(self).blocks() == old(self).table_blocks(),
            final(self).contents() == old(self).contents(),
            final(self).table_blocks() == old(self).table_blocks(),
    {
        proof {
            lemma_flatten_snoc(old(self).blocks(), old(self).pending());
        }
        if self.current_block.entries.len() == 0 {
            proof {
                assert(self.pending() =~= Seq::<(Seq<u8>, Seq<u8>)>::empty());
                assert(self.contents() =~= old(self).contents());
            }
            return ;
        }
        let ghost prev_blocks = self.flushed@;
        let ghost sealed = self.current_block@;
        let last_key: Vec<u8> = match self.current_block.last_key() {
            Some(k) => slice_to_vec(k),
            None => {
                proof {
                    assert(false);
                }
                Vec::new()
            },
        };
        let mut block_bytes = self.current_block.to_bytes();
        let block_size: u64 = block_bytes.len() as u64;
        let block_offset: u64 = self.offset;
        self.file.append(&mut block_bytes);
        let entry = IndexEntry { last_key, block_offset, block_size };
        let ghost ev = entry@;
        self.index.push(entry);
        self.offset = self.file.len() as u64;
        self.current_block = DataBlock::new();
        self.flushed = Ghost(prev_blocks.push(sealed));
        proof {
            lemma_encode_blocks_snoc(prev_blocks, sealed);
            let nb = prev_blocks.push(sealed);
            let new_index = index_view(self.index@);
            assert(self.index@ == old(self).index@.push(entry));
            assert(index_view(old(self).index@).len() == old(self).index@.len());
            assert(spec_index_of(prev_blocks).len() == prev_blocks.len());
            assert(new_index.len() == nb.len());
            assert(ev == (sealed.last().0, block_offset, block_size));
            assert(nb.take(prev_blocks.len() as int) =~= prev_blocks);
            assert(spec_encode_blocks(prev_blocks).len() as u64 == old(self).offset);
            assert forall|i: int| 0 <= i < new_index.len() implies new_index[i] == spec_index_of(
                nb,
            )[i] by {
                if i < prev_blocks.len() {
                    assert(self.index@[i] == old(self).index@[i]);
                    assert(index_view(old(self).index@)[i] == spec_index_of(prev_blocks)[i]);
                    assert(nb.take(i) =~= prev_blocks.take(i));
                    assert(nb[i] == prev_blocks[i]);
                } else {
                    assert(i == nb.len() - 1);
                    assert(nb[i] == sealed);
                    assert(self.index@[i] == entry);
                    assert(new_index[i] == ev);
                }
            }
            assert(new_index =~= spec_index_of(nb));
            assert(self.contents() =~= flatten_pairs(nb));
        }
    }

    /// Appends a pair to the open block, sealing the block first into the
    /// file image when the size estimate reaches the threshold.
    pub fn add(&mut self, key: &[u8], value: &[u8])
        requires
            old(self).wf(),
            key@.len() <= u32::MAX,
            value@.len() <= u32::MAX,
            key@.len() + value@.len() + 4104 <= usize::MAX,
            old(self).blocks().len() + 1 <= u32::MAX,
        ensures
            final(self).wf(),
            final(self).contents() == old(self).contents().push((key@, value@)),
            ({
                let np = old(self).pending().push((key@, value@));
                if spec_est_size(np) >= BLOCK_SIZE_THRESHOLD as int {
                    final(self).blocks() == old(self).blocks().push(np) && final(self).pending()
                        == Seq::<(Seq<u8>, Seq<u8>)>::empty()
                } else {
                    final(self).blocks() == old(self).blocks() && final(self).pending() == np
                }
            }),
    {
        proof {
            lemma_est_size_count(self.current_block@);
        }
        self.current_block.add(key, value);
        proof {
            assert((flatten_pairs(old(self).blocks()) + old(self).pending()).push((key@, value@))
                =~= flatten_pairs(old(self).blocks()) + old(self).pending().push((key@, value@)));
        }
        if self.current_block.size >= self.block_size_threshold {
            self.flush_block();
            proof {
                assert(self.pending() =~= Seq::<(Seq<u8>, Seq<u8>)>::empty());
            }
        }
    }

    /// Finalizes the table: seals the open block, appends the index block
    /// and the footer, and hands back the complete file image.
    pub fn finish(self) -> (r: Vec<u8>)
        requires
            self.wf(),
            self.blocks().len() + 1 <= u32::MAX,
        ensures
            r@ == spec_sst_file(self.table_blocks()),
            blocks_wf(self.table_blocks()),
            table_fits(self.table_blocks()),
            flatten_pairs(self.table_blocks()) == self.contents(),
    {
        let mut w = self;
        w.flush_block();
        let ghost tb = w.flushed@;
        let ghost es = spec_index_of(tb);
        proof {
            assert(index_view(w.index@).len() == es.len());
            lemma_flatten_snoc(self.blocks(), self.pending());
            assert(self.pending().len() == 0 ==> flatten_pairs(self.table_blocks())
                =~= self.contents());
        }
        let count: usize = w.index.len();
        let mut index_bytes: Vec<u8> = Vec::new();
        push_u32(&mut index_bytes, count as u32);
        proof {
            assert(index_bytes@ =~= spec_u32_to_le_bytes(count as u32) + spec_encode_entries(
                es.take(0),
            ));
        }
        let mut i: usize = 0;
        while i < count
            invariant
                w.wf(),
                tb == w.flushed@,
                es == spec_index_of(tb),
                count == w.index@.len(),
                count == es.len(),
                index_view(w.index@) == es,
                0 <= i <= count,
                index_bytes@ == spec_u32_to_le_bytes(count as u32) + spec_encode_entries(
                    es.take(i as int),
                ),
            decreases count - i,
        {
            let e = &w.index[i];
            proof {
                assert(es[i as int] == e@);
                assert(block_wf(tb[i as int]));
                assert(tb[i as int].last() == tb[i as int][tb[i as int].len() - 1]);
                assert(pair_wf(tb[i as int][tb[i as int].len() - 1]));
            }
            let mut eb = e.to_bytes();
            index_bytes.append(&mut eb);
            proof {
                assert(es.take(i + 1) =~= es.take(i as int).push(es[i as int]));
                lemma_encode_entries_snoc(es.take(i as int), es[i as int]);
                assert(index_bytes@ =~= spec_u32_to_le_bytes(count as u32) + spec_encode_entries(
                    es.take(i + 1),
                ));
            }
            i = i + 1;
        }
        proof {
            assert(es.take(count as int) =~= es);
            assert(index_bytes@ == spec_encode_index(es));
        }
        let index_offset: u64 = w.offset;
        let index_size: u64 = index_bytes.len() as u64;
        let ghost data = spec_encode_blocks(tb);
        let ghost idx = spec_encode_index(es);
        w.file.append(&mut index_bytes);
        push_u64(&mut w.file, index_offset);
        push_u64(&mut w.file, index_size);
        push_u64(&mut w.file, SST_MAGIC);
        let _total: usize = w.file.len();
        proof {
            lemma_auto_spec_u32_to_from_le_bytes();
            vstd::bytes::lemma_auto_spec_u64_to_from_le_bytes();
            assert(_total as int == data.len() + idx.len() + 24);
            assert(w.file@ =~= data + idx + spec_encode_footer(
                data.len() as u64,
                idx.len() as u64,
            ));
        }
        w.file
    }
}

} // verus!
