//! The on-disk format: block, index and footer layouts as mathematical
//! functions on byte sequences, together with the round-trip lemmas that
//! relate encoding and decoding.
//!
//! All integers are little-endian. A data block is a `u32` entry count
//! followed by `(key_len: u32, key, value_len: u32, value)` records. The
//! index block is a `u32` entry count followed by
//! `(last_key_len: u32, last_key, block_offset: u64, block_size: u64)`
//! records. The footer is the fixed 24-byte trailer
//! `(index_offset: u64, index_size: u64, magic: u64)`.

use crate::order::lex_le;
use vstd::bytes::{
    lemma_auto_spec_u32_to_from_le_bytes, lemma_auto_spec_u64_to_from_le_bytes,
    spec_u32_from_le_bytes, spec_u32_to_le_bytes, spec_u64_from_le_bytes, spec_u64_to_le_bytes,
    u32_from_le_bytes, u32_to_le_bytes, u64_from_le_bytes, u64_to_le_bytes,
};
use vstd::prelude::*;
use vstd::slice::slice_subrange;

verus! {

/// Format-identity guard in the footer: a file whose trailer does not end in
/// this constant is not a table.
pub const SST_MAGIC: u64 = 0xDEADBEEFCAFEBABE;

/// A sequence of key-value pairs, the abstract contents of a data block.
pub type PairSeq = Seq<(Seq<u8>, Seq<u8>)>;

/// Abstract index entries: (last key of the block, byte offset, byte size).
pub type EntrySeq = Seq<(Seq<u8>, u64, u64)>;

/// A pair whose key and value lengths fit the format's `u32` length fields.
pub open spec fn pair_wf(p: (Seq<u8>, Seq<u8>)) -> bool {
    p.0.len() <= u32::MAX && p.1.len() <= u32::MAX
}

pub open spec fn pairs_wf(ps: PairSeq) -> bool {
    forall|i: int| 0 <= i < ps.len() ==> pair_wf(#[trigger] ps[i])
}

/// The bytes of one key-value record.
pub open spec fn spec_encode_pair(p: (Seq<u8>, Seq<u8>)) -> Seq<u8> {
    spec_u32_to_le_bytes(p.0.len() as u32) + p.0 + spec_u32_to_le_bytes(p.1.len() as u32) + p.1
}

/// The concatenated records of a block body.
pub open spec fn spec_encode_pairs(ps: PairSeq) -> Seq<u8>
    decreases ps.len(),
{
    if ps.len() == 0 {
        Seq::empty()
    } else {
        spec_encode_pair(ps[0]) + spec_encode_pairs(ps.skip(1))
    }
}

/// A whole data block: entry count, then the records.
pub open spec fn spec_encode_block(ps: PairSeq) -> Seq<u8> {
    spec_u32_to_le_bytes(ps.len() as u32) + spec_encode_pairs(ps)
}

/// The serialized-size estimate that drives the flush threshold: eight bytes
/// of length fields plus the payload, per pair.
pub open spec fn spec_est_size(ps: PairSeq) -> int
    decreases ps.len(),
{
    if ps.len() == 0 {
        0
    } else {
        8 + ps[0].0.len() + ps[0].1.len() + spec_est_size(ps.skip(1))
    }
}

/// The bytes of one index record.
pub open spec fn spec_encode_entry(e: (Seq<u8>, u64, u64)) -> Seq<u8> {
    spec_u32_to_le_bytes(e.0.len() as u32) + e.0 + spec_u64_to_le_bytes(e.1)
        + spec_u64_to_le_bytes(e.2)
}

pub open spec fn spec_encode_entries(es: EntrySeq) -> Seq<u8>
    decreases es.len(),
{
    if es.len() == 0 {
        Seq::empty()
    } else {
        spec_encode_entry(es[0]) + spec_encode_entries(es.skip(1))
    }
}

/// The whole index block: entry count, then the records.
pub open spec fn spec_encode_index(es: EntrySeq) -> Seq<u8> {
    spec_u32_to_le_bytes(es.len() as u32) + spec_encode_entries(es)
}

pub open spec fn entry_wf(e: (Seq<u8>, u64, u64)) -> bool {
    e.0.len() <= u32::MAX
}

pub open spec fn entries_wf(es: EntrySeq) -> bool {
    forall|i: int| 0 <= i < es.len() ==> entry_wf(#[trigger] es[i])
}

/// The fixed footer.
pub open spec fn spec_encode_footer(index_offset: u64, index_size: u64) -> Seq<u8> {
    spec_u64_to_le_bytes(index_offset) + spec_u64_to_le_bytes(index_size) + spec_u64_to_le_bytes(
        SST_MAGIC,
    )
}

/// Parsing `n` index records from `b`; `None` means malformed or truncated
/// input. Bytes after the `n`-th record are ignored.
pub open spec fn spec_parse_entries(b: Seq<u8>, n: nat) -> Option<EntrySeq>
    decreases n,
{
    if n == 0 {
        Some(Seq::empty())
    } else if b.len() < 4 {
        None
    } else {
        let klen = spec_u32_from_le_bytes(b.take(4)) as int;
        if b.len() < 4 + klen + 16 {
            None
        } else {
            let k = b.subrange(4, 4 + klen);
            let off = spec_u64_from_le_bytes(b.subrange(4 + klen, 4 + klen + 8));
            let sz = spec_u64_from_le_bytes(b.subrange(4 + klen + 8, 4 + klen + 16));
            match spec_parse_entries(b.skip(4 + klen + 16), (n - 1) as nat) {
                Some(rest) => Some(seq![(k, off, sz)] + rest),
                None => None,
            }
        }
    }
}

/// Parsing a whole index block.
pub open spec fn spec_parse_index(b: Seq<u8>) -> Option<EntrySeq> {
    if b.len() < 4 {
        None
    } else {
        spec_parse_entries(b.skip(4), spec_u32_from_le_bytes(b.take(4)) as nat)
    }
}

/// Scanning a block body of `n` records for `key`. The outer `None` means
/// malformed bytes; `Some(None)` means the key is absent; the scan stops at
/// the first record whose key matches, as the reader's linear scan does.
pub open spec fn spec_scan_pairs(b: Seq<u8>, n: nat, key: Seq<u8>) -> Option<Option<Seq<u8>>>
    decreases n,
{
    if n == 0 {
        Some(None)
    } else if b.len() < 4 {
        None
    } else {
        let klen = spec_u32_from_le_bytes(b.take(4)) as int;
        if b.len() < 4 + klen {
            None
        } else {
            let k = b.subrange(4, 4 + klen);
            let b1 = b.skip(4 + klen);
            if b1.len() < 4 {
                None
            } else {
                let vlen = spec_u32_from_le_bytes(b1.take(4)) as int;
                if b1.len() < 4 + vlen {
                    None
                } else if k == key {
                    Some(Some(b1.subrange(4, 4 + vlen)))
                } else {
                    spec_scan_pairs(b1.skip(4 + vlen), (n - 1) as nat, key)
                }
            }
        }
    }
}

/// Scanning a whole data block for `key`.
pub open spec fn spec_search_block(b: Seq<u8>, key: Seq<u8>) -> Option<Option<Seq<u8>>> {
    if b.len() < 4 {
        None
    } else {
        spec_scan_pairs(b.skip(4), spec_u32_from_le_bytes(b.take(4)) as nat, key)
    }
}

/// Decoding the footer from the last 24 bytes of a file image: the index
/// block's offset and size, provided the magic number matches.
pub open spec fn spec_parse_footer(file: Seq<u8>) -> Option<(u64, u64)> {
    if file.len() < 24 {
        None
    } else {
        let f = file.skip(file.len() - 24);
        if spec_u64_from_le_bytes(f.subrange(16, 24)) != SST_MAGIC {
            None
        } else {
            Some(
                (
                    spec_u64_from_le_bytes(f.subrange(0, 8)),
                    spec_u64_from_le_bytes(f.subrange(8, 16)),
                ),
            )
        }
    }
}

/// What opening a file image yields: the decoded index entries, or `None` if
/// the footer or the index block is unusable.
pub open spec fn spec_open_index(file: Seq<u8>) -> Option<EntrySeq> {
    match spec_parse_footer(file) {
        None => None,
        Some((off, sz)) => {
            if off as int + sz as int > file.len() {
                None
            } else {
                spec_parse_index(file.subrange(off as int, off as int + sz as int))
            }
        },
    }
}

/// The reader's lookup walk: take the first index entry whose last key is at
/// or above `key`, slice that block out of the file image and scan it. The
/// outer `None` means a malformed file; `Some(None)` means not found.
pub open spec fn spec_get(file: Seq<u8>, index: EntrySeq, key: Seq<u8>) -> Option<
    Option<Seq<u8>>,
>
    decreases index.len(),
{
    if index.len() == 0 {
        Some(None)
    } else if lex_le(key, index[0].0) {
        let off = index[0].1 as int;
        let sz = index[0].2 as int;
        if off + sz > file.len() {
            None
        } else {
            spec_search_block(file.subrange(off, off + sz), key)
        }
    } else {
        spec_get(file, index.skip(1), key)
    }
}

/// First-match lookup in a flat pair sequence.
pub open spec fn pairs_lookup(ps: PairSeq, key: Seq<u8>) -> Option<Seq<u8>>
    decreases ps.len(),
{
    if ps.len() == 0 {
        None
    } else if ps[0].0 == key {
        Some(ps[0].1)
    } else {
        pairs_lookup(ps.skip(1), key)
    }
}

/// All pairs of a block sequence, in file order.
pub open spec fn flatten_pairs(bs: Seq<PairSeq>) -> PairSeq
    decreases bs.len(),
{
    if bs.len() == 0 {
        Seq::empty()
    } else {
        bs[0] + flatten_pairs(bs.skip(1))
    }
}

/// Keys non-decreasing in lexicographic byte order.
pub open spec fn sorted_pairs(ps: PairSeq) -> bool {
    forall|i: int, j: int| 0 <= i < j < ps.len() ==> lex_le(#[trigger] ps[i].0, #[trigger] ps[j].0)
}

/// The concatenated data blocks, as written to the front of the file.
pub open spec fn spec_encode_blocks(bs: Seq<PairSeq>) -> Seq<u8>
    decreases bs.len(),
{
    if bs.len() == 0 {
        Seq::empty()
    } else {
        spec_encode_block(bs[0]) + spec_encode_blocks(bs.skip(1))
    }
}

/// A flushed block: non-empty, with counts and lengths that fit the format.
pub open spec fn block_wf(ps: PairSeq) -> bool {
    ps.len() > 0 && ps.len() <= u32::MAX && pairs_wf(ps)
}

pub open spec fn blocks_wf(bs: Seq<PairSeq>) -> bool {
    bs.len() <= u32::MAX && forall|i: int| 0 <= i < bs.len() ==> block_wf(#[trigger] bs[i])
}

/// The index entry of each block: its last key and the byte range the block
/// occupies in the file.
pub open spec fn spec_index_of(bs: Seq<PairSeq>) -> EntrySeq {
    Seq::new(
        bs.len(),
        |i: int|
            (
                bs[i].last().0,
                spec_encode_blocks(bs.take(i)).len() as u64,
                spec_encode_block(bs[i]).len() as u64,
            ),
    )
}

/// The complete file image a writer produces for the given blocks: the data
/// blocks, then the index block, then the footer.
pub open spec fn spec_sst_file(bs: Seq<PairSeq>) -> Seq<u8> {
    let data = spec_encode_blocks(bs);
    let idx = spec_encode_index(spec_index_of(bs));
    data + idx + spec_encode_footer(data.len() as u64, idx.len() as u64)
}

/// The file stays addressable by the footer's `u64` offsets.
pub open spec fn table_fits(bs: Seq<PairSeq>) -> bool {
    spec_encode_blocks(bs).len() + spec_encode_index(spec_index_of(bs)).len() + 24 <= u64::MAX
}

/// Every pair charges at least its eight bytes of length fields.
pub proof fn lemma_est_size_count(ps: PairSeq)
    ensures
        spec_est_size(ps) >= 8 * ps.len(),
    decreases ps.len(),
{
    if ps.len() > 0 {
        lemma_est_size_count(ps.skip(1));
    }
}

pub proof fn lemma_est_size_snoc(ps: PairSeq, p: (Seq<u8>, Seq<u8>))
    ensures
        spec_est_size(ps.push(p)) == spec_est_size(ps) + 8 + p.0.len() + p.1.len(),
    decreases ps.len(),
{
    if ps.len() == 0 {
        assert(ps.push(p)[0] == p);
        assert(ps.push(p).skip(1) =~= ps);
        assert(spec_est_size(ps) == 0);
    } else {
        assert(ps.push(p)[0] == ps[0]);
        assert(ps.push(p).skip(1) =~= ps.skip(1).push(p));
        lemma_est_size_snoc(ps.skip(1), p);
    }
}

pub proof fn lemma_encode_pairs_snoc(ps: PairSeq, p: (Seq<u8>, Seq<u8>))
    ensures
        spec_encode_pairs(ps.push(p)) == spec_encode_pairs(ps) + spec_encode_pair(p),
    decreases ps.len(),
{
    if ps.len() == 0 {
        assert(ps.push(p)[0] == p);
        assert(ps.push(p).skip(1) =~= ps);
        assert(spec_encode_pairs(ps) == Seq::<u8>::empty());
        assert(spec_encode_pairs(ps.push(p)) == spec_encode_pair(p) + spec_encode_pairs(ps));
        assert(spec_encode_pair(p) + spec_encode_pairs(ps) =~= spec_encode_pairs(ps)
            + spec_encode_pair(p));
    } else {
        assert(ps.push(p)[0] == ps[0]);
        assert(ps.push(p).skip(1) =~= ps.skip(1).push(p));
        lemma_encode_pairs_snoc(ps.skip(1), p);
        assert(spec_encode_pair(ps[0]) + (spec_encode_pairs(ps.skip(1)) + spec_encode_pair(p))
            =~= (spec_encode_pair(ps[0]) + spec_encode_pairs(ps.skip(1))) + spec_encode_pair(p));
    }
}

pub proof fn lemma_encode_entries_snoc(es: EntrySeq, e: (Seq<u8>, u64, u64))
    ensures
        spec_encode_entries(es.push(e)) == spec_encode_entries(es) + spec_encode_entry(e),
    decreases es.len(),
{
    if es.len() == 0 {
        assert(es.push(e)[0] == e);
        assert(es.push(e).skip(1) =~= es);
        assert(spec_encode_entries(es) == Seq::<u8>::empty());
        assert(spec_encode_entries(es.push(e)) == spec_encode_entry(e) + spec_encode_entries(es));
        assert(spec_encode_entry(e) + spec_encode_entries(es) =~= spec_encode_entries(es)
            + spec_encode_entry(e));
    } else {
        assert(es.push(e)[0] == es[0]);
        assert(es.push(e).skip(1) =~= es.skip(1).push(e));
        lemma_encode_entries_snoc(es.skip(1), e);
        assert(spec_encode_entry(es[0]) + (spec_encode_entries(es.skip(1)) + spec_encode_entry(e))
            =~= (spec_encode_entry(es[0]) + spec_encode_entries(es.skip(1))) + spec_encode_entry(
            e,
        ));
    }
}

pub proof fn lemma_encode_blocks_snoc(bs: Seq<PairSeq>, ps: PairSeq)
    ensures
        spec_encode_blocks(bs.push(ps)) == spec_encode_blocks(bs) + spec_encode_block(ps),
    decreases bs.len(),
{
    if bs.len() == 0 {
        assert(bs.push(ps)[0] == ps);
        assert(bs.push(ps).skip(1) =~= bs);
        assert(spec_encode_blocks(bs) == Seq::<u8>::empty());
        assert(spec_encode_blocks(bs.push(ps)) == spec_encode_block(ps) + spec_encode_blocks(bs));
        assert(spec_encode_block(ps) + spec_encode_blocks(bs) =~= spec_encode_blocks(bs)
            + spec_encode_block(ps));
    } else {
        assert(bs.push(ps)[0] == bs[0]);
        assert(bs.push(ps).skip(1) =~= bs.skip(1).push(ps));
        lemma_encode_blocks_snoc(bs.skip(1), ps);
        assert(spec_encode_block(bs[0]) + (spec_encode_blocks(bs.skip(1)) + spec_encode_block(ps))
            =~= (spec_encode_block(bs[0]) + spec_encode_blocks(bs.skip(1))) + spec_encode_block(
            ps,
        ));
    }
}

pub proof fn lemma_flatten_snoc(bs: Seq<PairSeq>, ps: PairSeq)
    ensures
        flatten_pairs(bs.push(ps)) == flatten_pairs(bs) + ps,
    decreases bs.len(),
{
    if bs.len() == 0 {
        assert(bs.push(ps)[0] == ps);
        assert(bs.push(ps).skip(1) =~= bs);
        assert(flatten_pairs(bs) == Seq::<(Seq<u8>, Seq<u8>)>::empty());
        assert(flatten_pairs(bs.push(ps)) == ps + flatten_pairs(bs));
        assert(ps + flatten_pairs(bs) =~= flatten_pairs(bs) + ps);
    } else {
        assert(bs.push(ps)[0] == bs[0]);
        assert(bs.push(ps).skip(1) =~= bs.skip(1).push(ps));
        lemma_flatten_snoc(bs.skip(1), ps);
        assert(bs[0] + (flatten_pairs(bs.skip(1)) + ps) =~= (bs[0] + flatten_pairs(bs.skip(1)))
            + ps);
    }
}

/// The data region splits at any block boundary.
pub proof fn lemma_encode_blocks_split(bs: Seq<PairSeq>, i: int)
    requires
        0 <= i < bs.len(),
    ensures
        spec_encode_blocks(bs) == spec_encode_blocks(bs.take(i)) + spec_encode_block(bs[i])
            + spec_encode_blocks(bs.skip(i + 1)),
    decreases i,
{
    if i == 0 {
        assert(bs.take(0) =~= Seq::<PairSeq>::empty());
        assert(spec_encode_blocks(bs.take(0)) + spec_encode_block(bs[0]) + spec_encode_blocks(
            bs.skip(1),
        ) =~= spec_encode_block(bs[0]) + spec_encode_blocks(bs.skip(1)));
    } else {
        lemma_encode_blocks_split(bs.skip(1), i - 1);
        assert(bs.skip(1).take(i - 1) =~= bs.take(i).skip(1));
        assert(bs.skip(1)[i - 1] == bs[i]);
        assert(bs.skip(1).skip(i) =~= bs.skip(i + 1));
        assert(bs.take(i)[0] == bs[0]);
        assert(spec_encode_blocks(bs.take(i)) == spec_encode_block(bs[0]) + spec_encode_blocks(
            bs.take(i).skip(1),
        ));
        assert(spec_encode_block(bs[0]) + (spec_encode_blocks(bs.take(i).skip(1))
            + spec_encode_block(bs[i]) + spec_encode_blocks(bs.skip(i + 1))) =~= (
        spec_encode_block(bs[0]) + spec_encode_blocks(bs.take(i).skip(1))) + spec_encode_block(
            bs[i],
        ) + spec_encode_blocks(bs.skip(i + 1)));
    }
}

/// Where each pair of a block sequence sits in the flattened order.
pub proof fn lemma_flatten_elt(bs: Seq<PairSeq>, i: int, j: int) -> (pos: int)
    requires
        0 <= i < bs.len(),
        0 <= j < bs[i].len(),
    ensures
        0 <= pos < flatten_pairs(bs).len(),
        flatten_pairs(bs)[pos] == bs[i][j],
        pos == flatten_pairs(bs.take(i)).len() + j,
    decreases i,
{
    if i == 0 {
        assert(bs.take(0) =~= Seq::<PairSeq>::empty());
        assert(flatten_pairs(bs)[j] == bs[0][j]);
        j
    } else {
        let rest_pos = lemma_flatten_elt(bs.skip(1), i - 1, j);
        let pos = bs[0].len() as int + rest_pos;
        assert(flatten_pairs(bs)[pos] == flatten_pairs(bs.skip(1))[rest_pos]);
        assert(bs.take(i)[0] == bs[0]);
        assert(bs.take(i).skip(1) =~= bs.skip(1).take(i - 1));
        assert(flatten_pairs(bs.take(i)) == bs[0] + flatten_pairs(bs.skip(1).take(i - 1)));
        pos
    }
}

pub proof fn lemma_flatten_take_step(bs: Seq<PairSeq>, i: int)
    requires
        0 <= i < bs.len(),
    ensures
        flatten_pairs(bs.take(i + 1)).len() == flatten_pairs(bs.take(i)).len() + bs[i].len(),
{
    assert(bs.take(i + 1) =~= bs.take(i).push(bs[i]));
    lemma_flatten_snoc(bs.take(i), bs[i]);
}

pub proof fn lemma_flatten_take_mono(bs: Seq<PairSeq>, i: int, i2: int)
    requires
        0 <= i <= i2 <= bs.len(),
    ensures
        flatten_pairs(bs.take(i)).len() <= flatten_pairs(bs.take(i2)).len(),
    decreases i2 - i,
{
    if i < i2 {
        lemma_flatten_take_step(bs, i);
        lemma_flatten_take_mono(bs, i + 1, i2);
    }
}

/// Sorted input orders every pair of an earlier block at or below every pair
/// of a later block, and pairs within one block by position.
pub proof fn lemma_sorted_blockwise(bs: Seq<PairSeq>, i: int, j: int, i2: int, j2: int)
    requires
        sorted_pairs(flatten_pairs(bs)),
        0 <= i <= i2 < bs.len(),
        0 <= j < bs[i].len(),
        0 <= j2 < bs[i2].len(),
        i < i2 || j <= j2,
    ensures
        lex_le(bs[i][j].0, bs[i2][j2].0),
{
    let pos1 = lemma_flatten_elt(bs, i, j);
    let pos2 = lemma_flatten_elt(bs, i2, j2);
    if i < i2 {
        lemma_flatten_take_step(bs, i);
        lemma_flatten_take_mono(bs, i + 1, i2);
        assert(pos1 < pos2);
    }
    if pos1 < pos2 {
        assert(lex_le(flatten_pairs(bs)[pos1].0, flatten_pairs(bs)[pos2].0));
    }
}

/// A pair with the key makes the lookup succeed.
pub proof fn lemma_lookup_some_of_match(ps: PairSeq, key: Seq<u8>, i: int)
    requires
        0 <= i < ps.len(),
        ps[i].0 == key,
    ensures
        pairs_lookup(ps, key) is Some,
    decreases ps.len(),
{
    if ps[0].0 != key {
        assert(ps.skip(1)[i - 1] == ps[i]);
        lemma_lookup_some_of_match(ps.skip(1), key, i - 1);
    }
}

/// No pair with the key makes the lookup fail.
pub proof fn lemma_lookup_none_of_absent(ps: PairSeq, key: Seq<u8>)
    requires
        forall|j: int| 0 <= j < ps.len() ==> (#[trigger] ps[j]).0 != key,
    ensures
        pairs_lookup(ps, key) is None,
    decreases ps.len(),
{
    if ps.len() > 0 {
        assert(ps[0].0 != key);
        assert forall|j: int| 0 <= j < ps.skip(1).len() implies (#[trigger] ps.skip(1)[j]).0
            != key by {
            assert(ps.skip(1)[j] == ps[j + 1]);
        }
        lemma_lookup_none_of_absent(ps.skip(1), key);
    }
}

/// Lookup distributes over concatenation, first match winning.
pub proof fn lemma_lookup_concat(a: PairSeq, b: PairSeq, key: Seq<u8>)
    ensures
        pairs_lookup(a + b, key) == if pairs_lookup(a, key) is Some {
            pairs_lookup(a, key)
        } else {
            pairs_lookup(b, key)
        },
    decreases a.len(),
{
    if a.len() == 0 {
        assert(a + b =~= b);
    } else {
        assert((a + b)[0] == a[0]);
        assert((a + b).skip(1) =~= a.skip(1) + b);
        lemma_lookup_concat(a.skip(1), b, key);
    }
}

/// Scanning an encoded block body finds exactly the first-match lookup,
/// whatever bytes follow the body.
pub proof fn lemma_scan_encoded(ps: PairSeq, suffix: Seq<u8>, key: Seq<u8>)
    requires
        pairs_wf(ps),
    ensures
        spec_scan_pairs(spec_encode_pairs(ps) + suffix, ps.len() as nat, key) == Some(
            pairs_lookup(ps, key),
        ),
    decreases ps.len(),
{
    lemma_auto_spec_u32_to_from_le_bytes();
    if ps.len() > 0 {
        let p = ps[0];
        assert(pair_wf(p));
        let klen = p.0.len() as int;
        let vlen = p.1.len() as int;
        let ka = spec_u32_to_le_bytes(p.0.len() as u32);
        let va = spec_u32_to_le_bytes(p.1.len() as u32);
        let rest = spec_encode_pairs(ps.skip(1)) + suffix;
        let b = spec_encode_pairs(ps) + suffix;
        assert(b =~= ka + p.0 + va + p.1 + rest);
        assert(b.take(4) =~= ka);
        assert(spec_u32_from_le_bytes(b.take(4)) as int == klen);
        assert(b.subrange(4, 4 + klen) =~= p.0);
        let b1 = b.skip(4 + klen);
        assert(b1 =~= va + p.1 + rest);
        assert(b1.take(4) =~= va);
        assert(spec_u32_from_le_bytes(b1.take(4)) as int == vlen);
        assert(b1.subrange(4, 4 + vlen) =~= p.1);
        if p.0 == key {
            assert(spec_scan_pairs(b, ps.len() as nat, key) == Some(Some(p.1)));
        } else {
            assert(b1.skip(4 + vlen) =~= spec_encode_pairs(ps.skip(1)) + suffix);
            assert forall|i: int| 0 <= i < ps.skip(1).len() implies pair_wf(
                #[trigger] ps.skip(1)[i],
            ) by {
                assert(ps.skip(1)[i] == ps[i + 1]);
            }
            lemma_scan_encoded(ps.skip(1), suffix, key);
        }
    }
}

/// Searching an encoded block is exactly first-match lookup in its pairs.
pub proof fn lemma_search_encoded(ps: PairSeq, key: Seq<u8>)
    requires
        pairs_wf(ps),
        ps.len() <= u32::MAX,
    ensures
        spec_search_block(spec_encode_block(ps), key) == Some(pairs_lookup(ps, key)),
{
    lemma_auto_spec_u32_to_from_le_bytes();
    let b = spec_encode_block(ps);
    assert(b.take(4) =~= spec_u32_to_le_bytes(ps.len() as u32));
    assert(b.skip(4) =~= spec_encode_pairs(ps) + Seq::<u8>::empty());
    lemma_scan_encoded(ps, Seq::empty(), key);
}

/// Parsing an encoded index block returns exactly its entries.
pub proof fn lemma_parse_entries_encoded(es: EntrySeq)
    requires
        entries_wf(es),
    ensures
        spec_parse_entries(spec_encode_entries(es), es.len() as nat) == Some(es),
    decreases es.len(),
{
    lemma_auto_spec_u32_to_from_le_bytes();
    lemma_auto_spec_u64_to_from_le_bytes();
    if es.len() > 0 {
        let e = es[0];
        assert(entry_wf(e));
        let klen = e.0.len() as int;
        let ka = spec_u32_to_le_bytes(e.0.len() as u32);
        let oa = spec_u64_to_le_bytes(e.1);
        let sa = spec_u64_to_le_bytes(e.2);
        let rest = spec_encode_entries(es.skip(1));
        let b = spec_encode_entries(es);
        assert(b =~= ka + e.0 + oa + sa + rest);
        assert(b.take(4) =~= ka);
        assert(spec_u32_from_le_bytes(b.take(4)) as int == klen);
        assert(b.subrange(4, 4 + klen) =~= e.0);
        assert(b.subrange(4 + klen, 4 + klen + 8) =~= oa);
        assert(b.subrange(4 + klen + 8, 4 + klen + 16) =~= sa);
        assert(b.skip(4 + klen + 16) =~= rest);
        assert forall|i: int| 0 <= i < es.skip(1).len() implies entry_wf(
            #[trigger] es.skip(1)[i],
        ) by {
            assert(es.skip(1)[i] == es[i + 1]);
        }
        lemma_parse_entries_encoded(es.skip(1));
        assert(seq![(e.0, e.1, e.2)] + es.skip(1) =~= es);
    }
}

pub proof fn lemma_parse_index_encoded(es: EntrySeq)
    requires
        entries_wf(es),
        es.len() <= u32::MAX,
    ensures
        spec_parse_index(spec_encode_index(es)) == Some(es),
{
    lemma_auto_spec_u32_to_from_le_bytes();
    let b = spec_encode_index(es);
    assert(b.take(4) =~= spec_u32_to_le_bytes(es.len() as u32));
    assert(b.skip(4) =~= spec_encode_entries(es));
    lemma_parse_entries_encoded(es);
}

/// The footer decodes from the end of any file image that carries it.
pub proof fn lemma_parse_footer_encoded(prefix: Seq<u8>, off: u64, sz: u64)
    ensures
        spec_parse_footer(prefix + spec_encode_footer(off, sz)) == Some((off, sz)),
{
    lemma_auto_spec_u64_to_from_le_bytes();
    let f = spec_encode_footer(off, sz);
    let file = prefix + f;
    assert(file.len() == prefix.len() + 24);
    assert(file.skip(file.len() - 24) =~= f);
    assert(f.subrange(0, 8) =~= spec_u64_to_le_bytes(off));
    assert(f.subrange(8, 16) =~= spec_u64_to_le_bytes(sz));
    assert(f.subrange(16, 24) =~= spec_u64_to_le_bytes(SST_MAGIC));
}

/// Reads the `u32` at byte position `pos`.
pub fn read_u32(buf: &[u8], pos: usize) -> (r: u32)
    requires
        pos + 4 <= buf@.len(),
    ensures
        r == spec_u32_from_le_bytes(buf@.subrange(pos as int, pos as int + 4)),
{
    let _n: usize = buf.len();
    let s = slice_subrange(buf, pos, pos + 4);
    u32_from_le_bytes(s)
}

/// Reads the `u64` at byte position `pos`.
pub fn read_u64(buf: &[u8], pos: usize) -> (r: u64)
    requires
        pos + 8 <= buf@.len(),
    ensures
        r == spec_u64_from_le_bytes(buf@.subrange(pos as int, pos as int + 8)),
{
    let _n: usize = buf.len();
    let s = slice_subrange(buf, pos, pos + 8);
    u64_from_le_bytes(s)
}

/// Appends the little-endian bytes of `x`.
pub fn push_u32(out: &mut Vec<u8>, x: u32)
    ensures
        final(out)@ == old(out)@ + spec_u32_to_le_bytes(x),
{
    let mut b = u32_to_le_bytes(x);
    out.append(&mut b);
}

/// Appends the little-endian bytes of `x`.
pub fn push_u64(out: &mut Vec<u8>, x: u64)
    ensures
        final(out)@ == old(out)@ + spec_u64_to_le_bytes(x),
{
    let mut b = u64_to_le_bytes(x);
    out.append(&mut b);
}

/// Appends a byte slice.
pub fn push_bytes(out: &mut Vec<u8>, b: &[u8])
    ensures
        final(out)@ == old(out)@ + b@,
{
    let n: usize = b.len();
    let mut i: usize = 0;
    while i < n
        invariant
            n == b@.len(),
            0 <= i <= n,
            out@ == old(out)@ + b@.take(i as int),
        decreases n - i,
    {
        out.push(b[i]);
        proof {
            assert(old(out)@ + b@.take(i + 1) =~= (old(out)@ + b@.take(i as int)).push(
                b@[i as int],
            ));
        }
        i = i + 1;
    }
    proof {
        assert(b@.take(n as int) =~= b@);
    }
}

} // verus!
