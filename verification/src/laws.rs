//! The table's laws: what opening and looking up a finished file image
//! yields, proved over the format's spec functions. Together with the
//! contracts of `SstWriter::finish`, `SstReader::open` and `SstReader::get`,
//! these connect a written table to every answer its readers give.

use crate::codec::{
    block_wf, blocks_wf, entry_wf, flatten_pairs,
    lemma_encode_blocks_split, lemma_flatten_elt, lemma_lookup_concat,
    lemma_lookup_none_of_absent, lemma_lookup_some_of_match, lemma_parse_footer_encoded,
    lemma_parse_index_encoded, lemma_search_encoded, lemma_sorted_blockwise, pair_wf, pairs_lookup,
    sorted_pairs, spec_encode_block, spec_encode_blocks, spec_encode_footer,
    spec_encode_index, spec_get, spec_index_of, spec_open_index, spec_parse_footer, spec_sst_file,
    table_fits, EntrySeq, PairSeq, SST_MAGIC,
};
use crate::order::{lemma_lex_antisym, lemma_lex_asym, lemma_lex_connex, lemma_lex_le_trans, lex_le, lex_lt};
use vstd::bytes::{
    lemma_auto_spec_u32_to_from_le_bytes, lemma_auto_spec_u64_to_from_le_bytes,
    spec_u64_from_le_bytes,
};
use vstd::prelude::*;

verus! {

/// No two pairs share a key.
pub open spec fn distinct_keys(ps: PairSeq) -> bool {
    forall|i: int, j: int|
        0 <= i < j < ps.len() ==> (#[trigger] ps[i]).0 != (#[trigger] ps[j]).0
}

/// A key absent from every block makes the flattened lookup fail.
proof fn lemma_lookup_flatten_none(bs: Seq<PairSeq>, key: Seq<u8>)
    requires
        forall|i: int, j: int|
            0 <= i < bs.len() && 0 <= j < bs[i].len() ==> (#[trigger] bs[i][j]).0 != key,
    ensures
        pairs_lookup(flatten_pairs(bs), key) is None,
    decreases bs.len(),
{
    if bs.len() > 0 {
        assert forall|j: int| 0 <= j < bs[0].len() implies (#[trigger] bs[0][j]).0 != key by {
            assert(bs[0][j] == bs[0][j]);
        }
        lemma_lookup_none_of_absent(bs[0], key);
        assert forall|i: int, j: int|
            0 <= i < bs.skip(1).len() && 0 <= j < bs.skip(1)[i].len() implies (#[trigger] bs.skip(
            1,
        )[i][j]).0 != key by {
            assert(bs.skip(1)[i] == bs[i + 1]);
        }
        lemma_lookup_flatten_none(bs.skip(1), key);
        lemma_lookup_concat(bs[0], flatten_pairs(bs.skip(1)), key);
    }
}

/// The index walk from entry `k` on answers exactly the first-match lookup
/// over the blocks from `k` on, provided every earlier last key is below the
/// key sought.
proof fn lemma_get_from(bs: Seq<PairSeq>, key: Seq<u8>, k: int)
    requires
        blocks_wf(bs),
        table_fits(bs),
        sorted_pairs(flatten_pairs(bs)),
        0 <= k <= bs.len(),
        forall|j: int| 0 <= j < k ==> lex_lt((#[trigger] spec_index_of(bs)[j]).0, key),
    ensures
        spec_get(spec_sst_file(bs), spec_index_of(bs).skip(k), key) == Some(
            pairs_lookup(flatten_pairs(bs.skip(k)), key),
        ),
    decreases bs.len() - k,
{
    lemma_auto_spec_u32_to_from_le_bytes();
    lemma_auto_spec_u64_to_from_le_bytes();
    let file = spec_sst_file(bs);
    let es = spec_index_of(bs);
    let data = spec_encode_blocks(bs);
    let idx = spec_encode_index(es);
    assert(file.len() == data.len() + idx.len() + 24);
    if k == bs.len() {
        assert(es.skip(k) =~= Seq::<(Seq<u8>, u64, u64)>::empty());
        assert(bs.skip(k) =~= Seq::<PairSeq>::empty());
        assert(flatten_pairs(bs.skip(k)) =~= Seq::<(Seq<u8>, Seq<u8>)>::empty());
    } else {
        let sub = es.skip(k);
        assert(sub[0] == es[k]);
        assert(sub.skip(1) =~= es.skip(k + 1));
        let blk = bs[k];
        assert(block_wf(blk));
        let last = blk.last().0;
        lemma_encode_blocks_split(bs, k);
        let off = spec_encode_blocks(bs.take(k)).len() as int;
        let bsz = spec_encode_block(blk).len() as int;
        assert(data.len() == off + bsz + spec_encode_blocks(bs.skip(k + 1)).len());
        assert(es[k].1 as int == off);
        assert(es[k].2 as int == bsz);
        assert(bs.skip(k)[0] == bs[k]);
        assert(bs.skip(k).skip(1) =~= bs.skip(k + 1));
        assert(flatten_pairs(bs.skip(k)) == blk + flatten_pairs(bs.skip(k + 1)));
        lemma_lookup_concat(blk, flatten_pairs(bs.skip(k + 1)), key);
        if lex_le(key, last) {
            assert(off + bsz <= file.len());
            assert(file.subrange(off, off + bsz) =~= spec_encode_block(blk));
            lemma_search_encoded(blk, key);
            assert(spec_get(file, sub, key) == Some(pairs_lookup(blk, key)));
            if pairs_lookup(blk, key) is None {
                assert forall|i2: int, j2: int|
                    0 <= i2 < bs.skip(k + 1).len() && 0 <= j2 < bs.skip(k + 1)[i2].len() implies (
                #[trigger] bs.skip(k + 1)[i2][j2]).0 != key by {
                    assert(bs.skip(k + 1)[i2] == bs[i2 + k + 1]);
                    if bs[i2 + k + 1][j2].0 == key {
                        lemma_sorted_blockwise(bs, k, blk.len() - 1, i2 + k + 1, j2);
                        lemma_lex_antisym(key, last);
                        lemma_lookup_some_of_match(blk, key, blk.len() - 1);
                    }
                }
                lemma_lookup_flatten_none(bs.skip(k + 1), key);
            }
        } else {
            lemma_lex_connex(key, last);
            assert(lex_lt(last, key));
            assert forall|j2: int| 0 <= j2 < blk.len() implies (#[trigger] blk[j2]).0 != key by {
                lemma_sorted_blockwise(bs, k, j2, k, blk.len() - 1);
                lemma_lex_le_trans(blk[j2].0, last, key);
                lemma_lex_asym(blk[j2].0, key);
            }
            lemma_lookup_none_of_absent(blk, key);
            assert forall|j: int| 0 <= j < k + 1 implies lex_lt(
                (#[trigger] spec_index_of(bs)[j]).0,
                key,
            ) by {}
            lemma_get_from(bs, key, k + 1);
            assert(spec_get(file, sub, key) == spec_get(file, es.skip(k + 1), key));
        }
    }
}

/// The headline law: a finished table opens to exactly its index, and every
/// lookup answers the first-match lookup over all written pairs, provided
/// the pairs were written in non-decreasing key order.
pub proof fn lemma_table_lookup(bs: Seq<PairSeq>, key: Seq<u8>)
    requires
        blocks_wf(bs),
        table_fits(bs),
        sorted_pairs(flatten_pairs(bs)),
    ensures
        spec_open_index(spec_sst_file(bs)) == Some(spec_index_of(bs)),
        spec_get(spec_sst_file(bs), spec_index_of(bs), key) == Some(
            pairs_lookup(flatten_pairs(bs), key),
        ),
{
    lemma_auto_spec_u32_to_from_le_bytes();
    lemma_auto_spec_u64_to_from_le_bytes();
    let data = spec_encode_blocks(bs);
    let es = spec_index_of(bs);
    let idx = spec_encode_index(es);
    let file = spec_sst_file(bs);
    lemma_parse_footer_encoded(data + idx, data.len() as u64, idx.len() as u64);
    assert((data + idx) + spec_encode_footer(data.len() as u64, idx.len() as u64) =~= file);
    assert(spec_parse_footer(file) == Some((data.len() as u64, idx.len() as u64)));
    assert(file.subrange(data.len() as int, data.len() as int + idx.len() as int) =~= idx);
    assert forall|i: int| 0 <= i < es.len() implies entry_wf(#[trigger] es[i]) by {
        assert(block_wf(bs[i]));
        assert(bs[i].last() == bs[i][bs[i].len() - 1]);
        assert(pair_wf(bs[i][bs[i].len() - 1]));
    }
    lemma_parse_index_encoded(es);
    lemma_get_from(bs, key, 0);
    assert(es.skip(0) =~= es);
    assert(bs.skip(0) =~= bs);
}

/// With distinct keys, looking up a written key yields its own value.
pub proof fn lemma_lookup_written(ps: PairSeq, i: int)
    requires
        distinct_keys(ps),
        0 <= i < ps.len(),
    ensures
        pairs_lookup(ps, ps[i].0) == Some(ps[i].1),
    decreases ps.len(),
{
    if i > 0 {
        assert(ps[0].0 != ps[i].0);
        assert forall|a: int, b: int|
            0 <= a < b < ps.skip(1).len() implies (#[trigger] ps.skip(1)[a]).0 != (#[trigger] ps.skip(
            1,
        )[b]).0 by {
            assert(ps.skip(1)[a] == ps[a + 1]);
            assert(ps.skip(1)[b] == ps[b + 1]);
        }
        assert(ps.skip(1)[i - 1] == ps[i]);
        lemma_lookup_written(ps.skip(1), i - 1);
    }
}

/// Round trip, written side: every pair written to a sorted table of
/// distinct keys is retrieved exactly.
pub proof fn lemma_round_trip_written(bs: Seq<PairSeq>, i: int)
    requires
        blocks_wf(bs),
        table_fits(bs),
        sorted_pairs(flatten_pairs(bs)),
        distinct_keys(flatten_pairs(bs)),
        0 <= i < flatten_pairs(bs).len(),
    ensures
        spec_get(spec_sst_file(bs), spec_index_of(bs), flatten_pairs(bs)[i].0) == Some(
            Some(flatten_pairs(bs)[i].1),
        ),
{
    lemma_table_lookup(bs, flatten_pairs(bs)[i].0);
    lemma_lookup_written(flatten_pairs(bs), i);
}

/// Round trip, absent side: a key never written is answered "not found".
pub proof fn lemma_round_trip_absent(bs: Seq<PairSeq>, key: Seq<u8>)
    requires
        blocks_wf(bs),
        table_fits(bs),
        sorted_pairs(flatten_pairs(bs)),
        forall|j: int| 0 <= j < flatten_pairs(bs).len() ==> (#[trigger] flatten_pairs(bs)[j]).0
            != key,
    ensures
        spec_get(spec_sst_file(bs), spec_index_of(bs), key) == Some(None::<Seq<u8>>),
{
    lemma_table_lookup(bs, key);
    lemma_lookup_none_of_absent(flatten_pairs(bs), key);
}

/// Boundary: the first and the last written pair — under sorted input the
/// smallest and the largest key — are both retrievable.
pub proof fn lemma_boundary_keys(bs: Seq<PairSeq>)
    requires
        blocks_wf(bs),
        table_fits(bs),
        sorted_pairs(flatten_pairs(bs)),
        distinct_keys(flatten_pairs(bs)),
        flatten_pairs(bs).len() > 0,
    ensures
        spec_get(spec_sst_file(bs), spec_index_of(bs), flatten_pairs(bs)[0].0) == Some(
            Some(flatten_pairs(bs)[0].1),
        ),
        spec_get(spec_sst_file(bs), spec_index_of(bs), flatten_pairs(bs).last().0) == Some(
            Some(flatten_pairs(bs).last().1),
        ),
{
    lemma_round_trip_written(bs, 0);
    lemma_round_trip_written(bs, flatten_pairs(bs).len() - 1);
}

/// A key above every last key in the index is answered "not found" for any
/// file contents whatever: the data region is never consulted.
pub proof fn lemma_beyond_range(data: Seq<u8>, index: EntrySeq, key: Seq<u8>)
    requires
        forall|j: int| 0 <= j < index.len() ==> lex_lt((#[trigger] index[j]).0, key),
    ensures
        spec_get(data, index, key) == Some(None::<Seq<u8>>),
    decreases index.len(),
{
    if index.len() > 0 {
        assert(lex_lt(index[0].0, key));
        lemma_lex_asym(index[0].0, key);
        assert(!lex_le(key, index[0].0));
        assert forall|j: int| 0 <= j < index.skip(1).len() implies lex_lt(
            (#[trigger] index.skip(1)[j]).0,
            key,
        ) by {
            assert(index.skip(1)[j] == index[j + 1]);
        }
        lemma_beyond_range(data, index.skip(1), key);
    }
}

/// The same, phrased over a table: a key above every written key.
pub proof fn lemma_beyond_range_table(bs: Seq<PairSeq>, key: Seq<u8>)
    requires
        blocks_wf(bs),
        forall|j: int| 0 <= j < flatten_pairs(bs).len() ==> lex_lt(
            (#[trigger] flatten_pairs(bs)[j]).0,
            key,
        ),
    ensures
        forall|data: Seq<u8>| spec_get(data, spec_index_of(bs), key) == Some(None::<Seq<u8>>),
{
    let es = spec_index_of(bs);
    assert forall|j: int| 0 <= j < es.len() implies lex_lt((#[trigger] es[j]).0, key) by {
        assert(block_wf(bs[j]));
        let pos = lemma_flatten_elt(bs, j, bs[j].len() - 1);
        assert(es[j].0 == bs[j][bs[j].len() - 1].0);
    }
    assert forall|data: Seq<u8>| spec_get(data, spec_index_of(bs), key) == Some(
        None::<Seq<u8>>,
    ) by {
        lemma_beyond_range(data, es, key);
    }
}

/// Format rejection: an image too short for a footer, or one whose trailer
/// does not end in the magic number, never opens.
pub proof fn lemma_format_rejected(file: Seq<u8>)
    requires
        file.len() < 24 || spec_u64_from_le_bytes(
            file.subrange(file.len() - 8, file.len() as int),
        ) != SST_MAGIC,
    ensures
        spec_open_index(file) is None,
{
    if file.len() >= 24 {
        assert(file.skip(file.len() - 24).subrange(16, 24) =~= file.subrange(
            file.len() - 8,
            file.len() as int,
        ));
    }
}

/// Finishing with no pairs yields a valid 28-byte image: no data blocks, an
/// empty index block, a correct footer, and every lookup "not found".
pub proof fn lemma_empty_table(key: Seq<u8>)
    ensures
        spec_sst_file(Seq::<PairSeq>::empty()).len() == 28,
        spec_open_index(spec_sst_file(Seq::<PairSeq>::empty())) == Some(
            Seq::<(Seq<u8>, u64, u64)>::empty(),
        ),
        spec_get(
            spec_sst_file(Seq::<PairSeq>::empty()),
            Seq::<(Seq<u8>, u64, u64)>::empty(),
            key,
        ) == Some(None::<Seq<u8>>),
{
    lemma_auto_spec_u32_to_from_le_bytes();
    lemma_auto_spec_u64_to_from_le_bytes();
    let bs = Seq::<PairSeq>::empty();
    assert(spec_index_of(bs) =~= Seq::<(Seq<u8>, u64, u64)>::empty());
    assert(flatten_pairs(bs) =~= Seq::<(Seq<u8>, Seq<u8>)>::empty());
    assert(spec_encode_blocks(bs) =~= Seq::<u8>::empty());
    lemma_table_lookup(bs, key);
}

/// Appending a pair whose key is at or above every present key keeps the
/// contents sorted: what a writer's caller maintains across `add`.
pub proof fn lemma_sorted_push(ps: PairSeq, p: (Seq<u8>, Seq<u8>))
    requires
        sorted_pairs(ps),
        forall|i: int| 0 <= i < ps.len() ==> lex_le((#[trigger] ps[i]).0, p.0),
    ensures
        sorted_pairs(ps.push(p)),
{
    assert forall|i: int, j: int| 0 <= i < j < ps.push(p).len() implies lex_le(
        (#[trigger] ps.push(p)[i]).0,
        (#[trigger] ps.push(p)[j]).0,
    ) by {
        assert(ps.push(p)[i] == ps[i]);
        if j < ps.len() {
            assert(ps.push(p)[j] == ps[j]);
        } else {
            assert(ps.push(p)[j] == p);
        }
    }
}

/// Appending a pair whose key is strictly above every present key also keeps
/// the keys distinct.
pub proof fn lemma_distinct_push(ps: PairSeq, p: (Seq<u8>, Seq<u8>))
    requires
        distinct_keys(ps),
        forall|i: int| 0 <= i < ps.len() ==> lex_lt((#[trigger] ps[i]).0, p.0),
    ensures
        distinct_keys(ps.push(p)),
{
    assert forall|i: int, j: int| 0 <= i < j < ps.push(p).len() implies (#[trigger] ps.push(
        p,
    )[i]).0 != (#[trigger] ps.push(p)[j]).0 by {
        assert(ps.push(p)[i] == ps[i]);
        if j < ps.len() {
            assert(ps.push(p)[j] == ps[j]);
        } else {
            assert(ps.push(p)[j] == p);
            lemma_lex_asym(ps[i].0, p.0);
        }
    }
}

/// Block-split boundary: the key sitting exactly at a block's upper bound —
/// the block's own last key — still resolves, to its own value.
pub proof fn lemma_split_boundary_key(bs: Seq<PairSeq>, i: int)
    requires
        blocks_wf(bs),
        table_fits(bs),
        sorted_pairs(flatten_pairs(bs)),
        distinct_keys(flatten_pairs(bs)),
        0 <= i < bs.len(),
    ensures
        spec_get(spec_sst_file(bs), spec_index_of(bs), spec_index_of(bs)[i].0) == Some(
            Some(bs[i].last().1),
        ),
{
    assert(block_wf(bs[i]));
    let pos = lemma_flatten_elt(bs, i, bs[i].len() - 1);
    lemma_round_trip_written(bs, pos);
    assert(flatten_pairs(bs)[pos] == bs[i][bs[i].len() - 1]);
    assert(spec_index_of(bs)[i].0 == bs[i].last().0);
}

} // verus!
