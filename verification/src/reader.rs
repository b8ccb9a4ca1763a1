//! Reading a table: opening decodes the footer and the index block into
//! memory; a lookup walks the index for the one candidate block, slices it
//! out of the file image and scans it for the exact key.

use crate::codec::{
    read_u32, read_u64, spec_get, spec_open_index, spec_parse_entries, spec_parse_index,
    spec_scan_pairs, spec_search_block, EntrySeq, SST_MAGIC,
};
use crate::order::{bytes_eq, bytes_le};
use vstd::bytes::spec_u32_from_le_bytes;
use crate::writer::{index_view, IndexEntry};
use vstd::prelude::*;
use vstd::slice::{slice_subrange, slice_to_vec};

verus! {

/// Why a byte image cannot be used as a table: wrong or missing magic
/// number, or a malformed index or data block. Plain I/O failures never
/// arise here, since the reader works on bytes already in memory.
#[derive(Debug, Clone, Copy, PartialEq, Eq)]
pub enum SstError {
    FormatInvalid,
}

/// Reads from a table file image. The index block is decoded eagerly at
/// open and kept for the reader's lifetime; data blocks are sliced out of
/// the image on each lookup and never cached.
pub struct SstReader {
    data: Vec<u8>,
    index: Vec<IndexEntry>,
}

impl SstReader {
    /// The complete file image.
    pub closed spec fn data_bytes(&self) -> Seq<u8> {
        self.data@
    }

    /// The decoded index entries, in file order.
    pub closed spec fn index_entries(&self) -> EntrySeq {
        index_view(self.index@)
    }

    /// Opens a table: decodes the footer from the last 24 bytes, checks the
    /// magic number, and decodes the index block it points at. Fails exactly
    /// when the image is no table.
    pub fn open(data: Vec<u8>) -> (r: Result<SstReader, SstError>)
        ensures
            match r {
                Ok(rd) => spec_open_index(data@) == Some(rd.index_entries()) && rd.data_bytes()
                    == data@,
                Err(e) => spec_open_index(data@) is None && e == SstError::FormatInvalid,
            },
    {
        let n: usize = data.len();
        if n < 24 {
            return Err(SstError::FormatInvalid);
        }
        let magic = read_u64(data.as_slice(), n - 8);
        proof {
            assert(data@.skip(n - 24).subrange(16, 24) =~= data@.subrange(n - 8, n as int));
        }
        if magic != SST_MAGIC {
            return Err(SstError::FormatInvalid);
        }
        let index_offset = read_u64(data.as_slice(), n - 24);
        let index_size = read_u64(data.as_slice(), n - 16);
        proof {
            assert(data@.skip(n - 24).subrange(0, 8) =~= data@.subrange(n - 24, n - 16));
            assert(data@.skip(n - 24).subrange(8, 16) =~= data@.subrange(n - 16, n - 8));
        }
        let n64: u64 = n as u64;
        if index_offset > n64 || index_size > n64 - index_offset {
            return Err(SstError::FormatInvalid);
        }
        let start: usize = index_offset as usize;
        let end: usize = (index_offset + index_size) as usize;
        let islice = slice_subrange(data.as_slice(), start, end);
        match Self::parse_index(islice) {
            Ok(index) => Ok(SstReader { data, index }),
            Err(e) => Err(e),
        }
    }

    /// Decodes an index block: entry count, then that many records. Fails
    /// exactly when a record would run past the end of the buffer.
    fn parse_index(buf: &[u8]) -> (r: Result<Vec<IndexEntry>, SstError>)
        ensures
            match r {
                Ok(v) => spec_parse_index(buf@) == Some(index_view(v@)),
                Err(_) => spec_parse_index(buf@) is None,
            },
    {
        let blen: usize = buf.len();
        if blen < 4 {
            return Err(SstError::FormatInvalid);
        }
        let num = read_u32(buf, 0);
        proof {
            assert(buf@.subrange(0, 4) =~= buf@.take(4));
        }
        let mut out: Vec<IndexEntry> = Vec::new();
        let mut pos: usize = 4;
        let mut i: u32 = 0;
        proof {
            assert(buf@.skip(4) =~= buf@.skip(pos as int));
            assert(index_view(out@) =~= Seq::<(Seq<u8>, u64, u64)>::empty());
            assert(index_view(out@) + spec_parse_entries(buf@.skip(4), num as nat)->Some_0
                =~= spec_parse_entries(buf@.skip(4), num as nat)->Some_0);
        }
        while i < num
            invariant
                blen == buf@.len(),
                4 <= pos <= blen,
                0 <= i <= num,
                num == spec_u32_from_le_bytes(buf@.take(4)),
                index_view(out@).len() == i as int,
                spec_parse_entries(buf@.skip(4), num as nat) == (match spec_parse_entries(
                    buf@.skip(pos as int),
                    (num - i) as nat,
                ) {
                    Some(rest) => Some(index_view(out@) + rest),
                    None => None::<EntrySeq>,
                }),
            decreases num - i,
        {
            let ghost rem = buf@.skip(pos as int);
            if blen - pos < 4 {
                return Err(SstError::FormatInvalid);
            }
            let klen32 = read_u32(buf, pos);
            proof {
                assert(rem.take(4) =~= buf@.subrange(pos as int, pos as int + 4));
            }
            let klen: usize = klen32 as usize;
            if blen - pos - 4 < klen {
                return Err(SstError::FormatInvalid);
            }
            if blen - pos - 4 - klen < 16 {
                return Err(SstError::FormatInvalid);
            }
            let kstart: usize = pos + 4;
            let key_slice = slice_subrange(buf, kstart, kstart + klen);
            let last_key = slice_to_vec(key_slice);
            let block_offset = read_u64(buf, kstart + klen);
            let block_size = read_u64(buf, kstart + klen + 8);
            proof {
                assert(rem.subrange(4, 4 + klen as int) =~= buf@.subrange(
                    kstart as int,
                    kstart + klen,
                ));
                assert(rem.subrange(4 + klen as int, 4 + klen as int + 8) =~= buf@.subrange(
                    kstart + klen,
                    kstart + klen + 8,
                ));
                assert(rem.subrange(4 + klen as int + 8, 4 + klen as int + 16) =~= buf@.subrange(
                    kstart + klen + 8,
                    kstart + klen + 16,
                ));
            }
            let entry = IndexEntry { last_key, block_offset, block_size };
            let ghost ev = entry@;
            let ghost prev_out = out@;
            out.push(entry);
            pos = kstart + klen + 16;
            i = i + 1;
            proof {
                assert(buf@.skip(pos as int) =~= rem.skip(4 + klen as int + 16));
                assert(index_view(out@) =~= index_view(prev_out).push(ev));
                match spec_parse_entries(buf@.skip(pos as int), (num - i) as nat) {
                    Some(rest2) => {
                        assert(index_view(prev_out) + (seq![ev] + rest2) =~= index_view(out@)
                            + rest2);
                    },
                    None => {},
                }
            }
        }
        proof {
            assert(spec_parse_entries(buf@.skip(pos as int), 0) == Some(
                Seq::<(Seq<u8>, u64, u64)>::empty(),
            ));
            assert(index_view(out@) + Seq::<(Seq<u8>, u64, u64)>::empty() =~= index_view(out@));
        }
        Ok(out)
    }

    /// Scans a decoded data block for the exact key: entry count, then a
    /// linear walk of the records, answering at the first match. Fails
    /// exactly when a record would run past the end of the buffer before a
    /// match is found.
    fn search_in_block(buf: &[u8], key: &[u8]) -> (r: Result<Option<Vec<u8>>, SstError>)
        ensures
            match r {
                Ok(Some(v)) => spec_search_block(buf@, key@) == Some(Some(v@)),
                Ok(None) => spec_search_block(buf@, key@) == Some(None::<Seq<u8>>),
                Err(_) => spec_search_block(buf@, key@) is None,
            },
    {
        let blen: usize = buf.len();
        if blen < 4 {
            return Err(SstError::FormatInvalid);
        }
        let num = read_u32(buf, 0);
        proof {
            assert(buf@.subrange(0, 4) =~= buf@.take(4));
        }
        let mut pos: usize = 4;
        let mut i: u32 = 0;
        while i < num
            invariant
                blen == buf@.len(),
                4 <= pos <= blen,
                0 <= i <= num,
                num == spec_u32_from_le_bytes(buf@.take(4)),
                spec_search_block(buf@, key@) == spec_scan_pairs(
                    buf@.skip(pos as int),
                    (num - i) as nat,
                    key@,
                ),
            decreases num - i,
        {
            let ghost rem = buf@.skip(pos as int);
            if blen - pos < 4 {
                return Err(SstError::FormatInvalid);
            }
            let klen32 = read_u32(buf, pos);
            proof {
                assert(rem.take(4) =~= buf@.subrange(pos as int, pos as int + 4));
            }
            let klen: usize = klen32 as usize;
            if blen - pos - 4 < klen {
                return Err(SstError::FormatInvalid);
            }
            let kstart: usize = pos + 4;
            let entry_key = slice_subrange(buf, kstart, kstart + klen);
            let vpos: usize = kstart + klen;
            let ghost rem1 = rem.skip(4 + klen as int);
            proof {
                assert(rem.subrange(4, 4 + klen as int) =~= buf@.subrange(
                    kstart as int,
                    kstart + klen,
                ));
                assert(rem1 =~= buf@.skip(vpos as int));
            }
            if blen - vpos < 4 {
                return Err(SstError::FormatInvalid);
            }
            let vlen32 = read_u32(buf, vpos);
            proof {
                assert(rem1.take(4) =~= buf@.subrange(vpos as int, vpos as int + 4));
            }
            let vlen: usize = vlen32 as usize;
            if blen - vpos - 4 < vlen {
                return Err(SstError::FormatInvalid);
            }
            let vstart: usize = vpos + 4;
            if bytes_eq(entry_key, key) {
                let vslice = slice_subrange(buf, vstart, vstart + vlen);
                proof {
                    assert(rem1.subrange(4, 4 + vlen as int) =~= buf@.subrange(
                        vstart as int,
                        vstart + vlen,
                    ));
                }
                return Ok(Some(slice_to_vec(vslice)));
            }
            pos = vstart + vlen;
            i = i + 1;
            proof {
                assert(buf@.skip(pos as int) =~= rem1.skip(4 + vlen as int));
            }
        }
        Ok(None)
    }

    /// Looks the key up: the first index entry whose last key is at or above
    /// the key names the one block that could hold it; that block is sliced
    /// out of the image and scanned. A key above every last key is answered
    /// "not found" without touching the data region.
    pub fn get(&self, key: &[u8]) -> (r: Result<Option<Vec<u8>>, SstError>)
        ensures
            match r {
                Ok(Some(v)) => spec_get(self.data_bytes(), self.index_entries(), key@) == Some(
                    Some(v@),
                ),
                Ok(None) => spec_get(self.data_bytes(), self.index_entries(), key@) == Some(
                    None::<Seq<u8>>,
                ),
                Err(_) => spec_get(self.data_bytes(), self.index_entries(), key@) is None,
            },
    {
        let n: usize = self.index.len();
        proof {
            assert(self.index_entries().skip(0) =~= self.index_entries());
        }
        let mut i: usize = 0;
        while i < n
            invariant
                n == self.index@.len(),
                0 <= i <= n,
                spec_get(self.data_bytes(), self.index_entries(), key@) == spec_get(
                    self.data_bytes(),
                    self.index_entries().skip(i as int),
                    key@,
                ),
            decreases n - i,
        {
            let e = &self.index[i];
            let ghost sub = self.index_entries().skip(i as int);
            proof {
                assert(sub[0] == self.index_entries()[i as int]);
                assert(self.index_entries()[i as int] == self.index@[i as int]@);
                assert(sub.skip(1) =~= self.index_entries().skip(i + 1));
            }
            if bytes_le(key, e.last_key.as_slice()) {
                let off: u64 = e.block_offset;
                let sz: u64 = e.block_size;
                let dlen: usize = self.data.len();
                let dlen64: u64 = dlen as u64;
                if off > dlen64 || sz > dlen64 - off {
                    return Err(SstError::FormatInvalid);
                }
                let start: usize = off as usize;
                let end: usize = (off + sz) as usize;
                let block = slice_subrange(self.data.as_slice(), start, end);
                return Self::search_in_block(block, key);
            }
            i = i + 1;
        }
        proof {
            assert(self.index_entries().skip(n as int) =~= Seq::<(Seq<u8>, u64, u64)>::empty());
        }
        Ok(None)
    }
}

} // verus!
