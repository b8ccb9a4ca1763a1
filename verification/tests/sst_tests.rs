use sst::reader::{SstError, SstReader};
use sst::writer::{DataBlock, IndexEntry, SstWriter};

fn build_fruit_table() -> Vec<u8> {
    let mut w = SstWriter::new();
    w.add(b"apple", b"A fruit that grows on trees.");
    w.add(b"banana", b"An elongated, edible fruit.");
    w.add(b"cherry", b"A small, round stone fruit.");
    w.add(b"date", b"A sweet, dark brown oval fruit.");
    w.add(b"elderberry", b"A dark purple berry.");
    w.finish()
}

#[test]
fn scenario_five_fruits() {
    let file = build_fruit_table();
    let reader = SstReader::open(file).unwrap();
    assert_eq!(
        reader.get(b"cherry").unwrap(),
        Some(b"A small, round stone fruit.".to_vec())
    );
    assert_eq!(reader.get(b"fig").unwrap(), None);
    assert_eq!(
        reader.get(b"apple").unwrap(),
        Some(b"A fruit that grows on trees.".to_vec())
    );
}

#[test]
fn first_and_last_key_retrievable() {
    let file = build_fruit_table();
    let reader = SstReader::open(file).unwrap();
    assert_eq!(
        reader.get(b"apple").unwrap(),
        Some(b"A fruit that grows on trees.".to_vec())
    );
    assert_eq!(
        reader.get(b"elderberry").unwrap(),
        Some(b"A dark purple berry.".to_vec())
    );
}

#[test]
fn key_beyond_range_not_found() {
    let file = build_fruit_table();
    let reader = SstReader::open(file).unwrap();
    assert_eq!(reader.get(b"zzz").unwrap(), None);
    assert_eq!(reader.get(b"elderberryy").unwrap(), None);
}

#[test]
fn key_between_entries_not_found() {
    let file = build_fruit_table();
    let reader = SstReader::open(file).unwrap();
    assert_eq!(reader.get(b"coconut").unwrap(), None);
    assert_eq!(reader.get(b"").unwrap(), None);
}

fn numbered_key(i: usize) -> Vec<u8> {
    format!("key{:04}", i).into_bytes()
}

fn numbered_value(i: usize) -> Vec<u8> {
    let mut v = format!("value-{:04}-", i).into_bytes();
    v.extend(std::iter::repeat(b'x').take(90));
    v
}

#[test]
fn multi_block_lookups() {
    // about 110 bytes per pair, 200 pairs: well past several 4096-byte
    // flushes, so lookups cross block boundaries.
    let mut w = SstWriter::new();
    for i in 0..200 {
        w.add(&numbered_key(i), &numbered_value(i));
    }
    let file = w.finish();
    assert!(file.len() > 2 * 4096);
    let reader = SstReader::open(file).unwrap();
    for i in 0..200 {
        assert_eq!(reader.get(&numbered_key(i)).unwrap(), Some(numbered_value(i)));
    }
    assert_eq!(reader.get(b"key0200").unwrap(), None);
    assert_eq!(reader.get(b"kez").unwrap(), None);
}

#[test]
fn format_rejection_wrong_magic() {
    let mut file = build_fruit_table();
    let n = file.len();
    file[n - 1] ^= 0xff;
    assert!(matches!(SstReader::open(file), Err(SstError::FormatInvalid)));
}

#[test]
fn format_rejection_missing_magic() {
    assert!(matches!(SstReader::open(Vec::new()), Err(SstError::FormatInvalid)));
    assert!(matches!(SstReader::open(vec![0u8; 23]), Err(SstError::FormatInvalid)));
}

#[test]
fn format_rejection_bad_index_range() {
    let mut file = build_fruit_table();
    let n = file.len();
    // point the footer's index offset past the end of the file
    for b in file[n - 24..n - 16].iter_mut() {
        *b = 0xff;
    }
    assert!(matches!(SstReader::open(file), Err(SstError::FormatInvalid)));
}

#[test]
fn format_rejection_truncated_index() {
    let mut file = build_fruit_table();
    let n = file.len();
    // shrink the index size recorded in the footer to a partial record
    file[n - 16..n - 8].copy_from_slice(&5u64.to_le_bytes());
    assert!(matches!(SstReader::open(file), Err(SstError::FormatInvalid)));
}

#[test]
fn empty_table() {
    let w = SstWriter::new();
    let file = w.finish();
    // zero data blocks, an empty index block (a zero entry count), and the
    // footer pointing at it
    let mut expected: Vec<u8> = Vec::new();
    expected.extend_from_slice(&0u32.to_le_bytes());
    expected.extend_from_slice(&0u64.to_le_bytes());
    expected.extend_from_slice(&4u64.to_le_bytes());
    expected.extend_from_slice(&0xDEADBEEFCAFEBABEu64.to_le_bytes());
    assert_eq!(file, expected);
    assert_eq!(file.len(), 28);
    let reader = SstReader::open(file).unwrap();
    assert_eq!(reader.get(b"anything").unwrap(), None);
    assert_eq!(reader.get(b"").unwrap(), None);
}

#[test]
fn data_block_encoding_exact() {
    let mut block = DataBlock::new();
    block.add(b"a", b"bc");
    let bytes = block.to_bytes();
    let expected = vec![
        1, 0, 0, 0, // one entry
        1, 0, 0, 0, b'a', // key
        2, 0, 0, 0, b'b', b'c', // value
    ];
    assert_eq!(bytes, expected);
}

#[test]
fn data_block_last_key() {
    let mut block = DataBlock::new();
    assert!(block.last_key().is_none());
    block.add(b"alpha", b"1");
    block.add(b"beta", b"2");
    assert_eq!(block.last_key(), Some(&b"beta"[..]));
}

#[test]
fn index_entry_encoding_exact() {
    let entry = IndexEntry {
        last_key: b"ab".to_vec(),
        block_offset: 5,
        block_size: 300,
    };
    let bytes = entry.to_bytes();
    let mut expected: Vec<u8> = Vec::new();
    expected.extend_from_slice(&2u32.to_le_bytes());
    expected.extend_from_slice(b"ab");
    expected.extend_from_slice(&5u64.to_le_bytes());
    expected.extend_from_slice(&300u64.to_le_bytes());
    assert_eq!(bytes, expected);
}

#[test]
fn single_pair_round_trip() {
    let mut w = SstWriter::new();
    w.add(b"", b"empty key value");
    let file = w.finish();
    let reader = SstReader::open(file).unwrap();
    assert_eq!(reader.get(b"").unwrap(), Some(b"empty key value".to_vec()));
    assert_eq!(reader.get(b"a").unwrap(), None);
}

#[test]
fn empty_value_round_trip() {
    let mut w = SstWriter::new();
    w.add(b"k", b"");
    let file = w.finish();
    let reader = SstReader::open(file).unwrap();
    assert_eq!(reader.get(b"k").unwrap(), Some(Vec::new()));
}
