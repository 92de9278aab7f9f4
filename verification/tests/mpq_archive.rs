use std::io::Write;

use sc2replay::bytes::ParseError;
use sc2replay::mpq::parser::{
    find_hash_entry_by_name, le_u16_as_u64, le_u32_as_u64, le_u8_as_u64, parse_blocktable,
    parse_blocktable_entry, parse_hashtable, parse_hashtable_entry, parse_mpq_header, parse_sc2mpq_header,
    try_parse_sc2mpq_header, try_read_file,
};
use sc2replay::mpq::structs::{
    BlockFlag, BlockTableEntry, FileBlockIndex, FileMissingFlag, FileReadError, GameVersion, HashTableEntry,
    HashType, MPQHeader, SC2MPQHeader,
};
use sc2replay::mpq::utils::CryptTable;
use sc2replay::replay::{read_error_string, read_mpq_header, try_read_sc2mpq_header};
use sc2replay::sc2mpq::parser::parse_serialized_data;

fn header(shift: u64) -> MPQHeader {
    MPQHeader {
        header_size: 32,
        archive_size: 0,
        format_version: 0,
        sector_size_shift: shift,
        hashtable_offset: 0,
        hashtable_entries: 0,
        blocktable_offset: 0,
        blocktable_entries: 0,
        extended_blocktable_offset: 0,
    }
}

fn hash_entry() -> HashTableEntry {
    HashTableEntry {
        filepath_hash_a: 0,
        filepath_hash_b: 0,
        language: 0,
        platform_id: 0,
        file_block_index: FileBlockIndex::FilePresent(0),
    }
}

fn block(offset: u32, size: u32, file_size: u32, flags: u32) -> BlockTableEntry {
    BlockTableEntry { block_offset: offset, block_size: size, file_size, flags }
}

#[test]
fn table_keys_are_the_known_hashes() {
    let t = CryptTable::new();
    assert_eq!(t.hash("(hash table)".to_string(), HashType::MPQHashFileKey), 0xC3AF3770);
    assert_eq!(t.hash("(block table)".to_string(), HashType::MPQHashFileKey), 0xEC83B3A3);
}

#[test]
fn hash_ignores_case() {
    let t = CryptTable::new();
    let a = t.hash("replay.details".to_string(), HashType::MPQHashNameA);
    let b = t.hash("REPLAY.DETAILS".to_string(), HashType::MPQHashNameA);
    assert_eq!(a, b);
    assert!(a < 0x1_0000_0000);
}

#[test]
fn try_hash_refuses_characters_beyond_the_table() {
    let t = CryptTable::new();
    assert_eq!(t.try_hash("\u{4e00}".to_string(), HashType::MPQHashNameA), None);
    assert_eq!(
        t.try_hash("(hash table)".to_string(), HashType::MPQHashFileKey),
        Some(0xC3AF3770)
    );
}

#[test]
fn decrypt_keeps_length_and_words() {
    let t = CryptTable::new();
    let words = vec![0x12345678, 0x9ABCDEF0, 0, 0xFFFFFFFF];
    let out = t.decrypt(&words, 0xC3AF3770);
    assert_eq!(out.len(), words.len());
    assert!(out.iter().all(|w| *w < 0x1_0000_0000));
    assert_ne!(out, words);
    assert_eq!(t.decrypt(&[], 5), Vec::<u64>::new());
}

#[test]
fn mpq_header_fields() {
    let mut data = vec![0x4d, 0x50, 0x51, 0x1a];
    for v in [32u32, 1000] {
        data.extend_from_slice(&v.to_le_bytes());
    }
    data.extend_from_slice(&[0, 0, 3, 0]);
    for v in [16u32, 32, 4, 2] {
        data.extend_from_slice(&v.to_le_bytes());
    }
    data.push(0xEE);
    let (rest, h) = parse_mpq_header(&data).unwrap();
    assert_eq!(rest, &[0xEE][..]);
    assert_eq!(h.header_size, 32);
    assert_eq!(h.archive_size, 1000);
    assert_eq!(h.format_version, 0);
    assert_eq!(h.sector_size_shift, 3);
    assert_eq!(h.hashtable_offset, 16);
    assert_eq!(h.blocktable_offset, 32);
    assert_eq!(h.hashtable_entries, 4);
    assert_eq!(h.blocktable_entries, 2);
    assert_eq!(h.extended_blocktable_offset, 0);
    assert_eq!(h.blocktable_byte_size(), 32);
    assert_eq!(h.hashtable_byte_size(), 64);
}

#[test]
fn mpq_header_version_one_has_high_offsets() {
    let mut data = vec![0x4d, 0x50, 0x51, 0x1a];
    for v in [44u32, 1000] {
        data.extend_from_slice(&v.to_le_bytes());
    }
    data.extend_from_slice(&[1, 0, 3, 0]);
    for v in [16u32, 32, 4, 2] {
        data.extend_from_slice(&v.to_le_bytes());
    }
    data.extend_from_slice(&7u64.to_le_bytes());
    data.extend_from_slice(&[1, 0, 2, 0]);
    let (rest, h) = parse_mpq_header(&data).unwrap();
    assert!(rest.is_empty());
    assert_eq!(h.extended_blocktable_offset, 7);
    assert_eq!(h.hashtable_offset, 0x1_0000_0010);
    assert_eq!(h.blocktable_offset, 0x2_0000_0020);
}

#[test]
fn mpq_header_with_wrong_magic_is_refused() {
    let data = [0x4d, 0x50, 0x51, 0x1b, 0, 0, 0, 0];
    assert!(matches!(parse_mpq_header(&data), Err(ParseError::UnexpectedTag)));
}

#[test]
fn hash_table_entries_and_block_indices() {
    let mut data = Vec::new();
    for (a, b, idx) in [(1u32, 2u32, 0u32), (3, 4, 0xFFFFFFFF), (5, 6, 0xFFFFFFFE)] {
        data.extend_from_slice(&a.to_le_bytes());
        data.extend_from_slice(&b.to_le_bytes());
        data.extend_from_slice(&[9, 0, 1, 0]);
        data.extend_from_slice(&idx.to_le_bytes());
    }
    let (rest, e) = parse_hashtable_entry(&data).unwrap();
    assert_eq!(rest.len(), 32);
    assert_eq!(e.filepath_hash_a, 1);
    assert_eq!(e.filepath_hash_b, 2);
    assert_eq!(e.language, 9);
    assert_eq!(e.platform_id, 1);
    assert_eq!(e.file_block_index, FileBlockIndex::FilePresent(0));
    let (_, entries) = parse_hashtable(&data, 3).unwrap();
    assert_eq!(entries[1].file_block_index, FileBlockIndex::FileMissing(FileMissingFlag::Empty));
    assert_eq!(entries[2].file_block_index, FileBlockIndex::FileMissing(FileMissingFlag::Deleted));
    assert!(matches!(parse_hashtable(&data, 4), Err(ParseError::UnexpectedEnd)));
}

#[test]
fn block_table_entries() {
    let mut data = Vec::new();
    for v in [10u32, 20, 30, 0x81000000] {
        data.extend_from_slice(&v.to_le_bytes());
    }
    let (rest, entries) = parse_blocktable(&data, 1).unwrap();
    assert!(rest.is_empty());
    assert_eq!(entries, vec![block(10, 20, 30, 0x81000000)]);
}

#[test]
fn find_entry_by_name() {
    let t = CryptTable::new();
    let a = t.hash("(listfile)".to_string(), HashType::MPQHashNameA) as u32;
    let b = t.hash("(listfile)".to_string(), HashType::MPQHashNameB) as u32;
    let mut e = hash_entry();
    e.filepath_hash_a = a;
    e.filepath_hash_b = b;
    e.file_block_index = FileBlockIndex::FilePresent(3);
    let entries = vec![hash_entry(), e];
    let found = find_hash_entry_by_name("(listfile)".to_string(), &entries, &t).unwrap();
    assert_eq!(found.file_block_index, FileBlockIndex::FilePresent(3));
    assert!(find_hash_entry_by_name("replay.details".to_string(), &entries, &t).is_none());
}

#[test]
fn unit_file_stored_as_is() {
    let data = [9, 9, b'a', b'b', b'c', 9];
    let flags = BlockFlag::IsFile.value() | BlockFlag::IsUnit.value();
    let r = try_read_file(&data, &header(0), &block(2, 3, 3, flags), &hash_entry(), false);
    assert_eq!(r, Some(Ok(b"abc".to_vec())));
}

#[test]
fn unit_file_compressed_with_zlib() {
    let content = b"hello ".repeat(40);
    let mut enc = flate2::write::ZlibEncoder::new(Vec::new(), flate2::Compression::default());
    enc.write_all(&content).unwrap();
    let mut data = vec![2u8];
    data.extend_from_slice(&enc.finish().unwrap());
    let flags = BlockFlag::IsFile.value() | BlockFlag::IsUnit.value() | BlockFlag::IsCompressed.value();
    let size = data.len() as u32;
    let r = try_read_file(&data, &header(0), &block(0, size, content.len() as u32, flags), &hash_entry(), false);
    assert_eq!(r, Some(Ok(content)));
}

#[test]
fn unit_file_with_unknown_compression() {
    let data = [8u8, 1, 2];
    let flags = BlockFlag::IsFile.value() | BlockFlag::IsUnit.value() | BlockFlag::IsCompressed.value();
    let r = try_read_file(&data, &header(0), &block(0, 3, 10, flags), &hash_entry(), false);
    assert_eq!(r, Some(Err(FileReadError::UnknownCompression(8))));
}

#[test]
fn file_errors() {
    let data = [0u8; 8];
    let r = try_read_file(&data, &header(0), &block(0, 4, 4, 0), &hash_entry(), false);
    assert_eq!(r, Some(Err(FileReadError::NotAFile)));
    let flags = BlockFlag::IsFile.value() | BlockFlag::IsEncrypted.value();
    let r = try_read_file(&data, &header(0), &block(0, 4, 4, flags), &hash_entry(), false);
    assert_eq!(r, Some(Err(FileReadError::EncryptionNotImplemented)));
    let r = try_read_file(&data, &header(0), &block(0, 0, 4, BlockFlag::IsFile.value()), &hash_entry(), false);
    assert_eq!(r, Some(Err(FileReadError::ZeroSizedFile)));
    let flags = BlockFlag::IsFile.value() | BlockFlag::IsUnit.value();
    assert_eq!(try_read_file(&data, &header(0), &block(4, 8, 8, flags), &hash_entry(), false), None);
}

#[test]
fn sectored_file() {
    let data = [0u8, 0, 0, 12, 0, 0, 0, 8, b'w', b'x', b'y', b'z'];
    let flags = BlockFlag::IsFile.value();
    let r = try_read_file(&data, &header(0), &block(0, 12, 4, flags), &hash_entry(), false);
    assert_eq!(r, Some(Ok(b"wxyz".to_vec())));
}

#[test]
fn read_error_messages() {
    assert_eq!(read_error_string(FileReadError::EncryptionNotImplemented), "Encrypted file");
    assert_eq!(read_error_string(FileReadError::NotAFile), "Not a file");
    assert_eq!(read_error_string(FileReadError::ZeroSizedFile), "File size is null");
    assert_eq!(read_error_string(FileReadError::UnknownCompression(42)), "Unknown compression format 42");
    assert_eq!(read_error_string(FileReadError::FailedDecompression), "Failed to decompress the file");
}

#[test]
fn little_endian_readers() {
    assert_eq!(le_u32_as_u64(&[1, 2, 3, 4, 5]).unwrap(), (&[5u8][..], 0x04030201));
    assert_eq!(le_u16_as_u64(&[1, 2]).unwrap(), (&[][..], 0x0201));
    assert_eq!(le_u8_as_u64(&[0xFE, 0]).unwrap(), (&[0u8][..], 0xFE));
    assert_eq!(le_u32_as_u64(&[1, 2, 3]), Err(ParseError::UnexpectedEnd));
    assert_eq!(le_u16_as_u64(&[1]), Err(ParseError::UnexpectedEnd));
    assert_eq!(le_u8_as_u64(&[]), Err(ParseError::UnexpectedEnd));
}

#[test]
fn one_block_table_entry() {
    let mut data = Vec::new();
    for v in [1u32, 2, 3, 0x80000000] {
        data.extend_from_slice(&v.to_le_bytes());
    }
    data.push(7);
    let (rest, e) = parse_blocktable_entry(&data).unwrap();
    assert_eq!(rest, &[7u8][..]);
    assert_eq!(e, block(1, 2, 3, 0x80000000));
    assert!(matches!(parse_blocktable_entry(&data[..15]), Err(ParseError::UnexpectedEnd)));
}

#[test]
fn mpq_header_with_its_size() {
    let mut data = vec![0x4d, 0x50, 0x51, 0x1a];
    for v in [32u32, 1000] {
        data.extend_from_slice(&v.to_le_bytes());
    }
    data.extend_from_slice(&[0, 0, 3, 0]);
    for v in [16u32, 32, 4, 2] {
        data.extend_from_slice(&v.to_le_bytes());
    }
    data.extend_from_slice(&[1, 2, 3]);
    let (rest, h, size) = read_mpq_header(&data);
    assert_eq!(rest, &[1, 2, 3][..]);
    assert_eq!(size, 32);
    assert_eq!(h.blocktable_entries, 2);
}

fn sc2_header_bytes(offset: u32) -> Vec<u8> {
    let mut data = vec![0x4d, 0x50, 0x51, 0x1b];
    for v in [0x200u32, offset, 0x30] {
        data.extend_from_slice(&v.to_le_bytes());
    }
    data.extend_from_slice(&[
        0x05, 0x04,
        0x02, 0x05, 0x08, 0x02, 0x06, 0x02, 0x04, 0x06, 0x04, 0x06, 0x06, 0x06, 0x08, 0x09, 0x04,
        0x06, 0x06, 0x0b,
    ]);
    data
}

#[test]
fn sc2_user_header() {
    let mut data = sc2_header_bytes(40);
    data.extend_from_slice(&[0xAA, 0xBB]);
    let (rest, h) = parse_sc2mpq_header(&data).unwrap();
    assert_eq!(rest, &[0xAA, 0xBB][..]);
    assert_eq!(h.max_data_size, 0x200);
    assert_eq!(h.header_offset, 40);
    assert_eq!(h.data_size, 0x30);
    assert_eq!(h.game_version, GameVersion { major: 1, minor: 2, patch: 3, build: 4 });
    assert_eq!(h.game_length, 5);
    assert!(h.to_string().starts_with("\"SC2 MPQ Header\": {\n\t\"game version\":                 1.2.3.4,"));
    assert!(matches!(try_parse_sc2mpq_header(&[0x4d, 0x50, 0x51, 0x1a]), Some(Err(ParseError::UnexpectedTag))));
    let mut no_length = sc2_header_bytes(40);
    no_length.truncate(no_length.len() - 3);
    no_length[17] = 0x02;
    assert!(try_parse_sc2mpq_header(&no_length).is_none());
}

#[test]
fn sc2_user_header_then_archive() {
    let mut data = sc2_header_bytes(4);
    data.extend_from_slice(&[0, 0, 0, 0, 0x4d, 0x50]);
    let (rest, h, size) = try_read_sc2mpq_header(&data).unwrap();
    assert_eq!(size, 36);
    assert_eq!(rest, &[0x4d, 0x50][..]);
    assert_eq!(h.game_length, 5);
    let mut right_after = sc2_header_bytes(0);
    right_after.extend_from_slice(&[0x4d, 0x50]);
    assert_eq!(try_read_sc2mpq_header(&right_after).unwrap().0, &[0x4d, 0x50][..]);
    assert!(try_read_sc2mpq_header(&sc2_header_bytes(1)).is_none());
    assert!(try_read_sc2mpq_header(&sc2_header_bytes(400)).is_none());
}

#[test]
fn header_from_serialized_data() {
    let data = sc2_header_bytes(0);
    let (_, kv) = parse_serialized_data(&data[16..]).unwrap();
    let h = SC2MPQHeader::new(1, 2, 3, kv).unwrap();
    assert_eq!(h.max_data_size, 1);
    assert_eq!(h.header_offset, 2);
    assert_eq!(h.data_size, 3);
    assert_eq!(h.game_version.build, 4);
}

#[test]
fn decryption_keys_that_overflow() {
    assert!(!CryptTable::can_decrypt(1, 135));
    assert!(CryptTable::can_decrypt(1, 136));
    assert!(CryptTable::can_decrypt(0, 0));
    assert!(CryptTable::can_decrypt(64, 0xC3AF3770));
}

#[test]
fn decryption_reads_the_low_words_and_prefixes() {
    let t = CryptTable::new();
    let key = 0xC3AF3770;
    let words = [0x1_2345_6789u64, 0xFFFF_FFFF_0000_0001, 42];
    let low: Vec<u64> = words.iter().map(|x| x & 0xFFFF_FFFF).collect();
    let full = t.decrypt(&words, key);
    assert_eq!(full, t.decrypt(&low, key));
    assert_eq!(t.decrypt(&words[..2], key), full[..2].to_vec());
    assert_eq!(t.decrypt(&words[..0], key), Vec::<u64>::new());
}
