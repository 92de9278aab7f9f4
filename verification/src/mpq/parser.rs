use vstd::prelude::*;

use crate::bytes::{
    copy_bytes, be_value, read_be,
    le_field, le_value, read_le, starts_with, take_le, take_tag, ParseError, lemma_le_value_bound,
    lemma_pow256_values, lemma_pow256_mono,
};
use crate::sc2mpq::structs::{DataType, SpecData};
use crate::sc2mpq::parser::{parse_serialized_data, spec_data, parsed_as};
use super::structs::{
    SC2MPQHeader, sc2_header_fields, spec_sc2_header_fields,
    BlockFlag, BlockTableEntry, FileBlockIndex, FileMissingFlag, FileReadError, HashTableEntry,
    MPQHeader, HashType,
};
use super::utils::{CryptTable, hashable, spec_hash, upper_case};
use crate::utils::{lemma_unpacked_word, unpacked};
use std::io::Read;

verus! {

/// The magic number at the start of an MPQ header.
pub open spec fn mpq_magic() -> Seq<u8> {
    seq![0x4du8, 0x50u8, 0x51u8, 0x1au8]
}

/// The size of the MPQ header at the start of `s`: format version 1 adds 12 bytes.
pub open spec fn mpq_header_size(s: Seq<u8>) -> int {
    if s.len() >= 14 && le_field(s, 12, 2) == 1 {
        44
    } else {
        32
    }
}

/// The MPQ header at the start of `s`.
pub open spec fn spec_mpq_header(s: Seq<u8>) -> MPQHeader {
    let v1 = le_field(s, 12, 2) == 1;
    MPQHeader {
        header_size: le_field(s, 4, 4) as u64,
        archive_size: le_field(s, 8, 4) as u64,
        format_version: le_field(s, 12, 2) as u64,
        sector_size_shift: le_field(s, 14, 1) as u64,
        hashtable_offset: ((if v1 { le_field(s, 40, 2) * 0x1_0000_0000 } else { 0 }) + le_field(s, 16, 4)) as u64,
        blocktable_offset: ((if v1 { le_field(s, 42, 2) * 0x1_0000_0000 } else { 0 }) + le_field(s, 20, 4)) as u64,
        hashtable_entries: le_field(s, 24, 4) as u64,
        blocktable_entries: le_field(s, 28, 4) as u64,
        extended_blocktable_offset: (if v1 { le_field(s, 32, 8) } else { 0 }) as u64,
    }
}

/// The MPQ header is laid out as the README says: after the magic, the header size at byte
/// 4, the archive size at 8, the format version at 12 (two bytes), the sector size shift at
/// 14, the hash and block table offsets at 16 and 20, and their numbers of entries at 24
/// and 28, each a little-endian word; format version 1 adds the high halves of the two
/// offsets at 40 and 42 and the extended block table offset at 32.
pub proof fn lemma_mpq_header_layout(s: Seq<u8>)
    requires
        s.len() >= 32,
    ensures
        ({
            let h = spec_mpq_header(s);
            let v1 = le_value(s.subrange(12, 14)) == 1;
            &&& h.header_size == le_value(s.subrange(4, 8))
            &&& h.archive_size == le_value(s.subrange(8, 12))
            &&& h.format_version == le_value(s.subrange(12, 14))
            &&& h.sector_size_shift == le_value(s.subrange(14, 15))
            &&& h.hashtable_entries == le_value(s.subrange(24, 28))
            &&& h.blocktable_entries == le_value(s.subrange(28, 32))
            &&& !v1 ==> h.hashtable_offset == le_value(s.subrange(16, 20))
            &&& !v1 ==> h.blocktable_offset == le_value(s.subrange(20, 24))
            &&& !v1 ==> h.extended_blocktable_offset == 0
            &&& v1 && s.len() >= 44 ==> h.hashtable_offset == (le_value(s.subrange(40, 42)) * 0x1_0000_0000 + le_value(
                s.subrange(16, 20),
            )) as u64
            &&& v1 && s.len() >= 44 ==> h.blocktable_offset == (le_value(s.subrange(42, 44)) * 0x1_0000_0000 + le_value(
                s.subrange(20, 24),
            )) as u64
            &&& v1 && s.len() >= 44 ==> h.extended_blocktable_offset == le_value(s.subrange(32, 40)) as u64
        }),
        mpq_header_size(s) == if le_value(s.subrange(12, 14)) == 1 { 44int } else { 32 },
{
    lemma_field_bound(s, 4, 4);
    lemma_field_bound(s, 8, 4);
    lemma_field_bound(s, 12, 2);
    lemma_field_bound(s, 14, 1);
    lemma_field_bound(s, 16, 4);
    lemma_field_bound(s, 20, 4);
    lemma_field_bound(s, 24, 4);
    lemma_field_bound(s, 28, 4);
    if s.len() >= 44 {
        lemma_field_bound(s, 32, 8);
    }
}

/// The SC2 user header is laid out as the README says: the magic 4D 50 51 1B, then three
/// little-endian words, the largest size of the user data at byte 4, the offset of the MPQ
/// header at 8 and the size of the user data at 12, then the serialized data from byte 16.
pub proof fn lemma_sc2_header_layout(s: Seq<u8>)
    ensures
        !(s.len() >= 4 && s[0] == 0x4D && s[1] == 0x50 && s[2] == 0x51 && s[3] == 0x1B) ==> spec_sc2mpq_header(s)
            == Some(Err::<(nat, u64, u64, u64, SpecData), ParseError>(ParseError::UnexpectedTag)),
        spec_sc2mpq_header(s) matches Some(Ok((c, max_size, offset, size, kv))) ==> {
            &&& spec_data(s.skip(16)) matches Ok((c2, kv2)) && c == 16 + c2 && kv == kv2
            &&& max_size == le_value(s.subrange(4, 8))
            &&& offset == le_value(s.subrange(8, 12))
            &&& size == le_value(s.subrange(12, 16))
        },
{
    if s.len() >= 16 {
        lemma_field_bound(s, 4, 4);
        lemma_field_bound(s, 8, 4);
        lemma_field_bound(s, 12, 4);
    }
    if !(s.len() >= 4 && s[0] == 0x4D && s[1] == 0x50 && s[2] == 0x51 && s[3] == 0x1B) {
        if s.len() >= 4 {
            assert(!(s.subrange(0, 4) =~= sc2_magic()));
        }
    }
}

/// The block table entry at position `off` of `s`.
pub open spec fn spec_blocktable_entry(s: Seq<u8>, off: int) -> BlockTableEntry {
    BlockTableEntry {
        block_offset: le_field(s, off, 4) as u32,
        block_size: le_field(s, off + 4, 4) as u32,
        file_size: le_field(s, off + 8, 4) as u32,
        flags: le_field(s, off + 12, 4) as u32,
    }
}

/// What a block index of a hash table entry says of the file.
pub open spec fn block_index_of(v: u32) -> FileBlockIndex {
    if v == 0xFFFFFFFF {
        FileBlockIndex::FileMissing(FileMissingFlag::Empty)
    } else if v == 0xFFFFFFFE {
        FileBlockIndex::FileMissing(FileMissingFlag::Deleted)
    } else {
        FileBlockIndex::FilePresent(v)
    }
}

/// The hash table entry at position `off` of `s`.
pub open spec fn spec_hashtable_entry(s: Seq<u8>, off: int) -> HashTableEntry {
    HashTableEntry {
        filepath_hash_a: le_field(s, off, 4) as u32,
        filepath_hash_b: le_field(s, off + 4, 4) as u32,
        language: le_field(s, off + 8, 2) as u16,
        platform_id: le_field(s, off + 10, 1) as u8,
        file_block_index: block_index_of(le_field(s, off + 12, 4) as u32),
    }
}

/// The entries of the tables are made of the decrypted words: a block table entry is the
/// block offset, block size, file size and flags, one word each; a hash table entry starts
/// with the name hashes A and B, one word each, and ends with the block index word, where
/// 0xFFFFFFFF marks an empty slot and 0xFFFFFFFE a deleted file.
pub proof fn lemma_entries_of_words(words: Seq<u64>, i: int)
    requires
        0 <= i,
        4 * i + 4 <= words.len(),
    ensures
        spec_blocktable_entry(unpacked(words), 16 * i) == (BlockTableEntry {
            block_offset: (words[4 * i] % 0x1_0000_0000) as u32,
            block_size: (words[4 * i + 1] % 0x1_0000_0000) as u32,
            file_size: (words[4 * i + 2] % 0x1_0000_0000) as u32,
            flags: (words[4 * i + 3] % 0x1_0000_0000) as u32,
        }),
        spec_hashtable_entry(unpacked(words), 16 * i).filepath_hash_a == words[4 * i] % 0x1_0000_0000,
        spec_hashtable_entry(unpacked(words), 16 * i).filepath_hash_b == words[4 * i + 1] % 0x1_0000_0000,
        ({
            let b = words[4 * i + 3] % 0x1_0000_0000;
            let x = spec_hashtable_entry(unpacked(words), 16 * i).file_block_index;
            &&& b == 0xFFFFFFFF ==> x == FileBlockIndex::FileMissing(FileMissingFlag::Empty)
            &&& b == 0xFFFFFFFE ==> x == FileBlockIndex::FileMissing(FileMissingFlag::Deleted)
            &&& b < 0xFFFFFFFE ==> x == FileBlockIndex::FilePresent(b as u32)
        }),
{
    lemma_unpacked_word(words, 4 * i);
    lemma_unpacked_word(words, 4 * i + 1);
    lemma_unpacked_word(words, 4 * i + 2);
    lemma_unpacked_word(words, 4 * i + 3);
    assert(16 * i + 4 == 4 * (4 * i + 1));
    assert(16 * i + 8 == 4 * (4 * i + 2));
    assert(16 * i + 12 == 4 * (4 * i + 3));
}

proof fn lemma_field_bound(s: Seq<u8>, off: int, n: int)
    requires
        0 <= off,
        off + n <= s.len(),
        n == 1 || n == 2 || n == 4 || n == 8,
    ensures
        n == 1 ==> le_field(s, off, n) < 0x100,
        n == 2 ==> le_field(s, off, n) < 0x1_0000,
        n == 4 ==> le_field(s, off, n) < 0x1_0000_0000,
        n == 8 ==> le_field(s, off, n) < 0x1_0000_0000_0000_0000,
{
    lemma_le_value_bound(s.subrange(off, off + n));
    lemma_pow256_values();
}

/// The little-endian value of the bytes `a`, at most 8 of them.
fn to_u64_le(a: &[u8]) -> (v: u64)
    requires
        a@.len() <= 8,
    ensures
        v == le_value(a@),
{
    let v = read_le(a, 0, a.len());
    assert(a@.subrange(0, a@.len() as int) =~= a@);
    v
}

/// Reads a little-endian `u32` as a `u64`.
pub fn le_u32_as_u64(data: &[u8]) -> (res: Result<(&[u8], u64), ParseError>)
    ensures
        4 <= data@.len() ==> (res matches Ok((rest, v)) && rest@ == data@.skip(4) && v == le_field(
            data@,
            0,
            4,
        )),
        4 > data@.len() ==> res == Err::<(&[u8], u64), ParseError>(ParseError::UnexpectedEnd),
{
    take_le(data, 4)
}

/// Reads a little-endian `u16` as a `u64`.
pub fn le_u16_as_u64(data: &[u8]) -> (res: Result<(&[u8], u64), ParseError>)
    ensures
        2 <= data@.len() ==> (res matches Ok((rest, v)) && rest@ == data@.skip(2) && v == le_field(
            data@,
            0,
            2,
        )),
        2 > data@.len() ==> res == Err::<(&[u8], u64), ParseError>(ParseError::UnexpectedEnd),
{
    take_le(data, 2)
}

/// Reads a byte as a `u64`.
pub fn le_u8_as_u64(data: &[u8]) -> (res: Result<(&[u8], u64), ParseError>)
    ensures
        1 <= data@.len() ==> (res matches Ok((rest, v)) && rest@ == data@.skip(1) && v == data@[0]),
        1 > data@.len() ==> res == Err::<(&[u8], u64), ParseError>(ParseError::UnexpectedEnd),
{
    let r = take_le(data, 1);
    proof {
        if 1 <= data@.len() {
            let s = data@.subrange(0, 1);
            assert(s.drop_first() =~= Seq::<u8>::empty());
            assert(le_value(s.drop_first()) == 0);
            assert(s[0] == data@[0]);
            assert(le_value(s) == s[0]);
        }
    }
    r
}

/// Parses the MPQ header at the start of `data` and returns it with what follows it.
pub fn parse_mpq_header(data: &[u8]) -> (res: Result<(&[u8], MPQHeader), ParseError>)
    ensures
        !starts_with(data@, mpq_magic()) ==> res == Err::<(&[u8], MPQHeader), ParseError>(
            ParseError::UnexpectedTag,
        ),
        starts_with(data@, mpq_magic()) && data@.len() < mpq_header_size(data@) ==> res == Err::<
            (&[u8], MPQHeader),
            ParseError,
        >(ParseError::UnexpectedEnd),
        starts_with(data@, mpq_magic()) && data@.len() >= mpq_header_size(data@) ==> (res matches Ok(
            (rest, h),
        ) && rest@ == data@.skip(mpq_header_size(data@)) && h == spec_mpq_header(data@)),
{
    let magic: [u8; 4] = [0x4d, 0x50, 0x51, 0x1a];
    assert(magic@ =~= mpq_magic());
    let _ = take_tag(data, &magic)?;
    if data.len() < 32 {
        return Err(ParseError::UnexpectedEnd);
    }
    let header_size = read_le(data, 4, 4);
    let archive_size = read_le(data, 8, 4);
    let format_version = read_le(data, 12, 2);
    let sector_size_shift = read_le(data, 14, 1);
    let hashtable_offset = read_le(data, 16, 4);
    let blocktable_offset = read_le(data, 20, 4);
    let hashtable_entries = read_le(data, 24, 4);
    let blocktable_entries = read_le(data, 28, 4);
    let mut end: usize = 32;
    let mut extended_blocktable_offset: u64 = 0;
    let mut hashtable_offset_high: u64 = 0;
    let mut blocktable_offset_high: u64 = 0;
    if format_version == 1 {
        if data.len() < 44 {
            return Err(ParseError::UnexpectedEnd);
        }
        extended_blocktable_offset = to_u64_le(&data[32..40]);
        hashtable_offset_high = to_u64_le(&data[40..42]);
        blocktable_offset_high = to_u64_le(&data[42..44]);
        end = 44;
        proof {
            lemma_field_bound(data@, 40, 2);
            lemma_field_bound(data@, 42, 2);
        }
    }
    proof {
        lemma_field_bound(data@, 16, 4);
        lemma_field_bound(data@, 20, 4);
    }
    let header = MPQHeader {
        header_size,
        archive_size,
        format_version,
        sector_size_shift,
        hashtable_offset: hashtable_offset_high * 0x1_0000_0000 + hashtable_offset,
        blocktable_offset: blocktable_offset_high * 0x1_0000_0000 + blocktable_offset,
        hashtable_entries,
        blocktable_entries,
        extended_blocktable_offset,
    };
    Ok((&data[end..data.len()], header))
}

/// The block table entry at position `pos` of `data`.
fn blocktable_entry_at(data: &[u8], pos: usize) -> (e: BlockTableEntry)
    requires
        pos + 16 <= data.len(),
    ensures
        e == spec_blocktable_entry(data@, pos as int),
{
    proof {
        lemma_field_bound(data@, pos as int, 4);
        lemma_field_bound(data@, pos + 4, 4);
        lemma_field_bound(data@, pos + 8, 4);
        lemma_field_bound(data@, pos + 12, 4);
    }
    BlockTableEntry {
        block_offset: read_le(data, pos, 4) as u32,
        block_size: read_le(data, pos + 4, 4) as u32,
        file_size: read_le(data, pos + 8, 4) as u32,
        flags: read_le(data, pos + 12, 4) as u32,
    }
}

/// Parses one block table entry.
pub fn parse_blocktable_entry(data: &[u8]) -> (res: Result<(&[u8], BlockTableEntry), ParseError>)
    ensures
        16 <= data@.len() ==> (res matches Ok((rest, e)) && rest@ == data@.skip(16) && e
            == spec_blocktable_entry(data@, 0)),
        16 > data@.len() ==> res == Err::<(&[u8], BlockTableEntry), ParseError>(
            ParseError::UnexpectedEnd,
        ),
{
    if data.len() < 16 {
        return Err(ParseError::UnexpectedEnd);
    }
    let e = blocktable_entry_at(data, 0);
    Ok((&data[16..data.len()], e))
}

/// Parses `size` block table entries and returns them with what follows them.
pub fn parse_blocktable(data: &[u8], size: usize) -> (res: Result<(&[u8], Vec<BlockTableEntry>), ParseError>)
    ensures
        16 * size <= data@.len() ==> (res matches Ok((rest, v)) && rest@ == data@.skip(16 * size)
            && v@.len() == size && forall|i: int|
            0 <= i < size ==> #[trigger] v@[i] == spec_blocktable_entry(data@, 16 * i)),
        16 * size > data@.len() ==> res == Err::<(&[u8], Vec<BlockTableEntry>), ParseError>(
            ParseError::UnexpectedEnd,
        ),
{
    let mut v: Vec<BlockTableEntry> = Vec::new();
    let mut pos: usize = 0;
    let mut i: usize = 0;
    while i < size
        invariant
            i <= size,
            pos == 16 * i,
            pos <= data.len(),
            v@.len() == i,
            forall|k: int| 0 <= k < i ==> #[trigger] v@[k] == spec_blocktable_entry(data@, 16 * k),
        decreases size - i,
    {
        if data.len() - pos < 16 {
            return Err(ParseError::UnexpectedEnd);
        }
        v.push(blocktable_entry_at(data, pos));
        pos += 16;
        i += 1;
    }
    Ok((&data[pos..data.len()], v))
}

/// The hash table entry at position `pos` of `data`.
fn hashtable_entry_at(data: &[u8], pos: usize) -> (e: HashTableEntry)
    requires
        pos + 16 <= data.len(),
    ensures
        e == spec_hashtable_entry(data@, pos as int),
{
    proof {
        lemma_field_bound(data@, pos as int, 4);
        lemma_field_bound(data@, pos + 4, 4);
        lemma_field_bound(data@, pos + 8, 2);
        lemma_field_bound(data@, pos + 10, 1);
        lemma_field_bound(data@, pos + 12, 4);
    }
    let fp_hash_a = read_le(data, pos, 4) as u32;
    let fp_hash_b = read_le(data, pos + 4, 4) as u32;
    let langid = read_le(data, pos + 8, 2) as u16;
    let platform = read_le(data, pos + 10, 1) as u8;
    let fb_idx = read_le(data, pos + 12, 4) as u32;
    HashTableEntry {
        filepath_hash_a: fp_hash_a,
        filepath_hash_b: fp_hash_b,
        language: langid,
        platform_id: platform,
        file_block_index: if fb_idx == FileMissingFlag::Empty.value() {
            FileBlockIndex::FileMissing(FileMissingFlag::Empty)
        } else if fb_idx == FileMissingFlag::Deleted.value() {
            FileBlockIndex::FileMissing(FileMissingFlag::Deleted)
        } else {
            FileBlockIndex::FilePresent(fb_idx)
        },
    }
}

/// Parses one hash table entry.
pub fn parse_hashtable_entry(data: &[u8]) -> (res: Result<(&[u8], HashTableEntry), ParseError>)
    ensures
        16 <= data@.len() ==> (res matches Ok((rest, e)) && rest@ == data@.skip(16) && e
            == spec_hashtable_entry(data@, 0)),
        16 > data@.len() ==> res == Err::<(&[u8], HashTableEntry), ParseError>(
            ParseError::UnexpectedEnd,
        ),
{
    if data.len() < 16 {
        return Err(ParseError::UnexpectedEnd);
    }
    let e = hashtable_entry_at(data, 0);
    Ok((&data[16..data.len()], e))
}

/// Parses `size` hash table entries and returns them with what follows them.
pub fn parse_hashtable(data: &[u8], size: usize) -> (res: Result<(&[u8], Vec<HashTableEntry>), ParseError>)
    ensures
        16 * size <= data@.len() ==> (res matches Ok((rest, v)) && rest@ == data@.skip(16 * size)
            && v@.len() == size && forall|i: int|
            0 <= i < size ==> #[trigger] v@[i] == spec_hashtable_entry(data@, 16 * i)),
        16 * size > data@.len() ==> res == Err::<(&[u8], Vec<HashTableEntry>), ParseError>(
            ParseError::UnexpectedEnd,
        ),
{
    let mut v: Vec<HashTableEntry> = Vec::new();
    let mut pos: usize = 0;
    let mut i: usize = 0;
    while i < size
        invariant
            i <= size,
            pos == 16 * i,
            pos <= data.len(),
            v@.len() == i,
            forall|k: int| 0 <= k < i ==> #[trigger] v@[k] == spec_hashtable_entry(data@, 16 * k),
        decreases size - i,
    {
        if data.len() - pos < 16 {
            return Err(ParseError::UnexpectedEnd);
        }
        v.push(hashtable_entry_at(data, pos));
        pos += 16;
        i += 1;
    }
    Ok((&data[pos..data.len()], v))
}

/// What a zlib decoder of `flate2`, read to the end, gives for the stream `data`;
/// `None` where reading fails.
pub uninterp spec fn zlib_decoded(data: Seq<u8>) -> Option<Seq<u8>>;

/// What a bzip2 decoder of `bzip2`, read to the end, gives for the stream `data`;
/// `None` where reading fails.
pub uninterp spec fn bzip2_decoded(data: Seq<u8>) -> Option<Seq<u8>>;

/// Reads a `flate2::read::ZlibDecoder` over `data` to the end with `Read::read_to_end`.
/// The contract names the outcome, which depends on the bytes alone, and states nothing of it.
#[verifier::external_body]
fn zlib_decompress(data: &[u8]) -> (res: Option<Vec<u8>>)
    ensures
        match res {
            Some(v) => zlib_decoded(data@) == Some(v@),
            None => zlib_decoded(data@) is None,
        },
{
    let mut input = data;
    let mut z = flate2::read::ZlibDecoder::new(&mut input);
    let mut out = Vec::new();
    match z.read_to_end(&mut out) {
        Ok(_) => Some(out),
        Err(_) => None,
    }
}

/// Reads a `bzip2::read::BzDecoder` over `data` to the end with `Read::read_to_end`.
/// The contract names the outcome, which depends on the bytes alone, and states nothing of it.
#[verifier::external_body]
fn bzip2_decompress(data: &[u8]) -> (res: Option<Vec<u8>>)
    ensures
        match res {
            Some(v) => bzip2_decoded(data@) == Some(v@),
            None => bzip2_decoded(data@) is None,
        },
{
    let mut d = bzip2::read::BzDecoder::new(data);
    let mut out = Vec::new();
    match d.read_to_end(&mut out) {
        Ok(_) => Some(out),
        Err(_) => None,
    }
}

/// What decompressing a block gives, where its first byte names the compression:
/// `None` where the block is empty or a zlib stream cannot be read (there the
/// decompression panics).
pub open spec fn spec_decompress(block: Seq<u8>) -> Option<Result<Seq<u8>, FileReadError>> {
    if block.len() == 0 {
        None
    } else {
        let rest = block.drop_first();
        if block[0] == 0 {
            Some(Ok(rest))
        } else if block[0] == 2 {
            match zlib_decoded(rest) {
                Some(v) => Some(Ok(v)),
                None => None,
            }
        } else if block[0] == 16 {
            match bzip2_decoded(rest) {
                Some(v) => Some(Ok(v)),
                None => Some(Err(FileReadError::FailedDecompression)),
            }
        } else {
            Some(Err(FileReadError::UnknownCompression(block[0] as u64)))
        }
    }
}

/// Decompression gives back what was compressed: a block made of the tag of no compression
/// and some bytes gives those bytes; a block made of the zlib tag (2) and a zlib stream gives
/// what the stream inflates to; a block made of the bzip2 tag (16) and a bzip2 stream gives
/// what that stream decompresses to, and a failed bzip2 decompression is reported as such;
/// any other tag is reported as an unknown compression.
pub proof fn lemma_decompress_tagged(stream: Seq<u8>)
    ensures
        spec_decompress(seq![0u8] + stream) == Some(Ok::<Seq<u8>, FileReadError>(stream)),
        zlib_decoded(stream) matches Some(x) ==> spec_decompress(seq![2u8] + stream) == Some(
            Ok::<Seq<u8>, FileReadError>(x),
        ),
        bzip2_decoded(stream) matches Some(x) ==> spec_decompress(seq![16u8] + stream) == Some(
            Ok::<Seq<u8>, FileReadError>(x),
        ),
        bzip2_decoded(stream) is None ==> spec_decompress(seq![16u8] + stream) == Some(
            Err::<Seq<u8>, FileReadError>(FileReadError::FailedDecompression),
        ),
        forall|t: u8| t != 0 && t != 2 && t != 16 ==> spec_decompress(#[trigger] (seq![t] + stream)) == Some(
            Err::<Seq<u8>, FileReadError>(FileReadError::UnknownCompression(t as u64)),
        ),
{
    assert((seq![0u8] + stream).drop_first() =~= stream);
    assert((seq![2u8] + stream).drop_first() =~= stream);
    assert((seq![16u8] + stream).drop_first() =~= stream);
}

/// The spec outcome of a fallible computation, taken by the view of its result.
pub open spec fn outcome_of(res: Option<Result<Vec<u8>, FileReadError>>) -> Option<Result<Seq<u8>, FileReadError>> {
    match res {
        None => None,
        Some(Ok(v)) => Some(Ok(v@)),
        Some(Err(e)) => Some(Err(e)),
    }
}

/// Decompresses a block whose first byte names the compression; `None` where the block
/// cannot be decompressed without a panic (an empty block or an unreadable zlib stream).
fn decompress(block: &[u8]) -> (res: Option<Result<Vec<u8>, FileReadError>>)
    ensures
        outcome_of(res) == spec_decompress(block@),
{
    let (block, compression_header) = match le_u8_as_u64(block) {
        Ok(r) => r,
        Err(_) => return None,
    };
    if compression_header == 0 {
        Some(Ok(copy_bytes(block)))
    } else if compression_header == 2 {
        match zlib_decompress(block) {
            Some(v) => Some(Ok(v)),
            None => None,
        }
    } else if compression_header == 16 {
        match bzip2_decompress(block) {
            Some(v) => Some(Ok(v)),
            None => Some(Err(FileReadError::FailedDecompression)),
        }
    } else {
        Some(Err(FileReadError::UnknownCompression(compression_header)))
    }
}

/// The sector size, in bytes, of an archive with sector size shift `shift`.
pub open spec fn sector_size(shift: u64) -> u32 {
    (512 * vstd::arithmetic::power2::pow2(shift as nat)) as u32
}

/// Whether sectors of a block carry a checksum, as the file reader tests it: it compares
/// the masked checksum flag with 1, which it never equals (the masked word is 0 or
/// 0x04000000), so this is false for every word of flags and no checksum offset is counted.
pub open spec fn has_crc(flags: u32) -> bool {
    flags & 0x04000000 == 1
}

/// The number of sectors that the file reader reads from a block of `block_size` bytes.
pub open spec fn sector_count(block_size: u32, shift: u64) -> int {
    block_size / sector_size(shift) + 1
}

/// The number of sector offsets at the start of the block: one more than the sectors, and
/// one more still where the sectors carry a checksum.
pub open spec fn offset_count(block_size: u32, shift: u64, flags: u32) -> int {
    sector_count(block_size, shift) + (if has_crc(flags) { 1int } else { 0 }) + 1
}

/// Sector offset `k` as the file reader reads it: the offset table (`n` entries at the start
/// of the block) is read backwards, byte by byte, as little-endian words, so that offset `k`
/// is the big-endian word that ends `4 * k` bytes before the end of the table.
pub open spec fn sector_offset(block: Seq<u8>, n: int, k: int) -> nat {
    crate::bytes::be_value(block.subrange(4 * n - 4 * k - 4, 4 * n - 4 * k))
}

/// Whether sector `i` is decompressed: the block is compressed and the file holds more than
/// the sector (or decompression is forced).
pub open spec fn sector_is_compressed(flags: u32, force: bool, left: int, len: int) -> bool {
    flags & BlockFlag::IsCompressed.spec_value() != 0 && (force || left > len)
}

/// The content of sectors `i` up to `count` of `block`, where `left` bytes of the file are
/// yet to come; `None` where reading them panics.
pub open spec fn spec_sectors(
    block: Seq<u8>,
    n: int,
    flags: u32,
    force: bool,
    i: int,
    count: int,
    left: int,
) -> Option<Result<Seq<u8>, FileReadError>>
    decreases count - i,
{
    if i >= count {
        Some(Ok(seq![]))
    } else {
        let p = sector_offset(block, n, i);
        let q = sector_offset(block, n, i + 1);
        if !(p <= q <= block.len()) {
            None
        } else {
            let sector = block.subrange(p as int, q as int);
            let out = if sector_is_compressed(flags, force, left, sector.len() as int) {
                spec_decompress(sector)
            } else {
                Some(Ok(sector))
            };
            match out {
                None => None,
                Some(Err(e)) => Some(Err(e)),
                Some(Ok(o)) => if o.len() > left {
                    None
                } else {
                    match spec_sectors(block, n, flags, force, i + 1, count, left - o.len()) {
                        None => None,
                        Some(Err(e)) => Some(Err(e)),
                        Some(Ok(r)) => Some(Ok(o + r)),
                    }
                },
            }
        }
    }
}

/// A block that is not a file (flag 0x80000000 clear) is refused as such; a file that is
/// encrypted (flag 0x10000) is refused as encrypted; a file of an empty block is refused as
/// empty; these checks come in this order, before the block is read.
pub proof fn lemma_read_file_refusals(data: Seq<u8>, header: MPQHeader, bt: BlockTableEntry, force: bool)
    ensures
        bt.flags & 0x8000_0000 == 0 ==> spec_read_file(data, header, bt, force) == Some(
            Err::<Seq<u8>, FileReadError>(FileReadError::NotAFile),
        ),
        bt.flags & 0x8000_0000 != 0 && bt.flags & 0x1_0000 != 0 ==> spec_read_file(data, header, bt, force)
            == Some(Err::<Seq<u8>, FileReadError>(FileReadError::EncryptionNotImplemented)),
        bt.flags & 0x8000_0000 != 0 && bt.flags & 0x1_0000 == 0 && bt.block_size == 0 ==> spec_read_file(
            data,
            header,
            bt,
            force,
        ) == Some(Err::<Seq<u8>, FileReadError>(FileReadError::ZeroSizedFile)),
{
}

/// How the sectors of a block are read, whatever `force` says: a sector of a compressed block
/// (flag 0x200) that is shorter than what the block still has left is decompressed, and its
/// decompressed bytes come first; a sector of a block without that flag is taken as it is.
pub proof fn lemma_sector_decompression(
    block: Seq<u8>,
    n: int,
    flags: u32,
    force: bool,
    i: int,
    count: int,
    left: int,
)
    requires
        i < count,
        sector_offset(block, n, i) <= sector_offset(block, n, i + 1) <= block.len(),
    ensures
        ({
            let sector = block.subrange(sector_offset(block, n, i) as int, sector_offset(block, n, i + 1) as int);
            let rest = |o: Seq<u8>| if o.len() > left {
                None
            } else {
                prepend(o, spec_sectors(block, n, flags, force, i + 1, count, left - o.len()))
            };
            &&& (flags & 0x200 != 0 && sector.len() < left) ==> spec_sectors(block, n, flags, force, i, count, left)
                == match spec_decompress(sector) {
                None => None,
                Some(Err(e)) => Some(Err(e)),
                Some(Ok(o)) => rest(o),
            }
            &&& flags & 0x200 == 0 ==> spec_sectors(block, n, flags, force, i, count, left) == rest(sector)
        }),
{
}

/// A block stored as a single unit is decompressed as a whole where it is compressed
/// (flag 0x200) and shorter than the file, whatever `force` says, and taken as it is where it
/// is not compressed.
pub proof fn lemma_unit_decompression(data: Seq<u8>, header: MPQHeader, bt: BlockTableEntry, force: bool)
    requires
        bt.flags & 0x8000_0000 != 0,
        bt.flags & 0x0001_0000 == 0,
        bt.flags & 0x0100_0000 != 0,
        bt.block_size > 0,
        bt.block_offset + bt.block_size <= data.len(),
    ensures
        ({
            let block = data.subrange(bt.block_offset as int, bt.block_offset + bt.block_size);
            &&& (bt.flags & 0x200 != 0 && bt.block_size < bt.file_size) ==> spec_read_file(data, header, bt, force)
                == spec_decompress(block)
            &&& bt.flags & 0x200 == 0 ==> spec_read_file(data, header, bt, force) == Some(
                Ok::<Seq<u8>, FileReadError>(block),
            )
        }),
{
}

/// What reading the file of block table entry `bt` from the archive `data` gives;
/// `None` where the reader panics.
pub open spec fn spec_read_file(data: Seq<u8>, header: MPQHeader, bt: BlockTableEntry, force: bool) -> Option<
    Result<Seq<u8>, FileReadError>,
> {
    if bt.flags & BlockFlag::IsFile.spec_value() == 0 {
        Some(Err(FileReadError::NotAFile))
    } else if bt.flags & BlockFlag::IsEncrypted.spec_value() != 0 {
        Some(Err(FileReadError::EncryptionNotImplemented))
    } else if bt.block_size == 0 {
        Some(Err(FileReadError::ZeroSizedFile))
    } else if bt.block_offset + bt.block_size > data.len() {
        None
    } else {
        let block = data.subrange(bt.block_offset as int, bt.block_offset + bt.block_size);
        if bt.flags & BlockFlag::IsUnit.spec_value() != 0 {
            if sector_is_compressed(bt.flags, force, bt.file_size as int, bt.block_size as int) {
                spec_decompress(block)
            } else {
                Some(Ok(block))
            }
        } else if header.sector_size_shift > 22 {
            None
        } else {
            let n = offset_count(bt.block_size, header.sector_size_shift, bt.flags);
            if 4 * n > block.len() {
                None
            } else {
                spec_sectors(block, n, bt.flags, force, 0, n - (if has_crc(bt.flags) { 2int } else { 1 }), bt.block_size as int)
            }
        }
    }
}

/// `acc` followed by the content in `r`, if any.
pub open spec fn prepend(acc: Seq<u8>, r: Option<Result<Seq<u8>, FileReadError>>) -> Option<Result<Seq<u8>, FileReadError>> {
    match r {
        None => None,
        Some(Err(e)) => Some(Err(e)),
        Some(Ok(x)) => Some(Ok(acc + x)),
    }
}

/// Reads the file of block table entry `bt_entry` from the archive `data`;
/// `None` where reading it panics.
fn read_file_impl(data: &[u8], header: &MPQHeader, bt_entry: &BlockTableEntry, force_decompress: bool) -> (res: Option<
    Result<Vec<u8>, FileReadError>,
>)
    ensures
        outcome_of(res) == spec_read_file(data@, *header, *bt_entry, force_decompress),
{
    let flags = bt_entry.flags;
    if flags & BlockFlag::IsFile.value() == 0 {
        return Some(Err(FileReadError::NotAFile));
    }
    if flags & BlockFlag::IsEncrypted.value() != 0 {
        return Some(Err(FileReadError::EncryptionNotImplemented));
    }
    if bt_entry.block_size == 0 {
        return Some(Err(FileReadError::ZeroSizedFile));
    }
    let offset = bt_entry.block_offset as usize;
    let size = bt_entry.block_size as usize;
    if size > data.len() || offset > data.len() - size {
        return None;
    }
    let block = &data[offset..offset + size];
    if flags & BlockFlag::IsUnit.value() != 0 {
        let is_compressed = flags & BlockFlag::IsCompressed.value() != 0 && (force_decompress
            || bt_entry.file_size > bt_entry.block_size);
        if is_compressed {
            return decompress(block);
        } else {
            return Some(Ok(copy_bytes(block)));
        }
    }
    if header.sector_size_shift > 22 {
        return None;
    }
    let shift = header.sector_size_shift as u32;
    proof {
        vstd::arithmetic::power2::lemma2_to64();
        if shift < 22 {
            vstd::arithmetic::power2::lemma_pow2_strictly_increases(shift as nat, 22);
        }
        vstd::bits::lemma_u32_shl_is_mul(512, shift);
    }
    let sector_size: u32 = 512u32 << shift;
    proof {
        vstd::arithmetic::power2::lemma_pow2_pos(shift as nat);
    }
    assert(sector_size >= 512);
    assert(bt_entry.block_size / sector_size <= 0x80_0000) by (nonlinear_arith)
        requires
            sector_size >= 512,
    ;
    let sector = bt_entry.block_size / sector_size + 1;
    let crc = flags & BlockFlag::FileSectorCRC.value() == 1;
    let mut sectors: usize = sector as usize;
    if crc {
        sectors += 1;
    }
    let n = sectors + 1;
    if n > block.len() / 4 {
        return None;
    }
    let count = n - (if crc { 2 } else { 1 });
    let ghost spec_all = spec_sectors(block@, n as int, flags, force_decompress, 0, count as int, bt_entry.block_size as int);
    assert(spec_read_file(data@, *header, *bt_entry, force_decompress) == spec_all);
    let mut result: Vec<u8> = Vec::new();
    let mut left: u32 = bt_entry.block_size;
    let mut i: usize = 0;
    while i < count
        invariant
            count < n,
            4 * n <= block.len(),
            i <= count,
            spec_all == spec_sectors(block@, n as int, flags, force_decompress, 0, count as int, bt_entry.block_size as int),
            spec_read_file(data@, *header, *bt_entry, force_decompress) == spec_all,
            spec_all == prepend(result@, spec_sectors(block@, n as int, flags, force_decompress, i as int, count as int, left as int)),
        decreases count - i,
    {
        let p = read_be(block, 4 * n - 4 * i - 4, 4);
        let q = read_be(block, 4 * n - 4 * i - 8, 4);
        assert(p == sector_offset(block@, n as int, i as int));
        assert(q == sector_offset(block@, n as int, i + 1));
        if p > q || q as usize > block.len() {
            return None;
        }
        let sector_data = &block[p as usize..q as usize];
        let is_compressed = flags & BlockFlag::IsCompressed.value() != 0 && (force_decompress
            || left > (q - p));
        let mut out = if is_compressed {
            match decompress(sector_data) {
                None => return None,
                Some(Err(e)) => return Some(Err(e)),
                Some(Ok(v)) => v,
            }
        } else {
            copy_bytes(sector_data)
        };
        if out.len() > left as usize {
            return None;
        }
        let ghost o = out@;
        let ghost old_result = result@;
        left = left - out.len() as u32;
        result.append(&mut out);
        proof {
            assert(old_result + o == result@);
            assert(forall|x: Seq<u8>| (old_result + o) + x == old_result + (o + x)) by {
                assert forall|x: Seq<u8>| (old_result + o) + x =~= old_result + (o + x) by {}
            }
        }
        i += 1;
    }
    assert(result@ + Seq::<u8>::empty() =~= result@);
    Some(Ok(result))
}

/// Reads the file of block table entry `bt_entry` from the archive `data`, decompressing
/// what is compressed; `force_decompress` decompresses blocks even where the file is no
/// larger than its block.
pub fn read_file(
    data: &[u8],
    header: &MPQHeader,
    bt_entry: &BlockTableEntry,
    _ht_entry: &HashTableEntry,
    force_decompress: bool,
) -> (res: Result<Vec<u8>, FileReadError>)
    requires
        spec_read_file(data@, *header, *bt_entry, force_decompress) is Some,
    ensures
        outcome_of(Some(res)) == spec_read_file(data@, *header, *bt_entry, force_decompress),
{
    match read_file_impl(data, header, bt_entry, force_decompress) {
        Some(r) => r,
        None => {
            assert(false);
            Err(FileReadError::NotAFile)
        },
    }
}

/// Reads the file as `read_file` does, or gives `None` where `read_file` cannot read it
/// without a panic: where the block or a sector lies beyond the data, the sector size
/// shift exceeds 22, a zlib stream cannot be read, or a sector decompresses to more
/// than the file has left.
pub fn try_read_file(
    data: &[u8],
    header: &MPQHeader,
    bt_entry: &BlockTableEntry,
    _ht_entry: &HashTableEntry,
    force_decompress: bool,
) -> (res: Option<Result<Vec<u8>, FileReadError>>)
    ensures
        outcome_of(res) == spec_read_file(data@, *header, *bt_entry, force_decompress),
{
    read_file_impl(data, header, bt_entry, force_decompress)
}

/// Entry `e` carries the name hashes `a` and `b`.
pub open spec fn entry_matches(e: HashTableEntry, a: u64, b: u64) -> bool {
    e.filepath_hash_a as u64 == a && e.filepath_hash_b as u64 == b
}

/// The name `name` can be hashed with both name methods.
pub open spec fn name_hashable(name: Seq<char>) -> bool {
    hashable(upper_case(name), HashType::MPQHashNameA) && hashable(upper_case(name), HashType::MPQHashNameB)
}

/// The hash of `name` with name method A.
pub open spec fn name_hash_a(name: Seq<char>) -> u64 {
    spec_hash(upper_case(name), HashType::MPQHashNameA)
}

/// The hash of `name` with name method B.
pub open spec fn name_hash_b(name: Seq<char>) -> u64 {
    spec_hash(upper_case(name), HashType::MPQHashNameB)
}

/// The first entry of `entries` whose name hashes are those of `name`.
pub fn find_hash_entry_by_name<'a>(name: String, entries: &'a Vec<HashTableEntry>, crypttable: &CryptTable) -> (res: Option<
    &'a HashTableEntry,
>)
    requires
        name_hashable(name@),
    ensures
        res matches Some(e) ==> exists|i: int|
            0 <= i < entries@.len() && entries@[i] == *e && entry_matches(
                entries@[i],
                name_hash_a(name@),
                name_hash_b(name@),
            ) && forall|j: int|
                0 <= j < i ==> !entry_matches(
                    #[trigger] entries@[j],
                    name_hash_a(name@),
                    name_hash_b(name@),
                ),
        res is None ==> forall|i: int|
            0 <= i < entries@.len() ==> !entry_matches(
                #[trigger] entries@[i],
                name_hash_a(name@),
                name_hash_b(name@),
            ),
{
    let hash_a = crypttable.hash(name.clone(), HashType::MPQHashNameA);
    let hash_b = crypttable.hash(name, HashType::MPQHashNameB);
    first_matching_entry(entries, hash_a, hash_b)
}

/// The first entry of `entries` with the name hashes `a` and `b`.
#[verifier::spinoff_prover]
fn first_matching_entry<'a>(entries: &'a Vec<HashTableEntry>, a: u64, b: u64) -> (res: Option<&'a HashTableEntry>)
    ensures
        res matches Some(e) ==> exists|i: int|
            0 <= i < entries@.len() && entries@[i] == *e && entry_matches(entries@[i], a, b) && forall|j: int|
                0 <= j < i ==> !entry_matches(#[trigger] entries@[j], a, b),
        res is None ==> forall|i: int| 0 <= i < entries@.len() ==> !entry_matches(#[trigger] entries@[i], a, b),
{
    let mut i: usize = 0;
    while i < entries.len()
        invariant
            i <= entries@.len(),
            forall|j: int| 0 <= j < i ==> !entry_matches(#[trigger] entries@[j], a, b),
        decreases entries@.len() - i,
    {
        let e = &entries[i];
        if e.filepath_hash_a as u64 == a && e.filepath_hash_b as u64 == b {
            assert(entry_matches(entries@[i as int], a, b));
            return Some(e);
        }
        i += 1;
    }
    None
}

/// The magic number at the start of the SC2 user header.
pub open spec fn sc2_magic() -> Seq<u8> {
    seq![0x4du8, 0x50u8, 0x51u8, 0x1bu8]
}

/// What parsing the SC2 user header at the start of `s` gives: the bytes it takes, the
/// three sizes and the serialized data; `None` where it panics, because the serialized data
/// lacks a field that the header needs.
pub open spec fn spec_sc2mpq_header(s: Seq<u8>) -> Option<Result<(nat, u64, u64, u64, SpecData), ParseError>> {
    if !starts_with(s, sc2_magic()) {
        Some(Err(ParseError::UnexpectedTag))
    } else if s.len() < 16 {
        Some(Err(ParseError::UnexpectedEnd))
    } else {
        match spec_data(s.skip(16)) {
            Err(e) => Some(Err(e)),
            Ok((c, kv)) => match spec_sc2_header_fields(kv) {
                Some(Some(_)) => Some(
                    Ok(
                        (
                            (16 + c) as nat,
                            le_field(s, 4, 4) as u64,
                            le_field(s, 8, 4) as u64,
                            le_field(s, 12, 4) as u64,
                            kv,
                        ),
                    ),
                ),
                _ => None,
            },
        }
    }
}

/// `res` is the SC2 user header that `r` describes for the input `data`.
pub open spec fn sc2mpq_header_as(
    data: Seq<u8>,
    res: Result<(&[u8], SC2MPQHeader), ParseError>,
    r: Result<(nat, u64, u64, u64, SpecData), ParseError>,
) -> bool {
    match r {
        Err(e) => res == Err::<(&[u8], SC2MPQHeader), ParseError>(e),
        Ok((c, max_size, offset, size, kv)) => res matches Ok((rest, h)) && c <= data.len()
            && rest@ == data.skip(c as int) && h.max_data_size == max_size && h.header_offset
            == offset && h.data_size == size && h.raw_kv_header@ == kv && spec_sc2_header_fields(kv)
            == Some(Some((h.game_version, h.game_length))),
    }
}

/// Parses the SC2 user header; `None` where parsing it panics.
#[verifier::spinoff_prover]
fn sc2mpq_header_impl(data: &[u8]) -> (res: Option<Result<(&[u8], SC2MPQHeader), ParseError>>)
    ensures
        match spec_sc2mpq_header(data@) {
            None => res is None,
            Some(r) => res matches Some(x) && sc2mpq_header_as(data@, x, r),
        },
{
    let magic: [u8; 4] = [0x4d, 0x50, 0x51, 0x1b];
    assert(magic@ =~= sc2_magic());
    let rest = match take_tag(data, &magic) {
        Ok(r) => r,
        Err(e) => return Some(Err(e)),
    };
    if data.len() < 16 {
        return Some(Err(ParseError::UnexpectedEnd));
    }
    let max_size = read_le(data, 4, 4);
    let offset = read_le(data, 8, 4);
    let size = read_le(data, 12, 4);
    let body = &data[16..data.len()];
    assert(body@ =~= data@.skip(16));
    let (rest, kv) = match parse_serialized_data(body) {
        Ok(r) => r,
        Err(e) => return Some(Err(e)),
    };
    assert(rest@ =~= data@.skip(16 + (data@.len() - 16 - rest@.len())));
    match sc2_header_fields(&kv) {
        Some(Some(_)) => {},
        _ => return None,
    }
    match SC2MPQHeader::new(max_size, offset, size, kv) {
        Some(h) => Some(Ok((rest, h))),
        None => None,
    }
}

/// Parses the SC2 user header at the start of `data` and returns it with what follows it.
pub fn parse_sc2mpq_header(data: &[u8]) -> (res: Result<(&[u8], SC2MPQHeader), ParseError>)
    requires
        spec_sc2mpq_header(data@) is Some,
    ensures
        sc2mpq_header_as(data@, res, spec_sc2mpq_header(data@)->Some_0),
{
    match sc2mpq_header_impl(data) {
        Some(r) => r,
        None => Err(ParseError::UnexpectedTag),
    }
}

/// Parses the SC2 user header as `parse_sc2mpq_header` does, or gives `None` where
/// `parse_sc2mpq_header` panics: where the serialized data lacks the game version or the
/// game length.
pub fn try_parse_sc2mpq_header(data: &[u8]) -> (res: Option<Result<(&[u8], SC2MPQHeader), ParseError>>)
    ensures
        match spec_sc2mpq_header(data@) {
            None => res is None,
            Some(r) => res matches Some(x) && sc2mpq_header_as(data@, x, r),
        },
{
    sc2mpq_header_impl(data)
}

} // verus!
