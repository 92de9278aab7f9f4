use vstd::prelude::*;

use crate::sc2mpq::structs::{DataType, SpecData, kv_lookup};
use crate::numbers::{decimal_chars, i64_decimal, int_decimal_chars, u64_decimal};
use crate::table::kv_get;

verus! {

/// The header of the MoPaQ archive proper.
/// Offsets are relative to the beginning of the archive (the beginning of this header).
#[derive(Debug)]
pub struct MPQHeader {
    pub header_size: u64,
    pub archive_size: u64,
    pub format_version: u64,
    pub sector_size_shift: u64,
    pub hashtable_offset: u64,
    pub hashtable_entries: u64,
    pub blocktable_offset: u64,
    pub blocktable_entries: u64,
    pub extended_blocktable_offset: u64,
}

/// Flags of a block table entry.
#[derive(Clone, Copy, Debug, PartialEq, Eq, Structural)]
pub enum BlockFlag {
    /// Block is a file, and follows the file data format; otherwise, block is free space or unused.
    IsFile,
    /// File is stored as a single unit, rather than split into sectors.
    IsUnit,
    /// The file's encryption key is adjusted by the block offset and file size. File must be encrypted.
    AdjustedEncryptKey,
    /// File is encrypted.
    IsEncrypted,
    /// File is compressed. File cannot be imploded.
    IsCompressed,
    /// File is imploded. File cannot be compressed.
    IsImploded,
    /// File has a sector checksum.
    FileSectorCRC,
}

impl BlockFlag {
    pub open spec fn spec_value(self) -> u32 {
        match self {
            BlockFlag::IsFile => 0x80000000,
            BlockFlag::IsUnit => 0x01000000,
            BlockFlag::AdjustedEncryptKey => 0x00020000,
            BlockFlag::IsEncrypted => 0x00010000,
            BlockFlag::IsCompressed => 0x00000200,
            BlockFlag::IsImploded => 0x00000100,
            BlockFlag::FileSectorCRC => 0x04000000,
        }
    }

    /// The bit of the flag in the `flags` word of a block table entry.
    #[verifier::when_used_as_spec(spec_value)]
    pub fn value(self) -> (v: u32)
        ensures
            v == self.spec_value(),
    {
        match self {
            BlockFlag::IsFile => 0x80000000,
            BlockFlag::IsUnit => 0x01000000,
            BlockFlag::AdjustedEncryptKey => 0x00020000,
            BlockFlag::IsEncrypted => 0x00010000,
            BlockFlag::IsCompressed => 0x00000200,
            BlockFlag::IsImploded => 0x00000100,
            BlockFlag::FileSectorCRC => 0x04000000,
        }
    }
}

/// The hashing methods of the MoPaQ hash function.
#[derive(Clone, Copy, Debug, PartialEq, Eq, Structural)]
pub enum HashType {
    MPQHashtableOffset,
    MPQHashNameA,
    MPQHashNameB,
    MPQHashFileKey,
}

impl HashType {
    pub open spec fn spec_value(self) -> u64 {
        match self {
            HashType::MPQHashtableOffset => 0,
            HashType::MPQHashNameA => 1,
            HashType::MPQHashNameB => 2,
            HashType::MPQHashFileKey => 3,
        }
    }

    /// The number of the method, which selects a quarter of the crypt table.
    #[verifier::when_used_as_spec(spec_value)]
    pub fn value(self) -> (v: u64)
        ensures
            v == self.spec_value(),
    {
        match self {
            HashType::MPQHashtableOffset => 0,
            HashType::MPQHashNameA => 1,
            HashType::MPQHashNameB => 2,
            HashType::MPQHashFileKey => 3,
        }
    }
}

/// An entry of the block table.
#[derive(Clone, Copy, Debug, PartialEq, Eq, Structural)]
pub struct BlockTableEntry {
    pub block_offset: u32,
    pub block_size: u32,
    /// If the file is compressed then `file_size >= block_size`.
    pub file_size: u32,
    pub flags: u32,
}

/// The reason why a hash table entry points to no block.
#[derive(Clone, Copy, Debug, PartialEq, Eq, Structural)]
pub enum FileMissingFlag {
    Empty,
    Deleted,
}

impl FileMissingFlag {
    pub open spec fn spec_value(self) -> u32 {
        match self {
            FileMissingFlag::Empty => 0xFFFFFFFF,
            FileMissingFlag::Deleted => 0xFFFFFFFE,
        }
    }

    /// The block index that encodes this flag in a hash table entry.
    #[verifier::when_used_as_spec(spec_value)]
    pub fn value(self) -> (v: u32)
        ensures
            v == self.spec_value(),
    {
        match self {
            FileMissingFlag::Empty => 0xFFFFFFFF,
            FileMissingFlag::Deleted => 0xFFFFFFFE,
        }
    }
}

impl From<FileMissingFlag> for u32 {
    fn from(value: FileMissingFlag) -> (r: u32) {
        value.value()
    }
}

impl vstd::std_specs::convert::FromSpecImpl<FileMissingFlag> for u32 {
    open spec fn obeys_from_spec() -> bool {
        true
    }

    open spec fn from_spec(value: FileMissingFlag) -> u32 {
        value.spec_value()
    }
}

/// Where the block of a file stands, as a hash table entry says.
#[derive(Clone, Copy, Debug, PartialEq, Eq, Structural)]
pub enum FileBlockIndex {
    FilePresent(u32),
    FileMissing(FileMissingFlag),
}

/// An entry of the hash table.
#[derive(Clone, Copy, Debug, PartialEq, Eq, Structural)]
pub struct HashTableEntry {
    pub filepath_hash_a: u32,
    pub filepath_hash_b: u32,
    /// Uses the MS LANGID format.
    pub language: u16,
    pub platform_id: u8,
    pub file_block_index: FileBlockIndex,
}

/// Why a file of the archive could not be read.
#[derive(Clone, Copy, Debug, PartialEq, Eq, Structural)]
pub enum FileReadError {
    EncryptionNotImplemented,
    NotAFile,
    ZeroSizedFile,
    UnknownCompression(u64),
    FailedDecompression,
}

/// The version of the game that wrote a replay.
#[derive(Clone, Copy, Debug, PartialEq, Eq, Structural)]
pub struct GameVersion {
    pub major: i64,
    pub minor: i64,
    pub patch: i64,
    pub build: i64,
}

/// The SC2 user header that precedes the MoPaQ archive.
#[derive(Debug)]
pub struct SC2MPQHeader {
    pub max_data_size: u64,
    pub header_offset: u64,
    pub data_size: u64,
    pub game_version: GameVersion,
    pub game_length: u64,
    pub raw_kv_header: DataType,
}

/// The number that a serialized value holds: `Some(None)` where it holds none, `None` where
/// reading it panics (a variable-length integer whose low 64 bits exceed `i64::MAX`).
pub open spec fn spec_extract_number(d: SpecData) -> Option<Option<i64>> {
    match d {
        SpecData::FourBytesInteger(i) => Some(Some(i)),
        SpecData::SingleByteInteger(i) => Some(Some(i as i64)),
        SpecData::VLFInteger(n) => if n % 0x1_0000_0000_0000_0000 < 0x8000_0000_0000_0000 {
            Some(Some((n % 0x1_0000_0000_0000_0000) as i64))
        } else {
            None
        },
        _ => Some(None),
    }
}

/// The number at key `k` of the table `m`: `None` where the key is missing or reading the
/// number panics.
pub open spec fn number_at(m: Seq<(u8, SpecData)>, k: u8) -> Option<Option<i64>> {
    match kv_get(m, k) {
        None => None,
        Some(d) => spec_extract_number(d),
    }
}

/// The game version that a serialized value holds: `Some(None)` where it holds none,
/// `None` where reading it panics.
#[verifier::opaque]
pub open spec fn spec_game_version(d: SpecData) -> Option<Option<GameVersion>> {
    match d {
        SpecData::KeyValueObject(m) => match number_at(m, 1) {
            None => None,
            Some(None) => Some(None),
            Some(Some(major)) => match number_at(m, 2) {
                None => None,
                Some(None) => Some(None),
                Some(Some(minor)) => match number_at(m, 3) {
                    None => None,
                    Some(None) => Some(None),
                    Some(Some(patch)) => match number_at(m, 4) {
                        None => None,
                        Some(None) => Some(None),
                        Some(Some(build)) => Some(Some(GameVersion { major, minor, patch, build })),
                    },
                },
            },
        },
        _ => Some(None),
    }
}

/// The game version and game length of the serialized data of the SC2 user header:
/// `Some(None)` where they are not there, `None` where reading them panics.
#[verifier::opaque]
pub open spec fn spec_sc2_header_fields(kv: SpecData) -> Option<Option<(GameVersion, u64)>> {
    match kv {
        SpecData::KeyValueObject(m) => match kv_get(m, 1) {
            None => None,
            Some(v) => match spec_game_version(v) {
                None => None,
                Some(None) => Some(None),
                Some(Some(version)) => match number_at(m, 3) {
                    None => None,
                    Some(None) => Some(None),
                    Some(Some(len)) => if len == i64::MIN {
                        None
                    } else {
                        Some(Some((version, (if len < 0 { -len } else { len as int }) as u64)))
                    },
                },
            },
        },
        _ => Some(None),
    }
}

/// Each part of a game version read from a table (keys 1 to 4: major, minor, patch, build)
/// is the single-byte or four-byte integer at its key.
pub proof fn lemma_version_numbers(d: SpecData)
    ensures
        spec_game_version(d) matches Some(Some(v)) ==> d matches SpecData::KeyValueObject(vm) && {
            &&& kv_get(vm, 1) matches Some(SpecData::FourBytesInteger(x)) ==> v.major == x
            &&& kv_get(vm, 1) matches Some(SpecData::SingleByteInteger(x)) ==> v.major == x
            &&& kv_get(vm, 2) matches Some(SpecData::FourBytesInteger(x)) ==> v.minor == x
            &&& kv_get(vm, 2) matches Some(SpecData::SingleByteInteger(x)) ==> v.minor == x
            &&& kv_get(vm, 3) matches Some(SpecData::FourBytesInteger(x)) ==> v.patch == x
            &&& kv_get(vm, 3) matches Some(SpecData::SingleByteInteger(x)) ==> v.patch == x
            &&& kv_get(vm, 4) matches Some(SpecData::FourBytesInteger(x)) ==> v.build == x
            &&& kv_get(vm, 4) matches Some(SpecData::SingleByteInteger(x)) ==> v.build == x
        },
{
    reveal(spec_game_version);
}

/// The numbers of the SC2 user header are the integers its values hold: where the header
/// data reads, the game length is the magnitude of the single-byte or four-byte integer at
/// key 3, and the game version is the one of the table at key 1.
pub proof fn lemma_header_numbers(kv: SpecData)
    ensures
        spec_sc2_header_fields(kv) matches Some(Some((v, len))) ==> kv matches SpecData::KeyValueObject(m) && {
            &&& kv_get(m, 3) matches Some(SpecData::FourBytesInteger(i)) ==> len == (if i < 0 { -i } else { i as int })
            &&& kv_get(m, 3) matches Some(SpecData::SingleByteInteger(i)) ==> len == (if i < 0 { -i } else { i as int })
            &&& kv_get(m, 1) matches Some(vd) && spec_game_version(vd) == Some(Some(v))
        },
{
    reveal(spec_sc2_header_fields);
}

/// The number that a serialized value holds; `None` where reading it panics.
fn extract_number(data: &DataType) -> (res: Option<Option<i64>>)
    ensures
        res == spec_extract_number(data@),
{
    match data {
        DataType::FourBytesInteger(i) => Some(Some(*i)),
        DataType::SingleByteInteger(i) => Some(Some(*i as i64)),
        DataType::VLFInteger(i) => {
            let low = i.low_u64();
            if low < 0x8000_0000_0000_0000 {
                Some(Some(low as i64))
            } else {
                None
            }
        },
        _ => Some(None),
    }
}

/// The number at key `k` of the table `m`; `None` where the key is missing or reading the
/// number panics.
fn number_at_exec(m: &Vec<(u8, Box<DataType>)>, k: u8) -> (res: Option<Option<i64>>)
    ensures
        res == number_at(crate::sc2mpq::structs::pairs_view(m@), k),
{
    match kv_lookup(m, k) {
        None => None,
        Some(d) => extract_number(d),
    }
}

impl GameVersion {
    /// The game version that a serialized value holds; `None` where reading it panics.
    fn from_datatype(data: &DataType) -> (res: Option<Option<GameVersion>>)
        ensures
            res == spec_game_version(data@),
    {
        reveal(spec_game_version);
        match data {
            DataType::KeyValueObject(hashmap) => {
                let major = match number_at_exec(hashmap, 1) {
                    None => return None,
                    Some(None) => return Some(None),
                    Some(Some(x)) => x,
                };
                let minor = match number_at_exec(hashmap, 2) {
                    None => return None,
                    Some(None) => return Some(None),
                    Some(Some(x)) => x,
                };
                let patch = match number_at_exec(hashmap, 3) {
                    None => return None,
                    Some(None) => return Some(None),
                    Some(Some(x)) => x,
                };
                let build = match number_at_exec(hashmap, 4) {
                    None => return None,
                    Some(None) => return Some(None),
                    Some(Some(x)) => x,
                };
                Some(Some(GameVersion { major, minor, patch, build }))
            },
            _ => Some(None),
        }
    }
}

/// The game version and game length of the serialized header data; `None` where reading
/// them panics.
#[verifier::spinoff_prover]
pub(crate) fn sc2_header_fields(kv: &DataType) -> (res: Option<Option<(GameVersion, u64)>>)
    ensures
        res == spec_sc2_header_fields(kv@),
{
    reveal(spec_sc2_header_fields);
    match kv {
        DataType::KeyValueObject(hashmap) => {
            let v = match kv_lookup(hashmap, 1) {
                None => return None,
                Some(v) => v,
            };
            let version = match GameVersion::from_datatype(v) {
                None => return None,
                Some(None) => return Some(None),
                Some(Some(x)) => x,
            };
            let len = match number_at_exec(hashmap, 3) {
                None => return None,
                Some(None) => return Some(None),
                Some(Some(x)) => x,
            };
            if len == i64::MIN {
                return None;
            }
            let game_length = if len < 0 {
                (-len) as u64
            } else {
                len as u64
            };
            Some(Some((version, game_length)))
        },
        _ => Some(None),
    }
}

impl SC2MPQHeader {
    /// The SC2 user header of the sizes and serialized data `kv`, which holds the game
    /// version at key 1 and the game length at key 3; `None` where they are not there.
    pub fn new(max_size: u64, offset: u64, size: u64, kv: DataType) -> (res: Option<SC2MPQHeader>)
        requires
            spec_sc2_header_fields(kv@) is Some,
        ensures
            match spec_sc2_header_fields(kv@) {
                Some(Some((version, length))) => res matches Some(h) && h.max_data_size == max_size
                    && h.header_offset == offset && h.data_size == size && h.game_version == version
                    && h.game_length == length && h.raw_kv_header@ == kv@,
                _ => res is None,
            },
    {
        match sc2_header_fields(&kv) {
            Some(Some((version, length))) => Some(
                SC2MPQHeader {
                    max_data_size: max_size,
                    header_offset: offset,
                    data_size: size,
                    game_version: version,
                    game_length: length,
                    raw_kv_header: kv,
                },
            ),
            _ => None,
        }
    }
}

impl MPQHeader {
    /// The size in bytes of the block table: an entry is four `u32`.
    pub fn blocktable_byte_size(&self) -> (r: u64)
        requires
            self.blocktable_entries * 16 <= u64::MAX,
        ensures
            r == self.blocktable_entries * 16,
    {
        self.blocktable_entries * 4 * 4
    }

    /// The size in bytes of the hash table: an entry is 16 bytes.
    pub fn hashtable_byte_size(&self) -> (r: u64)
        requires
            self.hashtable_entries * 16 <= u64::MAX,
        ensures
            r == self.hashtable_entries * 16,
    {
        self.hashtable_entries * 16
    }
}

/// The text of the MPQ header, as its `Display` writes it: each field on a line of its own.
pub open spec fn mpq_header_text(h: MPQHeader) -> Seq<char> {
    "\"MPQ Header\": {"@
        + "\n\t\"header size\":                  "@ + decimal_chars(h.header_size as nat) + ","@
        + "\n\t\"archive size\":                 "@ + decimal_chars(h.archive_size as nat) + ","@
        + "\n\t\"format version\":               "@ + decimal_chars(h.format_version as nat) + ","@
        + "\n\t\"sector size shift\":            "@ + decimal_chars(h.sector_size_shift as nat) + ","@
        + "\n\t\"hashtable size (in entries)\":  "@ + decimal_chars(h.hashtable_entries as nat) + ","@
        + "\n\t\"hashtable offset\":             "@ + decimal_chars(h.hashtable_offset as nat) + ","@
        + "\n\t\"blocktable size (in entries)\": "@ + decimal_chars(h.blocktable_entries as nat) + ","@
        + "\n\t\"blocktable offset\":            "@ + decimal_chars(h.blocktable_offset as nat) + ","@
        + "\n\t\"extended blocktable offset\":   "@ + decimal_chars(h.extended_blocktable_offset as nat)
        + "\n}"@
}

/// The text of the game version, as its `Display` writes it: the four numbers joined by dots.
pub open spec fn game_version_text(v: GameVersion) -> Seq<char> {
    int_decimal_chars(v.major as int) + "."@ + int_decimal_chars(v.minor as int) + "."@ + int_decimal_chars(
        v.patch as int,
    ) + "."@ + int_decimal_chars(v.build as int)
}

/// The text of the SC2 user header, as its `Display` writes it: each field on a line of its own.
pub open spec fn sc2mpq_header_text(h: SC2MPQHeader) -> Seq<char> {
    "\"SC2 MPQ Header\": {"@
        + "\n\t\"game version\":                 "@ + game_version_text(h.game_version) + ","@
        + "\n\t\"game length (in frames)\":      "@ + decimal_chars(h.game_length as nat) + ","@
        + "\n\t\"header offset\":                "@ + decimal_chars(h.header_offset as nat) + ","@
        + "\n\t\"data size\":                    "@ + decimal_chars(h.data_size as nat) + ","@
        + "\n\t\"max data size\":                "@ + decimal_chars(h.max_data_size as nat)
        + "\n}"@
}

impl GameVersion {
    /// The text of the version, as its `Display` writes it.
    pub fn to_string(&self) -> (s: String)
        ensures
            s@ == game_version_text(*self),
    {
        let mut s = i64_decimal(self.major);
        s.append(".");
        let d = i64_decimal(self.minor);
        s.append(d.as_str());
        s.append(".");
        let d = i64_decimal(self.patch);
        s.append(d.as_str());
        s.append(".");
        let d = i64_decimal(self.build);
        s.append(d.as_str());
        s
    }
}

impl MPQHeader {
    /// The text of the header, as its `Display` writes it.
    pub fn to_string(&self) -> (s: String)
        ensures
            s@ == mpq_header_text(*self),
    {
        let mut s = String::from_str("\"MPQ Header\": {");
        s.append("\n\t\"header size\":                  ");
        let d = u64_decimal(self.header_size);
        s.append(d.as_str());
        s.append(",");
        s.append("\n\t\"archive size\":                 ");
        let d = u64_decimal(self.archive_size);
        s.append(d.as_str());
        s.append(",");
        s.append("\n\t\"format version\":               ");
        let d = u64_decimal(self.format_version);
        s.append(d.as_str());
        s.append(",");
        s.append("\n\t\"sector size shift\":            ");
        let d = u64_decimal(self.sector_size_shift);
        s.append(d.as_str());
        s.append(",");
        s.append("\n\t\"hashtable size (in entries)\":  ");
        let d = u64_decimal(self.hashtable_entries);
        s.append(d.as_str());
        s.append(",");
        s.append("\n\t\"hashtable offset\":             ");
        let d = u64_decimal(self.hashtable_offset);
        s.append(d.as_str());
        s.append(",");
        s.append("\n\t\"blocktable size (in entries)\": ");
        let d = u64_decimal(self.blocktable_entries);
        s.append(d.as_str());
        s.append(",");
        s.append("\n\t\"blocktable offset\":            ");
        let d = u64_decimal(self.blocktable_offset);
        s.append(d.as_str());
        s.append(",");
        s.append("\n\t\"extended blocktable offset\":   ");
        let d = u64_decimal(self.extended_blocktable_offset);
        s.append(d.as_str());
        s.append("\n}");
        s
    }
}

impl SC2MPQHeader {
    /// The text of the header, as its `Display` writes it.
    pub fn to_string(&self) -> (s: String)
        ensures
            s@ == sc2mpq_header_text(*self),
    {
        let mut s = String::from_str("\"SC2 MPQ Header\": {");
        s.append("\n\t\"game version\":                 ");
        let d = self.game_version.to_string();
        s.append(d.as_str());
        s.append(",");
        s.append("\n\t\"game length (in frames)\":      ");
        let d = u64_decimal(self.game_length);
        s.append(d.as_str());
        s.append(",");
        s.append("\n\t\"header offset\":                ");
        let d = u64_decimal(self.header_offset);
        s.append(d.as_str());
        s.append(",");
        s.append("\n\t\"data size\":                    ");
        let d = u64_decimal(self.data_size);
        s.append(d.as_str());
        s.append(",");
        s.append("\n\t\"max data size\":                ");
        let d = u64_decimal(self.max_data_size);
        s.append(d.as_str());
        s.append("\n}");
        s
    }
}

} // verus!
