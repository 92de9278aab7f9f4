use vstd::prelude::*;

use crate::bytes::starts_with;
use crate::mpq::parser::{
    entry_matches, find_hash_entry_by_name, mpq_header_size, mpq_magic, name_hash_a, name_hash_b,
    name_hashable, outcome_of, parse_blocktable, parse_hashtable, parse_mpq_header,
    parse_sc2mpq_header, spec_blocktable_entry, spec_hashtable_entry, spec_mpq_header,
    spec_read_file, spec_sc2mpq_header, try_read_file,
};
use crate::mpq::structs::{
    spec_sc2_header_fields, BlockTableEntry, FileBlockIndex, FileMissingFlag, FileReadError,
    HashTableEntry, HashType, MPQHeader, SC2MPQHeader,
};
use crate::mpq::utils::{decryptable, hashable, spec_decrypt, spec_hash, upper_case, CryptTable};
use crate::numbers::{decimal_chars, u64_decimal};
use crate::utils::{jump_to_offset, pack_u8_vec, packed, unpack_u64_vec, unpacked};

verus! {

/// The SC2 user header at the start of `data` parses, and the MPQ header, which starts at
/// the end of the SC2 user header plus the offset the SC2 user header gives, lies within the
/// data.
pub open spec fn sc2mpq_header_readable(data: Seq<u8>) -> bool {
    spec_sc2mpq_header(data) matches Some(Ok((c, _, offset, _, _))) && c + offset <= data.len()
}

/// Reads the SC2 user header at the start of `data`: gives the data from the MPQ header on
/// (the MPQ header starts at the end of the SC2 user header plus the offset it gives), the
/// SC2 user header and the size of the SC2 user header.
pub fn read_sc2mpq_header(data: &[u8]) -> (res: (&[u8], SC2MPQHeader, usize))
    requires
        sc2mpq_header_readable(data@),
    ensures
        spec_sc2mpq_header(data@) matches Some(Ok((c, max_size, offset, size, kv))) && res.2 == c
            && res.0@ == data@.skip(c + offset) && res.1.max_data_size == max_size
            && res.1.header_offset == offset && res.1.data_size == size && res.1.raw_kv_header@ == kv
            && spec_sc2_header_fields(kv) == Some(Some((res.1.game_version, res.1.game_length))),
{
    let total_size = data.len();
    let (rest, sc2header) = parse_sc2mpq_header(data).unwrap();
    let header_size = total_size - rest.len();
    let mpq_start = header_size + sc2header.header_offset as usize;
    let rest = jump_to_offset(mpq_start, total_size, rest.len(), rest);
    assert(rest@ =~= data@.skip(header_size + sc2header.header_offset));
    (rest, sc2header, header_size)
}

/// Reads the SC2 user header as `read_sc2mpq_header` does, or gives `None` where
/// `read_sc2mpq_header` panics.
pub fn try_read_sc2mpq_header(data: &[u8]) -> (res: Option<(&[u8], SC2MPQHeader, usize)>)
    ensures
        res is Some <==> sc2mpq_header_readable(data@),
        res matches Some(r) ==> spec_sc2mpq_header(data@) matches Some(Ok((c, max_size, offset, size, kv)))
            && r.2 == c && r.0@ == data@.skip(c + offset) && r.1.max_data_size == max_size
            && r.1.header_offset == offset && r.1.data_size == size && r.1.raw_kv_header@ == kv
            && spec_sc2_header_fields(kv) == Some(Some((r.1.game_version, r.1.game_length))),
{
    match crate::mpq::parser::try_parse_sc2mpq_header(data) {
        Some(Ok((rest, h))) => {
            let consumed = data.len() - rest.len();
            if h.header_offset > (data.len() - consumed) as u64 {
                return None;
            }
            Some(read_sc2mpq_header(data))
        },
        _ => None,
    }
}

/// Reads the MPQ header at the start of `data`: gives the data after it, the header and
/// its size.
pub fn read_mpq_header(data: &[u8]) -> (res: (&[u8], MPQHeader, usize))
    requires
        starts_with(data@, mpq_magic()),
        data@.len() >= mpq_header_size(data@),
    ensures
        res.0@ == data@.skip(mpq_header_size(data@)),
        res.1 == spec_mpq_header(data@),
        res.2 == mpq_header_size(data@),
{
    let total_size = data.len();
    let (rest, mpqheader) = parse_mpq_header(data).unwrap();
    let header_size = total_size - rest.len();
    (rest, mpqheader, header_size)
}

/// The bytes of a table of `size` bytes at `offset` of `data`, decrypted with `key`.
#[verifier::opaque]
pub open spec fn table_bytes(data: Seq<u8>, offset: int, size: int, key: u64) -> Seq<u8> {
    unpacked(spec_decrypt(packed(data.subrange(offset, offset + size)), key))
}

/// The key of the block table.
pub open spec fn blocktable_key() -> u64 {
    spec_hash(upper_case("(block table)"@), HashType::MPQHashFileKey)
}

/// The key of the hash table.
pub open spec fn hashtable_key() -> u64 {
    spec_hash(upper_case("(hash table)"@), HashType::MPQHashFileKey)
}

/// The block table lies within the archive `data`, its key can be computed and its words
/// can be decrypted with it.
pub open spec fn blocktable_readable(data: Seq<u8>, h: MPQHeader) -> bool {
    &&& h.blocktable_offset + 16 * h.blocktable_entries <= data.len()
    &&& hashable(upper_case("(block table)"@), HashType::MPQHashFileKey)
    &&& decryptable((4 * h.blocktable_entries) as nat, blocktable_key())
}

/// The hash table lies within the archive `data`, its key can be computed and its words
/// can be decrypted with it.
pub open spec fn hashtable_readable(data: Seq<u8>, h: MPQHeader) -> bool {
    &&& h.hashtable_offset + 16 * h.hashtable_entries <= data.len()
    &&& hashable(upper_case("(hash table)"@), HashType::MPQHashFileKey)
    &&& decryptable((4 * h.hashtable_entries) as nat, hashtable_key())
}

/// The entries of the block table of the archive `data`.
pub open spec fn spec_blocktable(data: Seq<u8>, h: MPQHeader) -> Seq<BlockTableEntry> {
    let b = table_bytes(data, h.blocktable_offset as int, 16 * h.blocktable_entries, blocktable_key());
    Seq::new(h.blocktable_entries as nat, |i: int| spec_blocktable_entry(b, 16 * i))
}

/// The entries of the hash table of the archive `data`.
pub open spec fn spec_hashtable(data: Seq<u8>, h: MPQHeader) -> Seq<HashTableEntry> {
    let b = table_bytes(data, h.hashtable_offset as int, 16 * h.hashtable_entries, hashtable_key());
    Seq::new(h.hashtable_entries as nat, |i: int| spec_hashtable_entry(b, 16 * i))
}

/// The block table is read as the README lays it out: the bytes of its entries at its offset
/// are packed into words, decrypted with the hash of "(block table)", unpacked and cut into
/// entries of 16 bytes.
pub proof fn lemma_blocktable_layout(data: Seq<u8>, h: MPQHeader)
    ensures
        ({
            let o = h.blocktable_offset as int;
            let n = h.blocktable_entries as int;
            let b = unpacked(spec_decrypt(packed(data.subrange(o, o + 16 * n)), blocktable_key()));
            &&& spec_blocktable(data, h).len() == n
            &&& forall|i: int| 0 <= i < n ==> #[trigger] spec_blocktable(data, h)[i] == spec_blocktable_entry(b, 16 * i)
        }),
{
    reveal(table_bytes);
}

/// The hash table is read as the README lays it out: the bytes of its entries at its offset
/// are packed into words, decrypted with the hash of "(hash table)", unpacked and cut into
/// entries of 16 bytes.
pub proof fn lemma_hashtable_layout(data: Seq<u8>, h: MPQHeader)
    ensures
        ({
            let o = h.hashtable_offset as int;
            let n = h.hashtable_entries as int;
            let b = unpacked(spec_decrypt(packed(data.subrange(o, o + 16 * n)), hashtable_key()));
            &&& spec_hashtable(data, h).len() == n
            &&& forall|i: int| 0 <= i < n ==> #[trigger] spec_hashtable(data, h)[i] == spec_hashtable_entry(b, 16 * i)
        }),
{
    reveal(table_bytes);
}

/// The decrypted bytes of the table of `size` bytes at `offset` of `data`.
fn read_table_bytes(data: &[u8], crypttable: &CryptTable, offset: u64, size: u64, key: u64) -> (res: Vec<u8>)
    requires
        offset + size <= data.len(),
        size % 16 == 0,
        decryptable((size / 4) as nat, key),
    ensures
        res@ == table_bytes(data@, offset as int, size as int, key),
        res@.len() == size,
{
    reveal(table_bytes);
    let o = offset as usize;
    let e = o + size as usize;
    let encrypted = &data[o..e];
    let words = pack_u8_vec(encrypted);
    let decrypted = crypttable.decrypt(words.as_slice(), key);
    assert(encrypted@ == data@.subrange(offset as int, offset + size));
    assert(encrypted@.len() == size);
    assert(decrypted@.len() == encrypted@.len() / 4);
    assert(4 * (encrypted@.len() / 4) == encrypted@.len()) by (nonlinear_arith)
        requires encrypted@.len() % 16 == 0;
    let bytes = unpack_u64_vec(decrypted.as_slice());
    bytes
}

/// Reads and decrypts the block table of the archive `data`.
#[verifier::spinoff_prover]
pub fn read_blocktable(data: &[u8], crypttable: &CryptTable, mpqheader: &MPQHeader) -> (res: Vec<BlockTableEntry>)
    requires
        blocktable_readable(data@, *mpqheader),
    ensures
        res@ == spec_blocktable(data@, *mpqheader),
{
    assert(data@.len() == data.len());
    let size = mpqheader.blocktable_byte_size();
    let key = crypttable.hash(String::from_str("(block table)"), HashType::MPQHashFileKey);
    let bytes = read_table_bytes(data, crypttable, mpqheader.blocktable_offset, size, key);
    let (_, parsed) = parse_blocktable(bytes.as_slice(), mpqheader.blocktable_entries as usize).unwrap();
    let ghost b = bytes@;
    assert(b == table_bytes(data@, mpqheader.blocktable_offset as int, 16 * mpqheader.blocktable_entries, blocktable_key()));
    assert forall|i: int| 0 <= i < parsed@.len() implies #[trigger] parsed@[i] == spec_blocktable(data@, *mpqheader)[i] by {
        assert(parsed@[i] == spec_blocktable_entry(b, 16 * i));
    }
    assert(parsed@ =~= spec_blocktable(data@, *mpqheader));
    parsed
}

/// Reads the block table as `read_blocktable` does, or gives `None` where `read_blocktable`
/// panics: where the table lies beyond the data, its key cannot be computed or its words
/// cannot be decrypted with it.
pub fn try_read_blocktable(data: &[u8], crypttable: &CryptTable, mpqheader: &MPQHeader) -> (res: Option<Vec<BlockTableEntry>>)
    ensures
        res is Some <==> blocktable_readable(data@, *mpqheader),
        res matches Some(v) ==> v@ == spec_blocktable(data@, *mpqheader),
{
    if mpqheader.blocktable_entries > (data.len() as u64) / 16
        || mpqheader.blocktable_offset > data.len() as u64 - 16 * mpqheader.blocktable_entries {
        return None;
    }
    match crypttable.try_hash(String::from_str("(block table)"), HashType::MPQHashFileKey) {
        Some(k) => if CryptTable::can_decrypt((4 * mpqheader.blocktable_entries) as usize, k) {
            Some(read_blocktable(data, crypttable, mpqheader))
        } else {
            None
        },
        None => None,
    }
}

/// Reads and decrypts the hash table of the archive `data`.
#[verifier::spinoff_prover]
pub fn read_hashtable(data: &[u8], crypttable: &CryptTable, mpqheader: &MPQHeader) -> (res: Vec<HashTableEntry>)
    requires
        hashtable_readable(data@, *mpqheader),
    ensures
        res@ == spec_hashtable(data@, *mpqheader),
{
    assert(data@.len() == data.len());
    let size = mpqheader.hashtable_byte_size();
    let key = crypttable.hash(String::from_str("(hash table)"), HashType::MPQHashFileKey);
    let bytes = read_table_bytes(data, crypttable, mpqheader.hashtable_offset, size, key);
    let (_, parsed) = parse_hashtable(bytes.as_slice(), mpqheader.hashtable_entries as usize).unwrap();
    let ghost b = bytes@;
    assert(b == table_bytes(data@, mpqheader.hashtable_offset as int, 16 * mpqheader.hashtable_entries, hashtable_key()));
    assert forall|i: int| 0 <= i < parsed@.len() implies #[trigger] parsed@[i] == spec_hashtable(data@, *mpqheader)[i] by {
        assert(parsed@[i] == spec_hashtable_entry(b, 16 * i));
    }
    assert(parsed@ =~= spec_hashtable(data@, *mpqheader));
    parsed
}

/// Reads the hash table as `read_hashtable` does, or gives `None` where `read_hashtable`
/// panics: where the table lies beyond the data, its key cannot be computed or its words
/// cannot be decrypted with it.
pub fn try_read_hashtable(data: &[u8], crypttable: &CryptTable, mpqheader: &MPQHeader) -> (res: Option<Vec<HashTableEntry>>)
    ensures
        res is Some <==> hashtable_readable(data@, *mpqheader),
        res matches Some(v) ==> v@ == spec_hashtable(data@, *mpqheader),
{
    if mpqheader.hashtable_entries > (data.len() as u64) / 16
        || mpqheader.hashtable_offset > data.len() as u64 - 16 * mpqheader.hashtable_entries {
        return None;
    }
    match crypttable.try_hash(String::from_str("(hash table)"), HashType::MPQHashFileKey) {
        Some(k) => if CryptTable::can_decrypt((4 * mpqheader.hashtable_entries) as usize, k) {
            Some(read_hashtable(data, crypttable, mpqheader))
        } else {
            None
        },
        None => None,
    }
}

/// The first entry of `ht` with the name hashes `a` and `b`, if there is one.
pub open spec fn first_matching(ht: Seq<HashTableEntry>, a: u64, b: u64) -> Option<HashTableEntry> {
    if exists|i: int| 0 <= i < ht.len() && entry_matches(ht[i], a, b) {
        Some(
            ht[choose|i: int|
                0 <= i < ht.len() && entry_matches(ht[i], a, b) && forall|j: int|
                    0 <= j < i ==> !entry_matches(#[trigger] ht[j], a, b)],
        )
    } else {
        None
    }
}

/// The entry that a lookup finds is the first one of the hash table whose name hashes A and
/// B are the two hashes looked for; no entry is found where none has both.
pub proof fn lemma_first_matching_entry(ht: Seq<HashTableEntry>, a: u64, b: u64)
    ensures
        first_matching(ht, a, b) matches Some(e) ==> e.filepath_hash_a == a && e.filepath_hash_b == b
            && exists|i: int|
            0 <= i < ht.len() && ht[i] == e && forall|j: int|
                0 <= j < i ==> !(#[trigger] ht[j].filepath_hash_a == a && ht[j].filepath_hash_b == b),
        first_matching(ht, a, b) is None ==> forall|j: int|
            0 <= j < ht.len() ==> !(#[trigger] ht[j].filepath_hash_a == a && ht[j].filepath_hash_b == b),
{
    if exists|i: int| 0 <= i < ht.len() && entry_matches(ht[i], a, b) {
        let i0 = choose|i: int| 0 <= i < ht.len() && entry_matches(ht[i], a, b);
        lemma_first_witness(ht, a, b, i0);
        let c = choose|i: int|
            0 <= i < ht.len() && entry_matches(ht[i], a, b) && forall|j: int|
                0 <= j < i ==> !entry_matches(#[trigger] ht[j], a, b);
        assert(forall|j: int| 0 <= j < c ==> !entry_matches(#[trigger] ht[j], a, b));
        assert(forall|j: int|
            0 <= j < c ==> !(#[trigger] ht[j].filepath_hash_a == a && ht[j].filepath_hash_b == b));
    } else {
        assert forall|j: int| 0 <= j < ht.len() implies !(#[trigger] ht[j].filepath_hash_a == a
            && ht[j].filepath_hash_b == b) by {
            assert(!entry_matches(ht[j], a, b));
        }
    }
}

proof fn lemma_first_witness(ht: Seq<HashTableEntry>, a: u64, b: u64, i0: int)
    requires
        0 <= i0 < ht.len(),
        entry_matches(ht[i0], a, b),
    ensures
        exists|i: int|
            0 <= i < ht.len() && entry_matches(ht[i], a, b) && forall|j: int|
                0 <= j < i ==> !entry_matches(#[trigger] ht[j], a, b),
    decreases i0,
{
    if exists|j: int| 0 <= j < i0 && entry_matches(ht[j], a, b) {
        let j = choose|j: int| 0 <= j < i0 && entry_matches(ht[j], a, b);
        lemma_first_witness(ht, a, b, j);
    } else {
        assert(forall|j: int| 0 <= j < i0 ==> !entry_matches(#[trigger] ht[j], a, b));
    }
}

/// The message that reports the read error `e`.
pub open spec fn read_error_message(e: FileReadError) -> Seq<char> {
    match e {
        FileReadError::EncryptionNotImplemented => "Encrypted file"@,
        FileReadError::NotAFile => "Not a file"@,
        FileReadError::ZeroSizedFile => "File size is null"@,
        FileReadError::UnknownCompression(i) => "Unknown compression format "@ + decimal_chars(i as nat),
        FileReadError::FailedDecompression => "Failed to decompress the file"@,
    }
}

/// What looking up the file `name` and reading it gives: its content or a message;
/// `None` where it panics (the name cannot be hashed, no entry has its hashes, the block
/// index lies beyond the block table, or the reader panics).
pub open spec fn spec_find_and_read_file(
    data: Seq<u8>,
    name: Seq<char>,
    hashtable: Seq<HashTableEntry>,
    blocktable: Seq<BlockTableEntry>,
    header: MPQHeader,
) -> Option<Result<Seq<u8>, Seq<char>>> {
    if !name_hashable(name) {
        None
    } else {
        match first_matching(hashtable, name_hash_a(name), name_hash_b(name)) {
            None => None,
            Some(e) => match e.file_block_index {
                FileBlockIndex::FileMissing(FileMissingFlag::Empty) => Some(Err("File Missing"@)),
                FileBlockIndex::FileMissing(FileMissingFlag::Deleted) => Some(Err("File Deleted"@)),
                FileBlockIndex::FilePresent(i) => if i >= blocktable.len() {
                    None
                } else {
                    match spec_read_file(data, header, blocktable[i as int], false) {
                        None => None,
                        Some(Ok(v)) => Some(Ok(v)),
                        Some(Err(err)) => Some(Err(read_error_message(err))),
                    }
                },
            },
        }
    }
}

/// The spec outcome of a lookup, taken by the views of its result.
pub open spec fn lookup_outcome(res: Option<Result<Vec<u8>, String>>) -> Option<Result<Seq<u8>, Seq<char>>> {
    match res {
        None => None,
        Some(Ok(v)) => Some(Ok(v@)),
        Some(Err(s)) => Some(Err(s@)),
    }
}

/// The message that reports the read error `e`.
pub fn read_error_string(e: FileReadError) -> (s: String)
    ensures
        s@ == read_error_message(e),
{
    match e {
        FileReadError::EncryptionNotImplemented => String::from_str("Encrypted file"),
        FileReadError::NotAFile => String::from_str("Not a file"),
        FileReadError::ZeroSizedFile => String::from_str("File size is null"),
        FileReadError::UnknownCompression(i) => {
            let mut s = String::from_str("Unknown compression format ");
            let d = u64_decimal(i);
            s.append(d.as_str());
            s
        },
        FileReadError::FailedDecompression => String::from_str("Failed to decompress the file"),
    }
}

proof fn lemma_first_matching(ht: Seq<HashTableEntry>, a: u64, b: u64, i: int)
    requires
        0 <= i < ht.len(),
        entry_matches(ht[i], a, b),
        forall|j: int| 0 <= j < i ==> !entry_matches(#[trigger] ht[j], a, b),
    ensures
        first_matching(ht, a, b) == Some(ht[i]),
{
    let c = choose|c: int|
        0 <= c < ht.len() && entry_matches(ht[c], a, b) && forall|j: int|
            0 <= j < c ==> !entry_matches(#[trigger] ht[j], a, b);
    assert(0 <= c < ht.len() && entry_matches(ht[c], a, b) && forall|j: int|
        0 <= j < c ==> !entry_matches(#[trigger] ht[j], a, b));
    if c < i {
        assert(!entry_matches(ht[c], a, b));
    }
    if i < c {
        assert(!entry_matches(ht[i], a, b));
    }
}

fn find_and_read_impl(
    data: &[u8],
    file: String,
    hashtable: &Vec<HashTableEntry>,
    crypttable: &CryptTable,
    blocktable: &Vec<BlockTableEntry>,
    mpqheader: &MPQHeader,
) -> (res: Option<Result<Vec<u8>, String>>)
    ensures
        lookup_outcome(res) == spec_find_and_read_file(data@, file@, hashtable@, blocktable@, *mpqheader),
{
    let ghost name = file@;
    if crypttable.try_hash(file.clone(), HashType::MPQHashNameA).is_none() || crypttable.try_hash(
        file.clone(),
        HashType::MPQHashNameB,
    ).is_none() {
        return None;
    }
    let entry = match find_hash_entry_by_name(file, hashtable, crypttable) {
        Some(e) => e,
        None => return None,
    };
    proof {
        let i = choose|i: int|
            0 <= i < hashtable@.len() && hashtable@[i] == *entry && entry_matches(
                hashtable@[i],
                name_hash_a(name),
                name_hash_b(name),
            ) && forall|j: int|
                0 <= j < i ==> !entry_matches(
                    #[trigger] hashtable@[j],
                    name_hash_a(name),
                    name_hash_b(name),
                );
        lemma_first_matching(hashtable@, name_hash_a(name), name_hash_b(name), i);
    }
    match entry.file_block_index {
        FileBlockIndex::FileMissing(FileMissingFlag::Empty) => Some(Err(String::from_str("File Missing"))),
        FileBlockIndex::FileMissing(FileMissingFlag::Deleted) => Some(Err(String::from_str("File Deleted"))),
        FileBlockIndex::FilePresent(i) => {
            if i as usize >= blocktable.len() {
                return None;
            }
            let bt_entry = &blocktable[i as usize];
            match try_read_file(data, mpqheader, bt_entry, entry, false) {
                None => None,
                Some(Ok(f)) => Some(Ok(f)),
                Some(Err(e)) => Some(Err(read_error_string(e))),
            }
        },
    }
}

/// Looks up the file `file` in the hash table and reads it; a missing, deleted or unreadable
/// file gives a message.
pub fn find_and_read_file(
    data: &[u8],
    file: String,
    hashtable: &Vec<HashTableEntry>,
    crypttable: &CryptTable,
    blocktable: &Vec<BlockTableEntry>,
    mpqheader: &MPQHeader,
) -> (res: Result<Vec<u8>, String>)
    requires
        spec_find_and_read_file(data@, file@, hashtable@, blocktable@, *mpqheader) is Some,
    ensures
        lookup_outcome(Some(res)) == spec_find_and_read_file(data@, file@, hashtable@, blocktable@, *mpqheader),
{
    match find_and_read_impl(data, file, hashtable, crypttable, blocktable, mpqheader) {
        Some(r) => r,
        None => Err(String::new()),
    }
}

/// Looks up and reads the file as `find_and_read_file` does, or gives `None` where
/// `find_and_read_file` panics: where the name cannot be hashed, no entry has its hashes,
/// the entry's block lies beyond the block table, or the file cannot be read without a panic.
pub fn try_find_and_read_file(
    data: &[u8],
    file: String,
    hashtable: &Vec<HashTableEntry>,
    crypttable: &CryptTable,
    blocktable: &Vec<BlockTableEntry>,
    mpqheader: &MPQHeader,
) -> (res: Option<Result<Vec<u8>, String>>)
    ensures
        lookup_outcome(res) == spec_find_and_read_file(data@, file@, hashtable@, blocktable@, *mpqheader),
{
    find_and_read_impl(data, file, hashtable, crypttable, blocktable, mpqheader)
}

} // verus!
