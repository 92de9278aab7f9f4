use vstd::prelude::*;

use super::structs::HashType;
use crate::utils::{ascii_upper_chars, is_ascii_chars, low_words};

verus! {

/// The seed of the crypt table generator after `n` steps.
pub open spec fn seed_at(n: nat) -> int
    decreases n,
{
    if n == 0 {
        0x00100001
    } else {
        (seed_at((n - 1) as nat) * 125 + 3) % 0x2AAAAB
    }
}

/// Entry `i` of the crypt table: entry `index1 + 0x100 * j` is made of the two seeds
/// drawn at generator step `5 * index1 + j`, the high half from the first.
pub open spec fn crypt_entry(i: int) -> u64 {
    let k = 5 * (i % 0x100) + i / 0x100;
    let s1 = seed_at((2 * k + 1) as nat);
    let s2 = seed_at((2 * k + 2) as nat);
    ((s1 % 0x10000) * 0x10000 + s2 % 0x10000) as u64
}

/// The whole crypt table.
pub open spec fn crypt_table_spec() -> Seq<u64> {
    Seq::new(0x500, |i: int| crypt_entry(i))
}

/// The index of the table entry that the hash reads for character `c` with method `hashtype`.
pub open spec fn hash_index(hashtype: u64, c: char) -> int {
    hashtype * 256 + (c as u64)
}

/// The first entries of the crypt table are those of the format: entry 0 is 0x55C636E2,
/// entry 1 is 0x02BE0170 and entry 0x100 is 0x76F8C1B1.
pub proof fn lemma_crypt_table_start()
    ensures
        crypt_table_spec()[0] == 0x55C636E2,
        crypt_table_spec()[1] == 0x02BE0170,
        crypt_table_spec()[0x100] == 0x76F8C1B1,
{
    assert(seed_at(0) == 1048577);
    assert(seed_at(1) == (seed_at(0) * 125 + 3) % 0x2AAAAB);
    assert((1048577 * 125 + 3) % 0x2AAAAB == 2446790) by (nonlinear_arith);
    assert(seed_at(2) == (seed_at(1) * 125 + 3) % 0x2AAAAB);
    assert((2446790 * 125 + 3) % 0x2AAAAB == 1062626) by (nonlinear_arith);
    assert(seed_at(3) == (seed_at(2) * 125 + 3) % 0x2AAAAB);
    assert((1062626 * 125 + 3) % 0x2AAAAB == 1406712) by (nonlinear_arith);
    assert(seed_at(4) == (seed_at(3) * 125 + 3) % 0x2AAAAB);
    assert((1406712 * 125 + 3) % 0x2AAAAB == 2474417) by (nonlinear_arith);
    assert(seed_at(5) == (seed_at(4) * 125 + 3) % 0x2AAAAB);
    assert((2474417 * 125 + 3) % 0x2AAAAB == 1719798) by (nonlinear_arith);
    assert(seed_at(6) == (seed_at(5) * 125 + 3) % 0x2AAAAB);
    assert((1719798 * 125 + 3) % 0x2AAAAB == 2463325) by (nonlinear_arith);
    assert(seed_at(7) == (seed_at(6) * 125 + 3) % 0x2AAAAB);
    assert((2463325 * 125 + 3) % 0x2AAAAB == 333298) by (nonlinear_arith);
    assert(seed_at(8) == (seed_at(7) * 125 + 3) % 0x2AAAAB);
    assert((333298 * 125 + 3) % 0x2AAAAB == 2515411) by (nonlinear_arith);
    assert(seed_at(9) == (seed_at(8) * 125 + 3) % 0x2AAAAB);
    assert((2515411 * 125 + 3) % 0x2AAAAB == 1251642) by (nonlinear_arith);
    assert(seed_at(10) == (seed_at(9) * 125 + 3) % 0x2AAAAB);
    assert((1251642 * 125 + 3) % 0x2AAAAB == 2664088) by (nonlinear_arith);
    assert(seed_at(11) == (seed_at(10) * 125 + 3) % 0x2AAAAB);
    assert((2664088 * 125 + 3) % 0x2AAAAB == 262846) by (nonlinear_arith);
    assert(seed_at(12) == (seed_at(11) * 125 + 3) % 0x2AAAAB);
    assert((262846 * 125 + 3) % 0x2AAAAB == 2097520) by (nonlinear_arith);
}

/// Every character of `chars` selects an entry of the crypt table with method `hashtype`.
pub open spec fn hashable(chars: Seq<char>, hashtype: HashType) -> bool {
    forall|i: int| 0 <= i < chars.len() ==> #[trigger] hash_index(hashtype.spec_value(), chars[i]) < 0x500
}

/// Each hash method reads its own quarter of the crypt table, at the code of the character:
/// the table offset method from entry 0, name hash A from 0x100, name hash B from 0x200 and
/// the file key from 0x300.
pub proof fn lemma_hash_quarters(c: char)
    ensures
        hash_index(HashType::MPQHashtableOffset.spec_value(), c) == c as int,
        hash_index(HashType::MPQHashNameA.spec_value(), c) == 0x100 + c as int,
        hash_index(HashType::MPQHashNameB.spec_value(), c) == 0x200 + c as int,
        hash_index(HashType::MPQHashFileKey.spec_value(), c) == 0x300 + c as int,
{
}

/// The hash of `chars` from the state `(s1, s2)`.
pub open spec fn hash_from(chars: Seq<char>, hashtype: u64, s1: u64, s2: u64) -> u64
    decreases chars.len(),
{
    if chars.len() == 0 {
        s1
    } else {
        let n1 = hash_seed1(crypt_entry(hash_index(hashtype, chars[0])), s1, s2);
        let n2 = hash_seed2(chars[0] as u64, n1, s2);
        hash_from(chars.drop_first(), hashtype, n1, n2)
    }
}

/// The first seed of the hash after a character whose table entry is `value`.
#[verifier::opaque]
pub open spec fn hash_seed1(value: u64, s1: u64, s2: u64) -> u64 {
    (value ^ ((s1 + s2) as u64)) & 0xFFFFFFFF
}

/// The second seed of the hash after character `c`, where `n1` is the new first seed.
#[verifier::opaque]
pub open spec fn hash_seed2(c: u64, n1: u64, s2: u64) -> u64 {
    ((c + n1 + s2 + 32 * s2 + 3) % 0x1_0000_0000) as u64
}

/// The MoPaQ hash of the (already upper-cased) characters `chars` with method `hashtype`.
pub open spec fn spec_hash(chars: Seq<char>, hashtype: HashType) -> u64 {
    hash_from(chars, hashtype.spec_value(), 0x7FED7FED, 0xEEEEEEEE)
}

/// The key after one decryption step from key `s1`.
#[verifier::opaque]
pub open spec fn next_key(s1: u64) -> u64 {
    let a: u64 = (!s1) << 21u64;
    let t: u64 = ((a + 0x11111111) % 0x1_0000_0000_0000_0000) as u64;
    (t | (s1 >> 11u64)) & 0xFFFFFFFF
}

/// The second seed of a decryption step, updated with the crypt table before the word is decrypted.
#[verifier::opaque]
pub open spec fn mixed_seed(s1: u64, s2: u64) -> u64 {
    ((s2 + crypt_entry(0x400 + (s1 & 0xFF) as int)) as u64) & 0xFFFFFFFF
}

/// The decryption of `word` with key `s1` and seed `s2`.
#[verifier::opaque]
pub open spec fn decrypt_word(word: u64, s1: u64, s2: u64) -> u64 {
    (word ^ ((s1 + mixed_seed(s1, s2)) % 0x1_0000_0000_0000_0000) as u64) & 0xFFFFFFFF
}

/// The key after `i` steps of the decryption from `key`.
pub open spec fn key_at(key: u64, i: nat) -> u64
    decreases i,
{
    if i == 0 {
        key
    } else {
        next_key(key_at(key, (i - 1) as nat))
    }
}

/// Decrypting `n` words with `key` stays within the 128-bit arithmetic of the decryption:
/// the next key is computed from a key of at most 135 only with an addition that overflows
/// 128 bits, which panics.
pub open spec fn decryptable(n: nat, key: u64) -> bool {
    forall|i: nat| i < n ==> #[trigger] key_at(key, i) > 135
}

/// The decryption of `buf` from the state `(s1, s2)`.
pub open spec fn decrypt_from(buf: Seq<u64>, s1: u64, s2: u64) -> Seq<u64>
    decreases buf.len(),
{
    if buf.len() == 0 {
        seq![]
    } else {
        let s2a = mixed_seed(s1, s2);
        let val = decrypt_word(buf[0], s1, s2);
        let n2 = ((val + s2a + 32 * s2a + 3) % 0x1_0000_0000) as u64;
        seq![val] + decrypt_from(buf.drop_first(), next_key(s1), n2)
    }
}

/// The hash of each method starts from the same seeds and differs only in the quarter of the
/// crypt table it reads: quarter 0 for the table offset, 1 for name hash A, 2 for name hash B
/// and 3 for the file key.
pub proof fn lemma_hash_methods(chars: Seq<char>)
    ensures
        spec_hash(chars, HashType::MPQHashtableOffset) == hash_from(chars, 0, 0x7FED7FED, 0xEEEEEEEE),
        spec_hash(chars, HashType::MPQHashNameA) == hash_from(chars, 1, 0x7FED7FED, 0xEEEEEEEE),
        spec_hash(chars, HashType::MPQHashNameB) == hash_from(chars, 2, 0x7FED7FED, 0xEEEEEEEE),
        spec_hash(chars, HashType::MPQHashFileKey) == hash_from(chars, 3, 0x7FED7FED, 0xEEEEEEEE),
{
}

/// The MoPaQ decryption of `buf` with `key`.
pub open spec fn spec_decrypt(buf: Seq<u64>, key: u64) -> Seq<u64> {
    decrypt_from(buf, key, 0xEEEEEEEE)
}

/// MoPaQ encryption of the words `buf` from the state `(s1, s2)`: before each word the seed
/// takes in the crypt table entry 0x400 plus the low byte of the key; the low 32 bits of the
/// word are xored with the key plus the seed; then the key is stirred, and the seed takes in
/// the plain word.
pub open spec fn encrypt_from(buf: Seq<u64>, s1: u64, s2: u64) -> Seq<u64>
    decreases buf.len(),
{
    if buf.len() == 0 {
        seq![]
    } else {
        let seed = (s2 + crypt_entry(0x400 + s1 % 256)) % 0x1_0000_0000;
        let plain = (buf[0] % 0x1_0000_0000) as u64;
        let word = (plain ^ ((s1 + seed) % 0x1_0000_0000_0000_0000) as u64) & 0xFFFFFFFF;
        let stirred: u64 = (((((!s1) << 21u64) + 0x11111111) % 0x1_0000_0000_0000_0000) as u64 | (s1
            >> 11u64)) & 0xFFFFFFFF;
        seq![word] + encrypt_from(buf.drop_first(), stirred, ((plain + seed + 32 * seed + 3) % 0x1_0000_0000) as u64)
    }
}

/// The MoPaQ encryption of `buf` with `key`.
pub open spec fn spec_encrypt(buf: Seq<u64>, key: u64) -> Seq<u64> {
    encrypt_from(buf, key, 0xEEEEEEEE)
}

proof fn lemma_xor_back(p: u64, k: u64)
    requires
        p < 0x1_0000_0000,
    ensures
        (((p ^ k) & 0xFFFFFFFF) ^ k) & 0xFFFFFFFF == p,
{
    assert(p < 0x1_0000_0000 ==> (((p ^ k) & 0xFFFFFFFF) ^ k) & 0xFFFFFFFF == p) by (bit_vector);
}

proof fn lemma_mixed_seed_value(s1: u64, s2: u64)
    requires
        s2 < 0x1_0000_0000,
    ensures
        mixed_seed(s1, s2) == (s2 + crypt_entry(0x400 + s1 % 256)) % 0x1_0000_0000,
{
    reveal(mixed_seed);
    assert(s1 & 0xFF == s1 % 256) by (bit_vector);
    lemma_entry_bound(0x400 + s1 % 256);
    let x = (s2 + crypt_entry(0x400 + s1 % 256)) as u64;
    lemma_mask_bound(x);
}

proof fn lemma_decrypt_encrypt_from(buf: Seq<u64>, s1: u64, s2: u64)
    requires
        s2 < 0x1_0000_0000,
    ensures
        decrypt_from(encrypt_from(buf, s1, s2), s1, s2) == low_words(buf),
    decreases buf.len(),
{
    let e = encrypt_from(buf, s1, s2);
    if buf.len() == 0 {
        assert(low_words(buf) =~= Seq::<u64>::empty());
    } else {
        reveal(decrypt_word);
        reveal(next_key);
        lemma_mixed_seed_value(s1, s2);
        let seed = (s2 + crypt_entry(0x400 + s1 % 256)) % 0x1_0000_0000;
        let plain = (buf[0] % 0x1_0000_0000) as u64;
        let k = ((s1 + seed) % 0x1_0000_0000_0000_0000) as u64;
        lemma_xor_back(plain, k);
        let n2 = ((plain + seed + 32 * seed + 3) % 0x1_0000_0000) as u64;
        assert(e[0] == (plain ^ k) & 0xFFFFFFFF);
        assert(e.drop_first() == encrypt_from(buf.drop_first(), next_key(s1), n2));
        assert(decrypt_word(e[0], s1, s2) == plain);
        lemma_decrypt_encrypt_from(buf.drop_first(), next_key(s1), n2);
        assert(low_words(buf) =~= seq![plain] + low_words(buf.drop_first()));
    }
}

/// Decryption undoes MoPaQ encryption with the same key: decrypting the encryption of words
/// gives back their low 32 bits.
pub proof fn lemma_decrypt_encrypt(buf: Seq<u64>, key: u64)
    ensures
        spec_decrypt(spec_encrypt(buf, key), key) == low_words(buf),
{
    lemma_decrypt_encrypt_from(buf, key, 0xEEEEEEEE);
}

proof fn lemma_decrypt_word_low(w: u64, s1: u64, s2: u64)
    ensures
        decrypt_word((w % 0x1_0000_0000) as u64, s1, s2) == decrypt_word(w, s1, s2),
{
    reveal(decrypt_word);
    let x = ((s1 + mixed_seed(s1, s2)) % 0x1_0000_0000_0000_0000) as u64;
    let l = (w % 0x1_0000_0000) as u64;
    assert((l ^ x) & 0xFFFFFFFF == (w ^ x) & 0xFFFFFFFF) by (bit_vector)
        requires l == w % 0x1_0000_0000;
}

proof fn lemma_decrypt_from_low(buf: Seq<u64>, s1: u64, s2: u64)
    ensures
        decrypt_from(low_words(buf), s1, s2) == decrypt_from(buf, s1, s2),
    decreases buf.len(),
{
    if buf.len() > 0 {
        let l = low_words(buf);
        assert(l.drop_first() =~= low_words(buf.drop_first()));
        lemma_decrypt_word_low(buf[0], s1, s2);
        lemma_decrypt_from_low(buf.drop_first(), next_key(s1), {
            let s2a = mixed_seed(s1, s2);
            let val = decrypt_word(buf[0], s1, s2);
            ((val + s2a + 32 * s2a + 3) % 0x1_0000_0000) as u64
        });
    }
}

/// Decryption reads only the low 32 bits of each word: words that agree there decrypt alike.
pub proof fn lemma_decrypt_low_words(buf: Seq<u64>, key: u64)
    ensures
        spec_decrypt(low_words(buf), key) == spec_decrypt(buf, key),
{
    lemma_decrypt_from_low(buf, key, 0xEEEEEEEE);
}

proof fn lemma_decrypt_from_prefix(buf: Seq<u64>, k: int, s1: u64, s2: u64)
    requires
        0 <= k <= buf.len(),
    ensures
        decrypt_from(buf.take(k), s1, s2) == decrypt_from(buf, s1, s2).take(k),
        decrypt_from(buf, s1, s2).len() == buf.len(),
    decreases buf.len(),
{
    if buf.len() > 0 {
        let s2a = mixed_seed(s1, s2);
        let val = decrypt_word(buf[0], s1, s2);
        let n2 = ((val + s2a + 32 * s2a + 3) % 0x1_0000_0000) as u64;
        if k > 0 {
            assert(buf.take(k).drop_first() =~= buf.drop_first().take(k - 1));
            lemma_decrypt_from_prefix(buf.drop_first(), k - 1, next_key(s1), n2);
            assert(buf.take(k)[0] == buf[0]);
            assert(decrypt_from(buf, s1, s2).take(k) =~= seq![val] + decrypt_from(buf.drop_first(), next_key(s1), n2).take(k - 1));
        } else {
            lemma_decrypt_from_prefix(buf.drop_first(), 0, next_key(s1), n2);
            assert(buf.take(0) =~= Seq::<u64>::empty());
            assert(decrypt_from(buf, s1, s2).take(0) =~= Seq::<u64>::empty());
        }
    }
}

/// Each decrypted word depends only on the key and the words up to it: decrypting a prefix
/// gives the prefix of the decryption.
pub proof fn lemma_decrypt_prefix(buf: Seq<u64>, k: int, key: u64)
    requires
        0 <= k <= buf.len(),
    ensures
        spec_decrypt(buf.take(k), key) == spec_decrypt(buf, key).take(k),
{
    lemma_decrypt_from_prefix(buf, k, key, 0xEEEEEEEE);
}

/// What `str::to_uppercase` returns for the characters `s`.
pub uninterp spec fn uppercased(s: Seq<char>) -> Seq<char>;

/// The upper case of `s` as `str::to_uppercase` gives it: on ASCII text, the ASCII upper case
/// of each character; on other text, the Unicode upper case, which is left named.
pub open spec fn upper_case(s: Seq<char>) -> Seq<char> {
    if is_ascii_chars(s) {
        ascii_upper_chars(s)
    } else {
        uppercased(s)
    }
}

/// Every ASCII name can be hashed with every method: its upper case selects entries of the
/// crypt table only.
pub proof fn lemma_ascii_hashable(s: Seq<char>, hashtype: HashType)
    requires
        is_ascii_chars(s),
    ensures
        hashable(upper_case(s), hashtype),
{
    assert forall|i: int| 0 <= i < upper_case(s).len() implies #[trigger] hash_index(
        hashtype.spec_value(),
        upper_case(s)[i],
    ) < 0x500 by {
        assert((s[i] as u32) < 0x80);
    }
}

/// Hashing does not tell the case of ASCII letters apart: two ASCII names that differ only
/// in the case of their letters have the same hash, with every method.
pub proof fn lemma_hash_ignores_ascii_case(s: Seq<char>, t: Seq<char>, hashtype: HashType)
    requires
        is_ascii_chars(s),
        is_ascii_chars(t),
        ascii_upper_chars(s) == ascii_upper_chars(t),
    ensures
        spec_hash(upper_case(s), hashtype) == spec_hash(upper_case(t), hashtype),
{
}

/// Calls `str::to_uppercase` and hands out the characters of its result.
/// The result is the Unicode upper case of `s`, which this contract names; of ASCII text,
/// as the Unicode case mapping of the ASCII letters gives it, it states that each character
/// becomes its ASCII upper case. The upper case of other characters is left unsaid.
#[verifier::external_body]
fn to_uppercase_chars(s: &str) -> (res: Vec<char>)
    ensures
        res@ == uppercased(s@),
        is_ascii_chars(s@) ==> res@ == ascii_upper_chars(s@),
{
    s.to_uppercase().chars().collect()
}

/// The table of the MoPaQ hashing and encryption algorithms.
pub struct CryptTable {
    dw_crypt_table: [u64; 0x500],
}

proof fn lemma_seed_bound(n: nat)
    ensures
        0 <= seed_at(n) < 0x2AAAAB,
    decreases n,
{
    if n > 0 {
        lemma_seed_bound((n - 1) as nat);
    }
}

proof fn lemma_entry_bits(s: u64, t: u64)
    ensures
        ((s & 0xFFFF) << 0x10) | (t & 0xFFFF) == (s % 0x10000) * 0x10000 + t % 0x10000,
{
    assert(((s & 0xFFFF) << 0x10) | (t & 0xFFFF) == (s % 0x10000) * 0x10000 + t % 0x10000)
        by (bit_vector);
}

proof fn lemma_entry_index(index1: int, j: int)
    requires
        0 <= index1 < 0x100,
        0 <= j < 5,
    ensures
        (index1 + 0x100 * j) % 0x100 == index1,
        (index1 + 0x100 * j) / 0x100 == j,
{
    assert((index1 + 0x100 * j) % 0x100 == index1) by (nonlinear_arith)
        requires 0 <= index1 < 0x100, 0 <= j < 5;
    assert((index1 + 0x100 * j) / 0x100 == j) by (nonlinear_arith)
        requires 0 <= index1 < 0x100, 0 <= j < 5;
}

proof fn lemma_entry_bound(i: int)
    ensures
        crypt_entry(i) < 0x1_0000_0000,
{
    let k = 5 * (i % 0x100) + i / 0x100;
    let s1 = seed_at((2 * k + 1) as nat);
    let s2 = seed_at((2 * k + 2) as nat);
    lemma_seed_bound((2 * k + 1) as nat);
    lemma_seed_bound((2 * k + 2) as nat);
    assert(0 <= (s1 % 0x10000) * 0x10000 + s2 % 0x10000 < 0x1_0000_0000) by (nonlinear_arith)
        requires 0 <= s1, 0 <= s2;
}

proof fn lemma_mask_bound(x: u64)
    ensures
        x & 0xFFFFFFFF < 0x1_0000_0000,
        x & 0xFF < 0x100,
        x & 0xFFFFFFFF == x % 0x1_0000_0000,
{
    assert(x & 0xFFFFFFFF < 0x1_0000_0000) by (bit_vector);
    assert(x & 0xFF < 0x100) by (bit_vector);
    assert(x & 0xFFFFFFFF == x % 0x1_0000_0000) by (bit_vector);
}

proof fn lemma_shl5(x: u64)
    requires
        x < 0x1_0000_0000,
    ensures
        x << 5u64 == x * 32,
{
    assert(x < 0x1_0000_0000 ==> x << 5u64 == x * 32) by (bit_vector);
}

proof fn lemma_shl8(x: u64)
    requires
        x < 4,
    ensures
        x << 8u64 == x * 256,
{
    assert(x < 4 ==> x << 8u64 == x * 256) by (bit_vector);
}

/// One step of the hash, from the table entry `value` of character `c`.
fn hash_step(value: u64, c: u64, seed1: u64, seed2: u64) -> (r: (u64, u64))
    requires
        value < 0x1_0000_0000,
        c < 0x500,
        seed1 < 0x1_0000_0000,
        seed2 < 0x1_0000_0000,
    ensures
        r.0 == hash_seed1(value, seed1, seed2),
        r.1 == hash_seed2(c, r.0, seed2),
        r.0 < 0x1_0000_0000,
        r.1 < 0x1_0000_0000,
{
    proof {
        reveal(hash_seed1);
        reveal(hash_seed2);
    }
    let n1 = (value ^ (seed1 + seed2)) & 0xFFFFFFFF;
    proof {
        lemma_mask_bound(value ^ ((seed1 + seed2) as u64));
        lemma_shl5(seed2);
    }
    let n2 = (c + n1 + seed2 + (seed2 << 5) + 3) & 0xFFFFFFFF;
    proof {
        lemma_mask_bound((c + n1 + seed2 + (seed2 << 5) + 3) as u64);
    }
    (n1, n2)
}

impl CryptTable {
    #[verifier::type_invariant]
    spec fn wf(&self) -> bool {
        self.dw_crypt_table@ == crypt_table_spec()
    }

    /// Builds the crypt table.
    pub fn new() -> (t: CryptTable)
        ensures
            t.table() == crypt_table_spec(),
    {
        let mut table = [0u64; 0x500];
        let mut seed: u64 = 0x00100001;
        let mut index1: usize = 0;
        while index1 < 0x100
            invariant
                index1 <= 0x100,
                seed == seed_at(10 * index1 as nat),
                table@.len() == 0x500,
                forall|x: int| 0 <= x < 0x500 && x % 0x100 < index1 ==> table@[x] == crypt_entry(x),
            decreases 0x100 - index1,
        {
            let mut index2 = index1;
            let mut j: usize = 0;
            while j < 5
                invariant
                    index1 < 0x100,
                    j <= 5,
                    index2 == index1 + 0x100 * j,
                    seed == seed_at((10 * index1 + 2 * j) as nat),
                    table@.len() == 0x500,
                    forall|x: int| 0 <= x < 0x500 && x % 0x100 < index1 ==> table@[x] == crypt_entry(x),
                    forall|x: int|
                        0 <= x < 0x500 && x % 0x100 == index1 && x / 0x100 < j ==> table@[x]
                            == crypt_entry(x),
                decreases 5 - j,
            {
                proof {
                    lemma_seed_bound((10 * index1 + 2 * j) as nat);
                }
                seed = (seed * 125 + 3) % 0x2AAAAB;
                let temp1 = (seed & 0xFFFF) << 0x10;
                let ghost s1 = seed;
                proof {
                    lemma_seed_bound((10 * index1 + 2 * j + 1) as nat);
                }
                seed = (seed * 125 + 3) % 0x2AAAAB;
                let temp2 = seed & 0xFFFF;
                proof {
                    lemma_entry_bits(s1, seed);
                    lemma_entry_index(index1 as int, j as int);
                }
                table[index2] = temp1 | temp2;
                assert(table@[index2 as int] == crypt_entry(index2 as int));
                assert forall|x: int|
                    0 <= x < 0x500 && x % 0x100 == index1 && x / 0x100 < j + 1 implies #[trigger] table@[x]
                    == crypt_entry(x) by {
                    if x / 0x100 == j {
                        assert(x == 0x100 * (x / 0x100) + x % 0x100);
                    }
                }
                index2 += 0x100;
                j += 1;
            }
            assert forall|x: int| 0 <= x < 0x500 && x % 0x100 < index1 + 1 implies table@[x]
                == crypt_entry(x) by {
                if x % 0x100 == index1 {
                    assert(x / 0x100 < 5);
                }
            }
            index1 += 1;
        }
        assert(table@ =~= crypt_table_spec());
        CryptTable { dw_crypt_table: table }
    }

    /// The entries of the table.
    pub closed spec fn table(&self) -> Seq<u64> {
        self.dw_crypt_table@
    }

    /// Entry `i` of the table, for `i < 0x500`.
    fn entry(&self, i: usize) -> (v: u64)
        requires
            i < 0x500,
        ensures
            v == crypt_entry(i as int),
            v < 0x1_0000_0000,
    {
        proof {
            use_type_invariant(self);
            lemma_entry_bound(i as int);
        }
        self.dw_crypt_table[i]
    }

    /// One step of the decryption: the decrypted word and the next key and seed.
    fn decrypt_step(&self, word: u64, seed1: u64, seed2: u64) -> (r: (u64, u64, u64))
        requires
            seed2 < 0x1_0000_0000,
        ensures
            r.0 == decrypt_word(word, seed1, seed2),
            r.0 < 0x1_0000_0000,
            r.1 == next_key(seed1),
            r.2 == ((r.0 + mixed_seed(seed1, seed2) + 32 * mixed_seed(seed1, seed2) + 3) % 0x1_0000_0000) as u64,
            r.2 < 0x1_0000_0000,
    {
        proof {
            lemma_mask_bound(seed1);
            reveal(next_key);
            reveal(mixed_seed);
            reveal(decrypt_word);
        }
        let e = self.entry(0x400 + (seed1 & 0xFF) as usize);
        let s2a = (seed2 + e) & 0xFFFFFFFF;
        proof {
            lemma_mask_bound((seed2 + e) as u64);
        }
        assert(s2a == mixed_seed(seed1, seed2));
        let val = (word ^ seed1.wrapping_add(s2a)) & 0xFFFFFFFF;
        proof {
            lemma_mask_bound(word ^ seed1.wrapping_add(s2a));
            lemma_shl5(s2a);
        }
        let a = (!seed1) << 21;
        let t = a.wrapping_add(0x11111111);
        let n1 = (t | (seed1 >> 11)) & 0xFFFFFFFF;
        let n2 = (val + s2a + (s2a << 5) + 3) & 0xFFFFFFFF;
        proof {
            lemma_mask_bound((val + s2a + (s2a << 5) + 3) as u64);
        }
        (val, n1, n2)
    }

    /// Whether `n` words can be decrypted with `key` without an overflow, as
    /// `decryptable` states it.
    pub fn can_decrypt(n: usize, key: u64) -> (r: bool)
        ensures
            r == decryptable(n as nat, key),
    {
        let mut k = key;
        let mut i: usize = 0;
        while i < n
            invariant
                i <= n,
                k == key_at(key, i as nat),
                forall|j: nat| j < i ==> #[trigger] key_at(key, j) > 135,
            decreases n - i,
        {
            if k <= 135 {
                return false;
            }
            proof {
                reveal(next_key);
            }
            let a = (!k) << 21;
            let t = a.wrapping_add(0x11111111);
            k = (t | (k >> 11)) & 0xFFFFFFFF;
            i += 1;
        }
        true
    }

    /// Decrypts `buffer`, a sequence of 32-bit words, with `key`.
    pub fn decrypt(&self, buffer: &[u64], key: u64) -> (res: Vec<u64>)
        requires
            decryptable(buffer@.len(), key),
        ensures
            res@ == spec_decrypt(buffer@, key),
            res@.len() == buffer@.len(),
            forall|i: int| 0 <= i < res@.len() ==> #[trigger] res@[i] < 0x1_0000_0000,
    {
        let mut res: Vec<u64> = Vec::new();
        let mut seed1: u64 = key;
        let mut seed2: u64 = 0xEEEEEEEE;
        let mut i: usize = 0;
        assert(buffer@.skip(0) =~= buffer@);
        assert(res@ + decrypt_from(buffer@, seed1, seed2) =~= decrypt_from(buffer@, seed1, seed2));
        while i < buffer.len()
            invariant
                i <= buffer@.len(),
                seed2 < 0x1_0000_0000,
                spec_decrypt(buffer@, key) == res@ + decrypt_from(buffer@.skip(i as int), seed1, seed2),
                res@.len() == i,
                forall|k: int| 0 <= k < res@.len() ==> #[trigger] res@[k] < 0x1_0000_0000,
            decreases buffer@.len() - i,
        {
            let (val, n1, n2) = self.decrypt_step(buffer[i], seed1, seed2);
            proof {
                let s = buffer@.skip(i as int);
                assert(s[0] == buffer@[i as int]);
                assert(s.drop_first() =~= buffer@.skip(i + 1));
                assert(res@.push(val) + decrypt_from(buffer@.skip(i + 1), n1, n2) =~= res@
                    + decrypt_from(s, seed1, seed2));
            }
            res.push(val);
            seed1 = n1;
            seed2 = n2;
            i += 1;
        }
        assert(buffer@.skip(i as int) =~= Seq::<u64>::empty());
        assert(res@ + decrypt_from(buffer@.skip(i as int), seed1, seed2) =~= res@);
        res
    }

    /// The MoPaQ hash of `string` with method `hashtype`; the string is upper-cased first.
    pub fn hash(&self, string: String, hashtype: HashType) -> (h: u64)
        requires
            hashable(upper_case(string@), hashtype),
        ensures
            h == spec_hash(upper_case(string@), hashtype),
            h < 0x1_0000_0000,
    {
        let chars = to_uppercase_chars(string.as_str());
        self.hash_chars(&chars, hashtype)
    }

    /// The hash of `string` with method `hashtype`, or `None` where a character of the
    /// upper-cased string lies beyond the part of the crypt table that the method uses.
    pub fn try_hash(&self, string: String, hashtype: HashType) -> (h: Option<u64>)
        ensures
            h is Some <==> hashable(upper_case(string@), hashtype),
            h matches Some(v) ==> v == spec_hash(upper_case(string@), hashtype),
    {
        let chars = to_uppercase_chars(string.as_str());
        let ht = hashtype.value();
        let mut i: usize = 0;
        while i < chars.len()
            invariant
                i <= chars@.len(),
                chars@ == upper_case(string@),
                ht == hashtype.spec_value(),
                forall|k: int| 0 <= k < i ==> #[trigger] hash_index(ht, chars@[k]) < 0x500,
            decreases chars@.len() - i,
        {
            let c = chars[i] as u64;
            if c >= 0x500 - ht * 256 {
                assert(!(hash_index(ht, chars@[i as int]) < 0x500));
                assert(!(hash_index(ht, chars@[i as int]) < 0x500));
                return None;
            }
            i += 1;
        }
        Some(self.hash_chars(&chars, hashtype))
    }

    fn hash_chars(&self, chars: &Vec<char>, hashtype: HashType) -> (h: u64)
        requires
            hashable(chars@, hashtype),
        ensures
            h == spec_hash(chars@, hashtype),
            h < 0x1_0000_0000,
    {
        let mut seed1: u64 = 0x7FED7FED;
        let mut seed2: u64 = 0xEEEEEEEE;
        let ht = hashtype.value();
        proof {
            lemma_shl8(ht);
        }
        let mut i: usize = 0;
        assert(chars@.skip(0) =~= chars@);
        while i < chars.len()
            invariant
                i <= chars@.len(),
                ht == hashtype.spec_value(),
                ht < 4,
                seed1 < 0x1_0000_0000,
                seed2 < 0x1_0000_0000,
                ht << 8 == ht * 256,
                hashable(chars@, hashtype),
                spec_hash(chars@, hashtype) == hash_from(chars@.skip(i as int), ht, seed1, seed2),
            decreases chars@.len() - i,
        {
            let c = chars[i] as u64;
            assert(hash_index(ht, chars@[i as int]) < 0x500);
            let value = self.entry(((ht << 8) + c) as usize);
            let (n1, n2) = hash_step(value, c, seed1, seed2);
            proof {
                let s = chars@.skip(i as int);
                assert(s[0] == chars@[i as int]);
                assert(s.drop_first() =~= chars@.skip(i + 1));
            }
            seed1 = n1;
            seed2 = n2;
            i += 1;
        }
        seed1
    }
}

} // verus!
