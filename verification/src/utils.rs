use vstd::prelude::*;
use encoding::Encoding;

use crate::bytes::{le_field, le_value};

verus! {

/// Every character of `s` is ASCII.
pub open spec fn is_ascii_chars(s: Seq<char>) -> bool {
    forall|i: int| 0 <= i < s.len() ==> (#[trigger] s[i] as u32) < 0x80
}

/// The ASCII upper case of `c`: `a` to `z` become `A` to `Z`, other characters stay.
pub open spec fn ascii_upper(c: char) -> char {
    if 0x61 <= (c as u32) <= 0x7A {
        ((c as u32) - 0x20) as char
    } else {
        c
    }
}

/// The ASCII lower case of `c`: `A` to `Z` become `a` to `z`, other characters stay.
pub open spec fn ascii_lower(c: char) -> char {
    if 0x41 <= (c as u32) <= 0x5A {
        ((c as u32) + 0x20) as char
    } else {
        c
    }
}

/// The ASCII upper case of each character of `s`.
pub open spec fn ascii_upper_chars(s: Seq<char>) -> Seq<char> {
    s.map_values(|c: char| ascii_upper(c))
}

/// The ASCII lower case of each character of `s`.
pub open spec fn ascii_lower_chars(s: Seq<char>) -> Seq<char> {
    s.map_values(|c: char| ascii_lower(c))
}

/// The second part of a pair of byte slices.
pub fn snd<'a>(pair: (&[u8], &'a [u8])) -> (res: &'a [u8])
    ensures
        res@ == pair.1@,
{
    pair.1
}

/// Calls `std::str::from_utf8` and copies the string it returns.
/// As its documentation says, it succeeds exactly on valid UTF-8, and the characters are
/// those that the bytes encode.
#[verifier::external_body]
fn str_from_utf8(data: &[u8]) -> (res: Option<String>)
    ensures
        res is Some <==> vstd::utf8::valid_utf8(data@),
        res matches Some(s) ==> s@ == vstd::utf8::decode_utf8(data@),
{
    match std::str::from_utf8(data) {
        Ok(s) => Some(s.to_string()),
        Err(_) => None,
    }
}

/// Decodes UTF-8 text.
pub fn decode_utf8(data: &[u8]) -> (res: Result<String, ()>)
    ensures
        res is Ok <==> vstd::utf8::valid_utf8(data@),
        res matches Ok(s) ==> s@ == vstd::utf8::decode_utf8(data@),
{
    match str_from_utf8(data) {
        Some(s) => Ok(s),
        None => Err(()),
    }
}

/// The characters of ISO 8859-1 text: each byte is the code point of its character.
pub open spec fn latin1_chars(data: Seq<u8>) -> Seq<char> {
    Seq::new(data.len(), |i: int| data[i] as char)
}

/// Calls `encoding::all::ISO_8859_1.decode` with the strict trap.
/// Its source maps every byte to the character of the same code point and never fails.
#[verifier::external_body]
fn iso_8859_1_decode(data: &[u8]) -> (res: Result<String, ()>)
    ensures
        res is Ok,
        res->Ok_0@ == latin1_chars(data@),
{
    match encoding::all::ISO_8859_1.decode(data, encoding::DecoderTrap::Strict) {
        Ok(s) => Ok(s),
        Err(_) => Err(()),
    }
}

/// The character of the byte `b` in Windows-1252: the character of the same code point,
/// but for the bytes 0x80 to 0x9F, which have characters of their own.
pub open spec fn windows_1252_char(b: u8) -> char {
    match b {
        0x80 => '\u{20AC}',
        0x81 => '\u{81}',
        0x82 => '\u{201A}',
        0x83 => '\u{192}',
        0x84 => '\u{201E}',
        0x85 => '\u{2026}',
        0x86 => '\u{2020}',
        0x87 => '\u{2021}',
        0x88 => '\u{2C6}',
        0x89 => '\u{2030}',
        0x8A => '\u{160}',
        0x8B => '\u{2039}',
        0x8C => '\u{152}',
        0x8D => '\u{8D}',
        0x8E => '\u{17D}',
        0x8F => '\u{8F}',
        0x90 => '\u{90}',
        0x91 => '\u{2018}',
        0x92 => '\u{2019}',
        0x93 => '\u{201C}',
        0x94 => '\u{201D}',
        0x95 => '\u{2022}',
        0x96 => '\u{2013}',
        0x97 => '\u{2014}',
        0x98 => '\u{2DC}',
        0x99 => '\u{2122}',
        0x9A => '\u{161}',
        0x9B => '\u{203A}',
        0x9C => '\u{153}',
        0x9D => '\u{9D}',
        0x9E => '\u{17E}',
        0x9F => '\u{178}',
        _ => b as char,
    }
}

/// The characters of Windows-1252 text, one per byte.
pub open spec fn windows_1252_chars(data: Seq<u8>) -> Seq<char> {
    Seq::new(data.len(), |i: int| windows_1252_char(data[i]))
}

/// Calls `encoding::all::WINDOWS_1252.decode` with the strict trap.
/// Its source maps each byte below 0x80 to the character of the same code point and each
/// other byte to the entry of its index table, which has a character for every byte: it
/// never fails and gives one character per byte, `windows_1252_char` of it.
#[verifier::external_body]
fn windows_1252_decode(data: &[u8]) -> (res: Result<String, ()>)
    ensures
        res is Ok,
        res->Ok_0@ == windows_1252_chars(data@),
{
    match encoding::all::WINDOWS_1252.decode(data, encoding::DecoderTrap::Strict) {
        Ok(s) => Ok(s),
        Err(_) => Err(()),
    }
}

/// Decodes ISO 8859-1 text, falling back to UTF-8.
pub fn decode_iso(data: &[u8]) -> (res: Result<String, ()>)
    ensures
        res is Ok,
        res->Ok_0@ == latin1_chars(data@),
{
    match iso_8859_1_decode(data) {
        Ok(s) => Ok(s),
        Err(_) => match str_from_utf8(data) {
            Some(s) => Ok(s),
            None => Err(()),
        },
    }
}

/// Decodes Windows-1252 text, falling back to UTF-8.
pub fn decode(data: &[u8]) -> (res: Result<String, ()>)
    ensures
        res is Ok,
        res->Ok_0@ == windows_1252_chars(data@),
{
    match windows_1252_decode(data) {
        Ok(s) => Ok(s),
        Err(_) => match str_from_utf8(data) {
            Some(s) => Ok(s),
            None => Err(()),
        },
    }
}

/// The pieces of `s` from position `start` on, scanning from position `i`: the text up to
/// each CR LF, then the text after the last one.
pub open spec fn split_from(s: Seq<u8>, start: int, i: int) -> Seq<Seq<u8>>
    decreases s.len() - i,
{
    if i < 0 || i + 1 >= s.len() {
        seq![s.subrange(start, s.len() as int)]
    } else if s[i] == 13 && s[i + 1] == 10 {
        seq![s.subrange(start, i)] + split_from(s, i + 2, i + 2)
    } else {
        split_from(s, start, i + 1)
    }
}

/// The pieces of `s` between its CR LF pairs, as `str::split("\r\n")` cuts text.
pub open spec fn split_crlf(s: Seq<u8>) -> Seq<Seq<u8>> {
    split_from(s, 0, 0)
}

/// The characters of each piece, read as Windows-1252.
pub open spec fn pieces_chars(ps: Seq<Seq<u8>>) -> Seq<Seq<char>> {
    ps.map_values(|p: Seq<u8>| windows_1252_chars(p))
}

/// The characters of each string.
pub open spec fn strings_view(v: Seq<String>) -> Seq<Seq<char>> {
    v.map_values(|t: String| t@)
}

/// The names in a list file: its text, read as Windows-1252, cut at each CR LF.
pub fn split_file_list(data: &[u8]) -> (res: Vec<String>)
    ensures
        strings_view(res@) == pieces_chars(split_crlf(data@)),
{
    let ghost s = data@;
    let mut res: Vec<String> = Vec::new();
    let mut start: usize = 0;
    let mut i: usize = 0;
    while data.len() - i >= 2
        invariant
            s == data@,
            start <= i <= data@.len(),
            strings_view(res@) + pieces_chars(split_from(s, start as int, i as int)) == pieces_chars(
                split_crlf(s),
            ),
        decreases data@.len() - i,
    {
        if data[i] == 13 && data[i + 1] == 10 {
            let piece = &data[start..i];
            let t = match decode(piece) {
                Ok(t) => t,
                Err(_) => String::new(),
            };
            proof {
                let rest = pieces_chars(split_from(s, (i + 2) as int, (i + 2) as int));
                assert(piece@ == s.subrange(start as int, i as int));
                assert(split_from(s, start as int, i as int) == seq![s.subrange(start as int, i as int)]
                    + split_from(s, (i + 2) as int, (i + 2) as int));
                assert(pieces_chars(split_from(s, start as int, i as int)) =~= seq![t@] + rest);
                assert(strings_view(res@.push(t)) =~= strings_view(res@).push(t@));
                assert(strings_view(res@).push(t@) + rest =~= strings_view(res@) + (seq![t@] + rest));
            }
            res.push(t);
            i = i + 2;
            start = i;
        } else {
            assert(split_from(s, start as int, i as int) == split_from(s, start as int, i + 1));
            i = i + 1;
        }
    }
    let piece = &data[start..data.len()];
    let t = match decode(piece) {
        Ok(t) => t,
        Err(_) => String::new(),
    };
    proof {
        assert(split_from(s, start as int, i as int) == seq![s.subrange(start as int, s.len() as int)]);
        assert(pieces_chars(split_from(s, start as int, i as int)) =~= seq![t@]);
        assert(strings_view(res@.push(t)) =~= strings_view(res@).push(t@));
    }
    res.push(t);
    res
}

/// The rest of `data` from position `offset` of the whole input, where `data` is the last
/// `current_size` bytes of an input of `max_size` bytes.
pub fn jump_to_offset(offset: usize, max_size: usize, current_size: usize, data: &[u8]) -> (res: &[u8])
    requires
        current_size <= max_size,
        max_size - current_size <= offset,
        offset - (max_size - current_size) <= data@.len(),
    ensures
        res@ == data@.subrange(offset - (max_size - current_size), data@.len() as int),
{
    let current_pos = max_size - current_size;
    let corrected_offset = offset - current_pos;
    &data[corrected_offset..data.len()]
}

/// The little-endian 32-bit word `i` of `data`.
pub open spec fn le_word(data: Seq<u8>, i: int) -> u64 {
    (data[4 * i] + data[4 * i + 1] * 0x100 + data[4 * i + 2] * 0x1_0000 + data[4 * i + 3]
        * 0x100_0000) as u64
}

/// The little-endian 32-bit words of `data`; bytes after the last whole word are dropped.
pub open spec fn packed(data: Seq<u8>) -> Seq<u64> {
    Seq::new(data.len() / 4, |i: int| le_word(data, i))
}

/// Byte `j` (from the least significant) of `w`.
pub open spec fn byte_of(w: u64, j: int) -> u8 {
    ((w >> (8 * j) as u64) & 0xFF) as u8
}

/// The four low bytes of each word of `words`, least significant first.
pub open spec fn unpacked(words: Seq<u64>) -> Seq<u8> {
    Seq::new(4 * words.len(), |k: int| byte_of(words[k / 4], k % 4))
}

/// Packs the bytes of `data` into little-endian 32-bit words; bytes after the last whole
/// word are dropped.
pub fn pack_u8_vec(data: &[u8]) -> (res: Vec<u64>)
    ensures
        res@ == packed(data@),
{
    let mut res: Vec<u64> = Vec::new();
    let len = data.len();
    let n = len / 4;
    assert(4 * n <= len) by (nonlinear_arith)
        requires n == len / 4;
    let mut i: usize = 0;
    while i < n
        invariant
            len == data@.len(),
            n == data@.len() / 4,
            4 * n <= len,
            i <= n,
            res@.len() == i,
            forall|k: int| 0 <= k < i ==> #[trigger] res@[k] == le_word(data@, k),
        decreases n - i,
    {
        assert(4 * i + 3 < data@.len());
        let w = data[4 * i] as u64 + data[4 * i + 1] as u64 * 0x100 + data[4 * i + 2] as u64
            * 0x1_0000 + data[4 * i + 3] as u64 * 0x100_0000;
        res.push(w);
        i += 1;
    }
    assert(res@ =~= packed(data@));
    res
}

/// Unpacks words into their four low bytes, least significant first.
pub fn unpack_u64_vec(data: &[u64]) -> (res: Vec<u8>)
    requires
        4 * data@.len() <= usize::MAX,
    ensures
        res@ == unpacked(data@),
{
    let mut res: Vec<u8> = Vec::new();
    let mut i: usize = 0;
    while i < data.len()
        invariant
            i <= data@.len(),
            4 * data@.len() <= usize::MAX,
            res@.len() == 4 * i,
            forall|k: int| 0 <= k < 4 * i ==> #[trigger] res@[k] == byte_of(data@[k / 4], k % 4),
        decreases data@.len() - i,
    {
        let d = data[i];
        let mut j: u64 = 0;
        while j < 4
            invariant
                i < data@.len(),
                d == data@[i as int],
                j <= 4,
                res@.len() == 4 * i + j,
                forall|k: int| 0 <= k < 4 * i + j ==> #[trigger] res@[k] == byte_of(data@[k / 4], k % 4),
            decreases 4 - j,
        {
            let v = ((d >> (8 * j)) & 0xFF) as u8;
            proof {
                let k = 4 * i + j;
                assert(k / 4 == i && k % 4 == j);
            }
            res.push(v);
            j += 1;
        }
        i += 1;
    }
    assert(res@ =~= unpacked(data@));
    res
}

proof fn lemma_word_bytes(w: u64)
    requires
        w < 0x1_0000_0000,
    ensures
        w == byte_of(w, 0) + byte_of(w, 1) * 0x100 + byte_of(w, 2) * 0x1_0000 + byte_of(w, 3)
            * 0x100_0000,
{
    assert(w < 0x1_0000_0000 ==> w == (w & 0xFF) + ((w >> 8) & 0xFF) * 0x100 + ((w >> 16) & 0xFF)
        * 0x1_0000 + ((w >> 24) & 0xFF) * 0x100_0000) by (bit_vector);
    assert((w >> 0u64) == w) by (bit_vector);
    assert(w & 0xFF < 0x100 && (w >> 8) & 0xFF < 0x100 && (w >> 16) & 0xFF < 0x100 && (w >> 24) & 0xFF
        < 0x100) by (bit_vector);
}

proof fn lemma_bytes_word(b0: u8, b1: u8, b2: u8, b3: u8)
    ensures
        ({
            let w = (b0 + b1 * 0x100 + b2 * 0x1_0000 + b3 * 0x100_0000) as u64;
            &&& byte_of(w, 0) == b0
            &&& byte_of(w, 1) == b1
            &&& byte_of(w, 2) == b2
            &&& byte_of(w, 3) == b3
        }),
{
    let w = (b0 + b1 * 0x100 + b2 * 0x1_0000 + b3 * 0x100_0000) as u64;
    let c0 = b0 as u64;
    let c1 = b1 as u64;
    let c2 = b2 as u64;
    let c3 = b3 as u64;
    assert(w == c0 + c1 * 0x100 + c2 * 0x1_0000 + c3 * 0x100_0000);
    assert(c0 < 0x100 && c1 < 0x100 && c2 < 0x100 && c3 < 0x100 ==> {
        let v = (c0 + c1 * 0x100 + c2 * 0x1_0000 + c3 * 0x100_0000) as u64;
        &&& (v >> 0u64) & 0xFF == c0
        &&& (v >> 8u64) & 0xFF == c1
        &&& (v >> 16u64) & 0xFF == c2
        &&& (v >> 24u64) & 0xFF == c3
    }) by (bit_vector);
}

/// Unpacking the words that packing made gives back the bytes up to the last whole word.
pub proof fn lemma_unpack_pack(data: Seq<u8>)
    ensures
        unpacked(packed(data)) == data.take((4 * (data.len() / 4)) as int),
{
    let p = packed(data);
    assert forall|k: int| 0 <= k < 4 * (data.len() / 4) implies #[trigger] unpacked(p)[k] == data[k] by {
        let i = k / 4;
        let j = k % 4;
        assert(0 <= i < data.len() / 4);
        assert(k == 4 * i + j);
        lemma_bytes_word(data[4 * i], data[4 * i + 1], data[4 * i + 2], data[4 * i + 3]);
        assert(p[i] == le_word(data, i));
    }
    assert(unpacked(p) =~= data.take((4 * (data.len() / 4)) as int));
}

proof fn lemma_byte_of_low(w: u64, j: int)
    requires
        0 <= j < 4,
    ensures
        byte_of(w, j) == byte_of((w % 0x1_0000_0000) as u64, j),
{
    let l = (w % 0x1_0000_0000) as u64;
    assert(l == w & 0xFFFF_FFFF) by (bit_vector)
        requires l == w % 0x1_0000_0000;
    assert(((w >> 0u64) & 0xFF) == ((l >> 0u64) & 0xFF)) by (bit_vector)
        requires l == w & 0xFFFF_FFFF;
    assert(((w >> 8u64) & 0xFF) == ((l >> 8u64) & 0xFF)) by (bit_vector)
        requires l == w & 0xFFFF_FFFF;
    assert(((w >> 16u64) & 0xFF) == ((l >> 16u64) & 0xFF)) by (bit_vector)
        requires l == w & 0xFFFF_FFFF;
    assert(((w >> 24u64) & 0xFF) == ((l >> 24u64) & 0xFF)) by (bit_vector)
        requires l == w & 0xFFFF_FFFF;
}

proof fn lemma_pack_unpack_small(words: Seq<u64>)
    requires
        forall|i: int| 0 <= i < words.len() ==> #[trigger] words[i] < 0x1_0000_0000,
    ensures
        packed(unpacked(words)) == words,
{
    let u = unpacked(words);
    assert forall|i: int| 0 <= i < words.len() implies #[trigger] packed(u)[i] == words[i] by {
        lemma_word_bytes(words[i]);
        assert((4 * i) / 4 == i && (4 * i) % 4 == 0);
        assert((4 * i + 1) / 4 == i && (4 * i + 1) % 4 == 1);
        assert((4 * i + 2) / 4 == i && (4 * i + 2) % 4 == 2);
        assert((4 * i + 3) / 4 == i && (4 * i + 3) % 4 == 3);
        assert(u[4 * i] == byte_of(words[i], 0));
        assert(u[4 * i + 1] == byte_of(words[i], 1));
        assert(u[4 * i + 2] == byte_of(words[i], 2));
        assert(u[4 * i + 3] == byte_of(words[i], 3));
    }
    assert(packed(u) =~= words);
}

/// The low 32 bits of each word of `words`.
pub open spec fn low_words(words: Seq<u64>) -> Seq<u64> {
    words.map_values(|x: u64| (x % 0x1_0000_0000) as u64)
}

proof fn lemma_unpack_low(words: Seq<u64>)
    ensures
        unpacked(words) == unpacked(low_words(words)),
{
    let m = low_words(words);
    assert forall|k: int| 0 <= k < 4 * words.len() implies #[trigger] unpacked(words)[k] == unpacked(m)[k] by {
        let i = k / 4;
        let j = k % 4;
        assert(0 <= i < words.len() && 0 <= j < 4) by (nonlinear_arith)
            requires 0 <= k < 4 * words.len(), i == k / 4, j == k % 4;
        assert(m[i] == (words[i] % 0x1_0000_0000) as u64);
        lemma_byte_of_low(words[i], j);
    }
    assert(unpacked(words) =~= unpacked(m));
}

/// Packing the bytes that unpacking made gives back the low 32 bits of each word.
pub proof fn lemma_pack_unpack(words: Seq<u64>)
    ensures
        packed(unpacked(words)) == low_words(words),
{
    let m = low_words(words);
    let a = unpacked(words);
    let b = unpacked(m);
    lemma_unpack_low(words);
    assert(a == b);
    assert(forall|i: int| 0 <= i < m.len() ==> #[trigger] m[i] < 0x1_0000_0000);
    lemma_pack_unpack_small(m);
    assert(packed(b) == m);
}

/// Words that fit in 32 bits are their own low 32 bits: packing what unpacking made gives
/// them back.
pub proof fn lemma_low_words_small(words: Seq<u64>)
    requires
        forall|i: int| 0 <= i < words.len() ==> #[trigger] words[i] < 0x1_0000_0000,
    ensures
        low_words(words) == words,
{
    assert(low_words(words) =~= words);
}

/// The four bytes that unpacking made of word `i` read back, little-endian, as its low 32 bits.
pub proof fn lemma_unpacked_word(words: Seq<u64>, i: int)
    requires
        0 <= i < words.len(),
    ensures
        le_field(unpacked(words), 4 * i, 4) == words[i] % 0x1_0000_0000,
{
    let w = words[i];
    let l = (w % 0x1_0000_0000) as u64;
    let u = unpacked(words);
    let f = u.subrange(4 * i, 4 * i + 4);
    assert((4 * i) / 4 == i && (4 * i) % 4 == 0);
    assert((4 * i + 1) / 4 == i && (4 * i + 1) % 4 == 1);
    assert((4 * i + 2) / 4 == i && (4 * i + 2) % 4 == 2);
    assert((4 * i + 3) / 4 == i && (4 * i + 3) % 4 == 3);
    lemma_byte_of_low(w, 0);
    lemma_byte_of_low(w, 1);
    lemma_byte_of_low(w, 2);
    lemma_byte_of_low(w, 3);
    lemma_word_bytes(l);
    assert(f[0] == byte_of(l, 0) && f[1] == byte_of(l, 1) && f[2] == byte_of(l, 2) && f[3] == byte_of(l, 3));
    let f1 = f.drop_first();
    let f2 = f1.drop_first();
    let f3 = f2.drop_first();
    assert(f3.drop_first() =~= Seq::<u8>::empty());
    assert(le_value(f3) == f3[0] + 256 * le_value(f3.drop_first()));
    assert(le_value(f2) == f2[0] + 256 * le_value(f3));
    assert(le_value(f1) == f1[0] + 256 * le_value(f2));
    assert(le_value(f) == f[0] + 256 * le_value(f1));
}

} // verus!
