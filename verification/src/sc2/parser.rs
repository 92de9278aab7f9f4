use vstd::prelude::*;
use vstd::arithmetic::power2::pow2;
use vstd::pervasive::unreached;

use crate::bytes::{le_field, le_value, lemma_le_value_bound, lemma_pow256_values, read_le, ParseError};
use crate::numbers::{be128, base128_digits, lemma_be128_prepend, pow128, Integer, Natural};
use crate::sc2mpq::parser::high_bit_run;
use crate::table::{
    key_index, keys_distinct, kv_fold, kv_insert, lemma_key_index, lemma_kv_fold_distinct, lemma_kv_fold_values,
};
use super::structs::{data_view, items_view, lemma_pairs_view, pairs_view, tables_distinct, DataType, Value};

verus! {

/// What a parser does with its input: it takes a number of bytes, reads a value and leaves
/// a number of bits of the last byte it looked at for the next read; or it refuses the
/// input; or the input is one on which it panics.
pub ghost enum Outcome<T> {
    Done(nat, T, nat),
    Fails(ParseError),
    Panics,
}

/// `o`, after `c` bytes that were taken before it.
pub open spec fn after<T>(c: nat, o: Outcome<T>) -> Outcome<T> {
    match o {
        Outcome::Done(n, v, b) => Outcome::Done(c + n, v, b),
        Outcome::Fails(e) => Outcome::Fails(e),
        Outcome::Panics => Outcome::Panics,
    }
}

/// `vs`, taking `c0` bytes, followed by what `o` reads.
pub open spec fn prepend<T>(vs: Seq<T>, c0: nat, o: Outcome<Seq<T>>) -> Outcome<Seq<T>> {
    match o {
        Outcome::Done(c, ws, b) => Outcome::Done(c0 + c, vs + ws, b),
        Outcome::Fails(e) => Outcome::Fails(e),
        Outcome::Panics => Outcome::Panics,
    }
}

/// The array of the values that `o` reads, after `c` bytes.
pub open spec fn as_array(c: nat, o: Outcome<Seq<Value>>) -> Outcome<Value> {
    match o {
        Outcome::Done(c2, vs, b) => Outcome::Done(c + c2, Value::Array(vs), b),
        Outcome::Fails(e) => Outcome::Fails(e),
        Outcome::Panics => Outcome::Panics,
    }
}

/// The table made of the pairs that `o` reads, after `c` bytes.
pub open spec fn as_table(c: nat, o: Outcome<Seq<(int, Value)>>) -> Outcome<Value> {
    match o {
        Outcome::Done(c2, pairs, b) => Outcome::Done(c + c2, Value::HashMap(kv_fold(pairs)), b),
        Outcome::Fails(e) => Outcome::Fails(e),
        Outcome::Panics => Outcome::Panics,
    }
}

/// The value, little-endian in base 128, of the low seven bits of the bytes of `s`.
pub open spec fn groups_value(s: Seq<u8>) -> nat
    decreases s.len(),
{
    if s.len() == 0 {
        0
    } else {
        (s[0] % 128 + 128 * groups_value(s.drop_first())) as nat
    }
}

/// The signed variable-length integer at the start of `s`, and the number of bytes it
/// takes. Each byte but the last has its high bit set. The low bit of the first byte is the
/// sign; its six bits above it are the lowest bits of the magnitude, and the low seven bits
/// of each further byte are the next bits of the magnitude.
pub open spec fn spec_vint(s: Seq<u8>) -> Result<(nat, int), ParseError> {
    let k = high_bit_run(s);
    if s.len() < k + 1 {
        Err(ParseError::UnexpectedEnd)
    } else {
        let magnitude = (s[0] % 128) / 2 + 64 * groups_value(s.subrange(1, (k + 1) as int));
        Ok(((k + 1) as nat, if s[0] % 2 == 1 { -magnitude } else { magnitude }))
    }
}

/// The size that the variable-length integer at the start of `s` gives: its value modulo
/// `2^64` where it is above zero, and zero otherwise.
#[verifier::opaque]
pub open spec fn spec_size(s: Seq<u8>) -> Result<(nat, u64), ParseError> {
    match spec_vint(s) {
        Ok((c, v)) => Ok((c, if v > 0 { (v % 0x1_0000_0000_0000_0000) as u64 } else { 0u64 })),
        Err(e) => Err(e),
    }
}

/// Reading `size` bits from `s`, the first `shift` of which were left over from the byte
/// before and are held in `prev`: the bytes read, then, where `r` bits of the size remain
/// after the whole bytes, the high `8 - r` bits of a last, partly read byte; and the low `r`
/// bits of that byte, which the next read begins with, with `8 - r` as the count of bits
/// left over. The partly read byte is not taken.
#[verifier::opaque]
pub open spec fn spec_bits(s: Seq<u8>, shift: nat, size: nat, prev: u8) -> Outcome<(Seq<u8>, u8)> {
    if shift > size {
        Outcome::Panics
    } else {
        let n = (size - shift) as nat;
        let head = if shift > 0 { seq![prev] } else { Seq::<u8>::empty() };
        let full = n / 8;
        let r = n % 8;
        if s.len() < full {
            Outcome::Fails(ParseError::UnexpectedEnd)
        } else if r == 0 {
            Outcome::Done(full, (head + s.take(full as int), 0u8), 0)
        } else if s.len() < full + 1 {
            Outcome::Fails(ParseError::UnexpectedEnd)
        } else {
            let b = s[full as int];
            Outcome::Done(
                full,
                (head + s.take(full as int).push(((b as nat) / pow2(r)) as u8), ((b as nat) % pow2(r)) as u8),
                (8 - r) as nat,
            )
        }
    }
}

/// A bit string: a size in bits, then the bits.
#[verifier::opaque]
pub open spec fn spec_bits_body(s: Seq<u8>, shift: nat) -> Outcome<Value> {
    match spec_size(s) {
        Err(e) => Outcome::Fails(e),
        Ok((c, n)) => match spec_bits(s.skip(c as int), shift, n as nat, 0) {
            Outcome::Done(c2, r, b) => Outcome::Done(c + c2, Value::Blob(r.0), b),
            Outcome::Fails(e) => Outcome::Fails(e),
            Outcome::Panics => Outcome::Panics,
        },
    }
}

/// A blob: a size in bytes, then the bytes; it panics where the size in bits does not fit
/// in 64 bits.
#[verifier::opaque]
pub open spec fn spec_blob_body(s: Seq<u8>, shift: nat) -> Outcome<Value> {
    match spec_size(s) {
        Err(e) => Outcome::Fails(e),
        Ok((c, n)) => if n * 8 > u64::MAX {
            Outcome::Panics
        } else {
            match spec_bits(s.skip(c as int), shift, (n * 8) as nat, 0) {
                Outcome::Done(c2, r, b) => Outcome::Done(c + c2, Value::Blob(r.0), b),
                Outcome::Fails(e) => Outcome::Fails(e),
                Outcome::Panics => Outcome::Panics,
            }
        },
    }
}

/// An unsigned byte.
#[verifier::opaque]
pub open spec fn spec_u8_body(s: Seq<u8>) -> Outcome<Value> {
    if s.len() < 1 {
        Outcome::Fails(ParseError::UnexpectedEnd)
    } else {
        Outcome::Done(1, Value::UInt8(s[0]), 0)
    }
}

/// A little-endian unsigned 32-bit integer.
#[verifier::opaque]
pub open spec fn spec_u32_body(s: Seq<u8>) -> Outcome<Value> {
    if s.len() < 4 {
        Outcome::Fails(ParseError::UnexpectedEnd)
    } else {
        Outcome::Done(4, Value::UInt32(le_value(s.take(4)) as u32), 0)
    }
}

/// A little-endian unsigned 64-bit integer.
#[verifier::opaque]
pub open spec fn spec_u64_body(s: Seq<u8>) -> Outcome<Value> {
    if s.len() < 8 {
        Outcome::Fails(ParseError::UnexpectedEnd)
    } else {
        Outcome::Done(8, Value::UInt64(le_value(s.take(8)) as u64), 0)
    }
}

/// A signed variable-length integer.
#[verifier::opaque]
pub open spec fn spec_vint_body(s: Seq<u8>) -> Outcome<Value> {
    match spec_vint(s) {
        Ok((c, v)) => Outcome::Done(c, Value::VInt(v), 0),
        Err(e) => Outcome::Fails(e),
    }
}

/// The typed value at the start of `s`, read after `shift` bits were left over from a
/// previous read: then the byte that holds them is skipped first.
pub open spec fn spec_struct(s: Seq<u8>, shift: nat) -> Outcome<Value>
    decreases s.len(), 1nat,
{
    if shift > 0 {
        if s.len() == 0 {
            Outcome::Panics
        } else {
            after(1, spec_typed(s.skip(1)))
        }
    } else {
        spec_typed(s)
    }
}

/// The typed value at the start of `s`: a tag byte names the type of the value that
/// follows it.
pub open spec fn spec_typed(s: Seq<u8>) -> Outcome<Value>
    decreases s.len(), 0nat,
{
    if s.len() == 0 {
        Outcome::Fails(ParseError::UnexpectedEnd)
    } else {
        let u = s.skip(1);
        after(
            1,
            if s[0] == 0x00 {
                spec_array_body(u)
            } else if s[0] == 0x01 {
                spec_bits_body(u, 0)
            } else if s[0] == 0x02 {
                spec_blob_body(u, 0)
            } else if s[0] == 0x03 {
                spec_struct(u, 0)
            } else if s[0] == 0x04 {
                spec_optional_body(u, 0)
            } else if s[0] == 0x05 {
                spec_assoc_body(u)
            } else if s[0] == 0x06 {
                spec_u8_body(u)
            } else if s[0] == 0x07 {
                spec_u32_body(u)
            } else if s[0] == 0x08 {
                spec_u64_body(u)
            } else if s[0] == 0x09 {
                spec_vint_body(u)
            } else {
                Outcome::Panics
            },
        )
    }
}

/// How a typed value is read: bits left over from a previous read make the reader skip the
/// byte that holds them and read from the next one with none left over; then the tag byte
/// names the reader of what follows it (an array, a bit string, a blob, a typed value, an
/// optional value, a table, an unsigned byte, a 32-bit or 64-bit integer, or a
/// variable-length integer), which starts with no bits left over. An unknown tag panics.
pub proof fn lemma_struct_dispatch(s: Seq<u8>, shift: nat)
    requires
        s.len() >= 1,
    ensures
        shift > 0 ==> spec_struct(s, shift) == after(1, spec_struct(s.skip(1), 0)),
        s[0] == 0x00 ==> spec_struct(s, 0) == after(1, spec_array_body(s.skip(1))),
        s[0] == 0x01 ==> spec_struct(s, 0) == after(1, spec_bits_body(s.skip(1), 0)),
        s[0] == 0x02 ==> spec_struct(s, 0) == after(1, spec_blob_body(s.skip(1), 0)),
        s[0] == 0x03 ==> spec_struct(s, 0) == after(1, spec_struct(s.skip(1), 0)),
        s[0] == 0x04 ==> spec_struct(s, 0) == after(1, spec_optional_body(s.skip(1), 0)),
        s[0] == 0x05 ==> spec_struct(s, 0) == after(1, spec_assoc_body(s.skip(1))),
        s[0] == 0x06 ==> spec_struct(s, 0) == after(1, spec_u8_body(s.skip(1))),
        s[0] == 0x07 ==> spec_struct(s, 0) == after(1, spec_u32_body(s.skip(1))),
        s[0] == 0x08 ==> spec_struct(s, 0) == after(1, spec_u64_body(s.skip(1))),
        s[0] == 0x09 ==> spec_struct(s, 0) == after(1, spec_vint_body(s.skip(1))),
        s[0] > 0x09 ==> spec_struct(s, 0) is Panics,
{
}

/// What `o` reads, where it reads a value, has tables without a key twice.
pub open spec fn read_tables_distinct(o: Outcome<Value>) -> bool {
    o matches Outcome::Done(_, v, _) ==> tables_distinct(v)
}

/// The values that the typed data holds have tables without a key twice, at any depth.
pub proof fn lemma_struct_tables_distinct(s: Seq<u8>, shift: nat)
    ensures
        read_tables_distinct(spec_struct(s, shift)),
    decreases s.len(), 1nat,
{
    if shift > 0 {
        if s.len() > 0 {
            lemma_typed_tables_distinct(s.skip(1));
        }
    } else {
        lemma_typed_tables_distinct(s);
    }
}

proof fn lemma_typed_tables_distinct(s: Seq<u8>)
    ensures
        read_tables_distinct(spec_typed(s)),
    decreases s.len(), 0nat,
{
    if s.len() > 0 {
        let u = s.skip(1);
        reveal(spec_bits_body);
        reveal(spec_blob_body);
        reveal(spec_u8_body);
        reveal(spec_u32_body);
        reveal(spec_u64_body);
        reveal(spec_vint_body);
        if s[0] == 0x00 {
            lemma_array_tables_distinct(u);
        } else if s[0] == 0x03 {
            lemma_struct_tables_distinct(u, 0);
        } else if s[0] == 0x04 {
            lemma_optional_tables_distinct(u, 0);
        } else if s[0] == 0x05 {
            lemma_assoc_tables_distinct(u);
        }
    }
}

proof fn lemma_array_tables_distinct(s: Seq<u8>)
    ensures
        read_tables_distinct(spec_array_body(s)),
    decreases s.len(), 1nat,
{
    if let Ok((c, n)) = spec_size(s) {
        if c <= s.len() && c > 0 {
            lemma_items_tables_distinct(s.skip(c as int), n as nat, 0);
        }
    }
}

proof fn lemma_optional_tables_distinct(s: Seq<u8>, shift: nat)
    ensures
        read_tables_distinct(spec_optional_body(s, shift)),
    decreases s.len(), 1nat,
{
    if s.len() > 0 && s[0] != 0 {
        lemma_struct_tables_distinct(s.skip(1), shift);
    }
}

proof fn lemma_assoc_tables_distinct(s: Seq<u8>)
    ensures
        read_tables_distinct(spec_assoc_body(s)),
    decreases s.len(), 1nat,
{
    if let Ok((c, n)) = spec_size(s) {
        if c <= s.len() && c > 0 {
            lemma_entries_tables_distinct(s.skip(c as int), n as nat, 0);
            if let Outcome::Done(_, pairs, _) = spec_entries(s.skip(c as int), n as nat, 0) {
                lemma_kv_fold_distinct(pairs);
                lemma_kv_fold_values(pairs, |v: Value| tables_distinct(v));
            }
        }
    }
}

proof fn lemma_items_tables_distinct(s: Seq<u8>, n: nat, b: nat)
    ensures
        spec_items(s, n, b) matches Outcome::Done(_, vs, _) ==> forall|i: int|
            0 <= i < vs.len() ==> tables_distinct(#[trigger] vs[i]),
    decreases s.len(), n + 2,
{
    if n > 0 {
        lemma_struct_tables_distinct(s, b);
        if let Outcome::Done(c, v, b2) = spec_struct(s, b) {
            if c <= s.len() {
                lemma_items_tables_distinct(s.skip(c as int), (n - 1) as nat, b2);
                if let Outcome::Done(_, vs, _) = spec_items(s.skip(c as int), (n - 1) as nat, b2) {
                    let all = seq![v] + vs;
                    assert forall|i: int| 0 <= i < all.len() implies tables_distinct(#[trigger] all[i]) by {
                        if i > 0 {
                            assert(all[i] == vs[i - 1]);
                        }
                    }
                }
            }
        }
    }
}

proof fn lemma_entries_tables_distinct(s: Seq<u8>, n: nat, b: nat)
    ensures
        spec_entries(s, n, b) matches Outcome::Done(_, es, _) ==> forall|i: int|
            0 <= i < es.len() ==> tables_distinct(#[trigger] es[i].1),
    decreases s.len(), n + 2,
{
    if n > 0 {
        if let Ok((ck, key)) = spec_vint(s) {
            lemma_struct_tables_distinct(s.skip(ck as int), 0);
            if let Outcome::Done(cv, v, b2) = spec_struct(s.skip(ck as int), 0) {
                if ck + cv <= s.len() {
                    lemma_entries_tables_distinct(s.skip((ck + cv) as int), (n - 1) as nat, b2);
                    if let Outcome::Done(_, es, _) = spec_entries(s.skip((ck + cv) as int), (n - 1) as nat, b2) {
                        let all = seq![(key, v)] + es;
                        assert forall|i: int| 0 <= i < all.len() implies tables_distinct(#[trigger] all[i].1) by {
                            if i > 0 {
                                assert(all[i] == es[i - 1]);
                            }
                        }
                    }
                }
            }
        }
    }
}

/// An array: a size, then that many typed values, each read after the bits that the one
/// before it left over.
pub open spec fn spec_array_body(s: Seq<u8>) -> Outcome<Value>
    decreases s.len(), 1nat,
{
    match spec_size(s) {
        Err(e) => Outcome::Fails(e),
        Ok((c, n)) => if c <= s.len() && c > 0 {
            as_array(c, spec_items(s.skip(c as int), n as nat, 0))
        } else {
            Outcome::Fails(ParseError::UnexpectedEnd)
        },
    }
}

/// An optional value: a byte that is zero where there is none, then the value.
pub open spec fn spec_optional_body(s: Seq<u8>, shift: nat) -> Outcome<Value>
    decreases s.len(), 1nat,
{
    if s.len() == 0 {
        Outcome::Fails(ParseError::UnexpectedEnd)
    } else if s[0] == 0 {
        Outcome::Done(1, Value::Optional(None), shift)
    } else {
        after(1, spec_struct(s.skip(1), shift))
    }
}

/// A table: a size, then that many pairs of a variable-length integer key and a typed
/// value. A later pair replaces the value of an earlier one with the same key.
pub open spec fn spec_assoc_body(s: Seq<u8>) -> Outcome<Value>
    decreases s.len(), 1nat,
{
    match spec_size(s) {
        Err(e) => Outcome::Fails(e),
        Ok((c, n)) => if c <= s.len() && c > 0 {
            as_table(c, spec_entries(s.skip(c as int), n as nat, 0))
        } else {
            Outcome::Fails(ParseError::UnexpectedEnd)
        },
    }
}

/// `n` typed values one after the other, the first read after `b` bits left over.
pub open spec fn spec_items(s: Seq<u8>, n: nat, b: nat) -> Outcome<Seq<Value>>
    decreases s.len(), n + 2,
{
    if n == 0 {
        Outcome::Done(0, seq![], b)
    } else {
        match spec_struct(s, b) {
            Outcome::Done(c, v, b2) => if c <= s.len() {
                prepend(seq![v], c, spec_items(s.skip(c as int), (n - 1) as nat, b2))
            } else {
                Outcome::Fails(ParseError::UnexpectedEnd)
            },
            Outcome::Fails(e) => Outcome::Fails(e),
            Outcome::Panics => Outcome::Panics,
        }
    }
}

/// `n` pairs of a variable-length integer key and a typed value, one after the other; the
/// bits left over are those of the last value, or `b` where there is none.
pub open spec fn spec_entries(s: Seq<u8>, n: nat, b: nat) -> Outcome<Seq<(int, Value)>>
    decreases s.len(), n + 2,
{
    if n == 0 {
        Outcome::Done(0, seq![], b)
    } else {
        match spec_vint(s) {
            Err(e) => Outcome::Fails(e),
            Ok((ck, key)) => match spec_struct(s.skip(ck as int), 0) {
                Outcome::Done(cv, v, b2) => if ck + cv <= s.len() {
                    prepend(seq![(key, v)], ck + cv, spec_entries(s.skip((ck + cv) as int), (n - 1) as nat, b2))
                } else {
                    Outcome::Fails(ParseError::UnexpectedEnd)
                },
                Outcome::Fails(e) => Outcome::Fails(e),
                Outcome::Panics => Outcome::Panics,
            },
        }
    }
}

/// The frame count at the start of `s`: the upper six bits of the first byte, followed by
/// as many more bytes as its low two bits say, the first two of them little-endian.
pub open spec fn spec_frames(s: Seq<u8>) -> Result<(nat, u64), ParseError> {
    if s.len() < 1 {
        Err(ParseError::UnexpectedEnd)
    } else {
        let time = s[0] / 4;
        let extra = s[0] % 4;
        if s.len() < 1 + extra {
            Err(ParseError::UnexpectedEnd)
        } else if extra == 0 {
            Ok((1, time as u64))
        } else if extra == 1 {
            Ok((2, (time * 0x100 + s[1]) as u64))
        } else if extra == 2 {
            Ok((3, (time * 0x1_0000 + le_value(s.subrange(1, 3))) as u64))
        } else {
            Ok((4, (time * 0x100_0000 + le_value(s.subrange(1, 3)) * 0x100 + s[3]) as u64))
        }
    }
}

/// How bits are read: a whole number of bytes, with no bits left over before, is those
/// bytes; `r` bits (fewer than eight) with none left over before give the byte's high
/// `8 - r` bits, leave its low `r` bits for the next read with `8 - r` as its count, and do
/// not take the byte; with bits left over before, those bits come first, and count
/// towards the size.
pub proof fn lemma_bits_layout(s: Seq<u8>, k: nat, r: nat, shift: nat, size: nat, prev: u8)
    ensures
        s.len() >= k ==> spec_bits(s, 0, 8 * k, prev) == Outcome::Done(k, (s.take(k as int), 0u8), 0),
        0 < r < 8 && s.len() >= 1 ==> spec_bits(s, 0, r, prev) == Outcome::Done(
            0,
            (seq![((s[0] as nat) / pow2(r)) as u8], ((s[0] as nat) % pow2(r)) as u8),
            (8 - r) as nat,
        ),
        0 < shift <= size ==> (spec_bits(s, shift, size, prev) matches Outcome::Done(_, (bytes, _), _) ==> bytes.len()
            > 0 && bytes[0] == prev),
        shift > size ==> spec_bits(s, shift, size, prev) is Panics,
{
    reveal(spec_bits);
    assert(Seq::<u8>::empty() + s.take(k as int) =~= s.take(k as int));
    assert((8 * k) / 8 == k && (8 * k) % 8 == 0) by (nonlinear_arith);
    assert(Seq::<u8>::empty() + s.take(0).push(((s[0] as nat) / pow2(r)) as u8) =~= seq![((s[0] as nat) / pow2(r)) as u8]);
}

/// A frame count takes one byte, plus as many as the byte's low two bits say: its upper six
/// bits come first, then the next byte, the next two bytes as a little-endian 16-bit word,
/// or that word and one more byte.
pub proof fn lemma_frames_layout(s: Seq<u8>)
    requires
        s.len() >= 4,
    ensures
        s[0] % 4 == 0 ==> spec_frames(s) == Ok::<(nat, u64), ParseError>((1, (s[0] / 4) as u64)),
        s[0] % 4 == 1 ==> spec_frames(s) == Ok::<(nat, u64), ParseError>((2, ((s[0] / 4) * 0x100 + s[1]) as u64)),
        s[0] % 4 == 2 ==> spec_frames(s) == Ok::<(nat, u64), ParseError>(
            (3, ((s[0] / 4) * 0x1_0000 + s[1] + 0x100 * s[2]) as u64),
        ),
        s[0] % 4 == 3 ==> spec_frames(s) == Ok::<(nat, u64), ParseError>(
            (4, ((s[0] / 4) * 0x100_0000 + (s[1] + 0x100 * s[2]) * 0x100 + s[3]) as u64),
        ),
{
    let w = s.subrange(1, 3);
    assert(w.drop_first().drop_first() =~= Seq::<u8>::empty());
    assert(le_value(w.drop_first()) == w[1] + 256 * le_value(w.drop_first().drop_first()));
    assert(le_value(w) == s[1] + 0x100 * s[2]);
}

/// A variable-length integer of one byte (high bit clear) is half the byte, negative where
/// the byte is odd; one of two bytes adds 64 times the second byte to the magnitude of the
/// low seven bits of the first.
pub proof fn lemma_vint_short(s: Seq<u8>)
    requires
        s.len() >= 2,
    ensures
        s[0] < 128 ==> spec_vint(s) == Ok::<(nat, int), ParseError>(
            (1, if s[0] % 2 == 1 { -((s[0] / 2) as int) } else { (s[0] / 2) as int }),
        ),
        s[0] >= 128 && s[1] < 128 ==> spec_vint(s) == Ok::<(nat, int), ParseError>(
            (2, if s[0] % 2 == 1 { -((s[0] % 128) / 2 + 64 * s[1]) } else { (s[0] % 128) / 2 + 64 * s[1] }),
        ),
{
    if s[0] < 128 {
        assert(high_bit_run(s) == 0);
        assert(s.subrange(1, 1) =~= Seq::<u8>::empty());
    } else if s[1] < 128 {
        assert(high_bit_run(s.drop_first()) == 0);
        assert(high_bit_run(s) == 1);
        let g = s.subrange(1, 2);
        assert(g.drop_first() =~= Seq::<u8>::empty());
        assert(groups_value(g) == g[0] % 128 + 128 * groups_value(g.drop_first()));
    }
}

/// Appending a byte to `t` adds its low seven bits at the next power of 128.
#[verifier::spinoff_prover]
pub proof fn lemma_groups_push(t: Seq<u8>, b: u8)
    ensures
        groups_value(t.push(b)) == groups_value(t) + (b % 128) * pow128(t.len()),
    decreases t.len(),
{
    if t.len() == 0 {
        assert(t.push(b).drop_first() =~= Seq::<u8>::empty());
        assert(groups_value(Seq::<u8>::empty()) == 0);
        assert(t.push(b)[0] == b);
        assert(pow128(0) == 1);
    } else {
        let u = t.drop_first();
        assert(t.push(b).drop_first() =~= u.push(b));
        assert(t.push(b)[0] == t[0]);
        lemma_groups_push(u, b);
        let x = (b % 128) as int;
        let p = pow128(u.len()) as int;
        assert(pow128(t.len()) == 128 * p);
        assert(groups_value(t) == t[0] % 128 + 128 * groups_value(u));
        assert(groups_value(t.push(b)) == t[0] % 128 + 128 * groups_value(u.push(b)));
        assert(groups_value(u.push(b)) == groups_value(u) + x * p);
        assert(128 * (groups_value(u) + x * p) == 128 * groups_value(u) + x * (128 * p)) by (nonlinear_arith);
    }
}

/// The signed variable-length integer at position `pos` of `data`, and the position after it.
fn vint_at(data: &[u8], pos: usize) -> (res: Result<(usize, Integer), ParseError>)
    requires
        pos <= data@.len(),
    ensures
        match spec_vint(data@.skip(pos as int)) {
            Ok((c, v)) => res matches Ok((p, i)) && p == pos + c && i@ == v,
            Err(e) => res == Err::<(usize, Integer), ParseError>(e),
        },
        res matches Ok((p, _)) ==> pos < p <= data@.len(),
{
    let ghost s = data@.skip(pos as int);
    let len = data.len();
    if pos >= len {
        return Err(ParseError::UnexpectedEnd);
    }
    let mut k: usize = 0;
    assert(s.skip(0) =~= s);
    while k < len - pos && data[pos + k] >= 128
        invariant
            len == data@.len(),
            pos < len,
            k <= len - pos,
            s == data@.skip(pos as int),
            high_bit_run(s) == k + high_bit_run(s.skip(k as int)),
        decreases len - pos - k,
    {
        proof {
            let t = s.skip(k as int);
            assert(t[0] == data@[pos + k]);
            assert(t.drop_first() =~= s.skip(k + 1));
        }
        k += 1;
    }
    proof {
        let t = s.skip(k as int);
        if k < len - pos {
            assert(t[0] == data@[pos + k]);
        } else {
            assert(t.len() == 0);
        }
    }
    if k == len - pos {
        return Err(ParseError::UnexpectedEnd);
    }
    let b0 = data[pos];
    assert(s[0] == b0);
    let d0 = b0 & 0x7F;
    assert(d0 == b0 % 128) by (bit_vector)
        requires
            d0 == b0 & 0x7F,
    ;
    let mut digits: Vec<u8> = Vec::new();
    digits.push(d0);
    let mut j: usize = 1;
    proof {
        assert(s.subrange(1, 1) =~= Seq::<u8>::empty());
        assert(groups_value(s.subrange(1, 1)) == 0);
        assert(digits@.drop_last() =~= Seq::<u8>::empty());
        assert(be128(digits@.drop_last()) == 0);
        assert(be128(digits@) == d0);
    }
    while j <= k
        invariant
            len == data@.len(),
            pos + k < len,
            1 <= j <= k + 1,
            s == data@.skip(pos as int),
            digits@.len() == j,
            base128_digits(digits@),
            d0 < 128,
            be128(digits@) == d0 + 128 * groups_value(s.subrange(1, j as int)),
        decreases k + 1 - j,
    {
        let e = data[pos + j];
        let g = e & 0x7F;
        assert(g == e % 128) by (bit_vector)
            requires
                g == e & 0x7F,
        ;
        let ghost old_digits = digits@;
        digits.insert(0, g);
        proof {
            assert(s[j as int] == e);
            assert(digits@ =~= seq![g] + old_digits);
            lemma_be128_prepend(g, old_digits);
            assert(s.subrange(1, j + 1) =~= s.subrange(1, j as int).push(e));
            lemma_groups_push(s.subrange(1, j as int), e);
            let gv = groups_value(s.subrange(1, j as int));
            let p = pow128((j - 1) as nat);
            assert(pow128(j as nat) == 128 * p);
            assert(g * (128 * p) + d0 + 128 * gv == d0 + 128 * (gv + g * p)) by (nonlinear_arith);
            assert forall|i: int| 0 <= i < digits@.len() implies #[trigger] digits@[i] < 128 by {
                if i > 0 {
                    assert(digits@[i] == old_digits[i - 1]);
                }
            }
        }
        j += 1;
    }
    let n = Natural::from_base128_be(digits.as_slice());
    let (magnitude, _) = n.half();
    let sign = b0 & 0x01;
    assert(sign == b0 % 2) by (bit_vector)
        requires
            sign == b0 & 0x01,
    ;
    proof {
        let gv = groups_value(s.subrange(1, (k + 1) as int));
        assert(n@ == d0 + 128 * gv);
        assert((d0 + 128 * gv) / 2 == d0 / 2 + 64 * gv) by (nonlinear_arith)
            requires
                gv >= 0,
                d0 >= 0,
        ;
    }
    Ok((pos + k + 1, Integer::new(sign == 1, magnitude)))
}

/// A size that is read takes at least one byte and no more than there are.
proof fn lemma_size_takes(s: Seq<u8>)
    ensures
        spec_size(s) matches Ok((c, _)) ==> 0 < c <= s.len(),
{
    reveal(spec_size);
}

/// The size at position `pos` of `data`, and the position after it.
fn size_at(data: &[u8], pos: usize) -> (res: Result<(usize, u64), ParseError>)
    requires
        pos <= data@.len(),
    ensures
        match spec_size(data@.skip(pos as int)) {
            Ok((c, n)) => res matches Ok((p, m)) && p == pos + c && m == n,
            Err(e) => res == Err::<(usize, u64), ParseError>(e),
        },
        res matches Ok((p, _)) ==> pos < p <= data@.len(),
{
    reveal(spec_size);
    let (p, i) = vint_at(data, pos)?;
    if i.is_positive() {
        Ok((p, i.low_u64()))
    } else {
        Ok((p, 0))
    }
}

/// `res`, the result of reading bits from position `pos` of `data`, is what `o` says:
/// `None` where `o` panics.
pub open spec fn bits_read_as(
    data: Seq<u8>,
    pos: int,
    res: Option<Result<(usize, Vec<u8>, u8, u64), ParseError>>,
    o: Outcome<(Seq<u8>, u8)>,
) -> bool {
    match o {
        Outcome::Done(c, r, b) => res matches Some(Ok((p, v, nb, bits))) && p == pos + c && p
            <= data.len() && v@ == r.0 && nb == r.1 && bits == b,
        Outcome::Fails(e) => res == Some(Err::<(usize, Vec<u8>, u8, u64), ParseError>(e)),
        Outcome::Panics => res is None,
    }
}

/// `res`, the result of reading a value from position `pos` of `data`, is what `o` says:
/// `None` where `o` panics.
pub open spec fn reads_as(
    data: Seq<u8>,
    pos: int,
    res: Option<Result<(usize, DataType, u64), ParseError>>,
    o: Outcome<Value>,
) -> bool {
    match o {
        Outcome::Done(c, v, b) => res matches Some(Ok((p, d, bits))) && p == pos + c && p
            <= data.len() && d@ == v && bits == b,
        Outcome::Fails(e) => res == Some(Err::<(usize, DataType, u64), ParseError>(e)),
        Outcome::Panics => res is None,
    }
}

/// `2` to the power `r`.
fn small_pow2(r: u64) -> (p: u8)
    requires
        1 <= r <= 7,
    ensures
        p as nat == pow2(r as nat),
        p > 1,
{
    proof {
        vstd::arithmetic::power2::lemma2_to64();
    }
    if r == 1 {
        2
    } else if r == 2 {
        4
    } else if r == 3 {
        8
    } else if r == 4 {
        16
    } else if r == 5 {
        32
    } else if r == 6 {
        64
    } else {
        128
    }
}

/// Reads `size` bits from position `pos` of `data`, the first `shift` of which were left
/// over from the byte before and are held in `prev`.
fn bits_at(data: &[u8], pos: usize, shift: u64, size: u64, prev: u8) -> (res: Option<
    Result<(usize, Vec<u8>, u8, u64), ParseError>,
>)
    requires
        pos <= data@.len(),
    ensures
        bits_read_as(data@, pos as int, res, spec_bits(data@.skip(pos as int), shift as nat, size as nat, prev)),
{
    reveal(spec_bits);
    let ghost s = data@.skip(pos as int);
    if shift > size {
        return None;
    }
    let mut left: u64 = size - shift;
    let ghost n = left as nat;
    let mut res: Vec<u8> = Vec::new();
    if shift > 0 {
        res.push(prev);
    }
    let ghost head = res@;
    let mut cur = pos;
    assert(s.take(0) =~= Seq::<u8>::empty());
    assert(res@ =~= head + s.take(0));
    while left >= 8
        invariant
            pos <= cur <= data@.len(),
            s == data@.skip(pos as int),
            left <= n,
            shift <= size,
            n == size - shift,
            n == 8 * (cur - pos) + left,
            res@ == head + s.take(cur - pos),
        decreases left,
    {
        if cur >= data.len() {
            reveal(spec_bits);
            assert(s.len() == cur - pos);
            assert(n / 8 > s.len()) by (nonlinear_arith)
                requires
                    n == 8 * (cur - pos) + left,
                    left >= 8,
                    s.len() == cur - pos,
            ;
            return Some(Err(ParseError::UnexpectedEnd));
        }
        res.push(data[cur]);
        proof {
            assert(s[cur - pos] == data@[cur as int]);
            assert(s.take(cur - pos + 1) =~= s.take(cur - pos).push(data@[cur as int]));
            assert(res@ =~= head + s.take(cur - pos + 1));
        }
        cur += 1;
        left -= 8;
    }
    proof {
        let j = cur - pos;
        assert(n / 8 == j && n % 8 == left) by (nonlinear_arith)
            requires
                n == 8 * j + left,
                left < 8,
                j >= 0,
        ;
    }
    if left == 0 {
        return Some(Ok((cur, res, 0, 0)));
    }
    if cur >= data.len() {
        return Some(Err(ParseError::UnexpectedEnd));
    }
    let val = data[cur];
    assert(s[cur - pos] == val);
    let p = small_pow2(left);
    res.push(val / p);
    proof {
        assert(res@ =~= head + s.take(cur - pos).push(val / p));
    }
    Some(Ok((cur, res, val % p, 8 - left)))
}

/// The bit string from position `pos` of `data`.
fn bits_body_at(data: &[u8], pos: usize, shift: u64) -> (res: Option<Result<(usize, DataType, u64), ParseError>>)
    requires
        pos <= data@.len(),
    ensures
        reads_as(data@, pos as int, res, spec_bits_body(data@.skip(pos as int), shift as nat)),
{
    reveal(spec_bits_body);
    let (p, n) = match size_at(data, pos) {
        Ok(x) => x,
        Err(e) => return Some(Err(e)),
    };
    assert(data@.skip(pos as int).skip(p - pos) =~= data@.skip(p as int));
    match bits_at(data, p, shift, n, 0) {
        None => None,
        Some(Err(e)) => Some(Err(e)),
        Some(Ok((q, blob, _, bits))) => Some(Ok((q, DataType::Blob(blob), bits))),
    }
}

/// The blob from position `pos` of `data`.
fn blob_body_at(data: &[u8], pos: usize, shift: u64) -> (res: Option<Result<(usize, DataType, u64), ParseError>>)
    requires
        pos <= data@.len(),
    ensures
        reads_as(data@, pos as int, res, spec_blob_body(data@.skip(pos as int), shift as nat)),
{
    reveal(spec_blob_body);
    let (p, n) = match size_at(data, pos) {
        Ok(x) => x,
        Err(e) => return Some(Err(e)),
    };
    assert(data@.skip(pos as int).skip(p - pos) =~= data@.skip(p as int));
    let bits = match n.checked_mul(8) {
        Some(b) => b,
        None => return None,
    };
    match bits_at(data, p, shift, bits, 0) {
        None => None,
        Some(Err(e)) => Some(Err(e)),
        Some(Ok((q, blob, _, left))) => Some(Ok((q, DataType::Blob(blob), left))),
    }
}

/// The unsigned byte at position `pos` of `data`.
fn u8_body_at(data: &[u8], pos: usize) -> (res: Option<Result<(usize, DataType, u64), ParseError>>)
    requires
        pos <= data@.len(),
    ensures
        reads_as(data@, pos as int, res, spec_u8_body(data@.skip(pos as int))),
{
    reveal(spec_u8_body);
    if pos >= data.len() {
        return Some(Err(ParseError::UnexpectedEnd));
    }
    Some(Ok((pos + 1, DataType::UInt8(data[pos]), 0)))
}

/// The little-endian 32-bit integer at position `pos` of `data`.
fn u32_body_at(data: &[u8], pos: usize) -> (res: Option<Result<(usize, DataType, u64), ParseError>>)
    requires
        pos <= data@.len(),
    ensures
        reads_as(data@, pos as int, res, spec_u32_body(data@.skip(pos as int))),
{
    reveal(spec_u32_body);
    if data.len() - pos < 4 {
        return Some(Err(ParseError::UnexpectedEnd));
    }
    let v = read_le(data, pos, 4);
    proof {
        let t = data@.subrange(pos as int, pos + 4);
        assert(t =~= data@.skip(pos as int).take(4));
        lemma_le_value_bound(t);
        lemma_pow256_values();
    }
    Some(Ok((pos + 4, DataType::UInt32(v as u32), 0)))
}

/// The little-endian 64-bit integer at position `pos` of `data`.
fn u64_body_at(data: &[u8], pos: usize) -> (res: Option<Result<(usize, DataType, u64), ParseError>>)
    requires
        pos <= data@.len(),
    ensures
        reads_as(data@, pos as int, res, spec_u64_body(data@.skip(pos as int))),
{
    reveal(spec_u64_body);
    if data.len() - pos < 8 {
        return Some(Err(ParseError::UnexpectedEnd));
    }
    let v = read_le(data, pos, 8);
    assert(data@.subrange(pos as int, pos + 8) =~= data@.skip(pos as int).take(8));
    Some(Ok((pos + 8, DataType::UInt64(v), 0)))
}

/// The signed variable-length integer at position `pos` of `data`, as a value.
fn vint_body_at(data: &[u8], pos: usize) -> (res: Option<Result<(usize, DataType, u64), ParseError>>)
    requires
        pos <= data@.len(),
    ensures
        reads_as(data@, pos as int, res, spec_vint_body(data@.skip(pos as int))),
{
    reveal(spec_vint_body);
    match vint_at(data, pos) {
        Ok((p, i)) => Some(Ok((p, DataType::VInt(i), 0))),
        Err(e) => Some(Err(e)),
    }
}

proof fn lemma_reads_after(
    data: Seq<u8>,
    pos: int,
    c: nat,
    res: Option<Result<(usize, DataType, u64), ParseError>>,
    o: Outcome<Value>,
)
    requires
        reads_as(data, pos + c, res, o),
    ensures
        reads_as(data, pos, res, after(c, o)),
{
    match o {
        Outcome::Done(n, v, b) => {},
        Outcome::Fails(e) => {},
        Outcome::Panics => {},
    }
}

proof fn lemma_prepend<T>(vs: Seq<T>, v: T, c0: nat, c: nat, o: Outcome<Seq<T>>)
    ensures
        prepend(vs, c0, prepend(seq![v], c, o)) == prepend(vs.push(v), c0 + c, o),
{
    match o {
        Outcome::Done(c2, ws, b) => {
            assert(vs + (seq![v] + ws) =~= vs.push(v) + ws);
        },
        _ => {},
    }
}

/// The table `kv` where key `k` is given the value `d`.
fn table_insert(kv: &mut Vec<(Integer, Box<DataType>)>, k: Integer, d: DataType)
    ensures
        pairs_view(final(kv)@) == kv_insert(pairs_view(old(kv)@), k@, d@),
{
    let ghost m = pairs_view(kv@);
    proof {
        lemma_pairs_view(kv@);
    }
    let mut j: usize = 0;
    while j < kv.len()
        invariant
            j <= kv@.len(),
            kv@ == old(kv)@,
            m == pairs_view(kv@),
            m.len() == kv@.len(),
            forall|i: int| 0 <= i < j ==> m[i].0 != k@,
            forall|i: int| 0 <= i < kv@.len() ==> #[trigger] m[i] == (kv@[i].0@, data_view(*kv@[i].1)),
        decreases kv@.len() - j,
    {
        if kv[j].0.same_value(&k) {
            proof {
                lemma_key_index(m, k@, j as int);
            }
            let ghost kd = (k@, d@);
            kv.set(j, (k, Box::new(d)));
            proof {
                lemma_pairs_view(kv@);
                assert(pairs_view(kv@) =~= m.update(j as int, kd));
            }
            return;
        }
        j += 1;
    }
    proof {
        assert(!(exists|i: int| 0 <= i < m.len() && m[i].0 == k@));
        assert(key_index(m, k@) is None);
    }
    let ghost kd = (k@, d@);
    kv.push((k, Box::new(d)));
    proof {
        lemma_pairs_view(kv@);
        assert(pairs_view(kv@) =~= m.push(kd));
    }
}

/// The typed value at position `pos` of `data`, read after `shift` bits left over.
fn struct_at(data: &[u8], pos: usize, shift: u64) -> (res: Option<Result<(usize, DataType, u64), ParseError>>)
    requires
        pos <= data@.len(),
    ensures
        reads_as(data@, pos as int, res, spec_struct(data@.skip(pos as int), shift as nat)),
    decreases data@.len() - pos, 1nat,
{
    if shift > 0 {
        if pos >= data.len() {
            return None;
        }
        assert(data@.skip(pos as int).skip(1) =~= data@.skip(pos + 1));
        let r = typed_at(data, pos + 1);
        proof {
            lemma_reads_after(data@, pos as int, 1, r, spec_typed(data@.skip(pos + 1)));
        }
        r
    } else {
        typed_at(data, pos)
    }
}

/// The value at position `pos` of `data`, after its tag byte.
fn typed_at(data: &[u8], pos: usize) -> (res: Option<Result<(usize, DataType, u64), ParseError>>)
    requires
        pos <= data@.len(),
    ensures
        reads_as(data@, pos as int, res, spec_typed(data@.skip(pos as int))),
    decreases data@.len() - pos, 0nat,
{
    if pos >= data.len() {
        return Some(Err(ParseError::UnexpectedEnd));
    }
    let tag = data[pos];
    let u = pos + 1;
    assert(data@.skip(pos as int)[0] == tag);
    assert(data@.skip(pos as int).skip(1) =~= data@.skip(u as int));
    let ghost b = data@.skip(u as int);
    if tag == 0x00 {
        let r = array_body_at(data, u);
        proof {
            lemma_reads_after(data@, pos as int, 1, r, spec_array_body(b));
        }
        r
    } else if tag == 0x01 {
        let r = bits_body_at(data, u, 0);
        proof {
            lemma_reads_after(data@, pos as int, 1, r, spec_bits_body(b, 0));
        }
        r
    } else if tag == 0x02 {
        let r = blob_body_at(data, u, 0);
        proof {
            lemma_reads_after(data@, pos as int, 1, r, spec_blob_body(b, 0));
        }
        r
    } else if tag == 0x03 {
        let r = struct_at(data, u, 0);
        proof {
            lemma_reads_after(data@, pos as int, 1, r, spec_struct(b, 0));
        }
        r
    } else if tag == 0x04 {
        let r = optional_body_at(data, u, 0);
        proof {
            lemma_reads_after(data@, pos as int, 1, r, spec_optional_body(b, 0));
        }
        r
    } else if tag == 0x05 {
        let r = assoc_body_at(data, u);
        proof {
            lemma_reads_after(data@, pos as int, 1, r, spec_assoc_body(b));
        }
        r
    } else if tag == 0x06 {
        let r = u8_body_at(data, u);
        proof {
            lemma_reads_after(data@, pos as int, 1, r, spec_u8_body(b));
        }
        r
    } else if tag == 0x07 {
        let r = u32_body_at(data, u);
        proof {
            lemma_reads_after(data@, pos as int, 1, r, spec_u32_body(b));
        }
        r
    } else if tag == 0x08 {
        let r = u64_body_at(data, u);
        proof {
            lemma_reads_after(data@, pos as int, 1, r, spec_u64_body(b));
        }
        r
    } else if tag == 0x09 {
        let r = vint_body_at(data, u);
        proof {
            lemma_reads_after(data@, pos as int, 1, r, spec_vint_body(b));
        }
        r
    } else {
        None
    }
}

/// The array from position `pos` of `data`.
fn array_body_at(data: &[u8], pos: usize) -> (res: Option<Result<(usize, DataType, u64), ParseError>>)
    requires
        pos <= data@.len(),
    ensures
        reads_as(data@, pos as int, res, spec_array_body(data@.skip(pos as int))),
    decreases data@.len() - pos, 2nat,
{
    let (p, n) = match size_at(data, pos) {
        Ok(x) => x,
        Err(e) => return Some(Err(e)),
    };
    assert(data@.skip(pos as int).skip(p - pos) =~= data@.skip(p as int));
    proof {
        let s0 = data@.skip(pos as int);
        lemma_size_takes(s0);
        assert(spec_array_body(s0) == as_array((p - pos) as nat, spec_items(data@.skip(p as int), n as nat, 0)));
    }
    let ghost all = spec_items(data@.skip(p as int), n as nat, 0);
    let mut items: Vec<Box<DataType>> = Vec::new();
    let mut cur = p;
    let mut bit_left: u64 = 0;
    let mut i: u64 = 0;
    assert(items_view(items@) =~= Seq::<Value>::empty());
    assert(Seq::<Value>::empty() + Seq::<Value>::empty() =~= Seq::<Value>::empty());
    assert forall|ws: Seq<Value>| Seq::<Value>::empty() + ws =~= ws by {}
    while i < n
        invariant
            pos < p <= cur <= data@.len(),
            i <= n,
            all == spec_items(data@.skip(p as int), n as nat, 0),
            spec_array_body(data@.skip(pos as int)) == as_array((p - pos) as nat, all),
            all == prepend(items_view(items@), (cur - p) as nat, spec_items(data@.skip(cur as int), (n - i) as nat, bit_left as nat)),
        decreases n - i,
    {
        let ghost rest = data@.skip(cur as int);
        proof {
        }
        match struct_at(data, cur, bit_left) {
            None => return None,
            Some(Err(e)) => return Some(Err(e)),
            Some(Ok((q, d, b))) => {
                let ghost v = d@;
                assert(spec_struct(rest, bit_left as nat) == Outcome::Done((q - cur) as nat, v, b as nat));
                let ghost old_items = items@;
                items.push(Box::new(d));
                proof {
                    assert(items@.drop_last() =~= old_items);
                    assert(items_view(items@) == items_view(old_items).push(v));
                    assert(rest.skip(q - cur) =~= data@.skip(q as int));
                    lemma_prepend(items_view(old_items), v, (cur - p) as nat, (q - cur) as nat,
                        spec_items(data@.skip(q as int), (n - i - 1) as nat, b as nat));
                }
                cur = q;
                bit_left = b;
            },
        }
        i += 1;
    }
    proof {
        assert(items_view(items@) + Seq::<Value>::empty() =~= items_view(items@));
    }
    Some(Ok((cur, DataType::Array(items), bit_left)))
}

/// The optional value from position `pos` of `data`.
fn optional_body_at(data: &[u8], pos: usize, shift: u64) -> (res: Option<Result<(usize, DataType, u64), ParseError>>)
    requires
        pos <= data@.len(),
    ensures
        reads_as(data@, pos as int, res, spec_optional_body(data@.skip(pos as int), shift as nat)),
    decreases data@.len() - pos, 2nat,
{
    if pos >= data.len() {
        return Some(Err(ParseError::UnexpectedEnd));
    }
    assert(data@.skip(pos as int)[0] == data@[pos as int]);
    if data[pos] == 0 {
        return Some(Ok((pos + 1, DataType::Optional(None), shift)));
    }
    assert(data@.skip(pos as int).skip(1) =~= data@.skip(pos + 1));
    struct_at(data, pos + 1, shift)
}

/// The table from position `pos` of `data`.
#[verifier::spinoff_prover]
fn assoc_body_at(data: &[u8], pos: usize) -> (res: Option<Result<(usize, DataType, u64), ParseError>>)
    requires
        pos <= data@.len(),
    ensures
        reads_as(data@, pos as int, res, spec_assoc_body(data@.skip(pos as int))),
    decreases data@.len() - pos, 2nat,
{
    let (p, n) = match size_at(data, pos) {
        Ok(x) => x,
        Err(e) => return Some(Err(e)),
    };
    assert(data@.skip(pos as int).skip(p - pos) =~= data@.skip(p as int));
    proof {
        let s0 = data@.skip(pos as int);
        lemma_size_takes(s0);
        assert(spec_assoc_body(s0) == as_table((p - pos) as nat, spec_entries(data@.skip(p as int), n as nat, 0)));
    }
    let ghost all = spec_entries(data@.skip(p as int), n as nat, 0);
    let ghost mut pairs: Seq<(int, Value)> = seq![];
    let mut kv: Vec<(Integer, Box<DataType>)> = Vec::new();
    let mut cur = p;
    let mut bit_left: u64 = 0;
    let mut i: u64 = 0;
    assert(pairs_view(kv@) =~= Seq::<(int, Value)>::empty());
    assert forall|ws: Seq<(int, Value)>| Seq::<(int, Value)>::empty() + ws =~= ws by {}
    while i < n
        invariant
            pos < p <= cur <= data@.len(),
            i <= n,
            all == spec_entries(data@.skip(p as int), n as nat, 0),
            spec_assoc_body(data@.skip(pos as int)) == as_table((p - pos) as nat, all),
            all == prepend(pairs, (cur - p) as nat, spec_entries(data@.skip(cur as int), (n - i) as nat, bit_left as nat)),
            pairs_view(kv@) == kv_fold(pairs),
        decreases n - i,
    {
        let ghost rest = data@.skip(cur as int);
        proof {
        }
        let (pk, key) = match vint_at(data, cur) {
            Ok(x) => x,
            Err(e) => return Some(Err(e)),
        };
        assert(rest.skip(pk - cur) =~= data@.skip(pk as int));
        match struct_at(data, pk, 0) {
            None => return None,
            Some(Err(e)) => return Some(Err(e)),
            Some(Ok((q, d, b))) => {
                let ghost entry = (key@, d@);
                assert(spec_struct(rest.skip(pk - cur), 0) == Outcome::Done((q - pk) as nat, d@, b as nat));
                table_insert(&mut kv, key, d);
                proof {
                    let old_pairs = pairs;
                    pairs = pairs.push(entry);
                    assert(pairs.drop_last() =~= old_pairs);
                    assert(rest.skip(q - cur) =~= data@.skip(q as int));
                    lemma_prepend(old_pairs, entry, (cur - p) as nat, (q - cur) as nat,
                        spec_entries(data@.skip(q as int), (n - i - 1) as nat, b as nat));
                }
                cur = q;
                bit_left = b;
            },
        }
        i += 1;
    }
    proof {
        assert(pairs + Seq::<(int, Value)>::empty() =~= pairs);
    }
    Some(Ok((cur, DataType::HashMap(kv), bit_left)))
}

/// `res`, the result of a parser on `data`, is what `o` says: what follows the bytes it
/// takes, the value and the number of bits left over.
pub open spec fn parsed_as(data: Seq<u8>, res: Result<(&[u8], (DataType, u64)), ParseError>, o: Outcome<Value>) -> bool {
    match o {
        Outcome::Done(c, v, b) => res matches Ok((rest, (d, bits))) && c <= data.len() && rest@
            == data.skip(c as int) && d@ == v && bits == b,
        Outcome::Fails(e) => res == Err::<(&[u8], (DataType, u64)), ParseError>(e),
        Outcome::Panics => false,
    }
}

/// The result at position zero of `data` as the parsers return it: with what follows the
/// value in place of its end position.
fn with_rest<'a>(data: &'a [u8], r: Option<Result<(usize, DataType, u64), ParseError>>) -> (res: Option<
    Result<(&'a [u8], (DataType, u64)), ParseError>,
>)
    requires
        r matches Some(Ok((p, _, _))) ==> p <= data@.len(),
    ensures
        forall|o: Outcome<Value>| #[trigger] reads_as(data@, 0, r, o) ==> match o {
            Outcome::Panics => res is None,
            _ => res matches Some(x) && parsed_as(data@, x, o),
        },
{
    match r {
        None => None,
        Some(Err(e)) => Some(Err(e)),
        Some(Ok((p, d, b))) => {
            let rest = &data[p..data.len()];
            assert(rest@ =~= data@.skip(p as int));
            Some(Ok((rest, (d, b))))
        },
    }
}

/// Parses a signed variable-length integer; no bits are left over.
pub fn parse_vint(data: &[u8], _bit_shift: u64) -> (res: Result<(&[u8], (DataType, u64)), ParseError>)
    ensures
        parsed_as(data@, res, spec_vint_body(data@)),
{
    assert(data@.skip(0) =~= data@);
    let r = vint_body_at(data, 0);
    proof {
        reveal(spec_vint_body);
    }
    match with_rest(data, r) {
        Some(x) => x,
        None => unreached(),
    }
}

/// Parses an array: a size, then that many typed values, each read after the bits that the
/// one before it left over.
pub fn parse_array(data: &[u8], _bit_shift: u64) -> (res: Result<(&[u8], (DataType, u64)), ParseError>)
    requires
        !(spec_array_body(data@) is Panics),
    ensures
        parsed_as(data@, res, spec_array_body(data@)),
{
    assert(data@.skip(0) =~= data@);
    let r = array_body_at(data, 0);
    match with_rest(data, r) {
        Some(x) => x,
        None => unreached(),
    }
}

/// `res`, the result of reading bits from `data`, is what `o` says.
pub open spec fn bits_parsed_as(
    data: Seq<u8>,
    res: Result<(&[u8], (DataType, u64, u8)), ParseError>,
    o: Outcome<(Seq<u8>, u8)>,
) -> bool {
    match o {
        Outcome::Done(c, r, b) => res matches Ok((rest, (d, bits, next))) && c <= data.len() && rest@
            == data.skip(c as int) && d@ == Value::Blob(r.0) && bits == b && next == r.1,
        Outcome::Fails(e) => res == Err::<(&[u8], (DataType, u64, u8)), ParseError>(e),
        Outcome::Panics => false,
    }
}

/// Reads `size` bits that need not start or end on a byte: the first `bit_shift` of them
/// were left over from the byte before and are held in `prev_bits`. Where `r` bits of the
/// size remain after the whole bytes, returns the bytes read followed by the high `8 - r`
/// bits of a last, partly read byte; then `8 - r`, and the low `r` bits of that byte, which
/// the next read takes as its `bit_shift` and `prev_bits`. That byte is not taken.
pub fn _parse_bits(data: &[u8], bit_shift: u64, size: u64, prev_bits: u8) -> (res: Result<
    (&[u8], (DataType, u64, u8)),
    ParseError,
>)
    requires
        bit_shift <= size,
    ensures
        bits_parsed_as(data@, res, spec_bits(data@, bit_shift as nat, size as nat, prev_bits)),
{
    assert(data@.skip(0) =~= data@);
    proof {
        reveal(spec_bits);
    }
    match bits_at(data, 0, bit_shift, size, prev_bits) {
        Some(Ok((p, blob, next, bits))) => {
            let rest = &data[p..data.len()];
            assert(rest@ =~= data@.skip(p as int));
            Ok((rest, (DataType::Blob(blob), bits, next)))
        },
        Some(Err(e)) => Err(e),
        None => unreached(),
    }
}

/// Parses a bit string: a size in bits, then the bits, the first `bit_shift` of which were
/// left over from the byte before.
pub fn parse_bits(data: &[u8], bit_shift: u64) -> (res: Result<(&[u8], (DataType, u64)), ParseError>)
    requires
        !(spec_bits_body(data@, bit_shift as nat) is Panics),
    ensures
        parsed_as(data@, res, spec_bits_body(data@, bit_shift as nat)),
{
    assert(data@.skip(0) =~= data@);
    let r = bits_body_at(data, 0, bit_shift);
    match with_rest(data, r) {
        Some(x) => x,
        None => unreached(),
    }
}

/// Parses a blob: a size in bytes, then the bytes, the first `bit_shift` bits of which were
/// left over from the byte before.
pub fn parse_blob(data: &[u8], bit_shift: u64) -> (res: Result<(&[u8], (DataType, u64)), ParseError>)
    requires
        !(spec_blob_body(data@, bit_shift as nat) is Panics),
    ensures
        parsed_as(data@, res, spec_blob_body(data@, bit_shift as nat)),
{
    assert(data@.skip(0) =~= data@);
    let r = blob_body_at(data, 0, bit_shift);
    match with_rest(data, r) {
        Some(x) => x,
        None => unreached(),
    }
}

/// Parses the value of a choice: a typed value.
pub fn parse_choice(data: &[u8], bit_shift: u64) -> (res: Result<(&[u8], (DataType, u64)), ParseError>)
    requires
        !(spec_struct(data@, bit_shift as nat) is Panics),
    ensures
        parsed_as(data@, res, spec_struct(data@, bit_shift as nat)),
{
    parse_struct(data, bit_shift)
}

/// Parses an optional value: a byte that is zero where there is none, then the typed value.
pub fn parse_optional(data: &[u8], bit_shift: u64) -> (res: Result<(&[u8], (DataType, u64)), ParseError>)
    requires
        !(spec_optional_body(data@, bit_shift as nat) is Panics),
    ensures
        parsed_as(data@, res, spec_optional_body(data@, bit_shift as nat)),
{
    assert(data@.skip(0) =~= data@);
    let r = optional_body_at(data, 0, bit_shift);
    match with_rest(data, r) {
        Some(x) => x,
        None => unreached(),
    }
}

/// Parses a table: a size, then that many pairs of a variable-length integer key and a
/// typed value; a later pair replaces the value of an earlier one with the same key, so
/// that no key occurs twice in the table.
pub fn parse_assoc_table(data: &[u8], _bit_shift: u64) -> (res: Result<(&[u8], (DataType, u64)), ParseError>)
    requires
        !(spec_assoc_body(data@) is Panics),
    ensures
        parsed_as(data@, res, spec_assoc_body(data@)),
        res matches Ok((_, (d, _))) ==> d@ matches Value::HashMap(m) && keys_distinct(m),
{
    assert(data@.skip(0) =~= data@);
    proof {
        if let Ok((c, n)) = spec_size(data@) {
            if let Outcome::Done(_, pairs, _) = spec_entries(data@.skip(c as int), n as nat, 0) {
                lemma_kv_fold_distinct(pairs);
            }
        }
    }
    let r = assoc_body_at(data, 0);
    match with_rest(data, r) {
        Some(x) => x,
        None => unreached(),
    }
}

/// Parses an unsigned byte.
pub fn parse_u8(data: &[u8], _bit_shift: u64) -> (res: Result<(&[u8], (DataType, u64)), ParseError>)
    ensures
        parsed_as(data@, res, spec_u8_body(data@)),
{
    assert(data@.skip(0) =~= data@);
    let r = u8_body_at(data, 0);
    proof {
        reveal(spec_u8_body);
    }
    match with_rest(data, r) {
        Some(x) => x,
        None => unreached(),
    }
}

/// Parses a little-endian unsigned 32-bit integer.
pub fn parse_u32(data: &[u8], _bit_shift: u64) -> (res: Result<(&[u8], (DataType, u64)), ParseError>)
    ensures
        parsed_as(data@, res, spec_u32_body(data@)),
{
    assert(data@.skip(0) =~= data@);
    let r = u32_body_at(data, 0);
    proof {
        reveal(spec_u32_body);
    }
    match with_rest(data, r) {
        Some(x) => x,
        None => unreached(),
    }
}

/// Parses a little-endian unsigned 64-bit integer.
pub fn parse_u64(data: &[u8], _bit_shift: u64) -> (res: Result<(&[u8], (DataType, u64)), ParseError>)
    ensures
        parsed_as(data@, res, spec_u64_body(data@)),
{
    assert(data@.skip(0) =~= data@);
    let r = u64_body_at(data, 0);
    proof {
        reveal(spec_u64_body);
    }
    match with_rest(data, r) {
        Some(x) => x,
        None => unreached(),
    }
}

/// Parses a typed value, after `bit_shift` bits left over from a previous read: then the
/// byte that holds them is skipped first.
pub fn parse_struct(data: &[u8], bit_shift: u64) -> (res: Result<(&[u8], (DataType, u64)), ParseError>)
    requires
        !(spec_struct(data@, bit_shift as nat) is Panics),
    ensures
        parsed_as(data@, res, spec_struct(data@, bit_shift as nat)),
        res matches Ok((_, (d, _))) ==> tables_distinct(d@),
{
    proof {
        lemma_struct_tables_distinct(data@, bit_shift as nat);
    }
    match try_parse_struct(data, bit_shift) {
        Some(x) => x,
        None => unreached(),
    }
}

/// Parses a typed value as `parse_struct` does, and gives `None` on the inputs on which
/// that panics: an unknown tag, a blob whose size in bits does not fit in 64 bits, or bits
/// left over from a byte that is not there.
pub fn try_parse_struct(data: &[u8], bit_shift: u64) -> (res: Option<Result<(&[u8], (DataType, u64)), ParseError>>)
    ensures
        match spec_struct(data@, bit_shift as nat) {
            Outcome::Panics => res is None,
            o => res matches Some(x) && parsed_as(data@, x, o),
        },
        res matches Some(Ok((_, (d, _)))) ==> tables_distinct(d@),
{
    proof {
        lemma_struct_tables_distinct(data@, bit_shift as nat);
    }
    assert(data@.skip(0) =~= data@);
    let r = struct_at(data, 0, bit_shift);
    with_rest(data, r)
}

/// Parses a frame count: the upper six bits of the first byte, followed by as many more
/// bytes as its low two bits say.
pub fn parse_frames(data: &[u8]) -> (res: Result<(&[u8], u64), ParseError>)
    ensures
        match spec_frames(data@) {
            Ok((c, t)) => res matches Ok((rest, time)) && rest@ == data@.skip(c as int) && time == t,
            Err(e) => res == Err::<(&[u8], u64), ParseError>(e),
        },
{
    if data.len() < 1 {
        return Err(ParseError::UnexpectedEnd);
    }
    let byte = data[0];
    let time = (byte >> 2) as u64;
    let additional_bytes = byte & 0x03;
    assert(byte >> 2 == byte / 4) by (bit_vector);
    assert(additional_bytes == byte % 4) by (bit_vector)
        requires
            additional_bytes == byte & 0x03,
    ;
    assert(time < 64);
    if data.len() < 1 + additional_bytes as usize {
        return Err(ParseError::UnexpectedEnd);
    }
    let (n, time) = if additional_bytes == 0 {
        (1, time)
    } else if additional_bytes == 1 {
        let next = data[1] as u64;
        assert((time << 8) | next == time * 0x100 + next) by (bit_vector)
            requires
                time < 64,
                next < 256,
        ;
        (2, (time << 8) | next)
    } else if additional_bytes == 2 {
        let next = read_le(data, 1, 2);
        proof {
            lemma_le_value_bound(data@.subrange(1, 3));
            lemma_pow256_values();
        }
        assert((time << 16) | next == time * 0x1_0000 + next) by (bit_vector)
            requires
                time < 64,
                next < 0x1_0000,
        ;
        (3, (time << 16) | next)
    } else {
        let next = read_le(data, 1, 2);
        let last = data[3] as u64;
        proof {
            lemma_le_value_bound(data@.subrange(1, 3));
            lemma_pow256_values();
        }
        assert((time << 24) | (next << 8) | last == time * 0x100_0000 + next * 0x100 + last) by (bit_vector)
            requires
                time < 64,
                next < 0x1_0000,
                last < 256,
        ;
        (4, (time << 24) | (next << 8) | last)
    };
    let rest = &data[n..data.len()];
    assert(rest@ =~= data@.skip(n as int));
    Ok((rest, time))
}

/// The unsigned integer of the little-endian bytes `b`, modulo `2^64`.
pub open spec fn blob_u64(b: Seq<u8>) -> u64 {
    (le_value(b) % 0x1_0000_0000_0000_0000) as u64
}

/// The header of a game event at the start of `s`, after the frame `fstamp` of the event
/// before it: the frames since that event, then five bits of player and seven bits of event
/// type, read as `_parse_bits` reads them. Gives the number of bytes taken, the event's frame,
/// its player and its type; `None` where the frame count does not fit in 64 bits.
pub open spec fn spec_event_header(s: Seq<u8>, fstamp: u64) -> Option<Result<(nat, (u64, u64, u64)), ParseError>> {
    match spec_frames(s) {
        Err(e) => Some(Err(e)),
        Ok((c, t)) => if fstamp + t > u64::MAX {
            None
        } else {
            let u = s.skip(c as int);
            match spec_bits(u, 0, 5, 0) {
                Outcome::Done(c1, r1, b1) => match spec_bits(u.skip(c1 as int), b1, 7, r1.1) {
                    Outcome::Done(c2, r2, _) => Some(
                        Ok(((c + c1 + c2) as nat, ((fstamp + t) as u64, blob_u64(r1.0), blob_u64(r2.0)))),
                    ),
                    Outcome::Fails(e) => Some(Err(e)),
                    Outcome::Panics => None,
                },
                Outcome::Fails(e) => Some(Err(e)),
                Outcome::Panics => None,
            }
        },
    }
}

/// The player of an event header is read from five bits and is below 32. The type is read
/// from seven bits: the five left over from the byte that held the player, and the high four
/// of that same byte, which the second read takes as a byte of its own; so the type is below
/// 128 only where those four bits are zero, that is where the byte after the frame count is
/// below 16.
pub proof fn lemma_event_header_ranges(s: Seq<u8>, fstamp: u64)
    ensures
        spec_event_header(s, fstamp) matches Some(Ok((_, (_, pid, ty)))) ==> pid < 32 && (
        spec_frames(s) matches Ok((c, _)) && s[c as int] < 16 ==> ty < 128),
{
    reveal(spec_bits);
    vstd::arithmetic::power2::lemma2_to64();
    if let Some(Ok((_, (_, pid, ty)))) = spec_event_header(s, fstamp) {
        let c = spec_frames(s)->Ok_0.0;
        let u = s.skip(c as int);
        let b = u[0];
        let r1 = seq![(b / 32) as u8];
        assert(u.take(0) =~= Seq::<u8>::empty());
        assert(Seq::<u8>::empty() + u.take(0).push((b / 32) as u8) =~= r1);
        assert(le_value(r1.drop_first()) == 0);
        assert(le_value(r1) == b / 32);
        assert(pid == b / 32);
        let r2 = seq![(b % 32) as u8, (b / 16) as u8];
        assert(u.skip(0).take(0) =~= Seq::<u8>::empty());
        assert(seq![(b % 32) as u8] + u.skip(0).take(0).push((b / 16) as u8) =~= r2);
        assert(r2.drop_first() =~= seq![(b / 16) as u8]);
        let hi = seq![(b / 16) as u8];
        assert(le_value(hi.drop_first()) == 0);
        assert(le_value(hi) == b / 16);
        assert(r2[0] == b % 32);
        assert(le_value(r2) == r2[0] + 256 * le_value(r2.drop_first()));
        assert(le_value(r2) == b % 32 + 256 * (b / 16));
        assert(ty == b % 32 + 256 * (b / 16));
    }
}

/// The unsigned integer of the little-endian bytes `b`, modulo `2^64`.
fn blob_to_u64(b: &[u8]) -> (r: u64)
    ensures
        r == blob_u64(b@),
{
    let ghost m: int = 0x1_0000_0000_0000_0000;
    let mut acc: u64 = 0;
    let mut i: usize = b.len();
    assert(b@.skip(b@.len() as int) =~= Seq::<u8>::empty());
    while i > 0
        invariant
            i <= b@.len(),
            m == 0x1_0000_0000_0000_0000,
            acc == (le_value(b@.skip(i as int)) as int) % m,
        decreases i,
    {
        let d = b[i - 1];
        let ghost x: int = le_value(b@.skip(i as int)) as int;
        proof {
            let t = b@.skip(i - 1);
            assert(t[0] == d);
            assert(t.drop_first() =~= b@.skip(i as int));
            assert(le_value(t) == d + 256 * x);
            vstd::arithmetic::div_mod::lemma_mul_mod_noop_right(256, x, m);
            vstd::arithmetic::div_mod::lemma_add_mod_noop(d as int, 256 * x, m);
            vstd::arithmetic::div_mod::lemma_add_mod_noop(d as int, 256 * (x % m), m);
            vstd::arithmetic::div_mod::lemma_mod_twice(256 * (x % m), m);
            vstd::arithmetic::div_mod::lemma_small_mod(d as nat, m as nat);
        }
        acc = acc.wrapping_mul(256).wrapping_add(d as u64);
        proof {
            assert(acc == ((x % m) * 256 % m + d) % m);
            assert((x % m) * 256 == 256 * (x % m));
        }
        i -= 1;
    }
    assert(b@.skip(0) =~= b@);
    acc
}

/// Reads the header of a game event after the frame `fstamp` of the event before it: its
/// frame, its player and its type.
pub fn parse_event_header(data: &[u8], fstamp: u64) -> (res: Result<(&[u8], (u64, u64, u64)), ParseError>)
    requires
        !(spec_event_header(data@, fstamp) is None),
    ensures
        match spec_event_header(data@, fstamp) {
            Some(Ok((c, h))) => res matches Ok((rest, h2)) && c <= data@.len() && rest@ == data@.skip(
                c as int,
            ) && h2 == h,
            Some(Err(e)) => res == Err::<(&[u8], (u64, u64, u64)), ParseError>(e),
            None => false,
        },
{
    let (data1, next_fstamp) = parse_frames(data)?;
    let fstamp = fstamp + next_fstamp;
    let (data2, (pid, bits_left, next_bits)) = _parse_bits(data1, 0, 5, 0)?;
    let pid = match pid {
        DataType::Blob(v) => blob_to_u64(v.as_slice()),
        _ => unreached(),
    };
    proof {
        reveal(spec_bits);
    }
    let (data3, (event_type, _, _)) = _parse_bits(data2, bits_left, 7, next_bits)?;
    let event_type = match event_type {
        DataType::Blob(v) => blob_to_u64(v.as_slice()),
        _ => unreached(),
    };
    proof {
        let ghost c = (data@.len() - data3@.len()) as nat;
        assert(data3@ =~= data@.skip(c as int));
    }
    Ok((data3, (fstamp, pid, event_type)))
}

} // verus!
