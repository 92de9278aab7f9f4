use vstd::prelude::*;

use crate::bytes::ParseError;
use crate::numbers::be128;
use crate::utils::{decode, windows_1252_chars};
use crate::table::{
    key_index, keys_distinct, kv_fold, kv_insert, lemma_key_index, lemma_kv_fold_distinct, lemma_kv_fold_values,
};
use super::structs::{
    DataType, SpecData, four_bytes_value, tables_distinct, items_view, lemma_items_view, lemma_pairs_view, pairs_view,
    single_byte_value,
};

verus! {

/// The number of bytes at the start of `s` whose high bit is set.
pub open spec fn high_bit_run(s: Seq<u8>) -> nat
    decreases s.len(),
{
    if s.len() > 0 && s[0] >= 128 {
        1 + high_bit_run(s.drop_first())
    } else {
        0
    }
}

/// The low seven bits of each byte of `s`.
pub open spec fn low7(s: Seq<u8>) -> Seq<u8> {
    Seq::new(s.len(), |i: int| (s[i] % 128) as u8)
}

/// The serialized value at the start of `s`: the number of bytes it takes and what it holds.
pub open spec fn spec_data(s: Seq<u8>) -> Result<(nat, SpecData), ParseError>
    decreases s.len(), 0nat,
{
    if s.len() == 0 {
        Err(ParseError::UnexpectedTag)
    } else if s[0] == 0x06 {
        if s.len() < 2 {
            Err(ParseError::UnexpectedEnd)
        } else {
            Ok((2, SpecData::SingleByteInteger(single_byte_value(s[1]))))
        }
    } else if s[0] == 0x07 {
        if s.len() < 5 {
            Err(ParseError::UnexpectedEnd)
        } else {
            Ok((5, SpecData::FourBytesInteger(four_bytes_value(s.subrange(1, 5)))))
        }
    } else if s[0] == 0x02 {
        if s.len() < 2 {
            Err(ParseError::UnexpectedEnd)
        } else if s.len() < 2 + s[1] / 2 {
            Err(ParseError::UnexpectedEnd)
        } else {
            Ok(
                (
                    (2 + s[1] / 2) as nat,
                    SpecData::ByteString(windows_1252_chars(s.subrange(2, 2 + s[1] / 2))),
                ),
            )
        }
    } else if s[0] == 0x04 {
        if s.len() < 3 || s[1] != 0x10 || s[2] != 0x00 {
            Err(ParseError::UnexpectedTag)
        } else if s.len() < 4 {
            Err(ParseError::UnexpectedEnd)
        } else {
            match spec_items(s.skip(4), (s[3] / 2) as nat) {
                Ok((c, items)) => Ok(((4 + c) as nat, SpecData::ArrayObject(items))),
                Err(e) => Err(e),
            }
        }
    } else if s[0] == 0x09 {
        let k = high_bit_run(s.skip(1));
        if s.len() < k + 2 {
            Err(ParseError::UnexpectedEnd)
        } else {
            Ok(((k + 2) as nat, SpecData::VLFInteger(be128(low7(s.subrange(1, (k + 2) as int))))))
        }
    } else if s[0] == 0x05 {
        if s.len() < 2 {
            Err(ParseError::UnexpectedEnd)
        } else {
            match spec_entries(s.skip(2), (s[1] / 2) as nat) {
                Ok((c, pairs)) => Ok(((2 + c) as nat, SpecData::KeyValueObject(kv_fold(pairs)))),
                Err(e) => Err(e),
            }
        }
    } else {
        Err(ParseError::UnexpectedTag)
    }
}

/// `n` serialized values one after the other at the start of `s`.
pub open spec fn spec_items(s: Seq<u8>, n: nat) -> Result<(nat, Seq<SpecData>), ParseError>
    decreases s.len(), n + 1,
{
    if n == 0 {
        Ok((0, seq![]))
    } else {
        match spec_data(s) {
            Err(e) => Err(e),
            Ok((c, d)) => if c <= s.len() {
                match spec_items(s.skip(c as int), (n - 1) as nat) {
                    Ok((c2, ds)) => Ok(((c + c2) as nat, seq![d] + ds)),
                    Err(e) => Err(e),
                }
            } else {
                Err(ParseError::UnexpectedEnd)
            },
        }
    }
}

/// `n` key-value pairs one after the other at the start of `s`: a key byte, whose upper
/// seven bits are the key, then a serialized value.
pub open spec fn spec_entries(s: Seq<u8>, n: nat) -> Result<(nat, Seq<(u8, SpecData)>), ParseError>
    decreases s.len(), n + 1,
{
    if n == 0 {
        Ok((0, seq![]))
    } else if s.len() == 0 {
        Err(ParseError::UnexpectedEnd)
    } else {
        match spec_data(s.skip(1)) {
            Err(e) => Err(e),
            Ok((c, d)) => if 1 + c <= s.len() {
                match spec_entries(s.skip((1 + c) as int), (n - 1) as nat) {
                    Ok((c2, es)) => Ok(((1 + c + c2) as nat, seq![((s[0] / 2) as u8, d)] + es)),
                    Err(e) => Err(e),
                }
            } else {
                Err(ParseError::UnexpectedEnd)
            },
        }
    }
}

/// The values that the serialized data holds have tables without a key twice, at any depth.
pub proof fn lemma_data_tables_distinct(s: Seq<u8>)
    ensures
        spec_data(s) matches Ok((_, d)) ==> tables_distinct(d),
    decreases s.len(), 0nat,
{
    if s.len() > 0 && s[0] == 0x04 && s.len() >= 4 {
        lemma_items_tables_distinct(s.skip(4), (s[3] / 2) as nat);
    } else if s.len() > 0 && s[0] == 0x05 && s.len() >= 2 {
        lemma_entries_tables_distinct(s.skip(2), (s[1] / 2) as nat);
        if let Ok((_, pairs)) = spec_entries(s.skip(2), (s[1] / 2) as nat) {
            lemma_kv_fold_distinct(pairs);
            lemma_kv_fold_values(pairs, |d: SpecData| tables_distinct(d));
        }
    }
}

proof fn lemma_items_tables_distinct(s: Seq<u8>, n: nat)
    ensures
        spec_items(s, n) matches Ok((_, ds)) ==> forall|i: int|
            0 <= i < ds.len() ==> tables_distinct(#[trigger] ds[i]),
    decreases s.len(), n + 1,
{
    if n > 0 {
        lemma_data_tables_distinct(s);
        if let Ok((c, d)) = spec_data(s) {
            if c <= s.len() {
                lemma_items_tables_distinct(s.skip(c as int), (n - 1) as nat);
                if let Ok((_, ds)) = spec_items(s.skip(c as int), (n - 1) as nat) {
                    let all = seq![d] + ds;
                    assert forall|i: int| 0 <= i < all.len() implies tables_distinct(#[trigger] all[i]) by {
                        if i > 0 {
                            assert(all[i] == ds[i - 1]);
                        }
                    }
                }
            }
        }
    }
}

proof fn lemma_entries_tables_distinct(s: Seq<u8>, n: nat)
    ensures
        spec_entries(s, n) matches Ok((_, es)) ==> forall|i: int|
            0 <= i < es.len() ==> tables_distinct(#[trigger] es[i].1),
    decreases s.len(), n + 1,
{
    if n > 0 && s.len() > 0 {
        lemma_data_tables_distinct(s.skip(1));
        if let Ok((c, d)) = spec_data(s.skip(1)) {
            if 1 + c <= s.len() {
                lemma_entries_tables_distinct(s.skip((1 + c) as int), (n - 1) as nat);
                if let Ok((_, es)) = spec_entries(s.skip((1 + c) as int), (n - 1) as nat) {
                    let all = seq![((s[0] / 2) as u8, d)] + es;
                    assert forall|i: int| 0 <= i < all.len() implies tables_distinct(#[trigger] all[i].1) by {
                        if i > 0 {
                            assert(all[i] == es[i - 1]);
                        }
                    }
                }
            }
        }
    }
}

/// What a parser of the values with tag byte `tag` gives for `s`.
pub open spec fn spec_tagged(s: Seq<u8>, tag: u8) -> Result<(nat, SpecData), ParseError> {
    if s.len() > 0 && s[0] == tag {
        spec_data(s)
    } else {
        Err(ParseError::UnexpectedTag)
    }
}

/// `res` is what the spec result `r` says for the input `data`.
pub open spec fn parsed_as(
    data: Seq<u8>,
    res: Result<(&[u8], DataType), ParseError>,
    r: Result<(nat, SpecData), ParseError>,
) -> bool {
    match r {
        Ok((c, v)) => res matches Ok((rest, d)) && c <= data.len() && rest@ == data.skip(c as int)
            && d@ == v,
        Err(e) => res == Err::<(&[u8], DataType), ParseError>(e),
    }
}

/// The serialized value at position `pos` of `data`, and the position after it.
fn data_at(data: &[u8], pos: usize) -> (res: Result<(usize, DataType), ParseError>)
    requires
        pos <= data@.len(),
    ensures
        match res {
            Ok((p, d)) => pos <= p <= data@.len() && spec_data(data@.skip(pos as int)) == Ok::<
                (nat, SpecData),
                ParseError,
            >(((p - pos) as nat, d@)),
            Err(e) => spec_data(data@.skip(pos as int)) == Err::<(nat, SpecData), ParseError>(e),
        },
    decreases data@.len() - pos, 0nat,
{
    let ghost s = data@.skip(pos as int);
    if pos >= data.len() {
        return Err(ParseError::UnexpectedTag);
    }
    let left = data.len() - pos;
    let tag = data[pos];
    assert(s[0] == tag);
    if tag == 0x06 {
        single_byte_at(data, pos)
    } else if tag == 0x07 {
        four_bytes_at(data, pos)
    } else if tag == 0x02 {
        byte_string_at(data, pos)
    } else if tag == 0x04 {
        if left < 3 || data[pos + 1] != 0x10 || data[pos + 2] != 0x00 {
            assert(left >= 3 ==> s[1] == data@[pos + 1] && s[2] == data@[pos + 2]);
            return Err(ParseError::UnexpectedTag);
        }
        assert(s[1] == data@[pos + 1] && s[2] == data@[pos + 2]);
        if left < 4 {
            return Err(ParseError::UnexpectedEnd);
        }
        let b = data[pos + 3];
        assert(s[3] == b);
        assert(b >> 1 == b / 2) by (bit_vector);
        assert(s.skip(4) =~= data@.skip(pos + 4));
        let (p, items) = items_at(data, pos + 4, b >> 1)?;
        Ok((p, DataType::ArrayObject(items)))
    } else if tag == 0x09 {
        vlf_at(data, pos)
    } else if tag == 0x05 {
        if left < 2 {
            return Err(ParseError::UnexpectedEnd);
        }
        let b = data[pos + 1];
        assert(s[1] == b);
        assert(b >> 1 == b / 2) by (bit_vector);
        assert(s.skip(2) =~= data@.skip(pos + 2));
        let (p, kv) = entries_at(data, pos + 2, b >> 1)?;
        Ok((p, DataType::KeyValueObject(kv)))
    } else {
        Err(ParseError::UnexpectedTag)
    }
}

/// The result of parsing the value at `pos` of `data` as `spec_data` states it.
pub open spec fn data_at_result(data: Seq<u8>, pos: int, res: Result<(usize, DataType), ParseError>) -> bool {
    match res {
        Ok((p, d)) => pos <= p <= data.len() && spec_data(data.skip(pos)) == Ok::<
            (nat, SpecData),
            ParseError,
        >(((p - pos) as nat, d@)),
        Err(e) => spec_data(data.skip(pos)) == Err::<(nat, SpecData), ParseError>(e),
    }
}

/// A single-byte integer at `pos` of `data`.
fn single_byte_at(data: &[u8], pos: usize) -> (res: Result<(usize, DataType), ParseError>)
    requires
        pos < data@.len(),
        data@[pos as int] == 0x06,
    ensures
        data_at_result(data@, pos as int, res),
{
    let ghost s = data@.skip(pos as int);
    if data.len() - pos < 2 {
        return Err(ParseError::UnexpectedEnd);
    }
    assert(s[1] == data@[pos + 1]);
    Ok((pos + 2, DataType::singlebyte_int(data[pos + 1])))
}

/// A four-byte integer at `pos` of `data`.
fn four_bytes_at(data: &[u8], pos: usize) -> (res: Result<(usize, DataType), ParseError>)
    requires
        pos < data@.len(),
        data@[pos as int] == 0x07,
    ensures
        data_at_result(data@, pos as int, res),
{
    let ghost s = data@.skip(pos as int);
    if data.len() - pos < 5 {
        return Err(ParseError::UnexpectedEnd);
    }
    let bytes = &data[pos + 1..pos + 5];
    assert(bytes@ =~= s.subrange(1, 5));
    Ok((pos + 5, DataType::fourbytes_int(bytes)))
}

/// A byte string at `pos` of `data`.
fn byte_string_at(data: &[u8], pos: usize) -> (res: Result<(usize, DataType), ParseError>)
    requires
        pos < data@.len(),
        data@[pos as int] == 0x02,
    ensures
        data_at_result(data@, pos as int, res),
{
    let ghost s = data@.skip(pos as int);
    let left = data.len() - pos;
    if left < 2 {
        return Err(ParseError::UnexpectedEnd);
    }
    let b = data[pos + 1];
    assert(b >> 1 == b / 2) by (bit_vector);
    let n = (b >> 1) as usize;
    assert(s[1] == b);
    if left - 2 < n {
        return Err(ParseError::UnexpectedEnd);
    }
    let bytes = &data[pos + 2..pos + 2 + n];
    assert(bytes@ =~= s.subrange(2, 2 + s[1] / 2));
    let text = match decode(bytes) {
        Ok(t) => t,
        Err(_) => String::new(),
    };
    Ok((pos + 2 + n, DataType::ByteString(text)))
}

/// A variable-length integer at `pos` of `data`.
fn vlf_at(data: &[u8], pos: usize) -> (res: Result<(usize, DataType), ParseError>)
    requires
        pos < data@.len(),
        data@[pos as int] == 0x09,
    ensures
        data_at_result(data@, pos as int, res),
{
    let ghost s = data@.skip(pos as int);
    let len = data.len();
    let mut k: usize = 0;
    assert(s.skip(1) =~= s.skip(1int + 0));
    while k < len - pos - 1 && data[pos + 1 + k] >= 128
        invariant
            len == data.len(),
            pos < len,
            k <= len - pos - 1,
            s == data@.skip(pos as int),
            high_bit_run(s.skip(1)) == k + high_bit_run(s.skip(1 + k)),
        decreases len - pos - k,
    {
        proof {
            let t = s.skip(1 + k);
            assert(t[0] == data@[pos + 1 + k]);
            assert(t.drop_first() =~= s.skip(1 + k + 1));
        }
        k += 1;
    }
    proof {
        let t = s.skip(1 + k);
        if k < len - pos - 1 {
            assert(t[0] == data@[pos + 1 + k]);
        } else {
            assert(t.len() == 0);
        }
    }
    if len - pos - 1 < k + 1 {
        return Err(ParseError::UnexpectedEnd);
    }
    let mut digits: Vec<u8> = Vec::new();
    let mut j: usize = 0;
    while j < k + 1
        invariant
            len == data.len(),
            j <= k + 1,
            pos + k + 2 <= len,
            digits@ == low7(s.subrange(1, k + 2)).take(j as int),
            s == data@.skip(pos as int),
        decreases k + 1 - j,
    {
        let e = data[pos + 1 + j];
        let m = e & 0x7F;
        assert(m == e % 128) by (bit_vector)
            requires m == e & 0x7F;
        digits.push(m);
        j += 1;
        assert(digits@ =~= low7(s.subrange(1, k + 2)).take(j as int));
    }
    assert(low7(s.subrange(1, k + 2)).take(j as int) =~= low7(s.subrange(1, k + 2)));
    Ok((pos + k + 2, DataType::vlf_int(digits)))
}

/// `n` serialized values from position `pos` of `data`, and the position after them.
fn items_at(data: &[u8], pos: usize, n: u8) -> (res: Result<(usize, Vec<Box<DataType>>), ParseError>)
    requires
        pos <= data@.len(),
    ensures
        match res {
            Ok((p, v)) => pos <= p <= data@.len() && spec_items(data@.skip(pos as int), n as nat)
                == Ok::<(nat, Seq<SpecData>), ParseError>(((p - pos) as nat, items_view(v@))),
            Err(e) => spec_items(data@.skip(pos as int), n as nat) == Err::<
                (nat, Seq<SpecData>),
                ParseError,
            >(e),
        },
    decreases data@.len() - pos, n + 1,
{
    if n == 0 {
        let v: Vec<Box<DataType>> = Vec::new();
        assert(items_view(v@) =~= Seq::<SpecData>::empty());
        return Ok((pos, v));
    }
    let (p, d) = data_at(data, pos)?;
    assert(data@.skip(pos as int).skip(p - pos) =~= data@.skip(p as int));
    let (p2, mut rest) = items_at(data, p, n - 1)?;
    let ghost old_rest = rest@;
    rest.insert(0, Box::new(d));
    proof {
        lemma_items_view(old_rest);
        lemma_items_view(rest@);
        assert(items_view(rest@) =~= seq![d@] + items_view(old_rest));
    }
    Ok((p2, rest))
}

/// The table `kv` where key `k` is given the value `d`.
fn kv_insert_exec(kv: &mut Vec<(u8, Box<DataType>)>, k: u8, d: DataType)
    ensures
        pairs_view(final(kv)@) == kv_insert(pairs_view(old(kv)@), k, d@),
{
    let ghost m = pairs_view(kv@);
    proof {
        lemma_pairs_view(kv@);
    }
    let mut j: usize = 0;
    while j < kv.len()
        invariant
            j <= kv@.len(),
            kv@ == old(kv)@,
            m == pairs_view(kv@),
            m.len() == kv@.len(),
            forall|i: int| 0 <= i < j ==> m[i].0 != k,
            forall|i: int| 0 <= i < kv@.len() ==> #[trigger] m[i] == (kv@[i].0, data_view_of(kv@[i].1)),
        decreases kv@.len() - j,
    {
        if kv[j].0 == k {
            proof {
                lemma_key_index(m, k, j as int);
            }
            kv.set(j, (k, Box::new(d)));
            proof {
                lemma_pairs_view(kv@);
                assert(pairs_view(kv@) =~= m.update(j as int, (k, d@)));
                assert(kv_insert(m, k, d@) == m.update(j as int, (k, d@)));
            }
            return;
        }
        j += 1;
    }
    proof {
        assert(!(exists|i: int| 0 <= i < m.len() && m[i].0 == k));
        assert(key_index(m, k) is None);
    }
    kv.push((k, Box::new(d)));
    proof {
        lemma_pairs_view(kv@);
        assert(pairs_view(kv@) =~= m.push((k, d@)));
    }
}

/// The view of a boxed value.
pub open spec fn data_view_of(b: Box<DataType>) -> SpecData {
    super::structs::data_view(*b)
}

/// `ps`, taking `c0` bytes, followed by the pairs of `r`.
pub open spec fn prepend_pairs(
    ps: Seq<(u8, SpecData)>,
    c0: nat,
    r: Result<(nat, Seq<(u8, SpecData)>), ParseError>,
) -> Result<(nat, Seq<(u8, SpecData)>), ParseError> {
    match r {
        Ok((c, es)) => Ok(((c0 + c) as nat, ps + es)),
        Err(e) => Err(e),
    }
}

/// The table of `n` key-value pairs from position `pos` of `data`, and the position after them.
fn entries_at(data: &[u8], pos: usize, n: u8) -> (res: Result<(usize, Vec<(u8, Box<DataType>)>), ParseError>)
    requires
        pos <= data@.len(),
    ensures
        match res {
            Ok((p, v)) => pos <= p <= data@.len() && (spec_entries(data@.skip(pos as int), n as nat) matches Ok(
                (c, pairs),
            ) && c == p - pos && pairs_view(v@) == kv_fold(pairs)),
            Err(e) => spec_entries(data@.skip(pos as int), n as nat) == Err::<
                (nat, Seq<(u8, SpecData)>),
                ParseError,
            >(e),
        },
    decreases data@.len() - pos, n + 1,
{
    let mut kv: Vec<(u8, Box<DataType>)> = Vec::new();
    let ghost all = spec_entries(data@.skip(pos as int), n as nat);
    let ghost mut pairs: Seq<(u8, SpecData)> = seq![];
    let mut cur = pos;
    let mut i: u8 = 0;
    assert(pairs_view(kv@) =~= Seq::<(u8, SpecData)>::empty());
    assert(pairs + Seq::<(u8, SpecData)>::empty() =~= pairs);
    while i < n
        invariant
            i <= n,
            pos <= cur <= data@.len(),
            all == spec_entries(data@.skip(pos as int), n as nat),
            all == prepend_pairs(pairs, (cur - pos) as nat, spec_entries(data@.skip(cur as int), (n - i) as nat)),
            pairs_view(kv@) == kv_fold(pairs),
        decreases n - i,
    {
        let ghost s = data@.skip(cur as int);
        if cur >= data.len() {
            return Err(ParseError::UnexpectedEnd);
        }
        let key = data[cur];
        assert(s[0] == key);
        assert(s.skip(1) =~= data@.skip(cur + 1));
        let (p, d) = data_at(data, cur + 1)?;
        assert(s.skip(1 + (p - cur - 1)) =~= data@.skip(p as int));
        assert(key >> 1 == key / 2) by (bit_vector);
        let k = key >> 1;
        let ghost entry = (k, d@);
        kv_insert_exec(&mut kv, k, d);
        proof {
            let old_pairs = pairs;
            pairs = pairs.push(entry);
            assert(pairs.drop_last() =~= old_pairs);
            assert(old_pairs + (seq![entry] + Seq::<(u8, SpecData)>::empty()) =~= pairs + Seq::<(u8, SpecData)>::empty());
            assert forall|es: Seq<(u8, SpecData)>| old_pairs + (seq![entry] + es) =~= pairs + es by {}
        }
        cur = p;
        i += 1;
    }
    Ok((cur, kv))
}

/// Parses the serialized value at the start of `data` and returns it with what follows it.
pub fn parse_serialized_data(data: &[u8]) -> (res: Result<(&[u8], DataType), ParseError>)
    ensures
        parsed_as(data@, res, spec_data(data@)),
        res matches Ok((_, d)) ==> tables_distinct(d@),
{
    proof {
        lemma_data_tables_distinct(data@);
    }
    assert(data@.skip(0) =~= data@);
    let (p, d) = data_at(data, 0)?;
    assert(data@.skip(p as int) =~= data@.subrange(p as int, data@.len() as int));
    Ok((&data[p..data.len()], d))
}

/// Parses a single-byte integer, tag `0x06`.
pub fn parse_single_byte_int(data: &[u8]) -> (res: Result<(&[u8], DataType), ParseError>)
    ensures
        parsed_as(data@, res, spec_tagged(data@, 0x06)),
{
    if data.len() == 0 || data[0] != 0x06 {
        return Err(ParseError::UnexpectedTag);
    }
    parse_serialized_data(data)
}

/// Parses a four-byte integer, tag `0x07`.
pub fn parse_four_bytes_int(data: &[u8]) -> (res: Result<(&[u8], DataType), ParseError>)
    ensures
        parsed_as(data@, res, spec_tagged(data@, 0x07)),
{
    if data.len() == 0 || data[0] != 0x07 {
        return Err(ParseError::UnexpectedTag);
    }
    parse_serialized_data(data)
}

/// Parses a Windows-1252 byte string, tag `0x02`.
pub fn parse_byte_string(data: &[u8]) -> (res: Result<(&[u8], DataType), ParseError>)
    ensures
        parsed_as(data@, res, spec_tagged(data@, 0x02)),
{
    if data.len() == 0 || data[0] != 0x02 {
        return Err(ParseError::UnexpectedTag);
    }
    parse_serialized_data(data)
}

/// Parses an array, tag `0x04 0x10 0x00`.
pub fn parse_array(data: &[u8]) -> (res: Result<(&[u8], DataType), ParseError>)
    ensures
        parsed_as(data@, res, spec_tagged(data@, 0x04)),
{
    if data.len() == 0 || data[0] != 0x04 {
        return Err(ParseError::UnexpectedTag);
    }
    parse_serialized_data(data)
}

/// Parses a variable-length integer, tag `0x09`.
pub fn parse_vlf(data: &[u8]) -> (res: Result<(&[u8], DataType), ParseError>)
    ensures
        parsed_as(data@, res, spec_tagged(data@, 0x09)),
{
    if data.len() == 0 || data[0] != 0x09 {
        return Err(ParseError::UnexpectedTag);
    }
    parse_serialized_data(data)
}

/// Parses a key-value table, tag `0x05`; a later pair replaces the value of an earlier one
/// with the same key, so that no key occurs twice in the table.
pub fn parse_kv(data: &[u8]) -> (res: Result<(&[u8], DataType), ParseError>)
    ensures
        parsed_as(data@, res, spec_tagged(data@, 0x05)),
        res matches Ok((_, d)) ==> d@ matches SpecData::KeyValueObject(m) && keys_distinct(m),
{
    proof {
        if data@.len() >= 2 {
            if let Ok((_, pairs)) = spec_entries(data@.skip(2), (data@[1] / 2) as nat) {
                lemma_kv_fold_distinct(pairs);
            }
        }
    }
    if data.len() == 0 || data[0] != 0x05 {
        return Err(ParseError::UnexpectedTag);
    }
    parse_serialized_data(data)
}

} // verus!
