use vstd::prelude::*;

use crate::bytes::be_value;
use crate::numbers::{be128, decimal_chars, i64_decimal, int_decimal_chars, u64_decimal, Natural};
use crate::table::{key_index, keys_distinct, kv_get, lemma_key_index};

verus! {

/// A value of the serialized data of the SC2 user header.
#[derive(Debug)]
pub enum DataType {
    ByteString(String),
    ArrayObject(Vec<Box<DataType>>),
    /// A table from 8-bit keys to values; the parsers build it with no key twice.
    KeyValueObject(Vec<(u8, Box<DataType>)>),
    SingleByteInteger(i8),
    FourBytesInteger(i64),
    VLFInteger(Natural),
}

/// What a `DataType` holds.
pub ghost enum SpecData {
    ByteString(Seq<char>),
    ArrayObject(Seq<SpecData>),
    KeyValueObject(Seq<(u8, SpecData)>),
    SingleByteInteger(i8),
    FourBytesInteger(i64),
    VLFInteger(nat),
}

/// No table in `d`, at any depth, has a key twice.
pub open spec fn tables_distinct(d: SpecData) -> bool
    decreases d,
{
    match d {
        SpecData::ArrayObject(items) => forall|i: int|
            0 <= i < items.len() ==> tables_distinct(#[trigger] items[i]),
        SpecData::KeyValueObject(m) => keys_distinct(m) && forall|i: int|
            0 <= i < m.len() ==> tables_distinct(#[trigger] m[i].1),
        _ => true,
    }
}

pub open spec fn data_view(d: DataType) -> SpecData
    decreases d, 0nat,
{
    match d {
        DataType::ByteString(s) => SpecData::ByteString(s@),
        DataType::ArrayObject(v) => SpecData::ArrayObject(items_view(v@)),
        DataType::KeyValueObject(v) => SpecData::KeyValueObject(pairs_view(v@)),
        DataType::SingleByteInteger(i) => SpecData::SingleByteInteger(i),
        DataType::FourBytesInteger(i) => SpecData::FourBytesInteger(i),
        DataType::VLFInteger(n) => SpecData::VLFInteger(n@),
    }
}

pub open spec fn items_view(s: Seq<Box<DataType>>) -> Seq<SpecData>
    decreases s, 1nat,
{
    if s.len() == 0 {
        seq![]
    } else {
        items_view(s.drop_last()).push(data_view(*s.last()))
    }
}

pub open spec fn pairs_view(s: Seq<(u8, Box<DataType>)>) -> Seq<(u8, SpecData)>
    decreases s, 1nat,
{
    if s.len() == 0 {
        seq![]
    } else {
        pairs_view(s.drop_last()).push((s.last().0, data_view(*s.last().1)))
    }
}

impl View for DataType {
    type V = SpecData;

    open spec fn view(&self) -> SpecData {
        data_view(*self)
    }
}

/// The view of an array holds the view of each item, in order.
pub proof fn lemma_items_view(s: Seq<Box<DataType>>)
    ensures
        items_view(s).len() == s.len(),
        forall|i: int| 0 <= i < s.len() ==> #[trigger] items_view(s)[i] == data_view(*s[i]),
    decreases s.len(),
{
    if s.len() > 0 {
        lemma_items_view(s.drop_last());
    }
}

/// The view of a table holds the key and view of each pair, in order.
pub proof fn lemma_pairs_view(s: Seq<(u8, Box<DataType>)>)
    ensures
        pairs_view(s).len() == s.len(),
        forall|i: int|
            0 <= i < s.len() ==> #[trigger] pairs_view(s)[i] == (s[i].0, data_view(*s[i].1)),
    decreases s.len(),
{
    if s.len() > 0 {
        lemma_pairs_view(s.drop_last());
    }
}

/// The value of a serialized single-byte integer: the low bit is the sign, the other
/// seven bits the magnitude.
pub open spec fn single_byte_value(i: u8) -> i8 {
    if i % 2 == 1 {
        -((i / 2) as int) as i8
    } else {
        (i / 2) as i8
    }
}

/// The value of a serialized four-byte integer: a big-endian word whose low bit is the sign
/// and whose other 31 bits are the magnitude.
pub open spec fn four_bytes_value(i: Seq<u8>) -> i64 {
    let u = be_value(i.take(4));
    if u % 2 == 1 {
        -((u / 2) as int) as i64
    } else {
        (u / 2) as i64
    }
}

/// A serialized integer holds its magnitude shifted up by one bit, with the sign in the low
/// bit: the byte `2m` holds `m` and the byte `2m + 1` holds `-m`; likewise the big-endian
/// word `2m` holds `m` and the word `2m + 1` holds `-m`.
pub proof fn lemma_integer_encoding(m: int, s: Seq<u8>)
    requires
        0 <= m,
    ensures
        m < 128 ==> single_byte_value((2 * m) as u8) == m,
        m < 128 ==> single_byte_value((2 * m + 1) as u8) == -m,
        m < 0x8000_0000 && be_value(s.take(4)) == 2 * m ==> four_bytes_value(s) == m,
        m < 0x8000_0000 && be_value(s.take(4)) == 2 * m + 1 ==> four_bytes_value(s) == -m,
{
}

/// The value of key `k` in the table `m`, as `kv_get` states it.
pub fn kv_lookup(m: &Vec<(u8, Box<DataType>)>, k: u8) -> (res: Option<&DataType>)
    ensures
        match res {
            Some(d) => kv_get(pairs_view(m@), k) == Some(d@),
            None => kv_get(pairs_view(m@), k) is None,
        },
{
    let ghost pm = pairs_view(m@);
    proof {
        lemma_pairs_view(m@);
    }
    let mut j: usize = 0;
    while j < m.len()
        invariant
            j <= m@.len(),
            pm == pairs_view(m@),
            pm.len() == m@.len(),
            forall|i: int| 0 <= i < j ==> pm[i].0 != k,
            forall|i: int| 0 <= i < m@.len() ==> #[trigger] pm[i] == (m@[i].0, data_view(*m@[i].1)),
        decreases m@.len() - j,
    {
        if m[j].0 == k {
            proof {
                lemma_key_index(pm, k, j as int);
            }
            return Some(&*m[j].1);
        }
        j += 1;
    }
    proof {
        assert(!(exists|i: int| 0 <= i < pm.len() && pm[i].0 == k));
    }
    None
}

impl DataType {
    pub fn bytestring(s: String) -> (d: DataType)
        ensures
            d@ == SpecData::ByteString(s@),
    {
        DataType::ByteString(s)
    }

    pub fn array_object(v: Vec<Box<DataType>>) -> (d: DataType)
        ensures
            d@ == SpecData::ArrayObject(items_view(v@)),
    {
        DataType::ArrayObject(v)
    }

    /// The integer of a serialized single byte.
    pub fn singlebyte_int(i: u8) -> (d: DataType)
        ensures
            d@ == SpecData::SingleByteInteger(single_byte_value(i)),
    {
        let sign = i & 0x1;
        assert(sign == i % 2) by (bit_vector)
            requires sign == i & 0x1;
        assert(i >> 1 == i / 2) by (bit_vector);
        let v: i8 = (i >> 1) as i8;
        let v = v * (if sign != 0 { -1 } else { 1 });
        DataType::SingleByteInteger(v)
    }

    /// The integer of four serialized bytes.
    pub fn fourbytes_int(i: &[u8]) -> (d: DataType)
        requires
            i@.len() >= 4,
        ensures
            d@ == SpecData::FourBytesInteger(four_bytes_value(i@)),
    {
        let b3 = i[3];
        let sign = b3 & 0x1;
        assert(sign == b3 % 2) by (bit_vector)
            requires sign == b3 & 0x1;
        assert(sign != 0 <==> b3 % 2 == 1);
        let c0 = i[0] as u64;
        let c1 = i[1] as u64;
        let c2 = i[2] as u64;
        let c3 = i[3] as u64;
        assert(c2 < 256 ==> c2 << 8 == c2 * 0x100) by (bit_vector);
        assert(c1 < 256 ==> c1 << 16 == c1 * 0x1_0000) by (bit_vector);
        assert(c0 < 256 ==> c0 << 24 == c0 * 0x100_0000) by (bit_vector);
        let v = c3 + (c2 << 8) + (c1 << 16) + (c0 << 24);
        proof {
            let s = i@.take(4);
            crate::bytes::lemma_be_value_4(i@);
            assert(v == be_value(s));
        }
        assert(v >> 1 == v / 2) by (bit_vector);
        let v: i64 = (v >> 1) as i64;
        let v = v * (if sign != 0 { -1 } else { 1 });
        DataType::FourBytesInteger(v)
    }

    /// The integer of the base-128 digits `v`, most significant first.
    pub fn vlf_int(v: Vec<u8>) -> (d: DataType)
        requires
            v@.len() > 0,
        ensures
            d@ == SpecData::VLFInteger(be128(v@)),
    {
        DataType::VLFInteger(Natural::from_base128_be(v.as_slice()))
    }
}

/// How deep `d` nests: zero for a value without parts.
pub open spec fn data_height(d: SpecData) -> nat
    decreases d, 0nat,
{
    match d {
        SpecData::ArrayObject(a) => 1 + items_height(a),
        SpecData::KeyValueObject(m) => 1 + entries_height(m),
        _ => 0,
    }
}

/// The greatest height of the values of `a`.
pub open spec fn items_height(a: Seq<SpecData>) -> nat
    decreases a, 1nat,
{
    if a.len() == 0 {
        0
    } else {
        let h = data_height(a.last());
        let r = items_height(a.drop_last());
        if h > r { h } else { r }
    }
}

/// The greatest height of the values of the entries `m`.
pub open spec fn entries_height(m: Seq<(u8, SpecData)>) -> nat
    decreases m, 1nat,
{
    if m.len() == 0 {
        0
    } else {
        let h = data_height(m.last().1);
        let r = entries_height(m.drop_last());
        if h > r { h } else { r }
    }
}

proof fn lemma_items_height(a: Seq<SpecData>, i: int)
    requires
        0 <= i < a.len(),
    ensures
        data_height(a[i]) <= items_height(a),
    decreases a.len(),
{
    if i < a.len() - 1 {
        lemma_items_height(a.drop_last(), i);
    }
}

proof fn lemma_entries_height(m: Seq<(u8, SpecData)>, i: int)
    requires
        0 <= i < m.len(),
    ensures
        data_height(m[i].1) <= entries_height(m),
    decreases m.len(),
{
    if i < m.len() - 1 {
        lemma_entries_height(m.drop_last(), i);
    }
}

/// `n` tab characters.
pub open spec fn tabs(n: nat) -> Seq<char>
    decreases n,
{
    if n == 0 {
        seq![]
    } else {
        tabs((n - 1) as nat) + "\t"@
    }
}

/// The line of the entry of key `k`, whose value reads `t`, in a table at indentation `indent`.
pub open spec fn entry_line(k: u8, t: Seq<char>, indent: nat) -> Seq<char> {
    "\n"@ + tabs(indent + 1) + "\""@ + decimal_chars(k as nat) + "\": "@ + t
}

/// The texts `es` joined by commas.
pub open spec fn join_commas(es: Seq<Seq<char>>) -> Seq<char>
    decreases es.len(),
{
    if es.len() == 0 {
        seq![]
    } else if es.len() == 1 {
        es[0]
    } else {
        join_commas(es.drop_last()) + ","@ + es.last()
    }
}

/// The text of `d` at indentation `indent`: strings quoted, arrays on one line with the last
/// item at indentation zero, tables one entry per line by increasing key. `None` where
/// printing it panics: an empty array or table, at any depth.
pub open spec fn spec_pretty(d: SpecData, indent: nat) -> Option<Seq<char>>
    decreases d, 0nat, 0nat,
{
    match d {
        SpecData::ByteString(s) => Some("\""@ + s + "\""@),
        SpecData::SingleByteInteger(i) => Some(int_decimal_chars(i as int)),
        SpecData::FourBytesInteger(i) => Some(int_decimal_chars(i as int)),
        SpecData::VLFInteger(n) => Some(decimal_chars(n)),
        SpecData::ArrayObject(a) => if a.len() == 0 {
            None
        } else {
            match (array_body(a, (a.len() - 1) as nat, indent), spec_pretty(a[a.len() - 1], 0)) {
                (Some(body), Some(last)) => Some("[ "@ + body + last + " ]"@),
                _ => None,
            }
        },
        SpecData::KeyValueObject(m) => match kv_lines(m, 0, indent) {
            Some(es) => if es.len() == 0 {
                None
            } else {
                Some("{"@ + join_commas(es) + "\n"@ + tabs(indent) + "}"@)
            },
            None => None,
        },
    }
}

/// The first `n` items of the array `a`, each followed by a comma and a space.
pub open spec fn array_body(a: Seq<SpecData>, n: nat, indent: nat) -> Option<Seq<char>>
    decreases a, 1nat, n,
{
    if n == 0 || n > a.len() {
        Some(seq![])
    } else {
        match (array_body(a, (n - 1) as nat, indent), spec_pretty(a[n - 1], indent + 1)) {
            (Some(b), Some(t)) => Some(b + t + ", "@),
            _ => None,
        }
    }
}

/// The lines of the entries of `m` with keys from `k` up, by increasing key.
pub open spec fn kv_lines(m: Seq<(u8, SpecData)>, k: nat, indent: nat) -> Option<Seq<Seq<char>>>
    decreases m, 2nat, 256 - k,
{
    if k >= 256 {
        Some(seq![])
    } else {
        match (key_lines(m, k as u8, m.len(), indent), kv_lines(m, k + 1, indent)) {
            (Some(a), Some(b)) => Some(a + b),
            _ => None,
        }
    }
}

/// The lines of the entries with key `k` among the first `n` entries of `m`.
pub open spec fn key_lines(m: Seq<(u8, SpecData)>, k: u8, n: nat, indent: nat) -> Option<Seq<Seq<char>>>
    decreases m, 1nat, n,
{
    if n == 0 || n > m.len() {
        Some(seq![])
    } else {
        let here = if m[n - 1].0 == k {
            match spec_pretty(m[n - 1].1, indent + 1) {
                Some(t) => Some(seq![entry_line(k, t, indent)]),
                None => None,
            }
        } else {
            Some(seq![])
        };
        match (key_lines(m, k, (n - 1) as nat, indent), here) {
            (Some(a), Some(b)) => Some(a + b),
            _ => None,
        }
    }
}

/// The text of `r`, where there is one.
pub open spec fn opt_text(r: Option<String>) -> Option<Seq<char>> {
    match r {
        Some(s) => Some(s@),
        None => None,
    }
}

proof fn lemma_array_body_none(a: Seq<SpecData>, j: nat, j2: nat, indent: nat)
    requires
        j <= j2 <= a.len(),
        array_body(a, j, indent) is None,
    ensures
        array_body(a, j2, indent) is None,
    decreases j2,
{
    if j2 > j {
        lemma_array_body_none(a, j, (j2 - 1) as nat, indent);
    }
}

proof fn lemma_key_lines_none(m: Seq<(u8, SpecData)>, k: u8, j: nat, j2: nat, indent: nat)
    requires
        j <= j2 <= m.len(),
        key_lines(m, k, j, indent) is None,
    ensures
        key_lines(m, k, j2, indent) is None,
    decreases j2,
{
    if j2 > j {
        lemma_key_lines_none(m, k, j, (j2 - 1) as nat, indent);
    }
}

/// `n` tab characters.
fn tabs_string(n: usize) -> (s: String)
    ensures
        s@ == tabs(n as nat),
{
    let mut s = String::new();
    let mut i: usize = 0;
    while i < n
        invariant
            i <= n,
            s@ == tabs(i as nat),
        decreases n - i,
    {
        s.append("\t");
        i += 1;
    }
    s
}

impl DataType {
    /// The text of the value at indentation `indent`, or `None` where printing it panics.
    fn pretty_opt(&self, indent: usize) -> (r: Option<String>)
        requires
            indent + data_height(self@) <= usize::MAX,
        ensures
            opt_text(r) == spec_pretty(self@, indent as nat),
        decreases self,
    {
        match self {
            DataType::ByteString(t) => {
                let mut s = String::from_str("\"");
                s.append(t.as_str());
                s.append("\"");
                Some(s)
            },
            DataType::SingleByteInteger(i) => Some(i64_decimal(*i as i64)),
            DataType::FourBytesInteger(i) => Some(i64_decimal(*i)),
            DataType::VLFInteger(n) => Some(n.to_decimal_string()),
            DataType::ArrayObject(a) => {
                let ghost vs = items_view(a@);
                proof {
                    lemma_items_view(a@);
                }
                let n = a.len();
                if n == 0 {
                    return None;
                }
                let mut s = String::from_str("[ ");
                let ghost head = s@;
                let ghost mut body: Seq<char> = seq![];
                let mut i: usize = 0;
                while i < n - 1
                    invariant
                        n == a@.len(),
                        n > 0,
                        i <= n - 1,
                        vs == items_view(a@),
                        vs.len() == a@.len(),
                        forall|k: int| 0 <= k < a@.len() ==> #[trigger] vs[k] == data_view(*a@[k]),
                        indent + data_height(self@) <= usize::MAX,
                        self@ == SpecData::ArrayObject(vs),
                        *self == DataType::ArrayObject(*a),
                        array_body(vs, i as nat, indent as nat) == Some(body),
                        s@ == head + body,
                    decreases n - 1 - i,
                {
                    let item: &DataType = &a[i];
                    proof {
                        lemma_items_height(vs, i as int);
                        assert(decreases_to!(*a => a@));
                        assert(decreases_to!(a@ => a@[i as int]));
                        assert(decreases_to!(*self => *a));
                    }
                    let t = match item.pretty_opt(indent + 1) {
                        Some(t) => t,
                        None => {
                            proof {
                                lemma_array_body_none(vs, (i + 1) as nat, (n - 1) as nat, indent as nat);
                            }
                            return None;
                        },
                    };
                    s.append(t.as_str());
                    s.append(", ");
                    proof {
                        body = body + t@ + ", "@;
                    }
                    i += 1;
                }
                let last: &DataType = &a[n - 1];
                proof {
                    lemma_items_height(vs, n - 1);
                    assert(decreases_to!(*a => a@));
                    assert(decreases_to!(a@ => a@[n - 1]));
                }
                let t = match last.pretty_opt(0) {
                    Some(t) => t,
                    None => return None,
                };
                s.append(t.as_str());
                s.append(" ]");
                Some(s)
            },
            DataType::KeyValueObject(m) => {
                let ghost ms = pairs_view(m@);
                proof {
                    lemma_pairs_view(m@);
                }
                let mut lines: Vec<String> = Vec::new();
                let ghost mut ls: Seq<Seq<char>> = seq![];
                let mut k: u16 = 0;
                assert(Seq::<Seq<char>>::empty() + Seq::<Seq<char>>::empty() =~= Seq::<Seq<char>>::empty());
                assert forall|b: Seq<Seq<char>>| Seq::<Seq<char>>::empty() + b =~= b by {}
                while k < 256
                    invariant
                        k <= 256,
                        ms == pairs_view(m@),
                        ms.len() == m@.len(),
                        forall|i: int| 0 <= i < m@.len() ==> #[trigger] ms[i] == (m@[i].0, data_view(*m@[i].1)),
                        indent + data_height(self@) <= usize::MAX,
                        self@ == SpecData::KeyValueObject(ms),
                        *self == DataType::KeyValueObject(*m),
                        lines@.map_values(|l: String| l@) == ls,
                        kv_lines(ms, 0, indent as nat) == match kv_lines(ms, k as nat, indent as nat) {
                            Some(b) => Some(ls + b),
                            None => None::<Seq<Seq<char>>>,
                        },
                    decreases 256 - k,
                {
                    let ghost ls0 = ls;
                    let ghost mut here: Seq<Seq<char>> = seq![];
                    let mut j: usize = 0;
                    assert(ls0 + here =~= ls0);
                    while j < m.len()
                        invariant
                            k < 256,
                            j <= m@.len(),
                            ms == pairs_view(m@),
                            ms.len() == m@.len(),
                            forall|i: int| 0 <= i < m@.len() ==> #[trigger] ms[i] == (m@[i].0, data_view(*m@[i].1)),
                            indent + data_height(self@) <= usize::MAX,
                            self@ == SpecData::KeyValueObject(ms),
                            *self == DataType::KeyValueObject(*m),
                            key_lines(ms, k as u8, j as nat, indent as nat) == Some(here),
                            kv_lines(ms, 0, indent as nat) == match kv_lines(ms, k as nat, indent as nat) {
                                Some(b) => Some(ls0 + b),
                                None => None::<Seq<Seq<char>>>,
                            },
                            lines@.map_values(|l: String| l@) == ls0 + here,
                        decreases m@.len() - j,
                    {
                        if m[j].0 == k as u8 {
                            let item: &DataType = &m[j].1;
                            proof {
                                lemma_entries_height(ms, j as int);
                                assert(decreases_to!(*m => m@));
                                assert(decreases_to!(m@ => m@[j as int]));
                                assert(decreases_to!(m@[j as int] => m@[j as int].1));
                                assert(decreases_to!(*self => *m));
                            }
                            let t = match item.pretty_opt(indent + 1) {
                                Some(t) => t,
                                None => {
                                    proof {
                                        lemma_key_lines_none(ms, k as u8, (j + 1) as nat, ms.len(), indent as nat);
                                    }
                                    return None;
                                },
                            };
                            let mut line = String::from_str("\n");
                            let pad = tabs_string(indent + 1);
                            line.append(pad.as_str());
                            line.append("\"");
                            let key = u64_decimal(k as u64);
                            line.append(key.as_str());
                            line.append("\": ");
                            line.append(t.as_str());
                            proof {
                                assert(line@ == entry_line(k as u8, t@, indent as nat));
                            }
                            let ghost old_lines = lines@;
                            lines.push(line);
                            proof {
                                assert(lines@.map_values(|l: String| l@) =~= old_lines.map_values(|l: String| l@).push(
                                    entry_line(k as u8, t@, indent as nat),
                                ));
                                here = here.push(entry_line(k as u8, t@, indent as nat));
                                assert(ls0 + here =~= (ls0 + here.drop_last()).push(entry_line(k as u8, t@, indent as nat)));
                            }
                        } else {
                            proof {
                                assert(here + Seq::<Seq<char>>::empty() =~= here);
                            }
                        }
                        j += 1;
                    }
                    proof {
                        ls = ls0 + here;
                        assert forall|b: Seq<Seq<char>>| ls0 + (here + b) =~= ls + b by {}
                    }
                    k += 1;
                }
                proof {
                    assert(ls + Seq::<Seq<char>>::empty() =~= ls);
                }
                if lines.len() == 0 {
                    return None;
                }
                let mut s = String::from_str("{");
                let ghost head = s@;
                let mut i: usize = 0;
                assert(ls.take(0) =~= Seq::<Seq<char>>::empty());
                while i < lines.len()
                    invariant
                        i <= lines@.len(),
                        lines@.map_values(|l: String| l@) == ls,
                        s@ == head + join_commas(ls.take(i as int)),
                    decreases lines@.len() - i,
                {
                    if i > 0 {
                        s.append(",");
                    }
                    s.append(lines[i].as_str());
                    proof {
                        let t = ls.take(i + 1);
                        assert(t.drop_last() =~= ls.take(i as int));
                        assert(t.last() == lines@[i as int]@);
                        if i == 0 {
                            assert(t =~= seq![lines@[0]@]);
                        }
                    }
                    i += 1;
                }
                assert(ls.take(i as int) =~= ls);
                s.append("\n");
                let pad = tabs_string(indent);
                s.append(pad.as_str());
                s.append("}");
                Some(s)
            },
        }
    }

    /// The text of the value at indentation `indent`: strings quoted, arrays on one line,
    /// tables one entry per line by increasing key.
    pub fn pretty_print(&self, indent: usize) -> (s: String)
        requires
            tables_distinct(self@),
            spec_pretty(self@, indent as nat) is Some,
            indent + data_height(self@) <= usize::MAX,
        ensures
            spec_pretty(self@, indent as nat) == Some(s@),
    {
        match self.pretty_opt(indent) {
            Some(s) => s,
            None => vstd::pervasive::unreached(),
        }
    }

    /// The text of the value, as its `Display` writes it: `pretty_print` at indentation zero.
    pub fn to_string(&self) -> (s: String)
        requires
            tables_distinct(self@),
            spec_pretty(self@, 0) is Some,
            data_height(self@) <= usize::MAX,
        ensures
            spec_pretty(self@, 0) == Some(s@),
    {
        self.pretty_print(0)
    }
}

/// Whether two values are equal as `==` on `DataType` compares them: strings and
/// integers by value, arrays item by item as far as the shorter one goes; a
/// variable-length integer or a table equals nothing.
pub open spec fn data_eq(a: SpecData, b: SpecData) -> bool
    decreases a, 0nat, 0nat,
{
    match (a, b) {
        (SpecData::ByteString(x), SpecData::ByteString(y)) => x == y,
        (SpecData::ArrayObject(x), SpecData::ArrayObject(y)) => items_eq(
            x,
            y,
            if x.len() < y.len() { x.len() } else { y.len() },
        ),
        (SpecData::SingleByteInteger(x), SpecData::SingleByteInteger(y)) => x == y,
        (SpecData::FourBytesInteger(x), SpecData::FourBytesInteger(y)) => x == y,
        _ => false,
    }
}

/// The first `n` items of `x` equal those of `y`.
pub open spec fn items_eq(x: Seq<SpecData>, y: Seq<SpecData>, n: nat) -> bool
    decreases x, 1nat, n,
{
    if n == 0 || n > x.len() || n > y.len() {
        true
    } else {
        items_eq(x, y, (n - 1) as nat) && data_eq(x[n - 1], y[n - 1])
    }
}

proof fn lemma_items_eq_false(x: Seq<SpecData>, y: Seq<SpecData>, j: nat, j2: nat)
    requires
        j <= j2 <= x.len(),
        j2 <= y.len(),
        !items_eq(x, y, j),
    ensures
        !items_eq(x, y, j2),
    decreases j2,
{
    if j2 > j {
        lemma_items_eq_false(x, y, j, (j2 - 1) as nat);
    }
}

/// Whether two values are equal, as `data_eq` states it.
fn data_equal(a: &DataType, b: &DataType) -> (r: bool)
    ensures
        r == data_eq(a@, b@),
    decreases a,
{
    match (a, b) {
        (DataType::ByteString(x), DataType::ByteString(y)) => {
            *x == *y
        },
        (DataType::ArrayObject(x), DataType::ArrayObject(y)) => {
            let ghost xs = items_view(x@);
            let ghost ys = items_view(y@);
            proof {
                lemma_items_view(x@);
                lemma_items_view(y@);
            }
            let n = if x.len() < y.len() { x.len() } else { y.len() };
            let mut i: usize = 0;
            while i < n
                invariant
                    i <= n,
                    n <= x@.len(),
                    n <= y@.len(),
                    n == (if x@.len() < y@.len() { x@.len() } else { y@.len() }),
                    xs == items_view(x@),
                    ys == items_view(y@),
                    xs.len() == x@.len(),
                    ys.len() == y@.len(),
                    forall|k: int| 0 <= k < x@.len() ==> #[trigger] xs[k] == data_view(*x@[k]),
                    forall|k: int| 0 <= k < y@.len() ==> #[trigger] ys[k] == data_view(*y@[k]),
                    a@ == SpecData::ArrayObject(xs),
                    b@ == SpecData::ArrayObject(ys),
                    *a == DataType::ArrayObject(*x),
                    items_eq(xs, ys, i as nat),
                decreases n - i,
            {
                proof {
                    assert(decreases_to!(*x => x@));
                    assert(decreases_to!(x@ => x@[i as int]));
                    assert(decreases_to!(*a => *x));
                }
                if !data_equal(&x[i], &y[i]) {
                    proof {
                        lemma_items_eq_false(xs, ys, (i + 1) as nat, n as nat);
                    }
                    return false;
                }
                i += 1;
            }
            true
        },
        (DataType::SingleByteInteger(x), DataType::SingleByteInteger(y)) => *x == *y,
        (DataType::FourBytesInteger(x), DataType::FourBytesInteger(y)) => *x == *y,
        _ => false,
    }
}

impl PartialEq for DataType {
    fn eq(&self, other: &Self) -> (r: bool) {
        data_equal(self, other)
    }
}

impl vstd::std_specs::cmp::PartialEqSpecImpl for DataType {
    open spec fn obeys_eq_spec() -> bool {
        true
    }

    open spec fn eq_spec(&self, other: &DataType) -> bool {
        data_eq(self@, other@)
    }
}

/// `==` on `DataType` is symmetric.
pub proof fn lemma_data_eq_symmetric(a: SpecData, b: SpecData)
    ensures
        data_eq(a, b) == data_eq(b, a),
    decreases a,
{
    match (a, b) {
        (SpecData::ArrayObject(x), SpecData::ArrayObject(y)) => {
            let n: nat = if x.len() < y.len() { x.len() } else { y.len() };
            lemma_items_eq_symmetric(x, y, n);
        },
        _ => {},
    }
}

proof fn lemma_items_eq_symmetric(x: Seq<SpecData>, y: Seq<SpecData>, n: nat)
    ensures
        items_eq(x, y, n) == items_eq(y, x, n),
    decreases x, n,
{
    if n > 0 && n <= x.len() && n <= y.len() {
        lemma_items_eq_symmetric(x, y, (n - 1) as nat);
        lemma_data_eq_symmetric(x[n - 1], y[n - 1]);
    }
}

} // verus!
