use vstd::prelude::*;

verus! {

/// Why a parser refused its input.
#[derive(Clone, Copy, Debug, PartialEq, Eq, Structural)]
pub enum ParseError {
    /// The input does not start with the expected tag.
    UnexpectedTag,
    /// The input ends before the value does.
    UnexpectedEnd,
}

/// The little-endian value of the bytes `s`.
pub open spec fn le_value(s: Seq<u8>) -> nat
    decreases s.len(),
{
    if s.len() == 0 {
        0
    } else {
        (s[0] + 256 * le_value(s.drop_first())) as nat
    }
}

/// The big-endian value of the bytes `s`.
pub open spec fn be_value(s: Seq<u8>) -> nat
    decreases s.len(),
{
    if s.len() == 0 {
        0
    } else {
        (be_value(s.drop_last()) * 256 + s.last()) as nat
    }
}

/// `256` to the power `n`.
pub open spec fn pow256(n: nat) -> nat
    decreases n,
{
    if n == 0 {
        1
    } else {
        256 * pow256((n - 1) as nat)
    }
}

/// The little-endian value of the `n` bytes of `s` from `off`.
pub open spec fn le_field(s: Seq<u8>, off: int, n: int) -> nat {
    le_value(s.subrange(off, off + n))
}

/// `s` starts with the bytes `t`.
pub open spec fn starts_with(s: Seq<u8>, t: Seq<u8>) -> bool {
    s.len() >= t.len() && s.take(t.len() as int) == t
}

/// A little-endian value of `n` bytes is below `256^n`.
pub proof fn lemma_le_value_bound(s: Seq<u8>)
    ensures
        le_value(s) < pow256(s.len()),
    decreases s.len(),
{
    if s.len() > 0 {
        lemma_le_value_bound(s.drop_first());
    }
}

/// The powers of 256 that byte fields use.
pub proof fn lemma_pow256_values()
    ensures
        pow256(1) == 0x100,
        pow256(2) == 0x1_0000,
        pow256(4) == 0x1_0000_0000,
        pow256(8) == 0x1_0000_0000_0000_0000,
{
    reveal_with_fuel(pow256, 9);
}

/// Powers of 256 grow with the exponent.
pub proof fn lemma_pow256_mono(a: nat, b: nat)
    requires
        a <= b,
    ensures
        pow256(a) <= pow256(b),
    decreases b,
{
    if a < b {
        lemma_pow256_mono(a, (b - 1) as nat);
    }
}

/// The little-endian value of the `n` bytes of `data` from `pos`, for `n` up to 8.
pub fn read_le(data: &[u8], pos: usize, n: usize) -> (v: u64)
    requires
        n <= 8,
        pos + n <= data.len(),
    ensures
        v == le_field(data@, pos as int, n as int),
{
    let ghost s = data@.subrange(pos as int, pos + n);
    let mut v: u64 = 0;
    let mut k: usize = n;
    proof {
        lemma_pow256_values();
        lemma_pow256_mono(n as nat, 8);
        assert(s.skip(n as int) =~= Seq::<u8>::empty());
    }
    while k > 0
        invariant
            k <= n <= 8,
            pos + n <= data.len(),
            s == data@.subrange(pos as int, pos + n),
            v == le_value(s.skip(k as int)),
            pow256(8) == 0x1_0000_0000_0000_0000,
        decreases k,
    {
        let ghost t = s.skip(k - 1);
        proof {
            assert(t.drop_first() =~= s.skip(k as int));
            assert(t[0] == data@[pos + k - 1]);
            lemma_le_value_bound(t);
            lemma_pow256_mono(t.len(), 8);
        }
        v = data[pos + k - 1] as u64 + 256 * v;
        k -= 1;
    }
    assert(s.skip(0) =~= s);
    v
}

/// Checks that `data` starts with `tag` and returns what follows it.
pub fn take_tag<'a>(data: &'a [u8], tag: &[u8]) -> (res: Result<&'a [u8], ParseError>)
    ensures
        starts_with(data@, tag@) ==> (res matches Ok(rest) && rest@ == data@.skip(tag@.len() as int)),
        !starts_with(data@, tag@) ==> res == Err::<&[u8], ParseError>(ParseError::UnexpectedTag),
{
    if data.len() < tag.len() {
        return Err(ParseError::UnexpectedTag);
    }
    let mut i: usize = 0;
    while i < tag.len()
        invariant
            i <= tag@.len() <= data@.len(),
            forall|k: int| 0 <= k < i ==> data@[k] == tag@[k],
        decreases tag@.len() - i,
    {
        if data[i] != tag[i] {
            assert(data@.take(tag@.len() as int)[i as int] != tag@[i as int]);
            return Err(ParseError::UnexpectedTag);
        }
        i += 1;
    }
    assert(data@.take(tag@.len() as int) =~= tag@);
    Ok(&data[tag.len()..data.len()])
}

/// Reads a little-endian unsigned integer of `n` bytes, for `n` up to 8, and returns it with
/// what follows it.
pub fn take_le<'a>(data: &'a [u8], n: usize) -> (res: Result<(&'a [u8], u64), ParseError>)
    requires
        n <= 8,
    ensures
        n <= data@.len() ==> (res matches Ok((rest, v)) && rest@ == data@.skip(n as int) && v
            == le_field(data@, 0, n as int)),
        n > data@.len() ==> res == Err::<(&[u8], u64), ParseError>(ParseError::UnexpectedEnd),
{
    if n > data.len() {
        Err(ParseError::UnexpectedEnd)
    } else {
        let v = read_le(data, 0, n);
        Ok((&data[n..data.len()], v))
    }
}

/// A big-endian value of `n` bytes is below `256^n`.
pub proof fn lemma_be_value_bound(s: Seq<u8>)
    ensures
        be_value(s) < pow256(s.len()),
    decreases s.len(),
{
    if s.len() > 0 {
        lemma_be_value_bound(s.drop_last());
    }
}

/// The big-endian value of the `n` bytes of `data` from `pos`, for `n` up to 4.
pub fn read_be(data: &[u8], pos: usize, n: usize) -> (v: u32)
    requires
        n <= 4,
        pos + n <= data.len(),
    ensures
        v == be_value(data@.subrange(pos as int, pos + n)),
{
    let ghost s = data@.subrange(pos as int, pos + n);
    let mut v: u32 = 0;
    let mut k: usize = 0;
    proof {
        lemma_pow256_values();
        assert(s.take(0) =~= Seq::<u8>::empty());
    }
    while k < n
        invariant
            k <= n <= 4,
            pos + n <= data.len(),
            s == data@.subrange(pos as int, pos + n),
            v == be_value(s.take(k as int)),
            pow256(4) == 0x1_0000_0000,
        decreases n - k,
    {
        let ghost t = s.take(k + 1);
        proof {
            assert(t.drop_last() =~= s.take(k as int));
            assert(t.last() == data@[pos + k]);
            lemma_be_value_bound(t);
            lemma_pow256_mono(t.len(), 4);
        }
        v = v * 256 + data[pos + k] as u32;
        k += 1;
    }
    assert(s.take(n as int) =~= s);
    v
}

/// The big-endian value of four bytes, written out.
pub proof fn lemma_be_value_4(s: Seq<u8>)
    requires
        s.len() >= 4,
    ensures
        be_value(s.take(4)) == ((s[0] * 256 + s[1]) * 256 + s[2]) * 256 + s[3],
        be_value(s.take(4)) < 0x1_0000_0000,
{
    let t1 = s.take(1);
    let t2 = s.take(2);
    let t3 = s.take(3);
    let t4 = s.take(4);
    assert(t1.drop_last() =~= Seq::<u8>::empty());
    assert(t2.drop_last() =~= t1);
    assert(t3.drop_last() =~= t2);
    assert(t4.drop_last() =~= t3);
    assert(be_value(Seq::<u8>::empty()) == 0);
    assert(be_value(t1) == s[0]);
    assert(be_value(t2) == s[0] * 256 + s[1]);
    assert(be_value(t3) == (s[0] * 256 + s[1]) * 256 + s[2]);
    lemma_be_value_bound(t4);
    lemma_pow256_values();
}

/// A copy of the bytes `s`.
pub fn copy_bytes(s: &[u8]) -> (v: Vec<u8>)
    ensures
        v@ == s@,
{
    let mut v: Vec<u8> = Vec::new();
    let mut i: usize = 0;
    while i < s.len()
        invariant
            i <= s@.len(),
            v@ == s@.take(i as int),
        decreases s@.len() - i,
    {
        v.push(s[i]);
        i += 1;
        assert(v@ =~= s@.take(i as int));
    }
    assert(s@.take(i as int) =~= s@);
    v
}

} // verus!
