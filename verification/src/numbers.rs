use vstd::prelude::*;

verus! {

/// The value of the base-128 digits `s`, most significant first; a digit may exceed 127,
/// it then carries into the digits before it.
pub open spec fn be128(s: Seq<u8>) -> nat
    decreases s.len(),
{
    if s.len() == 0 {
        0
    } else {
        (be128(s.drop_last()) * 128 + s.last()) as nat
    }
}

/// `128` to the power `n`.
pub open spec fn pow128(n: nat) -> nat
    decreases n,
{
    if n == 0 {
        1
    } else {
        128 * pow128((n - 1) as nat)
    }
}

/// Every digit of `s` is below 128.
pub open spec fn base128_digits(s: Seq<u8>) -> bool {
    forall|i: int| 0 <= i < s.len() ==> #[trigger] s[i] < 128
}

/// The decimal digit `d`.
pub open spec fn digit_char(d: nat) -> char {
    (48 + d) as char
}

/// The decimal representation of `n`, without leading zeros.
pub open spec fn decimal_chars(n: nat) -> Seq<char>
    decreases n,
{
    if n < 10 {
        seq![digit_char(n)]
    } else {
        decimal_chars(n / 10).push(digit_char(n % 10))
    }
}

/// A digit put before others adds its weight at their length.
pub proof fn lemma_be128_prepend(d: u8, s: Seq<u8>)
    ensures
        be128(seq![d] + s) == d * pow128(s.len()) + be128(s),
    decreases s.len(),
{
    if s.len() == 0 {
        assert((seq![d] + s).drop_last() =~= Seq::<u8>::empty());
        assert(be128(seq![d] + s) == be128(Seq::<u8>::empty()) * 128 + d);
        assert(pow128(0) == 1);
    } else {
        lemma_be128_prepend(d, s.drop_last());
        assert((seq![d] + s).drop_last() =~= seq![d] + s.drop_last());
        assert((seq![d] + s).last() == s.last());
        let p = pow128((s.len() - 1) as nat);
        let b = be128(s.drop_last());
        assert(be128(s) == b * 128 + s.last());
        assert((d * p + b) * 128 + s.last() == d * (128 * p) + (b * 128 + s.last())) by (nonlinear_arith);
        assert(be128(seq![d] + s) == be128(seq![d] + s.drop_last()) * 128 + s.last());
        assert(be128(seq![d] + s.drop_last()) == d * p + b);
        assert(pow128(s.len()) == 128 * p);
    }
}

/// The first digit of `s`, if any, is not zero.
pub open spec fn no_leading_zero(s: Seq<u8>) -> bool {
    s.len() == 0 || s[0] != 0
}

/// The decimal representation of `v`, with a minus sign before a negative number.
pub open spec fn int_decimal_chars(v: int) -> Seq<char> {
    if v < 0 {
        seq!['-'] + decimal_chars((-v) as nat)
    } else {
        decimal_chars(v as nat)
    }
}

/// Zeros before the first digit do not change the value.
pub proof fn lemma_be128_skip_zeros(s: Seq<u8>, k: int)
    requires
        0 <= k <= s.len(),
        forall|i: int| 0 <= i < k ==> s[i] == 0,
    ensures
        be128(s) == be128(s.skip(k)),
    decreases k,
{
    if k == 0 {
        assert(s.skip(0) =~= s);
    } else {
        let t = s.drop_first();
        assert(s =~= seq![0u8] + t);
        lemma_be128_prepend(0, t);
        assert(0 * pow128(t.len()) == 0);
        lemma_be128_skip_zeros(t, k - 1);
        assert(t.skip(k - 1) =~= s.skip(k));
    }
}

/// Digits whose first one is not zero have a positive value.
pub proof fn lemma_be128_positive(s: Seq<u8>)
    requires
        s.len() > 0,
        s[0] != 0,
    ensures
        be128(s) > 0,
    decreases s.len(),
{
    if s.len() > 1 {
        assert(s.drop_last()[0] == s[0]);
        lemma_be128_positive(s.drop_last());
    } else {
        assert(s.drop_last().len() == 0);
    }
}

/// Two sequences of base-128 digits without a leading zero that have the same value are the
/// same sequence.
pub proof fn lemma_be128_injective(s: Seq<u8>, t: Seq<u8>)
    requires
        base128_digits(s),
        base128_digits(t),
        no_leading_zero(s),
        no_leading_zero(t),
        be128(s) == be128(t),
    ensures
        s == t,
    decreases s.len(),
{
    if s.len() == 0 {
        if t.len() > 0 {
            lemma_be128_positive(t);
        }
        assert(s =~= t);
    } else if t.len() == 0 {
        lemma_be128_positive(s);
    } else {
        let a = be128(s.drop_last());
        let b = be128(t.drop_last());
        let x = s.last();
        let y = t.last();
        assert(s[s.len() - 1] < 128);
        assert(t[t.len() - 1] < 128);
        assert(a * 128 + x == b * 128 + y);
        assert(a == b && x == y) by (nonlinear_arith)
            requires
                a * 128 + x == b * 128 + y,
                0 <= x < 128,
                0 <= y < 128,
                a >= 0,
                b >= 0,
        ;
        assert(base128_digits(s.drop_last())) by {
            assert forall|i: int| 0 <= i < s.drop_last().len() implies #[trigger] s.drop_last()[i] < 128 by {
                assert(s[i] < 128);
            }
        }
        assert(base128_digits(t.drop_last())) by {
            assert forall|i: int| 0 <= i < t.drop_last().len() implies #[trigger] t.drop_last()[i] < 128 by {
                assert(t[i] < 128);
            }
        }
        if s.len() > 1 {
            assert(s.drop_last()[0] == s[0]);
        }
        if t.len() > 1 {
            assert(t.drop_last()[0] == t[0]);
        }
        lemma_be128_injective(s.drop_last(), t.drop_last());
        assert(s =~= s.drop_last().push(x));
        assert(t =~= t.drop_last().push(y));
    }
}

/// Calls `num_bigint::BigUint::from_radix_be` with radix 128 and writes the number with
/// `ToString::to_string`. For digits below the radix, the crate's documentation has the
/// number be the value of the digits, and its `Display` writes it in decimal.
#[verifier::external_body]
fn biguint_decimal(digits: &[u8]) -> (res: String)
    requires
        base128_digits(digits@),
    ensures
        res@ == decimal_chars(be128(digits@)),
{
    match num_bigint::BigUint::from_radix_be(digits, 128) {
        Some(b) => b.to_string(),
        None => String::new(),
    }
}

/// The decimal digit `d` as text.
fn digit_str(d: u64) -> (s: &'static str)
    requires
        d < 10,
    ensures
        s@ == seq![digit_char(d as nat)],
{
    match d {
        0 => {
            proof {
                reveal_strlit("0");
            }
            "0"
        },
        1 => {
            proof {
                reveal_strlit("1");
            }
            "1"
        },
        2 => {
            proof {
                reveal_strlit("2");
            }
            "2"
        },
        3 => {
            proof {
                reveal_strlit("3");
            }
            "3"
        },
        4 => {
            proof {
                reveal_strlit("4");
            }
            "4"
        },
        5 => {
            proof {
                reveal_strlit("5");
            }
            "5"
        },
        6 => {
            proof {
                reveal_strlit("6");
            }
            "6"
        },
        7 => {
            proof {
                reveal_strlit("7");
            }
            "7"
        },
        8 => {
            proof {
                reveal_strlit("8");
            }
            "8"
        },
        _ => {
            proof {
                reveal_strlit("9");
            }
            "9"
        },
    }
}

/// `n` in decimal, without leading zeros.
pub(crate) fn u64_decimal(n: u64) -> (res: String)
    ensures
        res@ == decimal_chars(n as nat),
    decreases n,
{
    if n < 10 {
        String::from_str(digit_str(n))
    } else {
        let mut s = u64_decimal(n / 10);
        s.append(digit_str(n % 10));
        s
    }
}

/// `n` in decimal: a minus sign before a negative number, then its digits.
pub(crate) fn i64_decimal(n: i64) -> (res: String)
    ensures
        res@ == int_decimal_chars(n as int),
{
    if n < 0 {
        let a: u64 = (-(n as i128)) as u64;
        let mut s = String::from_str("-");
        proof {
            reveal_strlit("-");
        }
        let d = u64_decimal(a);
        s.append(d.as_str());
        s
    } else {
        u64_decimal(n as u64)
    }
}

/// An unsigned integer of any size, held as base-128 digits, most significant first.
#[derive(Debug)]
pub struct Natural {
    digits: Vec<u8>,
}

impl View for Natural {
    type V = nat;

    closed spec fn view(&self) -> nat {
        be128(self.digits@)
    }
}

impl Natural {
    #[verifier::type_invariant]
    spec fn inv(&self) -> bool {
        base128_digits(self.digits@) && no_leading_zero(self.digits@)
    }

    /// The number whose base-128 digits, most significant first, are `v`.
    fn normalized(v: Vec<u8>) -> (n: Natural)
        requires
            base128_digits(v@),
        ensures
            n@ == be128(v@),
    {
        let mut k: usize = 0;
        while k < v.len() && v[k] == 0
            invariant
                k <= v@.len(),
                forall|i: int| 0 <= i < k ==> v@[i] == 0,
            decreases v@.len() - k,
        {
            k += 1;
        }
        let mut digits: Vec<u8> = Vec::new();
        let mut j: usize = k;
        while j < v.len()
            invariant
                k <= j <= v@.len(),
                digits@ == v@.subrange(k as int, j as int),
            decreases v@.len() - j,
        {
            digits.push(v[j]);
            j += 1;
            assert(digits@ =~= v@.subrange(k as int, j as int));
        }
        proof {
            lemma_be128_skip_zeros(v@, k as int);
            assert(digits@ =~= v@.skip(k as int));
            assert forall|i: int| 0 <= i < digits@.len() implies #[trigger] digits@[i] < 128 by {
                assert(v@[k + i] < 128);
            }
            if digits@.len() > 0 {
                assert(digits@[0] == v@[k as int]);
            }
        }
        Natural { digits }
    }

    /// A copy of the number.
    pub fn copy(&self) -> (n: Natural)
        ensures
            n@ == self@,
    {
        proof {
            use_type_invariant(self);
        }
        let mut digits: Vec<u8> = Vec::new();
        let mut i: usize = 0;
        while i < self.digits.len()
            invariant
                i <= self.digits@.len(),
                digits@ == self.digits@.take(i as int),
            decreases self.digits@.len() - i,
        {
            digits.push(self.digits[i]);
            i += 1;
            assert(digits@ =~= self.digits@.take(i as int));
        }
        assert(digits@ =~= self.digits@);
        Natural { digits }
    }

    /// Whether the number is zero.
    pub fn is_zero(&self) -> (r: bool)
        ensures
            r == (self@ == 0),
    {
        proof {
            use_type_invariant(self);
            if self.digits@.len() > 0 {
                lemma_be128_positive(self.digits@);
            }
        }
        self.digits.len() == 0
    }

    /// Whether the two numbers are equal.
    pub fn eq_value(&self, other: &Natural) -> (r: bool)
        ensures
            r == (self@ == other@),
    {
        proof {
            use_type_invariant(self);
            use_type_invariant(other);
        }
        let n = self.digits.len();
        let mut same = n == other.digits.len();
        let mut i: usize = 0;
        while same && i < n
            invariant
                n == self.digits@.len(),
                same ==> n == other.digits@.len(),
                i <= n,
                same ==> forall|j: int| 0 <= j < i ==> self.digits@[j] == other.digits@[j],
                !same ==> self.digits@ != other.digits@,
            decreases n - i + (if same { 1int } else { 0int }),
        {
            if self.digits[i] != other.digits[i] {
                same = false;
            } else {
                i += 1;
            }
        }
        proof {
            if same {
                assert(self.digits@ =~= other.digits@);
            } else if self@ == other@ {
                lemma_be128_injective(self.digits@, other.digits@);
            }
        }
        same
    }

    /// The number divided by two, and whether it is odd.
    pub fn half(&self) -> (r: (Natural, bool))
        ensures
            r.0@ == self@ / 2,
            r.1 == (self@ % 2 == 1),
    {
        proof {
            use_type_invariant(self);
        }
        let mut q: Vec<u8> = Vec::new();
        let mut rem: u8 = 0;
        let mut i: usize = 0;
        assert(self.digits@.take(0) =~= Seq::<u8>::empty());
        assert(q@ =~= Seq::<u8>::empty());
        while i < self.digits.len()
            invariant
                i <= self.digits@.len(),
                base128_digits(self.digits@),
                rem < 2,
                base128_digits(q@),
                be128(self.digits@.take(i as int)) == 2 * be128(q@) + rem,
            decreases self.digits@.len() - i,
        {
            let d = self.digits[i];
            assert(self.digits@[i as int] < 128);
            let t: u16 = rem as u16 * 128 + d as u16;
            let ghost old_q = q@;
            q.push((t / 2) as u8);
            proof {
                assert(self.digits@.take(i + 1).drop_last() =~= self.digits@.take(i as int));
                assert(self.digits@.take(i + 1).last() == d);
                assert(q@.drop_last() =~= old_q);
                assert(q@.last() == (t / 2) as u8);
                let b = be128(old_q);
                assert(be128(self.digits@.take(i + 1)) == be128(self.digits@.take(i as int)) * 128 + d);
                assert(be128(q@) == b * 128 + t / 2);
                assert((2 * b + rem) * 128 + d == 2 * (b * 128 + t / 2) + t % 2) by (nonlinear_arith)
                    requires
                        t == rem * 128 + d,
                ;
                assert forall|k: int| 0 <= k < q@.len() implies #[trigger] q@[k] < 128 by {
                    if k < old_q.len() {
                        assert(q@[k] == old_q[k]);
                    }
                }
            }
            rem = (t % 2) as u8;
            i += 1;
        }
        proof {
            assert(self.digits@.take(i as int) =~= self.digits@);
            let n = self@;
            let b = be128(q@);
            assert(n == 2 * b + rem);
            assert(n / 2 == b && n % 2 == rem) by (nonlinear_arith)
                requires
                    n == 2 * b + rem,
                    rem < 2,
                    b >= 0,
            ;
        }
        (Natural::normalized(q), rem == 1)
    }

    /// The number whose base-128 digits, most significant first, are `v`; a digit above 127
    /// carries into the digits before it.
    pub fn from_base128_be(v: &[u8]) -> (n: Natural)
        ensures
            n@ == be128(v@),
    {
        let mut low: Vec<u8> = Vec::new();
        let mut carry: u16 = 0;
        let mut i: usize = v.len();
        assert(v@.take(v@.len() as int) =~= v@);
        assert(pow128(0) == 1);
        assert(be128(low@) == 0);
        assert(be128(v@) * 1 == be128(v@));
        while i > 0
            invariant
                i <= v@.len(),
                carry <= 2,
                base128_digits(low@),
                low@.len() == v@.len() - i,
                be128(v@.take(i as int)) * pow128(low@.len()) + carry * pow128(low@.len()) + be128(low@)
                    == be128(v@),
            decreases i,
        {
            let t: u16 = v[i - 1] as u16 + carry;
            let d = (t % 128) as u8;
            let ghost old_low = low@;
            let ghost p = pow128(old_low.len());
            low.insert(0, d);
            proof {
                assert(low@ =~= seq![d] + old_low);
                lemma_be128_prepend(d, old_low);
                assert(v@.take(i as int).drop_last() =~= v@.take(i - 1));
                assert(v@.take(i as int).last() == v@[i - 1]);
                let a = be128(v@.take(i - 1));
                assert(be128(v@.take(i as int)) == a * 128 + v@[i - 1]);
                assert(pow128(low@.len()) == 128 * p);
                assert(t == 128 * (t / 128) + t % 128);
                assert((a * 128 + v@[i - 1]) * p + carry * p == a * (128 * p) + (t / 128) * (128 * p) + (t % 128) * p) by (nonlinear_arith)
                    requires
                        t == v@[i - 1] + carry,
                        t == 128 * (t / 128) + t % 128,
                ;
                assert forall|k: int| 0 <= k < low@.len() implies #[trigger] low@[k] < 128 by {
                    if k > 0 {
                        assert(low@[k] == old_low[k - 1]);
                    }
                }
            }
            carry = t / 128;
            i -= 1;
        }
        proof {
            assert(v@.take(0) =~= Seq::<u8>::empty());
            assert(be128(v@.take(0)) == 0);
            assert(0 * pow128(low@.len()) == 0);
            assert(carry * pow128(low@.len()) + be128(low@) == be128(v@));
            if carry == 0 {
                assert(carry * pow128(low@.len()) == 0);
            }
        }
        if carry > 0 {
            let ghost old_low = low@;
            low.insert(0, carry as u8);
            proof {
                assert(low@ =~= seq![carry as u8] + old_low);
                lemma_be128_prepend(carry as u8, old_low);
                assert forall|k: int| 0 <= k < low@.len() implies #[trigger] low@[k] < 128 by {
                    if k > 0 {
                        assert(low@[k] == old_low[k - 1]);
                    }
                }
            }
        }
        Natural::normalized(low)
    }

    /// The number modulo `2^64`.
    pub fn low_u64(&self) -> (r: u64)
        ensures
            r == self@ % 0x1_0000_0000_0000_0000,
    {
        let mut a: u64 = 0;
        let mut i: usize = 0;
        let ghost m: int = 0x1_0000_0000_0000_0000;
        assert(self.digits@.take(0) =~= Seq::<u8>::empty());
        while i < self.digits.len()
            invariant
                i <= self.digits@.len(),
                m == 0x1_0000_0000_0000_0000,
                a == (be128(self.digits@.take(i as int)) as int) % m,
            decreases self.digits@.len() - i,
        {
            let d = self.digits[i];
            let ghost x: int = be128(self.digits@.take(i as int)) as int;
            proof {
                assert(self.digits@.take(i + 1).drop_last() =~= self.digits@.take(i as int));
                assert(self.digits@.take(i + 1).last() == d);
                vstd::arithmetic::div_mod::lemma_mul_mod_noop_left(x, 128, m);
                vstd::arithmetic::div_mod::lemma_add_mod_noop(x * 128, d as int, m);
                vstd::arithmetic::div_mod::lemma_add_mod_noop((x % m) * 128, d as int, m);
                vstd::arithmetic::div_mod::lemma_mod_twice((x % m) * 128, m);
                vstd::arithmetic::div_mod::lemma_small_mod(d as nat, m as nat);
            }
            a = a.wrapping_mul(128).wrapping_add(d as u64);
            proof {
                assert(a == ((x % m) * 128 % m + d) % m);
            }
            i += 1;
        }
        assert(self.digits@.take(i as int) =~= self.digits@);
        a
    }

    /// The number in decimal.
    pub fn to_decimal_string(&self) -> (s: String)
        ensures
            s@ == decimal_chars(self@),
    {
        proof {
            use_type_invariant(self);
        }
        biguint_decimal(self.digits.as_slice())
    }
}

/// A signed integer of any size: a sign and a magnitude.
#[derive(Debug)]
pub struct Integer {
    negative: bool,
    magnitude: Natural,
}

impl View for Integer {
    type V = int;

    closed spec fn view(&self) -> int {
        if self.negative {
            -(self.magnitude@ as int)
        } else {
            self.magnitude@ as int
        }
    }
}

impl Integer {
    /// The integer with the given sign and magnitude; a zero magnitude gives zero whatever
    /// the sign.
    pub fn new(negative: bool, magnitude: Natural) -> (i: Integer)
        ensures
            i@ == (if negative { -(magnitude@ as int) } else { magnitude@ as int }),
    {
        Integer { negative, magnitude }
    }

    /// A copy of the integer.
    pub fn copy(&self) -> (i: Integer)
        ensures
            i@ == self@,
    {
        Integer { negative: self.negative, magnitude: self.magnitude.copy() }
    }

    /// The integer `k`, for `k` below 128.
    pub fn small(k: u8) -> (i: Integer)
        requires
            k < 128,
        ensures
            i@ == k,
    {
        let mut digits: Vec<u8> = Vec::new();
        digits.push(k);
        proof {
            assert(digits@.drop_last() =~= Seq::<u8>::empty());
            assert(be128(Seq::<u8>::empty()) == 0);
            assert(digits@.last() == k);
            assert(be128(digits@) == k);
        }
        Integer { negative: false, magnitude: Natural::from_base128_be(digits.as_slice()) }
    }

    /// Whether the integer is above zero.
    pub fn is_positive(&self) -> (r: bool)
        ensures
            r == (self@ > 0),
    {
        !self.negative && !self.magnitude.is_zero()
    }

    /// Whether the two integers are equal.
    pub fn same_value(&self, other: &Integer) -> (r: bool)
        ensures
            r == (self@ == other@),
    {
        if !self.magnitude.eq_value(&other.magnitude) {
            false
        } else if self.magnitude.is_zero() {
            true
        } else {
            self.negative == other.negative
        }
    }

    /// The absolute value modulo `2^64`.
    pub fn low_u64(&self) -> (r: u64)
        ensures
            r == (if self@ < 0 { -self@ } else { self@ }) % 0x1_0000_0000_0000_0000,
    {
        self.magnitude.low_u64()
    }

    /// The integer in decimal, with a minus sign before a negative one.
    pub fn to_decimal_string(&self) -> (s: String)
        ensures
            s@ == int_decimal_chars(self@),
    {
        let digits = self.magnitude.to_decimal_string();
        if self.negative && !self.magnitude.is_zero() {
            let mut s = String::from_str("-");
            proof {
                reveal_strlit("-");
            }
            s.append(digits.as_str());
            s
        } else {
            digits
        }
    }
}

} // verus!
