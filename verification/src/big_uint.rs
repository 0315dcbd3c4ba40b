//! Arbitrary-precision natural numbers, the amounts that the ledger holds.

use vstd::prelude::*;

verus! {

/// 256 to the power `n`.
pub open spec fn pow256(n: nat) -> nat
    decreases n,
{
    if n == 0 {
        1
    } else {
        256 * pow256((n - 1) as nat)
    }
}

/// The number that a sequence of base-256 digits denotes, least significant digit first.
pub open spec fn digits_value(digits: Seq<u8>) -> nat
    decreases digits.len(),
{
    if digits.len() == 0 {
        0
    } else {
        digits[0] as nat + 256 * digits_value(digits.skip(1))
    }
}

/// The number that a sequence of bytes denotes, most significant byte first.
pub open spec fn be_value(bytes: Seq<u8>) -> nat {
    digits_value(bytes.reverse())
}

/// The digit at position `i`, zero beyond the end.
spec fn digit_at(digits: Seq<u8>, i: int) -> nat {
    if 0 <= i < digits.len() {
        digits[i] as nat
    } else {
        0
    }
}

/// The value of the first `i` digits, all of them where `i` is beyond the end.
spec fn low_part(digits: Seq<u8>, i: int) -> nat {
    if 0 <= i < digits.len() {
        digits_value(digits.take(i))
    } else {
        digits_value(digits)
    }
}

proof fn lemma_pow256_positive(n: nat)
    ensures
        pow256(n) >= 1,
    decreases n,
{
    if n > 0 {
        lemma_pow256_positive((n - 1) as nat);
    }
}

proof fn lemma_pow256_monotonic(a: nat, b: nat)
    requires
        a <= b,
    ensures
        pow256(a) <= pow256(b),
    decreases b,
{
    if a < b {
        lemma_pow256_monotonic(a, (b - 1) as nat);
        lemma_pow256_positive((b - 1) as nat);
    }
}

proof fn lemma_pow256_of_8()
    ensures
        pow256(8) == 0x1_0000_0000_0000_0000,
{
    assert(pow256(0) == 1);
    assert(pow256(1) == 0x100);
    assert(pow256(2) == 0x1_0000);
    assert(pow256(3) == 0x100_0000);
    assert(pow256(4) == 0x1_0000_0000);
    assert(pow256(5) == 0x100_0000_0000);
    assert(pow256(6) == 0x1_0000_0000_0000);
    assert(pow256(7) == 0x100_0000_0000_0000);
}

/// Appending a digit adds it at the weight of its position.
proof fn lemma_value_push(digits: Seq<u8>, d: u8)
    ensures
        digits_value(digits.push(d)) == digits_value(digits) + d as nat * pow256(digits.len()),
    decreases digits.len(),
{
    let longer = digits.push(d);
    if digits.len() == 0 {
        assert(longer.skip(1) =~= Seq::<u8>::empty());
        assert(digits_value(longer.skip(1)) == 0);
        assert(longer[0] == d);
        assert(d as nat * pow256(0) == d as nat) by (nonlinear_arith)
            requires
                pow256(0) == 1,
        ;
    } else {
        let rest = digits.skip(1);
        assert(longer.skip(1) =~= rest.push(d));
        assert(longer[0] == digits[0]);
        lemma_value_push(rest, d);
        let p = pow256(rest.len());
        assert(pow256(digits.len()) == 256 * p);
        assert(256 * (d as nat * p) == d as nat * (256 * p)) by (nonlinear_arith);
    }
}

/// A number of `n` digits is below 256 to the `n`.
proof fn lemma_value_bound(digits: Seq<u8>)
    ensures
        digits_value(digits) < pow256(digits.len()),
    decreases digits.len(),
{
    if digits.len() > 0 {
        lemma_value_bound(digits.skip(1));
    }
}

/// A number splits at any position into its low digits and its high digits.
proof fn lemma_value_split(digits: Seq<u8>, k: int)
    requires
        0 <= k <= digits.len(),
    ensures
        digits_value(digits) == digits_value(digits.take(k)) + pow256(k as nat) * digits_value(
            digits.skip(k),
        ),
    decreases k,
{
    if k == 0 {
        assert(digits.take(0) =~= Seq::<u8>::empty());
        assert(digits.skip(0) =~= digits);
        let v = digits_value(digits);
        assert(pow256(0) * v == v) by (nonlinear_arith)
            requires
                pow256(0) == 1,
        ;
    } else {
        let rest = digits.skip(1);
        lemma_value_split(rest, k - 1);
        assert(rest.skip(k - 1) =~= digits.skip(k));
        assert(digits.take(k).skip(1) =~= rest.take(k - 1));
        assert(digits.take(k)[0] == digits[0]);
        let p = pow256((k - 1) as nat);
        let hi = digits_value(digits.skip(k));
        assert(pow256(k as nat) == 256 * p);
        assert(256 * (p * hi) == pow256(k as nat) * hi) by (nonlinear_arith)
            requires
                pow256(k as nat) == 256 * p,
        ;
    }
}

/// With a non-zero last digit, a number of `n` digits is at least 256 to the `n - 1`.
proof fn lemma_value_top(digits: Seq<u8>)
    requires
        digits.len() > 0,
        digits.last() != 0,
    ensures
        digits_value(digits) >= pow256((digits.len() - 1) as nat),
{
    let low = digits.drop_last();
    assert(low.push(digits.last()) =~= digits);
    lemma_value_push(low, digits.last());
    let p = pow256(low.len());
    let d = digits.last() as nat;
    assert(d * p >= p) by (nonlinear_arith)
        requires
            d >= 1,
    ;
}

/// One more digit of the low part.
proof fn lemma_low_part_step(digits: Seq<u8>, i: int)
    requires
        0 <= i,
    ensures
        low_part(digits, i + 1) == low_part(digits, i) + digit_at(digits, i) * pow256(i as nat),
{
    if i < digits.len() {
        assert(digits.take(i).push(digits[i]) =~= digits.take(i + 1));
        lemma_value_push(digits.take(i), digits[i]);
        if i + 1 == digits.len() {
            assert(digits.take(i + 1) =~= digits);
        }
    } else {
        assert(0 * pow256(i as nat) == 0);
    }
}

/// Where two numbers agree above position `k` and differ at `k`, the digit at `k` decides.
proof fn lemma_value_order(a: Seq<u8>, b: Seq<u8>, k: int)
    requires
        a.len() == b.len(),
        0 <= k < a.len(),
        a.skip(k + 1) == b.skip(k + 1),
        a[k] > b[k],
    ensures
        digits_value(a) > digits_value(b),
{
    lemma_value_split(a, k);
    lemma_value_split(b, k);
    lemma_value_bound(b.take(k));
    let ha = digits_value(a.skip(k));
    let hb = digits_value(b.skip(k));
    assert(a.skip(k).skip(1) =~= a.skip(k + 1));
    assert(b.skip(k).skip(1) =~= b.skip(k + 1));
    assert(ha >= hb + 1);
    let p = pow256(k as nat);
    assert(p * ha >= p * hb + p) by (nonlinear_arith)
        requires
            ha >= hb + 1,
    ;
}

/// An unsigned integer of any size.
#[derive(Debug, PartialEq, Eq)]
pub struct BigUint {
    /// Base-256 digits, least significant first, the last one non-zero.
    digits: Vec<u8>,
}

impl View for BigUint {
    type V = nat;

    closed spec fn view(&self) -> nat {
        digits_value(self.digits@)
    }
}

impl Clone for BigUint {
    fn clone(&self) -> (r: BigUint)
        ensures
            r@ == self@,
    {
        proof {
            use_type_invariant(self);
        }
        let digits = self.digits.clone();
        assert(digits@ =~= self.digits@);
        BigUint { digits }
    }
}

impl BigUint {
    #[verifier::type_invariant]
    spec fn canonical(self) -> bool {
        self.digits@.len() > 0 ==> self.digits@.last() != 0
    }

    /// Drops the zero digits at the top, which do not count.
    fn normalized(digits: Vec<u8>) -> (r: BigUint)
        ensures
            r@ == digits_value(digits@),
    {
        let mut digits = digits;
        let ghost value = digits_value(digits@);
        while digits.len() > 0 && digits[digits.len() - 1] == 0
            invariant
                digits_value(digits@) == value,
            decreases digits.len(),
        {
            proof {
                assert(digits@.drop_last().push(0u8) =~= digits@);
                lemma_value_push(digits@.drop_last(), 0u8);
            }
            digits.pop();
        }
        BigUint { digits }
    }

    /// The number zero.
    pub fn zero() -> (r: BigUint)
        ensures
            r@ == 0,
    {
        BigUint { digits: Vec::new() }
    }

    /// The number that `x` holds.
    pub fn from_u64(x: u64) -> (r: BigUint)
        ensures
            r@ == x,
    {
        let mut digits: Vec<u8> = Vec::new();
        let mut rest: u64 = x;
        assert(rest as nat * pow256(0) == x) by (nonlinear_arith)
            requires
                pow256(0) == 1,
                rest == x,
        ;
        while rest > 0
            invariant
                digits_value(digits@) + rest as nat * pow256(digits@.len()) == x,
            decreases rest,
        {
            let d: u8 = (rest % 256) as u8;
            proof {
                lemma_value_push(digits@, d);
                let p = pow256(digits@.len());
                let q = (rest / 256) as nat;
                assert(rest as nat * p == d as nat * p + q * (256 * p)) by (nonlinear_arith)
                    requires
                        rest as nat == 256 * q + d as nat,
                ;
            }
            digits.push(d);
            rest = rest / 256;
        }
        assert(0 * pow256(digits@.len()) == 0);
        BigUint::normalized(digits)
    }

    /// The number as a `u64`, where it fits.
    pub fn to_u64(&self) -> (r: Option<u64>)
        ensures
            self@ <= u64::MAX ==> r == Some(self@ as u64),
            self@ > u64::MAX ==> r is None,
    {
        proof {
            use_type_invariant(self);
            lemma_pow256_of_8();
        }
        let n: usize = self.digits.len();
        if n > 8 {
            proof {
                lemma_value_top(self.digits@);
                lemma_pow256_monotonic(8, (n - 1) as nat);
            }
            return None;
        }
        let mut acc: u64 = 0;
        let mut i: usize = n;
        proof {
            assert(self.digits@.skip(n as int) =~= Seq::<u8>::empty());
        }
        while i > 0
            invariant
                n == self.digits@.len(),
                n <= 8,
                i <= n,
                acc == digits_value(self.digits@.skip(i as int)),
                pow256(8) == 0x1_0000_0000_0000_0000,
            decreases i,
        {
            proof {
                let upper = self.digits@.skip(i - 1);
                assert(upper.skip(1) =~= self.digits@.skip(i as int));
                lemma_value_bound(upper);
                lemma_pow256_monotonic(upper.len(), 8);
            }
            i = i - 1;
            acc = acc * 256 + self.digits[i] as u64;
        }
        assert(self.digits@.skip(0) =~= self.digits@);
        Some(acc)
    }

    /// The number that the bytes denote, most significant byte first.
    pub fn from_bytes_be(bytes: &Vec<u8>) -> (r: BigUint)
        ensures
            r@ == be_value(bytes@),
    {
        let mut digits: Vec<u8> = Vec::new();
        let mut i: usize = bytes.len();
        while i > 0
            invariant
                i <= bytes@.len(),
                digits@.len() == bytes@.len() - i,
                forall|j: int| 0 <= j < digits@.len() ==> digits@[j] == bytes@[bytes@.len() - 1 - j],
            decreases i,
        {
            i = i - 1;
            digits.push(bytes[i]);
        }
        assert(digits@ =~= bytes@.reverse());
        BigUint::normalized(digits)
    }

    /// The bytes of the number, most significant first and without a leading zero byte.
    pub fn to_bytes_be(&self) -> (r: Vec<u8>)
        ensures
            be_value(r@) == self@,
            r@.len() > 0 ==> r@[0] != 0,
    {
        proof {
            use_type_invariant(self);
        }
        let mut bytes: Vec<u8> = Vec::new();
        let mut i: usize = self.digits.len();
        while i > 0
            invariant
                i <= self.digits@.len(),
                bytes@.len() == self.digits@.len() - i,
                forall|j: int|
                    0 <= j < bytes@.len() ==> bytes@[j] == self.digits@[self.digits@.len() - 1 - j],
            decreases i,
        {
            i = i - 1;
            bytes.push(self.digits[i]);
        }
        assert(bytes@.reverse() =~= self.digits@);
        bytes
    }

    /// Whether the number is zero.
    pub fn is_zero(&self) -> (r: bool)
        ensures
            r == (self@ == 0),
    {
        proof {
            use_type_invariant(self);
            if self.digits@.len() > 0 {
                lemma_value_top(self.digits@);
                lemma_pow256_positive((self.digits@.len() - 1) as nat);
            }
        }
        self.digits.len() == 0
    }

    /// Whether the number is at least `other`.
    pub fn ge(&self, other: &BigUint) -> (r: bool)
        ensures
            r == (self@ >= other@),
    {
        proof {
            use_type_invariant(self);
            use_type_invariant(other);
        }
        let n: usize = self.digits.len();
        let m: usize = other.digits.len();
        if n > m {
            proof {
                lemma_value_top(self.digits@);
                lemma_value_bound(other.digits@);
                lemma_pow256_monotonic(m as nat, (n - 1) as nat);
            }
            return true;
        }
        if n < m {
            proof {
                lemma_value_top(other.digits@);
                lemma_value_bound(self.digits@);
                lemma_pow256_monotonic(n as nat, (m - 1) as nat);
            }
            return false;
        }
        let mut i: usize = n;
        proof {
            assert(self.digits@.skip(n as int) =~= other.digits@.skip(n as int));
        }
        while i > 0
            invariant
                n == self.digits@.len(),
                n == other.digits@.len(),
                i <= n,
                self.digits@.skip(i as int) == other.digits@.skip(i as int),
            decreases i,
        {
            i = i - 1;
            let a: u8 = self.digits[i];
            let b: u8 = other.digits[i];
            if a > b {
                proof {
                    lemma_value_order(self.digits@, other.digits@, i as int);
                }
                return true;
            }
            if a < b {
                proof {
                    lemma_value_order(other.digits@, self.digits@, i as int);
                }
                return false;
            }
            proof {
                let x = self.digits@.skip(i as int);
                let y = other.digits@.skip(i as int);
                assert(x.skip(1) =~= self.digits@.skip(i + 1));
                assert(y.skip(1) =~= other.digits@.skip(i + 1));
                assert(x =~= seq![a] + x.skip(1));
                assert(y =~= seq![b] + y.skip(1));
            }
        }
        assert(self.digits@.skip(0) =~= self.digits@);
        assert(other.digits@.skip(0) =~= other.digits@);
        true
    }

    /// Whether the two numbers are the same.
    pub fn eq(&self, other: &BigUint) -> (r: bool)
        ensures
            r == (self@ == other@),
    {
        self.ge(other) && other.ge(self)
    }

    /// The sum of the two numbers.
    pub fn add(&self, other: &BigUint) -> (r: BigUint)
        ensures
            r@ == self@ + other@,
    {
        let n: usize = self.digits.len();
        let m: usize = other.digits.len();
        let mut digits: Vec<u8> = Vec::new();
        let mut carry: u8 = 0;
        let mut i: usize = 0;
        proof {
            assert(self.digits@.take(0) =~= Seq::<u8>::empty());
            assert(other.digits@.take(0) =~= Seq::<u8>::empty());
        }
        while i < n || i < m
            invariant
                n == self.digits@.len(),
                m == other.digits@.len(),
                digits@.len() == i,
                carry <= 1,
                digits_value(digits@) + carry as nat * pow256(i as nat) == low_part(
                    self.digits@,
                    i as int,
                ) + low_part(other.digits@, i as int),
            decreases (if n > m { n } else { m }) - i,
        {
            let a: u8 = if i < n { self.digits[i] } else { 0 };
            let b: u8 = if i < m { other.digits[i] } else { 0 };
            let sum: u16 = a as u16 + b as u16 + carry as u16;
            let d: u8 = (sum % 256) as u8;
            let next: u8 = (sum / 256) as u8;
            proof {
                lemma_low_part_step(self.digits@, i as int);
                lemma_low_part_step(other.digits@, i as int);
                lemma_value_push(digits@, d);
                let p = pow256(i as nat);
                assert(pow256((i + 1) as nat) == 256 * p);
                assert(d as nat * p + next as nat * (256 * p) == (a as nat + b as nat
                    + carry as nat) * p) by (nonlinear_arith)
                    requires
                        d as nat + 256 * next as nat == a as nat + b as nat + carry as nat,
                ;
                assert((a as nat + b as nat + carry as nat) * p == a as nat * p + b as nat * p
                    + carry as nat * p) by (nonlinear_arith);
            }
            digits.push(d);
            carry = next;
            i = i + 1;
        }
        proof {
            lemma_value_push(digits@, carry);
        }
        digits.push(carry);
        BigUint::normalized(digits)
    }

    /// The difference of the two numbers, where `other` is not the larger one.
    pub fn checked_sub(&self, other: &BigUint) -> (r: Option<BigUint>)
        ensures
            self@ >= other@ ==> r is Some && r->Some_0@ == self@ - other@,
            self@ < other@ ==> r is None,
    {
        if self.ge(other) {
            Some(self.sub(other))
        } else {
            None
        }
    }

    /// The difference of the two numbers. `other` must not be the larger one.
    pub fn sub(&self, other: &BigUint) -> (r: BigUint)
        requires
            self@ >= other@,
        ensures
            r@ == self@ - other@,
    {
        let n: usize = self.digits.len();
        let m: usize = other.digits.len();
        proof {
            use_type_invariant(self);
            use_type_invariant(other);
            if m > n {
                lemma_value_top(other.digits@);
                lemma_value_bound(self.digits@);
                lemma_pow256_monotonic(n as nat, (m - 1) as nat);
            }
        }
        let mut digits: Vec<u8> = Vec::new();
        let mut borrow: u8 = 0;
        let mut i: usize = 0;
        proof {
            assert(self.digits@.take(0) =~= Seq::<u8>::empty());
            assert(other.digits@.take(0) =~= Seq::<u8>::empty());
        }
        while i < n
            invariant
                n == self.digits@.len(),
                m == other.digits@.len(),
                m <= n,
                i <= n,
                digits@.len() == i,
                borrow <= 1,
                digits_value(digits@) + low_part(other.digits@, i as int) == low_part(
                    self.digits@,
                    i as int,
                ) + borrow as nat * pow256(i as nat),
            decreases n - i,
        {
            let a: u16 = self.digits[i] as u16;
            let b: u16 = (if i < m { other.digits[i] } else { 0 }) as u16 + borrow as u16;
            let d: u8 = if a >= b { (a - b) as u8 } else { (a + 256 - b) as u8 };
            let next: u8 = if a >= b { 0 } else { 1 };
            proof {
                lemma_low_part_step(self.digits@, i as int);
                lemma_low_part_step(other.digits@, i as int);
                lemma_value_push(digits@, d);
                let p = pow256(i as nat);
                let bo = digit_at(other.digits@, i as int);
                assert(pow256((i + 1) as nat) == 256 * p);
                assert(d as nat * p + bo * p + borrow as nat * p == a as nat * p + next as nat * (
                256 * p)) by (nonlinear_arith)
                    requires
                        d as nat + bo + borrow as nat == a as nat + 256 * next as nat,
                ;
            }
            digits.push(d);
            borrow = next;
            i = i + 1;
        }
        proof {
            lemma_value_bound(digits@);
            assert(borrow as nat * pow256(n as nat) == if borrow == 1 {
                pow256(n as nat)
            } else {
                0
            }) by (nonlinear_arith)
                requires
                    borrow <= 1,
            ;
        }
        BigUint::normalized(digits)
    }
}

} // verus!
