//! Numbers of any size, for counting the entries of tensors.

use vstd::prelude::*;

verus! {

/// How many values a digit can take.
pub const BASE: u64 = 0x1_0000_0000;

/// A natural number of any size.
#[derive(Debug, PartialEq, Eq)]
pub struct Count {
    /// The digits to the base two to the power of thirty-two, the least one first. The last one is
    /// not zero.
    digits: Vec<u32>,
}

/// What a digit counts that has `k` digits below it.
pub open spec fn weight(k: nat) -> nat
    decreases k,
{
    if k == 0 {
        1
    } else {
        weight((k - 1) as nat) * BASE as nat
    }
}

/// The number with the digits `digits`, the least one first.
pub open spec fn number(digits: Seq<u32>) -> nat
    decreases digits.len(),
{
    if digits.len() == 0 {
        0
    } else {
        number(digits.drop_last()) + digits.last() as nat * weight((digits.len() - 1) as nat)
    }
}

impl View for Count {
    type V = nat;

    closed spec fn view(&self) -> nat {
        number(self.digits@)
    }
}

/// A digit counts something.
proof fn lemma_weight(k: nat)
    ensures
        weight(k) > 0,
    decreases k,
{
    if k > 0 {
        lemma_weight((k - 1) as nat);
        let w = weight((k - 1) as nat);
        assert(w * BASE as nat > 0) by (nonlinear_arith)
            requires
                w > 0,
        ;
    }
}

/// A number is below what the next digit counts.
proof fn lemma_number(digits: Seq<u32>)
    ensures
        number(digits) < weight(digits.len()),
    decreases digits.len(),
{
    if digits.len() > 0 {
        lemma_number(digits.drop_last());
        let w = weight((digits.len() - 1) as nat);
        let d = digits.last() as nat;
        let b = BASE as nat;
        assert(d * w + w <= w * b) by (nonlinear_arith)
            requires
                d + 1 <= b,
        ;
    }
}

/// One more digit.
proof fn lemma_digit(digits: Seq<u32>, k: int)
    requires
        0 <= k < digits.len(),
    ensures
        number(digits.take(k + 1)) == number(digits.take(k)) + digits[k] as nat * weight(k as nat),
{
    assert(digits.take(k + 1).drop_last() =~= digits.take(k));
}

/// More digits count more.
proof fn lemma_weight_grows(j: nat, k: nat)
    requires
        j <= k,
    ensures
        weight(j) <= weight(k),
    decreases k,
{
    if j < k {
        lemma_weight_grows(j, (k - 1) as nat);
        let w = weight((k - 1) as nat);
        let b = BASE as nat;
        assert(w <= w * b) by (nonlinear_arith)
            requires
                b >= 1,
        ;
    }
}

/// A number whose first digit is not zero is at least what that digit counts.
proof fn lemma_number_least(digits: Seq<u32>)
    requires
        digits.len() > 0,
        digits.last() != 0,
    ensures
        number(digits) >= weight((digits.len() - 1) as nat),
{
    let w = weight((digits.len() - 1) as nat);
    let d = digits.last() as nat;
    assert(d * w >= w) by (nonlinear_arith)
        requires
            d >= 1,
    ;
}

impl Count {
    #[verifier::type_invariant]
    spec fn trimmed(self) -> bool {
        self.digits.len() > 0 ==> self.digits@.last() != 0
    }

    /// Zero.
    pub fn zero() -> (count: Self)
        ensures
            count@ == 0,
    {
        Count { digits: Vec::new() }
    }

    /// One.
    pub fn one() -> (count: Self)
        ensures
            count@ == 1,
    {
        let mut digits: Vec<u32> = Vec::new();
        digits.push(1);
        proof {
            reveal_with_fuel(number, 2);
            reveal_with_fuel(weight, 2);
        }
        Count { digits }
    }

    /// Whether this is zero.
    pub fn is_zero(&self) -> (b: bool)
        ensures
            b == (self@ == 0),
    {
        proof {
            use_type_invariant(self);
            if self.digits.len() > 0 {
                lemma_number_least(self.digits@);
                lemma_weight((self.digits.len() - 1) as nat);
            }
        }
        self.digits.len() == 0
    }

    /// The digits to the base two to the power of thirty-two, the least one first.
    pub fn digits(&self) -> (digits: &Vec<u32>)
        ensures
            number(digits@) == self@,
            digits.len() > 0 ==> digits@.last() != 0,
    {
        proof {
            use_type_invariant(self);
        }
        &self.digits
    }

    /// This number times `n`.
    pub fn times(&self, n: usize) -> (product: Self)
        ensures
            product@ == self@ * n,
    {
        if n == 0 {
            assert(self@ * n == 0) by (nonlinear_arith)
                requires
                    n == 0,
            ;
            return Count::zero();
        }
        proof {
            use_type_invariant(self);
        }
        let ghost a = self.digits@;
        let mut digits: Vec<u32> = Vec::new();
        let mut carry: u128 = 0;
        let mut k: usize = 0;
        assert(a.take(0) =~= Seq::empty());
        assert(0nat * n == 0 && 0nat * weight(0) == 0) by (nonlinear_arith);
        while k < self.digits.len()
            invariant
                k <= self.digits.len(),
                a == self.digits@,
                0 < n <= u64::MAX,
                digits.len() == k,
                carry <= u64::MAX,
                number(digits@) + carry as nat * weight(k as nat) == number(a.take(k as int)) * n,
                k > 0 && a[k - 1] != 0 ==> carry > 0 || digits@.last() != 0,
            decreases self.digits.len() - k,
        {
            let d: u32 = self.digits[k];
            proof {
                lemma_product_fits(d as nat, n as nat, carry as nat);
            }
            let x: u128 = d as u128 * n as u128 + carry;
            let low: u32 = (x % BASE as u128) as u32;
            let ghost before = digits@;
            let ghost old_carry = carry;
            digits.push(low);
            carry = x / BASE as u128;
            proof {
                lemma_digit(a, k as int);
                assert(digits@.drop_last() =~= before);
                lemma_times_step(
                    number(before),
                    number(a.take(k as int)),
                    weight(k as nat),
                    d as nat,
                    n as nat,
                    old_carry as nat,
                    low as nat,
                    carry as nat,
                );
                if d != 0 && carry == 0 {
                    assert(d as nat * n as nat > 0) by (nonlinear_arith)
                        requires
                            d > 0,
                            n > 0,
                    ;
                }
            }
            k = k + 1;
        }
        assert(a.take(k as int) =~= a);
        let ghost whole = number(a) * n;
        while carry > 0
            invariant
                carry <= u64::MAX,
                number(digits@) + carry as nat * weight(digits.len() as nat) == whole,
                carry > 0 || digits.len() == 0 || digits@.last() != 0,
            decreases carry,
        {
            let x: u128 = carry;
            let low: u32 = (x % BASE as u128) as u32;
            let ghost before = digits@;
            digits.push(low);
            carry = x / BASE as u128;
            proof {
                assert(digits@.drop_last() =~= before);
                let w = weight(before.len());
                let b = BASE as nat;
                let c0 = x as nat;
                let c1 = carry as nat;
                let l = low as nat;
                vstd::arithmetic::div_mod::lemma_fundamental_div_mod(x as int, BASE as int);
                assert(l * w + c1 * (w * b) == c0 * w) by (nonlinear_arith)
                    requires
                        c0 == c1 * b + l,
                ;
            }
        }
        assert(carry as nat * weight(digits.len() as nat) == 0) by (nonlinear_arith)
            requires
                carry == 0,
        ;
        Count { digits }
    }

    /// The sum of this number and `other`.
    pub fn plus(&self, other: &Count) -> (sum: Self)
        ensures
            sum@ == self@ + other@,
    {
        proof {
            use_type_invariant(self);
            use_type_invariant(other);
        }
        if self.digits.len() < other.digits.len() {
            Count::sum(other, self)
        } else {
            Count::sum(self, other)
        }
    }

    /// The sum of `long` and `short`.
    fn sum(long: &Count, short: &Count) -> (sum: Self)
        requires
            long.digits.len() >= short.digits.len(),
        ensures
            sum@ == long@ + short@,
    {
        proof {
            use_type_invariant(long);
            use_type_invariant(short);
        }
        let ghost a = long.digits@;
        let ghost b = short.digits@;
        let mut digits: Vec<u32> = Vec::new();
        let mut carry: u64 = 0;
        let mut k: usize = 0;
        assert(a.take(0) =~= Seq::empty());
        assert(b.take(0) =~= Seq::empty());
        while k < long.digits.len()
            invariant
                k <= long.digits.len(),
                a == long.digits@,
                b == short.digits@,
                digits.len() == k,
                carry <= 1,
                number(digits@) + carry as nat * weight(k as nat) == number(a.take(k as int))
                    + number(b.take(if k < b.len() { k as int } else { b.len() as int })),
                k > 0 && a[k - 1] != 0 ==> carry > 0 || digits@.last() != 0,
            decreases long.digits.len() - k,
        {
            let e: u64 = if k < short.digits.len() {
                short.digits[k] as u64
            } else {
                0
            };
            let x: u64 = long.digits[k] as u64 + e + carry;
            let low: u32 = (x % BASE) as u32;
            let ghost before = digits@;
            let ghost old_carry = carry;
            digits.push(low);
            carry = x / BASE;
            proof {
                assert(digits@.drop_last() =~= before);
                lemma_digit(a, k as int);
                if k < b.len() {
                    lemma_digit(b, k as int);
                } else {
                    assert(e as nat * weight(k as nat) == 0) by (nonlinear_arith)
                        requires
                            e == 0,
                    ;
                }
                let w = weight(k as nat);
                let bb = BASE as nat;
                let c0 = old_carry as nat;
                let c1 = carry as nat;
                let l = low as nat;
                let p = a[k as int] as nat;
                let q = e as nat;
                assert(l * w + c1 * (w * bb) == p * w + q * w + c0 * w) by (nonlinear_arith)
                    requires
                        p + q + c0 == c1 * bb + l,
                ;
            }
            k = k + 1;
        }
        assert(a.take(k as int) =~= a);
        assert(b.take(b.len() as int) =~= b);
        assert(b.len() == a.len() ==> b.take(k as int) =~= b);
        if carry > 0 {
            let ghost before = digits@;
            digits.push(1);
            assert(digits@.drop_last() =~= before);
        }
        Count { digits }
    }

    /// Whether this number is below `other`.
    pub fn less(&self, other: &Count) -> (b: bool)
        ensures
            b == (self@ < other@),
    {
        proof {
            use_type_invariant(self);
            use_type_invariant(other);
        }
        let ghost a = self.digits@;
        let ghost c = other.digits@;
        if self.digits.len() != other.digits.len() {
            proof {
                lemma_number(a);
                lemma_number(c);
                if a.len() < c.len() {
                    lemma_number_least(c);
                    lemma_weight_grows(a.len(), (c.len() - 1) as nat);
                } else {
                    lemma_number_least(a);
                    lemma_weight_grows(c.len(), (a.len() - 1) as nat);
                }
            }
            return self.digits.len() < other.digits.len();
        }
        let mut k: usize = self.digits.len();
        assert(a.take(k as int) =~= a);
        assert(c.take(k as int) =~= c);
        while k > 0
            invariant
                k <= a.len(),
                a == self.digits@,
                c == other.digits@,
                a.len() == c.len(),
                number(a) < number(c) <==> number(a.take(k as int)) < number(c.take(k as int)),
            decreases k,
        {
            k = k - 1;
            let d: u32 = self.digits[k];
            let e: u32 = other.digits[k];
            proof {
                lemma_digit(a, k as int);
                lemma_digit(c, k as int);
            }
            if d != e {
                proof {
                    lemma_number(a.take(k as int));
                    lemma_number(c.take(k as int));
                    lemma_first_digit(
                        number(a.take(k as int)),
                        number(c.take(k as int)),
                        weight(k as nat),
                        d as nat,
                        e as nat,
                    );
                }
                return d < e;
            }
        }
        assert(a.take(0) =~= c.take(0));
        false
    }
}

impl Clone for Count {
    fn clone(&self) -> (copy: Self)
        ensures
            copy@ == self@,
    {
        proof {
            use_type_invariant(self);
        }
        let digits: Vec<u32> = self.digits.clone();
        assert(digits@ =~= self.digits@);
        Count { digits }
    }
}

/// The first digit in which two numbers differ decides.
proof fn lemma_first_digit(x: nat, y: nat, w: nat, d: nat, e: nat)
    requires
        x < w,
        y < w,
        d != e,
    ensures
        x + d * w < y + e * w <==> d < e,
{
    if d < e {
        assert(d * w + w <= e * w) by (nonlinear_arith)
            requires
                d + 1 <= e,
        ;
    } else {
        assert(e * w + w <= d * w) by (nonlinear_arith)
            requires
                e + 1 <= d,
        ;
    }
}

/// A digit times a factor, and what is carried, with what it carries on.
proof fn lemma_product_fits(d: nat, n: nat, carry: nat)
    requires
        d < BASE,
        n <= u64::MAX,
        carry <= u64::MAX,
    ensures
        d * n + carry <= (BASE - 1) * u64::MAX + u64::MAX,
        (BASE - 1) * u64::MAX + u64::MAX <= u128::MAX,
        (d * n + carry) / BASE as nat <= u64::MAX,
{
    assert(d * n <= (BASE - 1) * u64::MAX) by (nonlinear_arith)
        requires
            d <= BASE - 1,
            n <= u64::MAX,
    ;
}

/// One digit of a product.
proof fn lemma_times_step(
    done: nat,
    part: nat,
    w: nat,
    d: nat,
    n: nat,
    carry: nat,
    low: nat,
    next: nat,
)
    requires
        done + carry * w == part * n,
        d * n + carry == next * BASE as nat + low,
    ensures
        done + low * w + next * (w * BASE as nat) == (part + d * w) * n,
{
    let b = BASE as nat;
    assert(low * w + next * (w * b) == (next * b + low) * w) by (nonlinear_arith);
    assert((d * n + carry) * w == d * w * n + carry * w) by (nonlinear_arith);
    assert((part + d * w) * n == part * n + d * w * n) by (nonlinear_arith);
}

} // verus!
