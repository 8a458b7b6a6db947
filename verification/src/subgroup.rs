//! Just intonation subgroups: the primes an interval vector counts.

use vstd::prelude::*;
use vstd::arithmetic::div_mod::lemma_fundamental_div_mod;
use vstd::arithmetic::div_mod::lemma_div_decreases;
use vstd::string::StringSliceAdditionalSpecFns;

use crate::error::Error;
use crate::vector::ints;

verus! {

/// Whether `n` is a prime.
pub open spec fn is_prime(n: int) -> bool {
    n >= 2 && forall|d: int| 2 <= d < n ==> #[trigger] (n % d) != 0
}

/// Whether `basis` is the basis of a subgroup this library notates: the octave
/// `2`, the fifth's `3`, then further primes in increasing order.
pub open spec fn valid_basis(basis: Seq<u32>) -> bool {
    &&& basis.len() >= 2
    &&& basis[0] == 2
    &&& basis[1] == 3
    &&& forall|i: int, j: int| 0 <= i < j < basis.len() ==> basis[i] < basis[j]
    &&& forall|i: int| 0 <= i < basis.len() ==> is_prime(#[trigger] basis[i] as int)
}

/// `b` to the power `e`.
pub open spec fn power(b: int, e: nat) -> int
    decreases e,
{
    if e == 0 {
        1
    } else {
        b * power(b, (e - 1) as nat)
    }
}

/// The product of `basis[i]` to the power `max(v[i], 0)` over the first `k`
/// coordinates: the numerator of the interval's ratio.
pub open spec fn up_part(v: Seq<int>, basis: Seq<u32>, k: int) -> int
    decreases k,
{
    if k <= 0 {
        1
    } else {
        up_part(v, basis, k - 1) * power(basis[k - 1] as int, if v[k - 1] > 0 { v[k - 1] as nat } else { 0 })
    }
}

/// The product of `basis[i]` to the power `max(-v[i], 0)` over the first `k`
/// coordinates: the denominator of the interval's ratio.
pub open spec fn down_part(v: Seq<int>, basis: Seq<u32>, k: int) -> int
    decreases k,
{
    if k <= 0 {
        1
    } else {
        down_part(v, basis, k - 1) * power(basis[k - 1] as int, if v[k - 1] < 0 { (-v[k - 1]) as nat } else { 0 })
    }
}

/// The numerator of the ratio an interval vector stands for.
pub open spec fn numerator(v: Seq<int>, basis: Seq<u32>) -> int {
    up_part(v, basis, v.len() as int)
}

/// The denominator of the ratio an interval vector stands for.
pub open spec fn denominator(v: Seq<int>, basis: Seq<u32>) -> int {
    down_part(v, basis, v.len() as int)
}

/// `n` with every factor `p` divided out.
pub open spec fn strip_prime(n: nat, p: nat) -> nat
    decreases n,
{
    if p >= 2 && n > 0 && n % p == 0 {
        proof {
            lemma_div_decreases(n as int, p as int);
        }
        strip_prime(n / p, p)
    } else {
        n
    }
}

/// How many times `p` divides `n`.
pub open spec fn multiplicity(n: nat, p: nat) -> nat
    decreases n,
{
    if p >= 2 && n > 0 && n % p == 0 {
        proof {
            lemma_div_decreases(n as int, p as int);
        }
        multiplicity(n / p, p) + 1
    } else {
        0
    }
}

/// `n` with every factor of the first `k` primes of `basis` divided out.
pub open spec fn strip_all(n: nat, basis: Seq<u32>, k: int) -> nat
    decreases k,
{
    if k <= 0 {
        n
    } else {
        strip_prime(strip_all(n, basis, k - 1), basis[k - 1] as nat)
    }
}

/// The exponent of `basis[i]` in `num / den`.
pub open spec fn exponent(num: nat, den: nat, basis: Seq<u32>, i: int) -> int {
    multiplicity(strip_all(num, basis, i), basis[i] as nat) as int
        - multiplicity(strip_all(den, basis, i), basis[i] as nat) as int
}

/// The ASCII digits and the dot.
pub open spec fn is_digit(b: u8) -> bool {
    48 <= b <= 57
}

/// The `.`-separated fields of `s`.
pub open spec fn fields(s: Seq<u8>) -> Seq<Seq<u8>>
    decreases s.len(),
{
    if s.len() == 0 {
        seq![Seq::<u8>::empty()]
    } else {
        let f = fields(s.drop_last());
        if s.last() == 46 {
            f.push(Seq::<u8>::empty())
        } else {
            f.update(f.len() - 1, f.last().push(s.last()))
        }
    }
}

/// The value of a string of decimal digits.
pub open spec fn decimal(s: Seq<u8>) -> int
    decreases s.len(),
{
    if s.len() == 0 {
        0
    } else {
        decimal(s.drop_last()) * 10 + (s.last() - 48)
    }
}

/// Whether a field is a decimal number that fits in a `u32`.
pub open spec fn good_field(f: Seq<u8>) -> bool {
    &&& f.len() > 0
    &&& forall|i: int| 0 <= i < f.len() ==> is_digit(#[trigger] f[i])
    &&& decimal(f) <= u32::MAX
}

/// Whether the first `n` fields are good.
pub open spec fn all_good(fs: Seq<Seq<u8>>, n: int) -> bool {
    forall|i: int| 0 <= i < n ==> good_field(#[trigger] fs[i])
}

/// Whether the first `n` bytes of `f` are digits.
pub open spec fn all_digits(f: Seq<u8>, n: int) -> bool {
    forall|i: int| 0 <= i < n ==> is_digit(#[trigger] f[i])
}

/// A just intonation subgroup: the primes an interval vector counts, in
/// order. The first two are always `2` and `3`, the octave and the fifth that
/// every notation is built on.
#[derive(Debug, PartialEq, Eq)]
pub struct Subgroup {
    basis: Vec<u32>,
}

impl Clone for Subgroup {
    fn clone(&self) -> (c: Self)
        ensures
            c@ == self@,
    {
        proof {
            use_type_invariant(self);
        }
        let mut basis: Vec<u32> = Vec::new();
        let mut i: usize = 0;
        while i < self.basis.len()
            invariant
                i <= self.basis.len(),
                basis@ == self.basis@.subrange(0, i as int),
            decreases self.basis.len() - i,
        {
            basis.push(self.basis[i]);
            i = i + 1;
            assert(basis@ =~= self.basis@.subrange(0, i as int));
        }
        assert(basis@ =~= self.basis@);
        Subgroup { basis }
    }
}

impl View for Subgroup {
    type V = Seq<u32>;

    closed spec fn view(&self) -> Seq<u32> {
        self.basis@
    }
}

/// Divides out the factors `p` of `n`, reporting how many there were.
fn divide_out(n: u64, p: u32) -> (r: (u64, u64))
    requires
        p >= 2,
    ensures
        r.0 == strip_prime(n as nat, p as nat),
        r.1 == multiplicity(n as nat, p as nat),
        r.1 <= 64,
{
    let mut m = n;
    let mut count: u64 = 0;
    while m > 0 && m % (p as u64) == 0
        invariant
            p >= 2,
            strip_prime(m as nat, p as nat) == strip_prime(n as nat, p as nat),
            multiplicity(m as nat, p as nat) + count == multiplicity(n as nat, p as nat),
            count <= 64,
            m as int * power(2, count as nat) <= n,
            m <= n,
        decreases m,
    {
        proof {
            lemma_fundamental_div_mod(m as int, p as int);
            assert((m / (p as u64)) as int * 2 <= m as int) by (nonlinear_arith)
                requires m as int == p as int * (m / (p as u64)) as int + 0, p >= 2, (m / (p as u64)) >= 0;
            lemma_power_positive(2, count as nat);
            assert((m / (p as u64)) as int * power(2, (count + 1) as nat) <= n) by (nonlinear_arith)
                requires (m / (p as u64)) as int * 2 <= m as int, m as int * power(2, count as nat) <= n,
                    power(2, (count + 1) as nat) == 2 * power(2, count as nat), power(2, count as nat) >= 1,
                    (m / (p as u64)) >= 0;
            if count >= 64 {
                lemma_power_2_64();
                lemma_power_monotone(2, 64, count as nat);
                assert(false) by (nonlinear_arith)
                    requires m as int * power(2, count as nat) <= n, power(2, count as nat) >= 0x1_0000_0000_0000_0000int,
                        m >= 1, n <= u64::MAX;
            }
        }
        m = m / (p as u64);
        count = count + 1;
    }
    (m, count)
}

pub proof fn lemma_power_positive(b: int, e: nat)
    requires
        b >= 1,
    ensures
        power(b, e) >= 1,
    decreases e,
{
    if e > 0 {
        lemma_power_positive(b, (e - 1) as nat);
        assert(b * power(b, (e - 1) as nat) >= 1) by (nonlinear_arith)
            requires b >= 1, power(b, (e - 1) as nat) >= 1;
    }
}

pub proof fn lemma_power_monotone(b: int, e: nat, f: nat)
    requires
        b >= 1,
        e <= f,
    ensures
        power(b, e) <= power(b, f),
    decreases f,
{
    if e < f {
        lemma_power_monotone(b, e, (f - 1) as nat);
        lemma_power_positive(b, (f - 1) as nat);
        assert(power(b, (f - 1) as nat) <= b * power(b, (f - 1) as nat)) by (nonlinear_arith)
            requires b >= 1, power(b, (f - 1) as nat) >= 1;
    }
}

proof fn lemma_power_2_64()
    ensures
        power(2, 64) == 0x1_0000_0000_0000_0000int,
{
    reveal_with_fuel(power, 65);
}

/// Whether `n` is a prime, by trial division up to its square root.
fn is_prime_exec(n: u32) -> (r: bool)
    ensures
        r == is_prime(n as int),
{
    if n < 2 {
        return false;
    }
    let mut d: u64 = 2;
    while d * d <= n as u64
        invariant
            n >= 2,
            2 <= d <= 0x1_0000,
            d * d <= 0x1_0000_0000,
            forall|e: int| 2 <= e < d ==> #[trigger] ((n as int) % e) != 0,
        decreases 0x1_0000 - d,
    {
        if (n as u64) % d == 0 {
            assert((n as int) % (d as int) == 0);
            assert(d < n) by (nonlinear_arith)
                requires d * d <= n as int, d >= 2;
            return false;
        }
        if d == 0x1_0000 {
            assert(d * d > n as u64) by (nonlinear_arith)
                requires d == 0x1_0000, n <= u32::MAX;
        }
        d = d + 1;
        assert(d * d <= 0x1_0000_0000) by (nonlinear_arith)
            requires d <= 0x1_0000;
    }
    proof {
        assert forall|e: int| 2 <= e < n implies #[trigger] ((n as int) % e) != 0 by {
            if (n as int) % e == 0 && e >= d {
                lemma_fundamental_div_mod(n as int, e);
                let q = (n as int) / e;
                assert(q * e == n as int);
                assert(q >= 1 && q < d) by (nonlinear_arith)
                    requires q * e == n as int, e >= d as int, d as int * d as int > n as int, e < n as int, n >= 2, e >= 2;
                assert(q >= 2) by (nonlinear_arith)
                    requires q * e == n as int, e < n as int, q >= 1;
                assert((n as int) % q == 0) by {
                    lemma_fundamental_div_mod(n as int, q);
                    vstd::arithmetic::div_mod::lemma_mod_multiples_basic(e, q);
                    assert(e * q == n as int) by (nonlinear_arith)
                        requires q * e == n as int;
                }
            }
        }
    }
    true
}

impl Subgroup {
    /// The subgroup with the given basis.
    ///
    /// # Errors
    /// Returns [`Error::InvalidSubgroup`] unless the basis is `2`, `3`, then
    /// further primes in increasing order.
    pub fn new(basis: Vec<u32>) -> (r: Result<Subgroup, Error>)
        ensures
            r is Ok <==> valid_basis(basis@),
            r matches Ok(g) ==> g@ == basis@,
    {
        if basis.len() < 2 || basis[0] != 2 || basis[1] != 3 {
            return Err(Error::InvalidSubgroup);
        }
        let mut i: usize = 0;
        while i < basis.len()
            invariant
                i <= basis.len(),
                basis.len() >= 2,
                basis@[0] == 2,
                basis@[1] == 3,
                forall|a: int, b: int| 0 <= a < b < i ==> basis@[a] < basis@[b],
                forall|a: int| 0 <= a < i ==> is_prime(#[trigger] basis@[a] as int),
            decreases basis.len() - i,
        {
            if !is_prime_exec(basis[i]) {
                return Err(Error::InvalidSubgroup);
            }
            if i > 0 && basis[i - 1] >= basis[i] {
                return Err(Error::InvalidSubgroup);
            }
            proof {
                assert forall|a: int, b: int| 0 <= a < b < i + 1 implies basis@[a] < basis@[b] by {
                    if b == i && a < i - 1 {
                        assert(basis@[a] < basis@[i - 1]);
                    }
                }
            }
            i = i + 1;
        }
        Ok(Subgroup { basis })
    }

    /// The primes up to `limit`.
    pub fn p_limit(limit: u32) -> (g: Subgroup)
        requires
            3 <= limit < u32::MAX,
        ensures
            g@[0] == 2,
            g@[1] == 3,
            forall|i: int| 0 <= i < g@.len() ==> is_prime(#[trigger] g@[i] as int) && g@[i] <= limit,
            forall|i: int, j: int| 0 <= i < j < g@.len() ==> g@[i] < g@[j],
            forall|p: int| is_prime(p) && p <= limit ==> g@.contains(p as u32),
    {
        let mut basis: Vec<u32> = Vec::new();
        let mut n: u32 = 2;
        while n <= limit
            invariant
                2 <= n <= limit + 1,
                limit < u32::MAX,
                forall|i: int| 0 <= i < basis.len() ==> is_prime(#[trigger] basis@[i] as int) && basis@[i] < n,
                forall|i: int, j: int| 0 <= i < j < basis.len() ==> basis@[i] < basis@[j],
                forall|p: int| is_prime(p) && p < n ==> basis@.contains(p as u32),
            decreases limit + 1 - n,
        {
            if is_prime_exec(n) {
                proof {
                    assert forall|p: int| is_prime(p) && p < n + 1 implies (#[trigger] basis@.push(n)).contains(p as u32) by {
                        if p < n {
                            let k = choose|k: int| 0 <= k < basis@.len() && basis@[k] == p as u32;
                            assert(basis@.push(n)[k] == p as u32);
                        } else {
                            assert(basis@.push(n)[basis@.len() as int] == n);
                        }
                    }
                }
                basis.push(n);
            } else {
                proof {
                    assert forall|p: int| is_prime(p) && p < n + 1 implies basis@.contains(p as u32) by {
                        if p == n {
                            assert(false);
                        }
                    }
                }
            }
            n = n + 1;
        }
        proof {
            assert(is_prime(2int)) by {
                assert forall|d: int| 2 <= d < 2 implies #[trigger] (2int % d) != 0 by {}
            }
            assert(is_prime(3int)) by {
                assert forall|d: int| 2 <= d < 3 implies #[trigger] (3int % d) != 0 by {
                    assert(d == 2);
                }
            }
            assert(basis@.contains(2u32));
            assert(basis@.contains(3u32));
            let k2 = choose|k: int| 0 <= k < basis@.len() && basis@[k] == 2u32;
            let k3 = choose|k: int| 0 <= k < basis@.len() && basis@[k] == 3u32;
            if k2 != 0 {
                assert(basis@[0] < basis@[k2]);
                assert(is_prime(basis@[0] as int));
            }
            if k3 != 1 {
                assert(basis@[0] == 2);
                if k3 == 0 {
                    assert(false);
                } else {
                    assert(basis@[1] < basis@[k3]);
                    assert(basis@[0] < basis@[1]);
                    assert(is_prime(basis@[1] as int));
                }
            }
        }
        Subgroup { basis }
    }

    /// Parses a subgroup written as its primes joined by dots, such as
    /// `2.3.7`.
    ///
    /// # Errors
    /// Returns [`Error::InvalidSubgroup`] if a field is not a decimal number
    /// that fits in a `u32`, or if the numbers are not a subgroup basis.
    pub fn parse(text: &str) -> (r: Result<Subgroup, Error>)
        ensures
            r is Ok <==> (forall|i: int| 0 <= i < fields(text.spec_bytes()).len() ==> good_field(#[trigger] fields(text.spec_bytes())[i]))
                && valid_basis(fields(text.spec_bytes()).map_values(|f: Seq<u8>| decimal(f) as u32)),
            r matches Ok(g) ==> g@ == fields(text.spec_bytes()).map_values(|f: Seq<u8>| decimal(f) as u32),
    {
        let bytes = text.as_bytes();
        let ghost s = text.spec_bytes();
        let mut values: Vec<u32> = Vec::new();
        let mut current: u64 = 0;
        let mut digits: usize = 0;
        let mut good: bool = true;
        let mut k: usize = 0;
        let ghost mut fs = fields(Seq::<u8>::empty());
        assert(s.subrange(0, 0) =~= Seq::<u8>::empty());
        while k < bytes.len()
            invariant
                bytes@ == s,
                k <= bytes.len(),
                fs == fields(s.subrange(0, k as int)),
                digits <= k,
                fs.len() == values.len() + 1,
                good == (all_good(fs, values.len() as int) && all_digits(fs.last(), digits as int)),
                forall|i: int| 0 <= i < values.len() && good ==> #[trigger] values@[i] == decimal(fs[i]) as u32,
                digits == fs.last().len(),
                good ==> current == if decimal(fs.last()) <= u32::MAX + 1 {
                    decimal(fs.last())
                } else {
                    u32::MAX + 1
                },
            decreases bytes.len() - k,
        {
            let ghost prefix = s.subrange(0, k as int);
            let ghost next = s.subrange(0, k + 1);
            assert(next.drop_last() =~= prefix);
            let b = bytes[k];
            if b == 46 {
                let ghost f = fields(prefix);
                let ghost n = values.len() as int;
                let ghost all_before = forall|i: int| 0 <= i < n ==> good_field(#[trigger] f[i]);
                let ghost digits_so_far = forall|i: int| 0 <= i < digits ==> is_digit(#[trigger] f.last()[i]);
                let ghost last_good = good_field(f.last());
                assert(good == (all_before && digits_so_far));
                proof {
                    if good {
                        lemma_decimal_nonneg(f.last());
                    }
                    assert(last_good == (digits > 0 && digits_so_far && decimal(f.last()) <= u32::MAX));
                }
                let ok_field = digits > 0 && current <= u32::MAX as u64;
                good = good && ok_field;
                assert(good == (all_before && last_good));
                values.push(current as u32);
                current = 0;
                digits = 0;
                proof {
                    assert(fields(next) == f.push(Seq::<u8>::empty()));
                    assert(fields(next).last() =~= Seq::<u8>::empty());
                    assert(fields(next)[n] == f.last());
                    assert forall|i: int| 0 <= i < n implies #[trigger] fields(next)[i] == f[i] by {}
                    assert((forall|i: int| 0 <= i < n + 1 ==> good_field(#[trigger] fields(next)[i]))
                        == (all_before && last_good)) by {
                        if all_before && last_good {
                            assert forall|i: int| 0 <= i < n + 1 implies good_field(#[trigger] fields(next)[i]) by {
                                if i < n {
                                    assert(fields(next)[i] == f[i]);
                                }
                            }
                        }
                        if !all_before {
                            let i = choose|i: int| 0 <= i < n && !good_field(#[trigger] f[i]);
                            assert(fields(next)[i] == f[i]);
                        }
                    }
                }
                assert(good == (all_good(fields(next), values.len() as int) && all_digits(fields(next).last(), digits as int)));
            } else {
                let ghost d0 = digits;
                let is_d = 48 <= b && b <= 57;
                good = good && is_d;
                if good {
                    let d = (b - 48) as u64;
                    if current <= u32::MAX as u64 {
                        current = current * 10 + d;
                        if current > u32::MAX as u64 + 1 {
                            current = u32::MAX as u64 + 1;
                        }
                    }
                }
                digits = digits + 1;
                proof {
                    let f = fields(prefix);
                    assert(fields(next) == f.update(f.len() - 1, f.last().push(b)));
                    assert(fields(next).last() == f.last().push(b));
                    assert(fields(next).last().drop_last() =~= f.last());
                    if good {
                        lemma_decimal_nonneg(f.last());
                    }
                    assert forall|i: int| 0 <= i < values.len() implies #[trigger] fields(next)[i] == f[i] by {}
                    assert forall|i: int| 0 <= i < d0 implies #[trigger] fields(next).last()[i] == f.last()[i] by {}
                    assert(fields(next).last()[d0 as int] == b);
                    let nv = values.len();
                    assert((forall|i: int| 0 <= i < nv ==> good_field(#[trigger] fields(next)[i]))
                        == (forall|i: int| 0 <= i < nv ==> good_field(#[trigger] f[i]))) by {
                        if forall|i: int| 0 <= i < nv ==> good_field(#[trigger] f[i]) {
                            assert forall|i: int| 0 <= i < nv implies good_field(#[trigger] fields(next)[i]) by {
                                assert(fields(next)[i] == f[i]);
                            }
                        } else {
                            let i = choose|i: int| 0 <= i < nv && !good_field(#[trigger] f[i]);
                            assert(fields(next)[i] == f[i]);
                        }
                    }
                    assert((forall|i: int| 0 <= i < d0 + 1 ==> is_digit(#[trigger] fields(next).last()[i]))
                        == ((forall|i: int| 0 <= i < d0 ==> is_digit(#[trigger] f.last()[i])) && is_digit(b)));
                }
            }
            assert(good == (all_good(fields(next), values.len() as int) && all_digits(fields(next).last(), digits as int)));
            k = k + 1;
            assert(s.subrange(0, k as int) == next);
            proof {
                fs = fields(next);
            }
        }
        assert(s.subrange(0, k as int) =~= s);
        let ok_last = digits > 0 && current <= u32::MAX as u64;
        good = good && ok_last;
        values.push(current as u32);
        proof {
            let f = fields(s);
            if good {
                assert(good_field(f[values.len() - 1]));
                assert(values@ =~= f.map_values(|x: Seq<u8>| decimal(x) as u32));
            }
        }
        if !good {
            return Err(Error::InvalidSubgroup);
        }
        Subgroup::new(values)
    }

    /// The number of primes: the length of the interval vectors over this
    /// subgroup.
    pub fn dim(&self) -> (d: usize)
        ensures
            d == self@.len(),
            valid_basis(self@),
    {
        proof {
            use_type_invariant(self);
        }
        self.basis.len()
    }

    /// The primes, in order.
    pub fn basis(&self) -> (b: &Vec<u32>)
        ensures
            b@ == self@,
            valid_basis(self@),
    {
        proof {
            use_type_invariant(self);
        }
        &self.basis
    }

    #[verifier::type_invariant]
    spec fn inv(self) -> bool {
        valid_basis(self.basis@)
    }
}


/// Multiplies `acc` by `p` `e` times, or reports that the product overflows
/// a `u128`.
fn multiply_power(acc: u128, p: u32, e: u64) -> (r: Option<u128>)
    requires
        p >= 2,
        acc >= 1,
    ensures
        r is Some <==> acc * power(p as int, e as nat) <= u128::MAX,
        r matches Some(x) ==> x == acc * power(p as int, e as nat),
{
    let mut x: u128 = acc;
    let mut j: u64 = 0;
    while j < e
        invariant
            p >= 2,
            acc >= 1,
            j <= e,
            x == acc * power(p as int, j as nat),
        decreases e - j,
    {
        match x.checked_mul(p as u128) {
            Some(y) => {
                proof {
                    assert(acc * power(p as int, (j + 1) as nat) == acc * power(p as int, j as nat) * p) by (nonlinear_arith)
                        requires power(p as int, (j + 1) as nat) == p * power(p as int, j as nat);
                }
                x = y;
                j = j + 1;
            },
            None => {
                proof {
                    lemma_power_monotone(p as int, (j + 1) as nat, e as nat);
                    assert(acc * power(p as int, (j + 1) as nat) == x * p) by (nonlinear_arith)
                        requires power(p as int, (j + 1) as nat) == p * power(p as int, j as nat),
                            x == acc * power(p as int, j as nat);
                    assert(acc * power(p as int, (j + 1) as nat) <= acc * power(p as int, e as nat)) by (nonlinear_arith)
                        requires power(p as int, (j + 1) as nat) <= power(p as int, e as nat), acc >= 1;
                }
                return None;
            },
        }
    }
    Some(x)
}

proof fn lemma_parts_positive(v: Seq<int>, basis: Seq<u32>, k: int)
    requires
        0 <= k <= v.len(),
        k <= basis.len(),
        forall|i: int| 0 <= i < basis.len() ==> #[trigger] basis[i] >= 2,
    ensures
        up_part(v, basis, k) >= 1,
        down_part(v, basis, k) >= 1,
    decreases k,
{
    if k > 0 {
        lemma_parts_positive(v, basis, k - 1);
        let e_up: nat = if v[k - 1] > 0 { v[k - 1] as nat } else { 0 };
        let e_down: nat = if v[k - 1] < 0 { (-v[k - 1]) as nat } else { 0 };
        lemma_power_positive(basis[k - 1] as int, e_up);
        lemma_power_positive(basis[k - 1] as int, e_down);
        assert(up_part(v, basis, k - 1) * power(basis[k - 1] as int, e_up) >= 1) by (nonlinear_arith)
            requires up_part(v, basis, k - 1) >= 1, power(basis[k - 1] as int, e_up) >= 1;
        assert(down_part(v, basis, k - 1) * power(basis[k - 1] as int, e_down) >= 1) by (nonlinear_arith)
            requires down_part(v, basis, k - 1) >= 1, power(basis[k - 1] as int, e_down) >= 1;
    }
}

proof fn lemma_parts_grow(v: Seq<int>, basis: Seq<u32>, j: int, k: int)
    requires
        0 <= j <= k <= v.len(),
        k <= basis.len(),
        forall|i: int| 0 <= i < basis.len() ==> #[trigger] basis[i] >= 2,
    ensures
        up_part(v, basis, j) <= up_part(v, basis, k),
        down_part(v, basis, j) <= down_part(v, basis, k),
    decreases k,
{
    if j < k {
        lemma_parts_grow(v, basis, j, k - 1);
        lemma_parts_positive(v, basis, k - 1);
        let e_up: nat = if v[k - 1] > 0 { v[k - 1] as nat } else { 0 };
        let e_down: nat = if v[k - 1] < 0 { (-v[k - 1]) as nat } else { 0 };
        lemma_power_positive(basis[k - 1] as int, e_up);
        lemma_power_positive(basis[k - 1] as int, e_down);
        assert(up_part(v, basis, k - 1) <= up_part(v, basis, k - 1) * power(basis[k - 1] as int, e_up)) by (nonlinear_arith)
            requires up_part(v, basis, k - 1) >= 1, power(basis[k - 1] as int, e_up) >= 1;
        assert(down_part(v, basis, k - 1) <= down_part(v, basis, k - 1) * power(basis[k - 1] as int, e_down)) by (nonlinear_arith)
            requires down_part(v, basis, k - 1) >= 1, power(basis[k - 1] as int, e_down) >= 1;
    }
}

/// The numerator and denominator of the ratio `v` stands for over `basis`, or
/// `None` where either does not fit in a `u128`.
fn ratio_parts(v: &Vec<i64>, basis: &Vec<u32>) -> (r: Option<(u128, u128)>)
    requires
        v.len() == basis.len(),
        forall|i: int| 0 <= i < basis.len() ==> #[trigger] basis@[i] >= 2,
    ensures
        r is Some <==> numerator(ints(v@), basis@) <= u128::MAX && denominator(ints(v@), basis@) <= u128::MAX,
        r matches Some(x) ==> x.0 == numerator(ints(v@), basis@) && x.1 == denominator(ints(v@), basis@),
{
    let ghost w = ints(v@);
    let mut up: u128 = 1;
    let mut down: u128 = 1;
    let mut i: usize = 0;
    while i < v.len()
        invariant
            v.len() == basis.len(),
            forall|t: int| 0 <= t < basis.len() ==> #[trigger] basis@[t] >= 2,
            w == ints(v@),
            i <= v.len(),
            up == up_part(w, basis@, i as int),
            down == down_part(w, basis@, i as int),
        decreases v.len() - i,
    {
        proof {
            lemma_parts_grow(w, basis@, i + 1, v.len() as int);
            lemma_parts_positive(w, basis@, i as int);
        }
        let e = v[i];
        let p = basis[i];
        assert(w[i as int] == e as int);
        if e > 0 {
            match multiply_power(up, p, e as u64) {
                Some(x) => {
                    up = x;
                },
                None => {
                    return None;
                },
            }
        } else if e < 0 {
            let m = (0 - (e as i128)) as u64;
            assert(m as int == -(e as int));
            match multiply_power(down, p, m) {
                Some(x) => {
                    down = x;
                },
                None => {
                    return None;
                },
            }
        }
        proof {
            assert(power(p as int, 0) == 1);
            let eu: nat = if w[i as int] > 0 { w[i as int] as nat } else { 0 };
            let ed: nat = if w[i as int] < 0 { (-w[i as int]) as nat } else { 0 };
            assert(up_part(w, basis@, i + 1) == up_part(w, basis@, i as int) * power(p as int, eu));
            assert(down_part(w, basis@, i + 1) == down_part(w, basis@, i as int) * power(p as int, ed));
            if e > 0 {
                assert(ed == 0);
                assert(down == down_part(w, basis@, i + 1));
            } else if e < 0 {
                assert(eu == 0);
                assert(ed == -(e as int));
                assert(down == down_part(w, basis@, i + 1));
            } else {
                assert(eu == 0 && ed == 0);
                assert(power(p as int, ed) == 1);
                assert(power(p as int, eu) == 1);
                assert(down_part(w, basis@, i as int) * 1 == down_part(w, basis@, i as int));
                assert(up_part(w, basis@, i as int) * 1 == up_part(w, basis@, i as int));
                assert(down == down_part(w, basis@, i + 1));
            }
        }
        i = i + 1;
    }
    Some((up, down))
}

impl Subgroup {
    /// The ratio `v` stands for, as a numerator and a denominator.
    ///
    /// # Errors
    /// Returns [`Error::InvalidDimensions`] if `v` does not have one entry per
    /// prime, and [`Error::Overflow`] if the numerator or the denominator does
    /// not fit in a `u64`.
    pub fn to_ratio(&self, v: &Vec<i64>) -> (r: Result<(u64, u64), Error>)
        ensures
            v.len() != self@.len() ==> r == Err::<(u64, u64), Error>(Error::InvalidDimensions(
                crate::error::Dimensions::Interval { found: v.len(), expected: self@.len() as usize },
            )),
            v.len() == self@.len() ==> (r is Ok <==> numerator(ints(v@), self@) <= u64::MAX
                && denominator(ints(v@), self@) <= u64::MAX),
            v.len() == self@.len() && r is Err ==> r == Err::<(u64, u64), Error>(Error::Overflow),
            r matches Ok(x) ==> x.0 == numerator(ints(v@), self@) && x.1 == denominator(ints(v@), self@),
    {
        proof {
            use_type_invariant(self);
        }
        if v.len() != self.basis.len() {
            return Err(Error::InvalidDimensions(crate::error::Dimensions::Interval {
                found: v.len(),
                expected: self.basis.len(),
            }));
        }
        proof {
            assert forall|i: int| 0 <= i < self.basis@.len() implies #[trigger] self.basis@[i] >= 2 by {}
        }
        match ratio_parts(v, &self.basis) {
            Some((up, down)) => {
                if up > u64::MAX as u128 || down > u64::MAX as u128 {
                    Err(Error::Overflow)
                } else {
                    Ok((up as u64, down as u64))
                }
            },
            None => Err(Error::Overflow),
        }
    }

    /// Whether the ratio `v` stands for is below unison, compared exactly.
    pub fn is_descending(&self, v: &Vec<i64>) -> (r: bool)
        requires
            v.len() == self@.len(),
        ensures
            r == (numerator(ints(v@), self@) < denominator(ints(v@), self@)),
    {
        crate::natural::descends(v, &self.basis)
    }

    /// Factorizes `num / den` over the subgroup.
    ///
    /// # Errors
    /// Returns [`Error::NotInSubgroup`] if either is zero or has a prime factor
    /// outside the subgroup.
    pub fn factorize(&self, num: u64, den: u64) -> (r: Result<Vec<i64>, Error>)
        ensures
            r is Ok <==> num > 0 && den > 0 && strip_all(num as nat, self@, self@.len() as int) == 1
                && strip_all(den as nat, self@, self@.len() as int) == 1,
            r matches Ok(v) ==> v.len() == self@.len()
                && forall|i: int| 0 <= i < v.len() ==> v@[i] == #[trigger] exponent(num as nat, den as nat, self@, i),
    {
        proof {
            use_type_invariant(self);
        }
        if num == 0 || den == 0 {
            return Err(Error::NotInSubgroup);
        }
        let mut n = num;
        let mut d = den;
        let mut v: Vec<i64> = Vec::new();
        let mut i: usize = 0;
        while i < self.basis.len()
            invariant
                valid_basis(self.basis@),
                i <= self.basis.len(),
                v.len() == i,
                n == strip_all(num as nat, self.basis@, i as int),
                d == strip_all(den as nat, self.basis@, i as int),
                forall|t: int| 0 <= t < i ==> v@[t] == #[trigger] exponent(num as nat, den as nat, self.basis@, t),
            decreases self.basis.len() - i,
        {
            let p = self.basis[i];
            assert(is_prime(self.basis@[i as int] as int));
            let (n2, a) = divide_out(n, p);
            let (d2, b) = divide_out(d, p);
            v.push(a as i64 - b as i64);
            n = n2;
            d = d2;
            i = i + 1;
        }
        if n != 1 || d != 1 {
            return Err(Error::NotInSubgroup);
        }
        Ok(v)
    }
}

proof fn lemma_decimal_nonneg(s: Seq<u8>)
    requires
        forall|i: int| 0 <= i < s.len() ==> is_digit(#[trigger] s[i]),
    ensures
        decimal(s) >= 0,
    decreases s.len(),
{
    if s.len() > 0 {
        lemma_decimal_nonneg(s.drop_last());
    }
}

} // verus!
