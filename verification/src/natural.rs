//! Natural numbers of any size, as little-endian base-2^32 digits: as much
//! as comparing two products of prime powers exactly takes.

use vstd::prelude::*;

use crate::subgroup::{denominator, down_part, numerator, power, up_part};
use crate::vector::ints;

verus! {

/// The base of a digit.
pub open spec fn digit_base() -> int {
    0x1_0000_0000
}

/// The place value of the digit at `i`.
pub open spec fn place(i: nat) -> int
    decreases i,
{
    if i == 0 {
        1
    } else {
        digit_base() * place((i - 1) as nat)
    }
}

/// The number little-endian digits stand for.
pub open spec fn value(s: Seq<u32>) -> int
    decreases s.len(),
{
    if s.len() == 0 {
        0
    } else {
        value(s.drop_last()) + s.last() * place((s.len() - 1) as nat)
    }
}

proof fn lemma_place_positive(i: nat)
    ensures
        place(i) >= 1,
    decreases i,
{
    if i > 0 {
        lemma_place_positive((i - 1) as nat);
    }
}

/// A number of `n` digits is below the place of the next.
proof fn lemma_value_bounds(s: Seq<u32>)
    ensures
        0 <= value(s) < place(s.len()),
    decreases s.len(),
{
    if s.len() > 0 {
        let n = (s.len() - 1) as nat;
        lemma_value_bounds(s.drop_last());
        lemma_place_positive(n);
        let v = value(s.drop_last());
        let d = s.last() as int;
        let pl = place(n);
        assert(0 <= v + d * pl < digit_base() * pl) by (nonlinear_arith)
            requires
                0 <= v < pl,
                0 <= d < digit_base(),
                pl >= 1,
        ;
    }
}

proof fn lemma_take_last(s: Seq<u32>, k: int)
    requires
        0 <= k < s.len(),
    ensures
        s.take(k + 1).drop_last() == s.take(k),
        s.take(k + 1).last() == s[k],
        value(s.take(k + 1)) == value(s.take(k)) + s[k] * place(k as nat),
{
    assert(s.take(k + 1).drop_last() =~= s.take(k));
}

/// `a * p`.
pub fn mul_small(a: &Vec<u32>, p: u32) -> (r: Vec<u32>)
    ensures
        value(r@) == value(a@) * p,
{
    let mut r: Vec<u32> = Vec::new();
    let mut carry: u64 = 0;
    let mut i: usize = 0;
    proof {
        assert(a@.take(0) =~= Seq::<u32>::empty());
        assert(r@ =~= Seq::<u32>::empty());
    }
    while i < a.len()
        invariant
            i <= a.len(),
            r.len() == i,
            carry < 0x1_0000_0000,
            value(r@) + carry * place(i as nat) == value(a@.take(i as int)) * p,
        decreases a.len() - i,
    {
        proof {
            lemma_take_last(a@, i as int);
        }
        let x = a[i] as u64;
        assert(x * (p as u64) <= 0xFFFF_FFFE_0000_0001) by (nonlinear_arith)
            requires
                x < 0x1_0000_0000,
                p < 0x1_0000_0000,
        ;
        let t: u64 = x * (p as u64) + carry;
        let low: u64 = t % 0x1_0000_0000;
        let high: u64 = t / 0x1_0000_0000;
        let ghost before = r@;
        r.push(low as u32);
        proof {
            assert(r@.drop_last() =~= before);
            let pl = place(i as nat);
            let vr = value(before);
            let va = value(a@.take(i as int));
            assert(value(r@) == vr + (low as int) * pl);
            assert(place((i + 1) as nat) == digit_base() * pl);
            assert(t == low + 0x1_0000_0000 * high);
            assert(vr + (low as int) * pl + (high as int) * (digit_base() * pl) == (va + (x as int) * pl) * (p as int))
                by (nonlinear_arith)
                requires
                    vr + (carry as int) * pl == va * (p as int),
                    (t as int) == (x as int) * (p as int) + (carry as int),
                    (t as int) == (low as int) + digit_base() * (high as int),
            ;
            assert(high < 0x1_0000_0000);
        }
        carry = high;
        i = i + 1;
    }
    let ghost before = r@;
    r.push(carry as u32);
    proof {
        assert(r@.drop_last() =~= before);
        assert(a@.take(a.len() as int) =~= a@);
    }
    r
}

/// Whether `value(a) < value(b)`.
pub fn less(a: &Vec<u32>, b: &Vec<u32>) -> (r: bool)
    ensures
        r == (value(a@) < value(b@)),
{
    let mut x: Vec<u32> = a.clone();
    let mut y: Vec<u32> = b.clone();
    proof {
        assert(x@ =~= a@);
        assert(y@ =~= b@);
    }
    while x.len() < y.len()
        invariant
            value(x@) == value(a@),
            value(y@) == value(b@),
        decreases y.len() - x.len(),
    {
        let ghost before = x@;
        x.push(0);
        proof {
            assert(x@.drop_last() =~= before);
        }
    }
    while y.len() < x.len()
        invariant
            x.len() >= y.len(),
            value(x@) == value(a@),
            value(y@) == value(b@),
        decreases x.len() - y.len(),
    {
        let ghost before = y@;
        y.push(0);
        proof {
            assert(y@.drop_last() =~= before);
        }
    }
    let mut k: usize = x.len();
    proof {
        assert(x@.take(k as int) =~= x@);
        assert(y@.take(k as int) =~= y@);
    }
    while k > 0
        invariant
            x.len() == y.len(),
            k <= x.len(),
            (value(a@) < value(b@)) == (value(x@.take(k as int)) < value(y@.take(k as int))),
        decreases k,
    {
        let i = k - 1;
        proof {
            lemma_take_last(x@, i as int);
            lemma_take_last(y@, i as int);
            lemma_value_bounds(x@.take(i as int));
            lemma_value_bounds(y@.take(i as int));
            lemma_place_positive(i as nat);
        }
        let ghost vx = value(x@.take(i as int));
        let ghost vy = value(y@.take(i as int));
        let ghost pl = place(i as nat);
        if x[i] < y[i] {
            proof {
                let dx = x@[i as int] as int;
                let dy = y@[i as int] as int;
                assert(vx + dx * pl < vy + dy * pl) by (nonlinear_arith)
                    requires
                        0 <= vx < pl,
                        0 <= vy,
                        dx + 1 <= dy,
                ;
            }
            return true;
        }
        if x[i] > y[i] {
            proof {
                let dx = x@[i as int] as int;
                let dy = y@[i as int] as int;
                assert(vy + dy * pl < vx + dx * pl) by (nonlinear_arith)
                    requires
                        0 <= vy < pl,
                        0 <= vx,
                        dy + 1 <= dx,
                ;
            }
            return false;
        }
        k = i;
    }
    proof {
        assert(x@.take(0) =~= Seq::<u32>::empty());
        assert(y@.take(0) =~= Seq::<u32>::empty());
    }
    false
}

/// `a` times `p` to the power `e`.
fn mul_power(a: &Vec<u32>, p: u32, e: u64) -> (r: Vec<u32>)
    ensures
        value(r@) == value(a@) * power(p as int, e as nat),
{
    let mut acc: Vec<u32> = a.clone();
    let mut j: u64 = 0;
    proof {
        assert(acc@ =~= a@);
    }
    while j < e
        invariant
            j <= e,
            value(acc@) == value(a@) * power(p as int, j as nat),
        decreases e - j,
    {
        let next = mul_small(&acc, p);
        proof {
            let va = value(a@);
            let pw = power(p as int, j as nat);
            assert(power(p as int, (j + 1) as nat) == (p as int) * pw);
            assert((va * pw) * (p as int) == va * ((p as int) * pw)) by (nonlinear_arith);
        }
        acc = next;
        j = j + 1;
    }
    acc
}

/// Whether the ratio `v` stands for over `basis` is below unison: whether
/// its numerator is less than its denominator, compared exactly.
pub fn descends(v: &Vec<i64>, basis: &Vec<u32>) -> (r: bool)
    requires
        v.len() == basis.len(),
    ensures
        r == (numerator(ints(v@), basis@) < denominator(ints(v@), basis@)),
{
    let ghost w = ints(v@);
    let mut up: Vec<u32> = Vec::new();
    up.push(1);
    let mut down: Vec<u32> = Vec::new();
    down.push(1);
    proof {
        assert(up@.drop_last() =~= Seq::<u32>::empty());
        assert(down@.drop_last() =~= Seq::<u32>::empty());
        assert(value(Seq::<u32>::empty()) == 0);
        assert(place(0) == 1);
        assert(up@.last() == 1u32);
        assert(down@.last() == 1u32);
        assert(value(up@) == 1);
        assert(value(down@) == 1);
    }
    let mut i: usize = 0;
    while i < v.len()
        invariant
            i <= v.len(),
            v.len() == basis.len(),
            w == ints(v@),
            value(up@) == up_part(w, basis@, i as int),
            value(down@) == down_part(w, basis@, i as int),
        decreases v.len() - i,
    {
        let e = v[i];
        let p = basis[i];
        assert(w[i as int] == e);
        let ghost u0 = value(up@);
        let ghost d0 = value(down@);
        if e > 0 {
            up = mul_power(&up, p, e as u64);
            proof {
                assert(power(p as int, 0) == 1);
                assert(d0 * 1 == d0);
            }
        } else if e < 0 {
            let m: u64 = ((0 - (e + 1)) as u64) + 1;
            assert(m == -e);
            down = mul_power(&down, p, m);
            proof {
                assert(power(p as int, 0) == 1);
                assert(u0 * 1 == u0);
            }
        } else {
            proof {
                assert(power(p as int, 0) == 1);
                assert(u0 * 1 == u0);
                assert(d0 * 1 == d0);
            }
        }
        i = i + 1;
    }
    less(&up, &down)
}

} // verus!
