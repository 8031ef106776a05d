//! Arithmetic facts about powers of four and the lowest set bit of cell
//! ids.
use vstd::prelude::*;
use vstd::arithmetic::div_mod::*;
use vstd::arithmetic::mul::*;
use vstd::arithmetic::power2::*;
use vstd::bits::*;
use vstd::std_specs::bits::{u64_trailing_zeros, axiom_u64_trailing_zeros};
use crate::cell_id::{K_WRAP_OFFSET, S2CellId, lsb_at, pow4, zero_pairs};

verus! {

pub proof fn lemma_pow4_pos(k: nat)
    ensures
        pow4(k) >= 1,
    decreases k,
{
    if k > 0 {
        lemma_pow4_pos((k - 1) as nat);
    }
}


pub proof fn lemma_pow4_adds(a: nat, b: nat)
    ensures
        pow4(a + b) == pow4(a) * pow4(b),
    decreases a,
{
    if a > 0 {
        let a1 = (a - 1) as nat;
        lemma_pow4_adds(a1, b);
        assert(pow4(a1 + b + 1) == 4 * pow4(a1 + b));
        assert(a + b == a1 + b + 1);
        assert(pow4(a) == 4 * pow4(a1));
        lemma_mul_is_associative(4, pow4(a1) as int, pow4(b) as int);
        assert(pow4(a + b) == pow4(a) * pow4(b));
    } else {
        assert(pow4(a) == 1);
        assert(a + b == b);
        assert(pow4(a + b) == pow4(b));
    }
}

/// Four to the 30th is two to the 60th.
pub proof fn lemma_pow4_30()
    ensures
        pow4(30) == 0x1000_0000_0000_0000,
{
    reveal_with_fuel(pow4, 31);
}

/// A power of four at level `level` divides the wrap offset.
pub proof fn lemma_lsb_divides_wrap(level: int)
    requires
        0 <= level <= 30,
    ensures
        lsb_at(level) * (12 * pow4(level as nat)) == K_WRAP_OFFSET,
        lsb_at(level) * pow4(level as nat) == 0x1000_0000_0000_0000,
        pow4(level as nat) >= 1,
        lsb_at(level) <= 0x1000_0000_0000_0000,
        lsb_at(level) >= 1,
{
    lemma_pow4_adds((30 - level) as nat, level as nat);
    lemma_pow4_30();
    lemma_pow4_pos(level as nat);
    lemma_pow4_pos((30 - level) as nat);
    let a = lsb_at(level) as int;
    let b = pow4(level as nat) as int;
    assert(a * b == 0x1000_0000_0000_0000);
    lemma_mul_is_associative(a, 12, b);
    lemma_mul_is_commutative(a, 12);
    lemma_mul_is_associative(12, a, b);
    lemma_mul_inequality(1, b, a);
    lemma_mul_is_commutative(a, b);
}

/// Multiplying by a power of four adds that many zero pairs.
pub proof fn lemma_zero_pairs_of(k: nat, q: nat)
    requires
        q % 4 != 0,
    ensures
        zero_pairs(pow4(k) * q) == k,
        (pow4(k) * q) / pow4(k) == q,
    decreases k,
{
    lemma_pow4_pos(k);
    if k == 0 {
        assert(pow4(0) == 1);
        assert(pow4(0) * q == q);
    } else {
        let m = pow4((k - 1) as nat) * q;
        lemma_zero_pairs_of((k - 1) as nat, q);
        lemma_mul_is_associative(4, pow4((k - 1) as nat) as int, q as int);
        assert(pow4(k) * q == 4 * m);
        lemma_mod_multiples_basic(m as int, 4);
        lemma_div_multiples_vanish(m as int, 4);
        lemma_pow4_pos((k - 1) as nat);
        assert(m > 0) by {
            lemma_mul_strictly_positive(pow4((k - 1) as nat) as int, q as int);
        }
        assert((4 * m) % 4 == 0) by {
            lemma_mul_is_commutative(4, m as int);
        }
        assert((4 * m) / 4 == m) by {
            lemma_mul_is_commutative(4, m as int);
        }
        lemma_div_multiples_vanish(q as int, pow4(k) as int);
        lemma_mul_is_commutative(q as int, pow4(k) as int);
    }
}

/// Every number is a multiple of four to the number of its zero pairs.
pub proof fn lemma_zero_pairs_divides(n: nat)
    ensures
        n % pow4(zero_pairs(n)) == 0,
        n == pow4(zero_pairs(n)) * (n / pow4(zero_pairs(n))),
        n > 0 ==> (n / pow4(zero_pairs(n))) % 4 != 0,
    decreases n,
{
    lemma_pow4_pos(zero_pairs(n));
    if n == 0 || n % 4 != 0 {
        assert(pow4(0) == 1);
    } else {
        let m = n / 4;
        lemma_zero_pairs_divides(m);
        let k = zero_pairs(m);
        let t = m / pow4(k);
        assert(zero_pairs(n) == 1 + k);
        assert(pow4(k + 1) == 4 * pow4(k));
        assert(n == 4 * m);
        lemma_mul_is_associative(4, pow4(k) as int, t as int);
        assert(n == pow4(k + 1) * t);
        lemma_div_multiples_vanish(t as int, pow4(k + 1) as int);
        lemma_mul_is_commutative(t as int, pow4(k + 1) as int);
        lemma_mod_multiples_basic(t as int, pow4(k + 1) as int);
    }
}

/// A valid id is its lowest set bit times an odd number, and its level is
/// in range.
pub proof fn lemma_valid_parts(c: S2CellId)
    requires
        c.valid_spec(),
    ensures
        0 <= c.level_spec() <= 30,
        c.lsb_spec() == lsb_at(c.level_spec()),
        c.id == c.lsb_spec() * (c.id as int / c.lsb_spec()),
        (c.id as int / c.lsb_spec()) % 2 == 1,
        c.id + c.lsb_spec() <= K_WRAP_OFFSET,
        c.lsb_spec() >= 1,
        c.lsb_spec() <= 0x1000_0000_0000_0000,
        c.id >= c.lsb_spec(),
        c.id < K_WRAP_OFFSET,
{
    lemma_zero_pairs_divides(c.id as nat);
    let l = c.level_spec();
    let lsb = c.lsb_spec();
    let q = c.id as int / lsb;
    lemma_lsb_divides_wrap(l);
    let m = 12 * pow4(l as nat) as int;
    assert(lsb * q < lsb * m);
    lemma_mul_is_commutative(lsb, q);
    lemma_mul_is_commutative(lsb, m);
    lemma_mul_strict_inequality_converse(q, m, lsb);
    lemma_mul_inequality(q + 1, m, lsb);
    lemma_mul_is_distributive_add_other_way(lsb, q, 1);
    lemma_mul_is_commutative(q + 1, lsb);
    lemma_mul_is_commutative(m, lsb);
    lemma_mul_inequality(1, q, lsb);
}

/// An odd multiple of the lowest bit of `level` below the wrap offset is a
/// valid id at that level.
pub proof fn lemma_parts_valid(level: int, q: int)
    requires
        0 <= level <= 30,
        q >= 0,
        q % 2 == 1,
        lsb_at(level) * q < K_WRAP_OFFSET,
    ensures
        ({
            let c = S2CellId { id: (lsb_at(level) * q) as u64 };
            &&& c.valid_spec()
            &&& c.level_spec() == level
            &&& c.lsb_spec() == lsb_at(level)
        }),
{
    lemma_zero_pairs_of((30 - level) as nat, q as nat);
    lemma_pow4_pos((30 - level) as nat);
    lemma_mul_nonnegative(lsb_at(level) as int, q);
}


/// Rounding `id` down to a multiple of `2 * nl` at level `level` and adding
/// `nl` gives a valid id at that level.
pub proof fn lemma_round_to_level(id: int, level: int)
    requires
        0 <= level <= 30,
        0 <= id < K_WRAP_OFFSET,
    ensures
        ({
            let nl = lsb_at(level) as int;
            let r = id - id % (2 * nl) + nl;
            &&& r == nl * (2 * (id / (2 * nl)) + 1)
            &&& r < K_WRAP_OFFSET
            &&& 0 < r
        }),
{
    let nl = lsb_at(level) as int;
    lemma_lsb_divides_wrap(level);
    let m = 6 * pow4(level as nat) as int;
    let t = id / (2 * nl);
    lemma_fundamental_div_mod(id, 2 * nl);
    assert(2 * nl * m == K_WRAP_OFFSET) by {
        lemma_mul_is_associative(nl, 12, pow4(level as nat) as int);
        lemma_mul_is_associative(nl, 2, m);
        lemma_mul_is_associative(2, 6, pow4(level as nat) as int);
        lemma_mul_is_commutative(2, nl);
    }
    lemma_mod_pos_bound(id, 2 * nl);
    assert((2 * nl) * t <= id);
    assert((2 * nl) * t < (2 * nl) * m);
    lemma_mul_is_commutative(2 * nl, t);
    lemma_mul_is_commutative(2 * nl, m);
    lemma_mul_strict_inequality_converse(t, m, 2 * nl);
    lemma_mul_inequality(t + 1, m, 2 * nl);
    lemma_mul_is_distributive_add_other_way(2 * nl, t, 1);
    assert(nl * (2 * t + 1) == (2 * nl) * t + nl) by {
        lemma_mul_is_distributive_add(nl, 2 * t, 1);
        lemma_mul_is_associative(nl, 2, t);
        lemma_mul_is_commutative(nl, 2);
    }
    lemma_div_pos_is_pos(id, 2 * nl);
}

/// Four to the `k` is two to the `2k`.
pub proof fn lemma_pow4_is_pow2(k: nat)
    ensures
        pow4(k) == pow2(2 * k),
    decreases k,
{
    if k == 0 {
        lemma2_to64();
    } else {
        lemma_pow4_is_pow2((k - 1) as nat);
        lemma_pow2_unfold(2 * k);
        lemma_pow2_unfold((2 * k - 1) as nat);
    }
}

/// Each level's lowest bit is four times the next level's.
pub proof fn lemma_lsb_step(level: int)
    requires
        0 <= level < 30,
    ensures
        lsb_at(level) == 4 * lsb_at(level + 1),
{
    assert(pow4((30 - level) as nat) == 4 * pow4((30 - level - 1) as nat));
}

/// When the bits of `x` below `j` are all zero, `x` is a multiple of two
/// to the `j`.
pub proof fn lemma_low_bits_zero(x: int, j: nat)
    requires
        x >= 0,
        forall|i: nat| i < j ==> #[trigger] ((x / pow2(i) as int) % 2) == 0,
    ensures
        x % pow2(j) as int == 0,
    decreases j,
{
    if j == 0 {
        lemma2_to64();
    } else {
        let j1 = (j - 1) as nat;
        lemma_low_bits_zero(x, j1);
        lemma_pow2_pos(j1);
        lemma_pow2_unfold(j);
        lemma_mod_breakdown(x, pow2(j1) as int, 2);
        assert((x / pow2(j1) as int) % 2 == 0);
        lemma_mul_is_commutative(pow2(j1) as int, 2);
    }
}

/// The number of trailing zero bit pairs is half the number of trailing
/// zero bits.
pub proof fn lemma_trailing_zeros_pairs(id: u64)
    requires
        id != 0,
    ensures
        zero_pairs(id as nat) == u64_trailing_zeros(id) / 2,
        u64_trailing_zeros(id) < 64,
{
    axiom_u64_trailing_zeros(id);
    let t = u64_trailing_zeros(id);
    assert forall|i: nat| i < t implies #[trigger] ((id as int / pow2(i) as int) % 2) == 0 by {
        let ii = i as u64;
        assert((id >> ii) & 1u64 == 0u64);
        lemma_u64_shr_is_div(id, ii);
        let sh = id >> ii;
        assert(sh & 1u64 == sh % 2) by (bit_vector);
    }
    lemma_low_bits_zero(id as int, t as nat);
    let tt = t as u64;
    lemma_u64_shr_is_div(id, tt);
    let sh = id >> tt;
    assert(sh & 1u64 == sh % 2) by (bit_vector);
    let m = id as int / pow2(t as nat) as int;
    assert(m % 2 == 1);
    lemma_pow2_pos(t as nat);
    lemma_fundamental_div_mod(id as int, pow2(t as nat) as int);
    let k = (t / 2) as nat;
    let r = (t % 2) as nat;
    lemma_pow2_adds(2 * k, r);
    lemma_pow4_is_pow2(k);
    assert(2 * k + r == t as nat);
    let q = pow2(r) as int * m;
    if r == 0 {
        lemma2_to64();
        assert(q == m);
    } else {
        lemma2_to64();
        assert(q == 2 * m);
    }
    assert(id == pow4(k) * q) by {
        lemma_mul_is_associative(pow4(k) as int, pow2(r) as int, m);
    }
    lemma_zero_pairs_of(k, q as nat);
}

} // verus!
