//! The probe sequence of the LZW encoder's hash table of 5003 slots.
//!
//! A key whose first probe lands on slot `h` goes on to the slot
//! `(i + h) % 5003` from slot `i` when `h != 0`, and to `(i + 5002) % 5003`
//! when `h == 0`. Since 5003 is prime, the first 5003 probes of a key visit
//! every slot once, so a table that has a free slot always gives one.

use vstd::prelude::*;
use vstd::arithmetic::div_mod::{
    lemma_mod_bound, lemma_fundamental_div_mod, lemma_mod_multiples_basic, lemma_small_mod,
    lemma_add_mod_noop, lemma_mod_add_multiples_vanish, lemma_mul_mod_noop_general,
};
use vstd::arithmetic::mul::{lemma_mul_is_associative, lemma_mul_is_distributive_add, lemma_mul_is_commutative};
use vstd::set_lib::lemma_len_subset;

verus! {

/// The slot that follows slot `i` in the probe sequence of a key whose first
/// probe is slot `h`.
pub open spec fn next_probe(h: int, i: int) -> int {
    let disp = if h == 0 { 1 } else { 5003 - h };
    (i + 5003 - disp) % 5003
}

/// The slot of the `m`-th probe of a key whose first probe is slot `h`.
pub open spec fn probe(h: int, m: nat) -> int
    decreases m,
{
    if m == 0 {
        h
    } else {
        next_probe(h, probe(h, (m - 1) as nat))
    }
}

/// Every probe is a slot of the table.
pub proof fn lemma_probe_range(h: int, m: nat)
    requires
        0 <= h < 5003,
    ensures
        0 <= probe(h, m) < 5003,
{
    if m > 0 {
        lemma_mod_bound(probe(h, (m - 1) as nat) + 5003 - (if h == 0 { 1int } else { 5003 - h }), 5003);
    }
}

/// The probes in closed form.
pub proof fn lemma_probe_closed(h: int, m: nat)
    requires
        0 <= h < 5003,
    ensures
        h != 0 ==> probe(h, m) == ((m + 1) * h) % 5003,
        h == 0 && m < 5003 ==> probe(h, m) == (if m == 0 { 0 } else { 5003 - m }),
    decreases m,
{
    if m == 0 {
        if h != 0 {
            lemma_small_mod(h as nat, 5003);
            assert((m + 1) * h == h) by (nonlinear_arith)
                requires
                    m == 0,
            ;
        }
    } else {
        let m1 = (m - 1) as nat;
        lemma_probe_closed(h, m1);
        if h != 0 {
            let prev = probe(h, m1);
            assert(prev == (m * h) % 5003);
            assert(probe(h, m) == (prev + h) % 5003);
            lemma_small_mod(h as nat, 5003);
            lemma_add_mod_noop(m * h, h, 5003);
            assert(((m * h) % 5003 + h % 5003) % 5003 == (m * h + h) % 5003);
            assert(m * h + h == (m + 1) * h) by (nonlinear_arith);
        } else if m < 5003 {
            if m1 == 0 {
                lemma_small_mod(5002, 5003);
            } else {
                lemma_mod_add_multiples_vanish(5002 - m1, 5003);
                lemma_small_mod((5002 - m1) as nat, 5003);
            }
        }
    }
}

/// Bezout coefficients for `a` and `b`: `(g, x, y)` with `a * x + b * y == g`,
/// where `g` divides both.
pub open spec fn bezout(a: int, b: int) -> (int, int, int)
    decreases b,
    when b >= 0
{
    if b <= 0 {
        (a, 1, 0)
    } else {
        let (g, x, y) = bezout(b, a % b);
        (g, y, x - (a / b) * y)
    }
}

pub proof fn lemma_bezout(a: int, b: int)
    requires
        a >= 0,
        b >= 0,
    ensures
        ({
            let (g, x, y) = bezout(a, b);
            &&& a * x + b * y == g
            &&& g >= 0
            &&& (g == 0 ==> a == 0 && b == 0)
            &&& (g > 0 ==> a % g == 0 && b % g == 0)
        }),
    decreases b,
{
    if b > 0 {
        lemma_mod_bound(a, b);
        lemma_bezout(b, a % b);
        let (g, x, y) = bezout(b, a % b);
        lemma_fundamental_div_mod(a, b);
        let q = a / b;
        let r = a % b;
        assert(a * y + b * (x - q * y) == b * x + r * y) by (nonlinear_arith)
            requires
                a == b * q + r,
        ;
        if g > 0 {
            lemma_fundamental_div_mod(b, g);
            lemma_fundamental_div_mod(r, g);
            let k = (b / g) * q + r / g;
            assert(a == k * g) by (nonlinear_arith)
                requires
                    a == b * q + r,
                    b == g * (b / g),
                    r == g * (r / g),
                    k == (b / g) * q + r / g,
            ;
            lemma_mod_multiples_basic(k, g);
        }
    }
}

/// The remainder of 5003 divided by `v`.
spec fn rem_of_table_size(v: u16) -> u16 {
    5003u16 % v
}

/// 5003 has no divisor between 2 and 5002.
pub proof fn lemma_table_size_prime(d: int)
    requires
        2 <= d < 5003,
    ensures
        5003int % d != 0,
{
    assert(forall|v: u16| 2 <= v <= 70 ==> #[trigger] rem_of_table_size(v) != 0) by (bit_vector);
    if 5003int % d == 0 {
        lemma_fundamental_div_mod(5003, d);
        let e = 5003int / d;
        assert(d * e == 5003);
        assert(2 <= e < 5003) by (nonlinear_arith)
            requires
                d * e == 5003,
                2 <= d < 5003,
        ;
        lemma_mul_is_commutative(d, e);
        lemma_mod_multiples_basic(d, e);
        lemma_mod_multiples_basic(e, d);
        assert(d <= 70 || e <= 70) by (nonlinear_arith)
            requires
                d * e == 5003,
                d > 0,
                e > 0,
        ;
        if d <= 70 {
            assert(rem_of_table_size(d as u16) != 0);
        } else {
            assert(rem_of_table_size(e as u16) != 0);
        }
    }
}

/// A slot number other than 0 has an inverse modulo 5003.
pub proof fn lemma_inverse(h: int)
    requires
        0 < h < 5003,
    ensures
        exists|x: int| #[trigger] ((h * x) % 5003) == 1,
{
    lemma_bezout(h, 5003);
    let (g, x, y) = bezout(h, 5003);
    assert(g > 0);
    assert(g <= h) by (nonlinear_arith)
        requires
            g > 0,
            h > 0,
            h % g == 0,
    ;
    assert(5003int % g == 0);
    if g >= 2 {
        lemma_table_size_prime(g);
    }
    assert(g == 1);
    assert(h * x == 1 + 5003 * (-y));
    lemma_mod_multiples_basic(-y, 5003);
    lemma_add_mod_noop(1, 5003 * (-y), 5003);
    lemma_mul_is_commutative(5003, -y);
    lemma_small_mod(1, 5003);
    assert((h * x) % 5003 == 1);
}

/// Two different probes among the first 5003 of a key land on different slots.
pub proof fn lemma_probes_distinct(h: int, m1: nat, m2: nat)
    requires
        0 <= h < 5003,
        m1 < m2 < 5003,
    ensures
        probe(h, m1) != probe(h, m2),
{
    lemma_probe_closed(h, m1);
    lemma_probe_closed(h, m2);
    if h != 0 && probe(h, m1) == probe(h, m2) {
        let d = m2 - m1;
        let r1 = ((m1 + 1) * h) % 5003;
        let t = (d * h) % 5003;
        lemma_mod_bound((m1 + 1) * h, 5003);
        lemma_mod_bound(d * h, 5003);
        assert((m2 + 1) * h == (m1 + 1) * h + d * h) by (nonlinear_arith)
            requires
                d == m2 - m1,
        ;
        lemma_add_mod_noop((m1 + 1) * h, d * h, 5003);
        assert((r1 + t) % 5003 == r1);
        if r1 + t < 5003 {
            lemma_small_mod((r1 + t) as nat, 5003);
        } else {
            lemma_mod_add_multiples_vanish(r1 + t - 5003, 5003);
            lemma_small_mod((r1 + t - 5003) as nat, 5003);
        }
        assert(t == 0);
        lemma_inverse(h);
        let x = choose|x: int| #[trigger] ((h * x) % 5003) == 1;
        lemma_mul_is_associative(d, h, x);
        lemma_mul_mod_noop_general(d * h, x, 5003);
        lemma_mul_mod_noop_general(d, h * x, 5003);
        lemma_small_mod(d as nat, 5003);
        assert((d * (h * x)) % 5003 == 0);
        assert((h * x) % 5003 == 1);
        let one = (h * x) % 5003;
        assert(d * one == d) by (nonlinear_arith)
            requires
                one == 1,
        ;
        assert((d * (h * x)) % 5003 == d);
    }
}

/// When the first `m + 1` probes of a key all land in `occupied`, that set
/// has at least `m + 1` slots: a table with fewer taken slots always leaves a
/// free one on the way.
pub proof fn lemma_probes_need_room(h: int, m: nat, occupied: Set<int>)
    requires
        0 <= h < 5003,
        m < 5003,
        occupied.finite(),
        forall|j: nat| j <= m ==> occupied.contains(#[trigger] probe(h, j)),
    ensures
        m + 1 <= occupied.len(),
{
    let visited = Seq::new(m + 1, |j: int| probe(h, j as nat));
    assert forall|a: int, b: int| 0 <= a < visited.len() && 0 <= b < visited.len() && a != b
        implies visited[a] != visited[b] by {
        if a < b {
            lemma_probes_distinct(h, a as nat, b as nat);
        } else {
            lemma_probes_distinct(h, b as nat, a as nat);
        }
    }
    assert(visited.no_duplicates());
    visited.unique_seq_to_set();
    assert forall|x: int| visited.to_set().contains(x) implies occupied.contains(x) by {
        let j = choose|j: int| 0 <= j < visited.len() && visited[j] == x;
        assert(occupied.contains(probe(h, j as nat)));
    }
    lemma_len_subset(visited.to_set(), occupied);
}

} // verus!
