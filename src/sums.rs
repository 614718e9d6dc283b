//! Finite sums of rational numbers, and why reordering the terms keeps the sum.
use vstd::prelude::*;
use crate::ratio::{lemma_eqv_chain, lemma_eqv_sym, lemma_eqv_trans, lemma_minus_is_plus_neg, lemma_plus_assoc, lemma_plus_comm, lemma_plus_congr, lemma_swap_middle, lemma_times_distrib, lemma_valid_ops, Frac};
use crate::rebalance::{appears_in, is_permutation};

verus! {

/// `f(0) + f(1) + ... + f(n - 1)`, added up from the first.
pub open spec fn sum_to(f: spec_fn(int) -> Frac, n: nat) -> Frac
    decreases n,
{
    if n == 0 {
        Frac::zero()
    } else {
        sum_to(f, (n - 1) as nat).plus(f(n - 1))
    }
}

pub open spec fn valid_to(f: spec_fn(int) -> Frac, n: nat) -> bool {
    forall|i: int| 0 <= i < n ==> #[trigger] f(i).valid()
}

pub proof fn lemma_sum_valid(f: spec_fn(int) -> Frac, n: nat)
    requires
        valid_to(f, n),
    ensures
        sum_to(f, n).valid(),
    decreases n,
{
    if n > 0 {
        lemma_sum_valid(f, (n - 1) as nat);
        assert(f(n - 1).valid());
        lemma_valid_ops(sum_to(f, (n - 1) as nat), f(n - 1));
    }
}

/// Sums of terms that agree are the same.
pub proof fn lemma_sum_ext(f: spec_fn(int) -> Frac, g: spec_fn(int) -> Frac, n: nat)
    requires
        forall|i: int| 0 <= i < n ==> #[trigger] f(i) == g(i),
    ensures
        sum_to(f, n) == sum_to(g, n),
    decreases n,
{
    if n > 0 {
        lemma_sum_ext(f, g, (n - 1) as nat);
        assert(f(n - 1) == g(n - 1));
    }
}

/// Sums of terms that are the same numbers are the same number.
pub proof fn lemma_sum_congr(f: spec_fn(int) -> Frac, g: spec_fn(int) -> Frac, n: nat)
    requires
        forall|i: int| 0 <= i < n ==> (#[trigger] f(i)).eqv(g(i)),
    ensures
        sum_to(f, n).eqv(sum_to(g, n)),
    decreases n,
{
    if n > 0 {
        lemma_sum_congr(f, g, (n - 1) as nat);
        assert(f(n - 1).eqv(g(n - 1)));
        lemma_plus_congr(sum_to(f, (n - 1) as nat), sum_to(g, (n - 1) as nat), f(n - 1), g(n - 1));
    }
}

pub open spec fn scaled(t: Frac, f: spec_fn(int) -> Frac) -> spec_fn(int) -> Frac {
    |i: int| t.times(f(i))
}

pub open spec fn difference(f: spec_fn(int) -> Frac, g: spec_fn(int) -> Frac) -> spec_fn(int) -> Frac {
    |i: int| f(i).minus(g(i))
}

pub open spec fn permuted(f: spec_fn(int) -> Frac, p: Seq<int>) -> spec_fn(int) -> Frac {
    |k: int| f(p[k])
}

/// A common factor comes out of a sum.
pub proof fn lemma_sum_scale(t: Frac, f: spec_fn(int) -> Frac, n: nat)
    requires
        t.valid(),
        valid_to(f, n),
    ensures
        sum_to(scaled(t, f), n).eqv(t.times(sum_to(f, n))),
    decreases n,
{
    let tf = scaled(t, f);
    if n > 0 {
        let m = (n - 1) as nat;
        lemma_sum_scale(t, f, m);
        lemma_sum_valid(f, m);
        assert(f(n - 1).valid());
        let s = sum_to(f, m);
        assert(tf(n - 1) == t.times(f(n - 1)));
        lemma_plus_congr(sum_to(tf, m), t.times(s), tf(n - 1), tf(n - 1));
        lemma_times_distrib(t, s, f(n - 1));
        lemma_valid_ops(t, s);
        lemma_valid_ops(t, f(n - 1));
        lemma_valid_ops(t.times(s), t.times(f(n - 1)));
        lemma_eqv_sym(t.times(s.plus(f(n - 1))), t.times(s).plus(t.times(f(n - 1))));
        lemma_eqv_trans(sum_to(tf, n), t.times(s).plus(t.times(f(n - 1))), t.times(s.plus(f(n - 1))));
    } else {
        assert(sum_to(tf, 0) == Frac::zero());
        assert(t.num * 0 == 0) by (nonlinear_arith);
        assert(t.times(sum_to(f, 0)).num == 0);
    }
}

/// `(a - b) + (x - y)` is `(a + x) - (b + y)`.
proof fn lemma_minus_pair(a: Frac, b: Frac, x: Frac, y: Frac)
    requires
        a.valid(),
        b.valid(),
        x.valid(),
        y.valid(),
    ensures
        a.minus(b).plus(x.minus(y)).eqv(a.plus(x).minus(b.plus(y))),
{
    lemma_minus_is_plus_neg(a, b);
    lemma_minus_is_plus_neg(x, y);
    lemma_valid_ops(a, b);
    lemma_valid_ops(x, y);
    lemma_valid_ops(b, y);
    lemma_valid_ops(a, x);
    lemma_valid_ops(a, b.neg());
    lemma_valid_ops(x, y.neg());
    lemma_valid_ops(b.neg(), y.neg());
    lemma_plus_congr(a.minus(b), a.plus(b.neg()), x.minus(y), x.plus(y.neg()));
    lemma_swap_middle(a, b.neg(), x, y.neg());
    // -b + -y is -(b + y)
    assert(b.neg().plus(y.neg()).eqv(b.plus(y).neg())) by {
        crate::ratio::lemma_neg_sum(b, y);
    }
    lemma_plus_congr(a.plus(x), a.plus(x), b.neg().plus(y.neg()), b.plus(y).neg());
    lemma_minus_is_plus_neg(a.plus(x), b.plus(y));
    lemma_valid_ops(b.plus(y), b.plus(y));
    lemma_valid_ops(a.plus(x), b.plus(y).neg());
    lemma_valid_ops(a.plus(x), b.neg().plus(y.neg()));
    lemma_valid_ops(a.plus(b.neg()), x.plus(y.neg()));
    lemma_eqv_chain(
        a.minus(b).plus(x.minus(y)),
        a.plus(b.neg()).plus(x.plus(y.neg())),
        a.plus(x).plus(b.neg().plus(y.neg())),
        a.plus(x).plus(b.plus(y).neg()),
    );
    lemma_eqv_sym(a.plus(x).minus(b.plus(y)), a.plus(x).plus(b.plus(y).neg()));
    lemma_eqv_trans(a.minus(b).plus(x.minus(y)), a.plus(x).plus(b.plus(y).neg()), a.plus(x).minus(b.plus(y)));
}

/// A sum of differences is the difference of the sums.
pub proof fn lemma_sum_minus(f: spec_fn(int) -> Frac, g: spec_fn(int) -> Frac, n: nat)
    requires
        valid_to(f, n),
        valid_to(g, n),
    ensures
        sum_to(difference(f, g), n).eqv(sum_to(f, n).minus(sum_to(g, n))),
    decreases n,
{
    let d = difference(f, g);
    if n > 0 {
        let m = (n - 1) as nat;
        lemma_sum_minus(f, g, m);
        lemma_sum_valid(f, m);
        lemma_sum_valid(g, m);
        assert(f(n - 1).valid() && g(n - 1).valid());
        let (a, b, x, y) = (sum_to(f, m), sum_to(g, m), f(n - 1), g(n - 1));
        assert(d(n - 1) == x.minus(y));
        lemma_plus_congr(sum_to(d, m), a.minus(b), d(n - 1), x.minus(y));
        lemma_minus_pair(a, b, x, y);
        lemma_valid_ops(a, b);
        lemma_valid_ops(x, y);
        lemma_valid_ops(a.minus(b), x.minus(y));
        lemma_eqv_trans(sum_to(d, n), a.minus(b).plus(x.minus(y)), a.plus(x).minus(b.plus(y)));
    } else {
        assert(sum_to(d, 0) == Frac::zero());
    }
}

/// The terms of `h` without the one at `m`.
pub open spec fn skip(h: spec_fn(int) -> Frac, m: int) -> spec_fn(int) -> Frac {
    |k: int| if k < m { h(k) } else { h(k + 1) }
}

/// A sum is the sum without one term, plus that term.
pub proof fn lemma_sum_remove(h: spec_fn(int) -> Frac, n: nat, m: int)
    requires
        0 <= m < n,
        valid_to(h, n),
    ensures
        sum_to(h, n).eqv(sum_to(skip(h, m), (n - 1) as nat).plus(h(m))),
    decreases n,
{
    let n1 = (n - 1) as nat;
    if m == n - 1 {
        lemma_sum_ext(h, skip(h, m), n1);
        lemma_sum_valid(h, n);
        crate::ratio::lemma_eqv_refl(sum_to(h, n));
    } else {
        let n2 = (n - 2) as nat;
        lemma_sum_remove(h, n1, m);
        let sk = skip(h, m);
        assert(sk(n - 2) == h(n - 1));
        lemma_sum_valid(h, n1);
        assert forall|i: int| 0 <= i < n2 implies #[trigger] sk(i).valid() by {
            if i < m {
                assert(h(i).valid());
            } else {
                assert(h(i + 1).valid());
            }
        }
        lemma_sum_valid(sk, n2);
        assert(h(m).valid() && h(n - 1).valid());
        let x = sum_to(sk, n2);
        let (y, z) = (h(m), h(n - 1));
        // (x + y) + z ~ x + (y + z) ~ x + (z + y) ~ (x + z) + y
        lemma_plus_congr(sum_to(h, n1), x.plus(y), z, z);
        lemma_plus_assoc(x, y, z);
        lemma_plus_comm(y, z);
        lemma_plus_congr(x, x, y.plus(z), z.plus(y));
        lemma_plus_assoc(x, z, y);
        lemma_valid_ops(x, y);
        lemma_valid_ops(y, z);
        lemma_valid_ops(z, y);
        lemma_valid_ops(x, z);
        lemma_valid_ops(x.plus(y), z);
        lemma_valid_ops(x, y.plus(z));
        lemma_valid_ops(x, z.plus(y));
        lemma_eqv_sym(x.plus(z).plus(y), x.plus(z.plus(y)));
        lemma_eqv_chain(sum_to(h, n), x.plus(y).plus(z), x.plus(y.plus(z)), x.plus(z.plus(y)));
        lemma_eqv_trans(sum_to(h, n), x.plus(z.plus(y)), x.plus(z).plus(y));
        assert(sum_to(sk, n1) == x.plus(z));
    }
}

/// Reordering the terms of a sum keeps its value.
pub proof fn lemma_sum_permute(f: spec_fn(int) -> Frac, p: Seq<int>, n: nat)
    requires
        is_permutation(p, n),
        valid_to(f, n),
    ensures
        sum_to(permuted(f, p), n).eqv(sum_to(f, n)),
    decreases n,
{
    let fp = permuted(f, p);
    if n == 0 {
        assert(sum_to(fp, 0) == Frac::zero());
    } else {
        let n1 = (n - 1) as nat;
        assert(appears_in(p, n - 1));
        let m = choose|k: int| 0 <= k < p.len() && #[trigger] p[k] == n - 1;
        let q = p.remove(m);
        p.remove_ensures(m);
        assert forall|k: int| 0 <= k < n1 implies 0 <= #[trigger] q[k] < n1 by {
            if k < m {
                assert(p[k] != p[m]);
            } else {
                assert(p[k + 1] != p[m]);
            }
        }
        assert forall|k: int, l: int| 0 <= k < l < n1 implies q[k] != q[l] by {
            let k2 = if k < m { k } else { k + 1 };
            let l2 = if l < m { l } else { l + 1 };
            assert(q[k] == p[k2] && q[l] == p[l2]);
        }
        assert forall|i: int| 0 <= i < n1 implies #[trigger] appears_in(q, i) by {
            assert(appears_in(p, i));
            let k0 = choose|k: int| 0 <= k < p.len() && #[trigger] p[k] == i;
            assert(k0 != m);
            if k0 < m {
                assert(q[k0] == i);
            } else {
                assert(q[k0 - 1] == i);
            }
        }
        assert(is_permutation(q, n1));
        assert forall|k: int| 0 <= k < n implies #[trigger] fp(k).valid() by {
            assert(0 <= p[k] < n);
        }
        lemma_sum_remove(fp, n, m);
        let fq = permuted(f, q);
        assert forall|k: int| 0 <= k < n1 implies #[trigger] skip(fp, m)(k) == fq(k) by {
            if k < m {
            } else {
            }
        }
        lemma_sum_ext(skip(fp, m), fq, n1);
        lemma_sum_permute(f, q, n1);
        assert(valid_to(f, n1));
        assert forall|k: int| 0 <= k < n1 implies #[trigger] fq(k).valid() by {
            assert(0 <= q[k] < n1);
        }
        lemma_sum_valid(fq, n1);
        lemma_sum_valid(f, n1);
        assert(fp(m) == f(n - 1));
        assert(f(n - 1).valid());
        lemma_plus_congr(sum_to(fq, n1), sum_to(f, n1), f(n - 1), f(n - 1));
        lemma_valid_ops(sum_to(fq, n1), f(n - 1));
        lemma_eqv_trans(sum_to(fp, n), sum_to(fq, n1).plus(f(n - 1)), sum_to(f, n));
    }
}

} // verus!
