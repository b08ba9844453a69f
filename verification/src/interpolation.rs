//! Why sharing and dispersal can be undone: a polynomial of degree below
//! `n` is the sum of its values at `n` nodes, each times the basis polynomial
//! of its node.

use crate::gf256::{
    gf_add, gf_inv, gf_mul, lemma_add_associative, lemma_add_cancel, lemma_add_self, lemma_add_zero,
    lemma_mul_associative, lemma_mul_commutative, lemma_mul_distributive, lemma_mul_inverse,
    lemma_mul_nonzero, lemma_mul_zero_one,
};
use vstd::prelude::*;

verus! {

/// The sum of `f(0), .., f(n - 1)`.
pub open spec fn sum(f: spec_fn(int) -> u8, n: int) -> u8
    decreases n,
{
    if n <= 0 {
        0
    } else {
        gf_add(sum(f, n - 1), f(n - 1))
    }
}

/// The product of `t - xs[m]` over the `m` below `n` other than `skip`.
pub open spec fn product_except(xs: Seq<u8>, skip: int, t: u8, n: int) -> u8
    decreases n,
{
    if n <= 0 {
        1
    } else if n - 1 == skip {
        product_except(xs, skip, t, n - 1)
    } else {
        gf_mul(product_except(xs, skip, t, n - 1), gf_add(t, xs[n - 1]))
    }
}

/// The value at `t` of the basis polynomial of node `j`: the product of the
/// `t - xs[m]` over the other nodes, divided by its value at `xs[j]`.
pub open spec fn basis(xs: Seq<u8>, j: int, t: u8) -> u8 {
    gf_mul(
        product_except(xs, j, t, xs.len() as int),
        gf_inv(product_except(xs, j, xs[j], xs.len() as int)),
    )
}

/// The number of factors of `product_except(roots, skip, _, roots.len())`.
pub open spec fn degree(roots: Seq<u8>, skip: int) -> int {
    if 0 <= skip < roots.len() {
        roots.len() - 1
    } else {
        roots.len() as int
    }
}

/// Sums of functions that agree below `n` are equal.
pub proof fn lemma_sum_ext(f: spec_fn(int) -> u8, g: spec_fn(int) -> u8, n: int)
    requires
        forall|j: int| 0 <= j < n ==> #[trigger] f(j) == g(j),
    ensures
        sum(f, n) == sum(g, n),
    decreases n,
{
    if n > 0 {
        lemma_sum_ext(f, g, n - 1);
    }
}

/// The sum of sums is the sum of the sums.
pub proof fn lemma_sum_add(
    f: spec_fn(int) -> u8,
    g: spec_fn(int) -> u8,
    h: spec_fn(int) -> u8,
    n: int,
)
    requires
        forall|j: int| 0 <= j < n ==> #[trigger] h(j) == gf_add(f(j), g(j)),
    ensures
        sum(h, n) == gf_add(sum(f, n), sum(g, n)),
    decreases n,
{
    if n > 0 {
        lemma_sum_add(f, g, h, n - 1);
        lemma_add_four(sum(f, n - 1), sum(g, n - 1), f(n - 1), g(n - 1));
    } else {
        lemma_add_zero(0);
    }
}

/// A factor common to all terms of a sum is a factor of the sum.
pub proof fn lemma_sum_scale(c: u8, f: spec_fn(int) -> u8, h: spec_fn(int) -> u8, n: int)
    requires
        forall|j: int| 0 <= j < n ==> #[trigger] h(j) == gf_mul(c, f(j)),
    ensures
        sum(h, n) == gf_mul(c, sum(f, n)),
    decreases n,
{
    if n > 0 {
        lemma_sum_scale(c, f, h, n - 1);
        lemma_mul_distributive(c, sum(f, n - 1), f(n - 1));
    } else {
        lemma_mul_zero_one(c);
    }
}

/// A sum of zeros is zero.
pub proof fn lemma_sum_zero(f: spec_fn(int) -> u8, n: int)
    requires
        forall|j: int| 0 <= j < n ==> #[trigger] f(j) == 0,
    ensures
        sum(f, n) == 0,
    decreases n,
{
    if n > 0 {
        lemma_sum_zero(f, n - 1);
        lemma_add_zero(0);
    }
}

/// A sum whose terms are zero but for the one at `i` is that term.
pub proof fn lemma_sum_single(f: spec_fn(int) -> u8, i: int, n: int)
    requires
        0 <= i < n,
        forall|j: int| 0 <= j < n && j != i ==> #[trigger] f(j) == 0,
    ensures
        sum(f, n) == f(i),
    decreases n,
{
    if n - 1 == i {
        lemma_sum_zero(f, n - 1);
        lemma_add_zero(f(i));
    } else {
        lemma_sum_single(f, i, n - 1);
        lemma_add_zero(f(i));
    }
}

/// Sums over two indices can be taken in either order.
pub proof fn lemma_sum_exchange(f: spec_fn(int, int) -> u8, n: int, m: int)
    requires
        0 <= n,
        0 <= m,
    ensures
        sum(|j: int| sum(|i: int| f(j, i), m), n) == sum(|i: int| sum(|j: int| f(j, i), n), m),
    decreases n,
{
    let rows = |j: int| sum(|i: int| f(j, i), m);
    let columns = |i: int| sum(|j: int| f(j, i), n);
    if n == 0 {
        lemma_sum_zero(columns, m);
    } else {
        lemma_sum_exchange(f, n - 1, m);
        let fewer = |i: int| sum(|j: int| f(j, i), n - 1);
        let last = |i: int| f(n - 1, i);
        assert forall|i: int| 0 <= i < m implies #[trigger] columns(i) == gf_add(
            fewer(i),
            last(i),
        ) by {
            let column = |j: int| f(j, i);
            assert(column(n - 1) == f(n - 1, i));
            assert(sum(column, n) == gf_add(sum(column, n - 1), column(n - 1)));
        }
        lemma_sum_add(fewer, last, columns, m);
        assert(rows(n - 1) == sum(last, m)) by {
            lemma_sum_ext(|i: int| f(n - 1, i), last, m);
        }
        assert(sum(|j: int| sum(|i: int| f(j, i), m), n - 1) == sum(rows, n - 1)) by {
            lemma_sum_ext(|j: int| sum(|i: int| f(j, i), m), rows, n - 1);
        }
        assert(sum(|i: int| sum(|j: int| f(j, i), n - 1), m) == sum(fewer, m)) by {
            lemma_sum_ext(|i: int| sum(|j: int| f(j, i), n - 1), fewer, m);
        }
        assert(sum(|j: int| sum(|i: int| f(j, i), m), n) == sum(rows, n)) by {
            lemma_sum_ext(|j: int| sum(|i: int| f(j, i), m), rows, n);
        }
        assert(sum(|i: int| sum(|j: int| f(j, i), n), m) == sum(columns, m)) by {
            lemma_sum_ext(|i: int| sum(|j: int| f(j, i), n), columns, m);
        }
    }
}

/// Four terms can be added in pairs either way.
pub proof fn lemma_add_four(a: u8, b: u8, c: u8, d: u8)
    ensures
        gf_add(gf_add(a, b), gf_add(c, d)) == gf_add(gf_add(a, c), gf_add(b, d)),
{
    assert((a ^ b) ^ (c ^ d) == (a ^ c) ^ (b ^ d)) by (bit_vector);
}

/// Four factors can be multiplied in pairs either way.
pub proof fn lemma_mul_four(a: u8, b: u8, c: u8, d: u8)
    ensures
        gf_mul(gf_mul(a, b), gf_mul(c, d)) == gf_mul(gf_mul(a, c), gf_mul(b, d)),
{
    lemma_mul_associative(gf_mul(a, b), c, d);
    lemma_mul_associative(a, b, c);
    lemma_mul_commutative(b, c);
    lemma_mul_associative(a, c, b);
    lemma_mul_associative(gf_mul(a, c), b, d);
}

/// The inverse of one is one.
pub proof fn lemma_inverse_of_one()
    ensures
        gf_inv(1) == 1,
{
    lemma_mul_inverse(1);
    lemma_mul_zero_one(gf_inv(1));
}

/// The inverse of a product is the product of the inverses.
pub proof fn lemma_inverse_of_product(a: u8, b: u8)
    requires
        a != 0,
        b != 0,
    ensures
        gf_inv(gf_mul(a, b)) == gf_mul(gf_inv(a), gf_inv(b)),
        gf_mul(a, b) != 0,
{
    let ab = gf_mul(a, b);
    let c = gf_mul(gf_inv(a), gf_inv(b));
    lemma_mul_nonzero(a, b);
    lemma_mul_inverse(a);
    lemma_mul_inverse(b);
    lemma_mul_inverse(ab);
    lemma_mul_four(a, b, gf_inv(a), gf_inv(b));
    lemma_mul_zero_one(1);
    // ab * c == 1, so c == inv(ab) * (ab * c) == inv(ab).
    lemma_mul_associative(gf_inv(ab), ab, c);
    lemma_mul_zero_one(c);
    lemma_mul_zero_one(gf_inv(ab));
}

/// A quotient times the factor that its denominator has more than another is
/// the other quotient times the factor that its numerator has more.
proof fn lemma_shorten(upper: u8, lower: u8, t: u8, x: u8, q: u8)
    requires
        lower != 0,
        x != q,
    ensures
        gf_mul(
            gf_mul(gf_mul(upper, gf_add(t, q)), gf_inv(gf_mul(lower, gf_add(x, q)))),
            gf_add(x, q),
        ) == gf_mul(gf_add(t, q), gf_mul(upper, gf_inv(lower))),
{
    let tq = gf_add(t, q);
    let xq = gf_add(x, q);
    lemma_add_cancel(x, q);
    lemma_inverse_of_product(lower, xq);
    lemma_mul_inverse(xq);
    let il = gf_inv(lower);
    let ix = gf_inv(xq);
    // (upper * tq) * (il * ix) == (upper * il) * (tq * ix)
    lemma_mul_four(upper, tq, il, ix);
    // ((upper * il) * (tq * ix)) * xq == (upper * il) * ((tq * ix) * xq)
    lemma_mul_associative(gf_mul(upper, il), gf_mul(tq, ix), xq);
    lemma_mul_associative(tq, ix, xq);
    lemma_mul_zero_one(tq);
    lemma_mul_commutative(gf_mul(upper, il), tq);
}

/// The product looks at the nodes below `n` only, and at whether they are
/// skipped.
pub proof fn lemma_product_ext(xs: Seq<u8>, skip: int, ys: Seq<u8>, omit: int, t: u8, n: int)
    requires
        forall|m: int| 0 <= m < n ==> #[trigger] xs[m] == ys[m] && (m == skip <==> m == omit),
    ensures
        product_except(xs, skip, t, n) == product_except(ys, omit, t, n),
    decreases n,
{
    if n > 0 {
        lemma_product_ext(xs, skip, ys, omit, t, n - 1);
        assert(xs[n - 1] == ys[n - 1] && (n - 1 == skip <==> n - 1 == omit));
    }
}

/// The product is zero exactly where `t` is one of the nodes that are not
/// skipped.
pub proof fn lemma_product_zero(xs: Seq<u8>, skip: int, t: u8, n: int)
    requires
        0 <= n <= xs.len(),
    ensures
        product_except(xs, skip, t, n) == 0 <==> exists|m: int|
            0 <= m < n && m != skip && xs[m] == t,
    decreases n,
{
    if n > 0 {
        lemma_product_zero(xs, skip, t, n - 1);
        if n - 1 != skip {
            lemma_mul_nonzero(product_except(xs, skip, t, n - 1), gf_add(t, xs[n - 1]));
            lemma_add_cancel(t, xs[n - 1]);
        }
        if product_except(xs, skip, t, n) == 0 {
            if product_except(xs, skip, t, n - 1) == 0 {
                let m = choose|m: int| 0 <= m < n - 1 && m != skip && xs[m] == t;
                assert(0 <= m < n && m != skip && xs[m] == t);
            } else {
                assert(0 <= n - 1 < n && n - 1 != skip && xs[n - 1] == t);
            }
        }
        if exists|m: int| 0 <= m < n && m != skip && xs[m] == t {
            let m = choose|m: int| 0 <= m < n && m != skip && xs[m] == t;
            if m < n - 1 {
                assert(0 <= m < n - 1 && m != skip && xs[m] == t);
            }
        }
    }
}

/// The product over all nodes is the product over the others times the
/// factor of the node that these skip.
pub proof fn lemma_product_full(xs: Seq<u8>, j: int, t: u8, n: int)
    requires
        0 <= j < n <= xs.len(),
    ensures
        product_except(xs, -1, t, n) == gf_mul(product_except(xs, j, t, n), gf_add(t, xs[j])),
    decreases n,
{
    let last = gf_add(t, xs[n - 1]);
    if n - 1 == j {
        lemma_product_ext(xs, -1, xs, j, t, n - 1);
    } else {
        lemma_product_full(xs, j, t, n - 1);
        let others = product_except(xs, j, t, n - 1);
        lemma_mul_associative(others, gf_add(t, xs[j]), last);
        lemma_mul_commutative(gf_add(t, xs[j]), last);
        lemma_mul_associative(others, last, gf_add(t, xs[j]));
    }
}

/// The value of a basis polynomial is one at its own node and zero at the
/// others.
pub proof fn lemma_basis_at_node(xs: Seq<u8>, j: int, i: int)
    requires
        0 <= j < xs.len(),
        0 <= i < xs.len(),
        xs.no_duplicates(),
    ensures
        basis(xs, j, xs[i]) == if i == j {
            1u8
        } else {
            0u8
        },
{
    let n = xs.len() as int;
    lemma_product_zero(xs, j, xs[j], n);
    lemma_product_zero(xs, j, xs[i], n);
    if i == j {
        lemma_mul_inverse(product_except(xs, j, xs[j], n));
    } else {
        assert(0 <= i < n && i != j && xs[i] == xs[i]);
        lemma_mul_zero_one(gf_inv(product_except(xs, j, xs[j], n)));
    }
}

/// The value at node `j` of the polynomial with the roots `roots` but
/// `skip`, times the value at `t` of the basis polynomial of the node.
pub open spec fn term(xs: Seq<u8>, roots: Seq<u8>, skip: int, t: u8, j: int) -> u8 {
    gf_mul(basis(xs, j, t), product_except(roots, skip, xs[j], roots.len() as int))
}

/// The polynomial with the roots `roots` but `skip`, interpolated at `t`
/// from its values at the nodes `xs`.
pub open spec fn interpolated(xs: Seq<u8>, roots: Seq<u8>, skip: int, t: u8) -> u8 {
    sum(|j: int| term(xs, roots, skip, t, j), xs.len() as int)
}

/// Where the nodes `ys` are the nodes `xs` without one node `q`, the basis
/// polynomial for `xs` times `x - q` is that for `ys` times `t - q`.
proof fn lemma_basis_without(xs: Seq<u8>, j: int, ys: Seq<u8>, i: int, q: u8, t: u8)
    requires
        0 <= j < xs.len(),
        0 <= i < ys.len(),
        ys.no_duplicates(),
        xs[j] == ys[i],
        xs[j] != q,
        product_except(xs, j, t, xs.len() as int) == gf_mul(
            product_except(ys, i, t, ys.len() as int),
            gf_add(t, q),
        ),
        product_except(xs, j, xs[j], xs.len() as int) == gf_mul(
            product_except(ys, i, xs[j], ys.len() as int),
            gf_add(xs[j], q),
        ),
    ensures
        gf_mul(basis(xs, j, t), gf_add(xs[j], q)) == gf_mul(gf_add(t, q), basis(ys, i, t)),
{
    let upper = product_except(ys, i, t, ys.len() as int);
    let lower = product_except(ys, i, ys[i], ys.len() as int);
    lemma_product_zero(ys, i, ys[i], ys.len() as int);
    lemma_shorten(upper, lower, t, xs[j], q);
}

/// Without the last node.
proof fn lemma_basis_without_last(xs: Seq<u8>, j: int, t: u8)
    requires
        xs.len() >= 2,
        0 <= j < xs.len() - 1,
        xs.no_duplicates(),
    ensures
        gf_mul(basis(xs, j, t), gf_add(xs[j], xs.last())) == gf_mul(
            gf_add(t, xs.last()),
            basis(xs.drop_last(), j, t),
        ),
        xs.drop_last().no_duplicates(),
{
    let n = xs.len() as int;
    let ys = xs.drop_last();
    lemma_product_ext(xs, j, ys, j, t, n - 1);
    lemma_product_ext(xs, j, ys, j, xs[j], n - 1);
    lemma_basis_without(xs, j, ys, j, xs.last(), t);
}

/// The nodes without the last but one.
pub open spec fn without_last_but_one(xs: Seq<u8>) -> Seq<u8> {
    xs.take(xs.len() - 2).push(xs.last())
}

/// Without the last node but one; the last node moves down by one.
proof fn lemma_basis_without_last_but_one(xs: Seq<u8>, j: int, t: u8)
    requires
        xs.len() >= 2,
        0 <= j < xs.len(),
        j != xs.len() - 2,
        xs.no_duplicates(),
    ensures
        gf_mul(basis(xs, j, t), gf_add(xs[j], xs[xs.len() - 2])) == gf_mul(
            gf_add(t, xs[xs.len() - 2]),
            basis(
                without_last_but_one(xs),
                if j == xs.len() - 1 {
                    j - 1
                } else {
                    j
                },
                t,
            ),
        ),
        without_last_but_one(xs).no_duplicates(),
{
    let n = xs.len() as int;
    let ys = without_last_but_one(xs);
    let a = xs[n - 2];
    let b = xs[n - 1];
    let i = if j == n - 1 {
        j - 1
    } else {
        j
    };
    assert(ys.no_duplicates()) by {
        assert forall|p: int, q: int| 0 <= p < ys.len() && 0 <= q < ys.len() && p != q implies ys[p]
            != ys[q] by {
            let pp = if p == n - 2 {
                n - 1
            } else {
                p
            };
            let qq = if q == n - 2 {
                n - 1
            } else {
                q
            };
            assert(xs[pp] != xs[qq]);
        }
    }
    lemma_product_step(xs, j, ys, i, t);
    lemma_product_step(xs, j, ys, i, xs[j]);
    lemma_basis_without(xs, j, ys, i, a, t);
}

/// The product for the nodes `xs` is that for the nodes without the last but
/// one, times the factor of that node.
proof fn lemma_product_step(xs: Seq<u8>, j: int, ys: Seq<u8>, i: int, t: u8)
    requires
        xs.len() >= 2,
        0 <= j < xs.len(),
        j != xs.len() - 2,
        ys == without_last_but_one(xs),
        i == if j == xs.len() - 1 {
            j - 1
        } else {
            j
        },
    ensures
        product_except(xs, j, t, xs.len() as int) == gf_mul(
            product_except(ys, i, t, ys.len() as int),
            gf_add(t, xs[xs.len() - 2]),
        ),
{
    let n = xs.len() as int;
    let a = xs[n - 2];
    let b = xs[n - 1];
    lemma_product_ext(xs, j, ys, i, t, n - 2);
    let front = product_except(xs, j, t, n - 2);
    if j == n - 1 {
        assert(product_except(xs, j, t, n) == product_except(xs, j, t, n - 1));
        assert(product_except(xs, j, t, n - 1) == gf_mul(front, gf_add(t, a)));
        assert(product_except(ys, i, t, n - 1) == product_except(ys, i, t, n - 2));
    } else {
        assert(product_except(xs, j, t, n - 1) == gf_mul(front, gf_add(t, a)));
        assert(product_except(xs, j, t, n) == gf_mul(
            gf_mul(front, gf_add(t, a)),
            gf_add(t, b),
        ));
        assert(product_except(ys, i, t, n - 1) == gf_mul(front, gf_add(t, b)));
        lemma_mul_associative(front, gf_add(t, a), gf_add(t, b));
        lemma_mul_commutative(gf_add(t, a), gf_add(t, b));
        lemma_mul_associative(front, gf_add(t, b), gf_add(t, a));
    }
}

/// The basis polynomials add up to one.
pub proof fn lemma_basis_sum(xs: Seq<u8>, t: u8)
    requires
        xs.len() >= 1,
        xs.no_duplicates(),
    ensures
        sum(|j: int| basis(xs, j, t), xs.len() as int) == 1,
    decreases xs.len(),
{
    let n = xs.len() as int;
    let f = |j: int| basis(xs, j, t);
    if n == 1 {
        lemma_inverse_of_one();
        lemma_mul_zero_one(1);
        lemma_add_zero(1);
        assert(product_except(xs, 0, t, 0) == 1);
        assert(product_except(xs, 0, xs[0], 0) == 1);
        assert(product_except(xs, 0, t, 1) == 1);
        assert(product_except(xs, 0, xs[0], 1) == 1);
        assert(f(0) == 1);
        assert(sum(f, 1) == gf_add(sum(f, 0), f(0)));
    } else {
        let a = xs[n - 2];
        let b = xs[n - 1];
        let ys = xs.drop_last();
        let zs = without_last_but_one(xs);
        let ta = gf_add(t, a);
        let tb = gf_add(t, b);
        let ab = gf_add(a, b);
        let fa = |j: int| gf_mul(f(j), gf_add(xs[j], a));
        let fb = |j: int| gf_mul(f(j), gf_add(xs[j], b));
        let both = |j: int| gf_mul(ab, f(j));
        // The terms with b.
        let gb = |j: int| basis(ys, j, t);
        let sb = |j: int| gf_mul(tb, gb(j));
        assert forall|j: int| 0 <= j < n - 1 implies #[trigger] fb(j) == sb(j) by {
            lemma_basis_without_last(xs, j, t);
        }
        lemma_basis_without_last(xs, 0, t);
        lemma_sum_ext(fb, sb, n - 1);
        lemma_sum_scale(tb, gb, sb, n - 1);
        lemma_basis_sum(ys, t);
        lemma_mul_zero_one(tb);
        lemma_add_self(b);
        lemma_mul_zero_one(f(n - 1));
        lemma_add_zero(tb);
        assert(fb(n - 1) == 0);
        assert(sum(fb, n) == gf_add(sum(fb, n - 1), fb(n - 1)));
        assert(sum(fb, n) == tb);
        // The terms with a.
        let ga = |j: int| basis(zs, j, t);
        let sa = |j: int| gf_mul(ta, ga(j));
        lemma_basis_without_last_but_one(xs, n - 1, t);
        assert forall|j: int| 0 <= j < n - 2 implies #[trigger] fa(j) == sa(j) by {
            lemma_basis_without_last_but_one(xs, j, t);
        }
        lemma_sum_ext(fa, sa, n - 2);
        lemma_add_self(a);
        lemma_mul_zero_one(f(n - 2));
        assert(fa(n - 2) == 0);
        assert(fa(n - 1) == sa(n - 2));
        assert(sum(fa, n) == gf_add(sum(fa, n - 1), fa(n - 1)));
        assert(sum(fa, n - 1) == gf_add(sum(fa, n - 2), fa(n - 2)));
        lemma_add_zero(sum(fa, n - 2));
        assert(sum(sa, n - 1) == gf_add(sum(sa, n - 2), sa(n - 2)));
        assert(sum(fa, n) == sum(sa, n - 1));
        lemma_sum_scale(ta, ga, sa, n - 1);
        lemma_basis_sum(zs, t);
        lemma_mul_zero_one(ta);
        assert(sum(fa, n) == ta);
        // Both together.
        assert forall|j: int| 0 <= j < n implies #[trigger] both(j) == gf_add(fa(j), fb(j)) by {
            lemma_mul_distributive(f(j), gf_add(xs[j], a), gf_add(xs[j], b));
            lemma_add_four(xs[j], a, xs[j], b);
            lemma_add_self(xs[j]);
            lemma_add_zero(ab);
            lemma_mul_commutative(ab, f(j));
        }
        lemma_sum_add(fa, fb, both, n);
        lemma_sum_scale(ab, f, both, n);
        lemma_add_four(t, a, t, b);
        lemma_add_self(t);
        lemma_add_zero(ab);
        assert(gf_mul(ab, sum(f, n)) == ab);
        lemma_add_cancel(a, b);
        lemma_mul_inverse(ab);
        lemma_mul_associative(gf_inv(ab), ab, sum(f, n));
        lemma_mul_zero_one(sum(f, n));
    }
}

/// A polynomial with fewer roots than there are nodes is the sum of its
/// values at the nodes, each times the basis polynomial of its node.
pub proof fn lemma_interpolation(xs: Seq<u8>, roots: Seq<u8>, skip: int, t: u8)
    requires
        xs.len() >= 1,
        xs.no_duplicates(),
        degree(roots, skip) < xs.len(),
    ensures
        interpolated(xs, roots, skip, t) == product_except(roots, skip, t, roots.len() as int),
    decreases roots.len(),
{
    let n = xs.len() as int;
    let r = roots.len() as int;
    let whole = |j: int| term(xs, roots, skip, t, j);
    if r == 0 {
        let f = |j: int| basis(xs, j, t);
        assert forall|j: int| 0 <= j < n implies #[trigger] whole(j) == f(j) by {
            lemma_mul_zero_one(basis(xs, j, t));
        }
        lemma_sum_ext(whole, f, n);
        lemma_basis_sum(xs, t);
    } else if skip == r - 1 {
        let fewer = roots.drop_last();
        let less = |j: int| term(xs, fewer, skip, t, j);
        assert forall|j: int| 0 <= j < n implies #[trigger] whole(j) == less(j) by {
            lemma_product_ext(roots, skip, fewer, skip, xs[j], r - 1);
        }
        lemma_sum_ext(whole, less, n);
        lemma_product_ext(roots, skip, fewer, skip, t, r - 1);
        lemma_interpolation(xs, fewer, skip, t);
    } else {
        let a = roots[r - 1];
        let b = xs[n - 1];
        let fewer = roots.drop_last();
        let ys = xs.drop_last();
        let tb = gf_add(t, b);
        let ba = gf_add(b, a);
        let value = product_except(fewer, skip, t, r - 1);
        let less = |j: int| term(xs, fewer, skip, t, j);
        let shorter = |j: int| term(ys, fewer, skip, t, j);
        let first = |j: int| gf_mul(less(j), gf_add(xs[j], b));
        let second = |j: int| gf_mul(ba, less(j));
        let scaled = |j: int| gf_mul(tb, shorter(j));
        lemma_basis_without_last(xs, 0, t);
        // Each term is the sum of the two.
        assert forall|j: int| 0 <= j < n implies #[trigger] whole(j) == gf_add(
            first(j),
            second(j),
        ) by {
            let g = product_except(fewer, skip, xs[j], r - 1);
            lemma_product_ext(roots, skip, fewer, skip, xs[j], r - 1);
            assert(product_except(roots, skip, xs[j], r) == gf_mul(g, gf_add(xs[j], a)));
            lemma_mul_associative(basis(xs, j, t), g, gf_add(xs[j], a));
            lemma_add_four(xs[j], b, b, a);
            lemma_add_self(b);
            lemma_add_associative(xs[j], b, ba);
            lemma_add_associative(b, b, a);
            lemma_add_zero(a);
            assert(gf_add(xs[j], a) == gf_add(gf_add(xs[j], b), ba));
            lemma_mul_distributive(less(j), gf_add(xs[j], b), ba);
            lemma_mul_commutative(less(j), ba);
        }
        lemma_sum_add(first, second, whole, n);
        // The first sum.
        assert forall|j: int| 0 <= j < n - 1 implies #[trigger] first(j) == scaled(j) by {
            let g = product_except(fewer, skip, xs[j], r - 1);
            lemma_basis_without_last(xs, j, t);
            lemma_mul_associative(basis(xs, j, t), g, gf_add(xs[j], b));
            lemma_mul_commutative(g, gf_add(xs[j], b));
            lemma_mul_associative(basis(xs, j, t), gf_add(xs[j], b), g);
            lemma_mul_associative(tb, basis(ys, j, t), g);
        }
        lemma_sum_ext(first, scaled, n - 1);
        lemma_sum_scale(tb, shorter, scaled, n - 1);
        lemma_interpolation(ys, fewer, skip, t);
        lemma_add_self(b);
        lemma_mul_zero_one(less(n - 1));
        assert(first(n - 1) == 0);
        assert(sum(first, n) == gf_add(sum(first, n - 1), first(n - 1)));
        lemma_add_zero(sum(first, n - 1));
        assert(sum(first, n) == gf_mul(tb, value));
        // The second sum.
        lemma_sum_scale(ba, less, second, n);
        lemma_interpolation(xs, fewer, skip, t);
        assert(sum(second, n) == gf_mul(ba, value));
        // Together.
        lemma_mul_distributive(value, tb, ba);
        lemma_add_four(t, b, b, a);
        lemma_add_associative(t, b, ba);
        lemma_add_associative(b, b, a);
        lemma_add_zero(a);
        assert(gf_add(tb, ba) == gf_add(t, a));
        lemma_product_ext(roots, skip, fewer, skip, t, r - 1);
        lemma_mul_commutative(value, gf_add(t, a));
        lemma_mul_commutative(value, tb);
        lemma_mul_commutative(value, ba);
    }
}

} // verus!
