//! Lagrange basis polynomials over GF(2^8), evaluated at given points.

use crate::gf256::{
    gf_add, gf_div, gf_inv, gf_mul, lemma_add_cancel, lemma_add_commutative, lemma_mul_associative,
    lemma_mul_inverse, lemma_mul_nonzero, lemma_mul_zero_one, Gf256,
};
use crate::interpolation::{
    basis, lemma_basis_at_node, lemma_product_full, lemma_product_zero, product_except,
};
use vstd::prelude::*;

verus! {

/// The product of `t - xs[m]` over the `m` below `n`.
pub open spec fn lagrange_numerator(xs: Seq<u8>, t: u8, n: int) -> u8
    decreases n,
{
    if n <= 0 {
        1
    } else {
        gf_mul(lagrange_numerator(xs, t, n - 1), gf_add(t, xs[n - 1]))
    }
}

/// The product of `xs[i] - xs[m]` over the `m` below `n` whose node differs
/// from `xs[i]`.
pub open spec fn lagrange_denominator(xs: Seq<u8>, i: int, n: int) -> u8
    decreases n,
{
    if n <= 0 {
        1
    } else if xs[n - 1] == xs[i] {
        lagrange_denominator(xs, i, n - 1)
    } else {
        gf_mul(lagrange_denominator(xs, i, n - 1), gf_add(xs[i], xs[n - 1]))
    }
}

/// The value at `t` of the `i`-th Lagrange basis polynomial for the nodes
/// `xs`: one at its own node, zero at the other nodes, and elsewhere the
/// product of `t - xs[m]` over all `m`, divided by `t - xs[i]` and by the
/// product of the `xs[i] - xs[m]`.
pub open spec fn lagrange_coefficient(xs: Seq<u8>, i: int, t: u8) -> u8 {
    let numerator = lagrange_numerator(xs, t, xs.len() as int);
    if numerator == 0 {
        if xs[i] == t {
            1
        } else {
            0
        }
    } else {
        gf_div(
            gf_div(numerator, gf_add(xs[i], t)),
            lagrange_denominator(xs, i, xs.len() as int),
        )
    }
}

/// The numerator is zero exactly where `t` is one of the nodes.
pub proof fn lemma_numerator_zero(xs: Seq<u8>, t: u8, n: int)
    requires
        0 <= n <= xs.len(),
    ensures
        lagrange_numerator(xs, t, n) == 0 <==> exists|m: int| 0 <= m < n && xs[m] == t,
    decreases n,
{
    if n > 0 {
        lemma_numerator_zero(xs, t, n - 1);
        lemma_mul_nonzero(lagrange_numerator(xs, t, n - 1), gf_add(t, xs[n - 1]));
        lemma_add_cancel(t, xs[n - 1]);
        if lagrange_numerator(xs, t, n) == 0 {
            if lagrange_numerator(xs, t, n - 1) == 0 {
                let m = choose|m: int| 0 <= m < n - 1 && xs[m] == t;
                assert(0 <= m < n && xs[m] == t);
            } else {
                assert(xs[n - 1] == t);
            }
        }
        if exists|m: int| 0 <= m < n && xs[m] == t {
            let m = choose|m: int| 0 <= m < n && xs[m] == t;
            if m < n - 1 {
                assert(0 <= m < n - 1 && xs[m] == t);
            }
        }
    }
}

/// The denominator is never zero.
pub proof fn lemma_denominator_nonzero(xs: Seq<u8>, i: int, n: int)
    requires
        0 <= n <= xs.len(),
    ensures
        lagrange_denominator(xs, i, n) != 0,
    decreases n,
{
    if n > 0 {
        lemma_denominator_nonzero(xs, i, n - 1);
        lemma_mul_nonzero(lagrange_denominator(xs, i, n - 1), gf_add(xs[i], xs[n - 1]));
        lemma_add_cancel(xs[i], xs[n - 1]);
    }
}

/// At a node, the basis polynomial of that node is one and the others are
/// zero, where no node occurs twice.
pub proof fn lemma_coefficient_at_node(xs: Seq<u8>, i: int, j: int)
    requires
        0 <= i < xs.len(),
        0 <= j < xs.len(),
        xs.no_duplicates(),
    ensures
        lagrange_coefficient(xs, i, xs[j]) == if i == j {
            1u8
        } else {
            0u8
        },
{
    lemma_numerator_zero(xs, xs[j], xs.len() as int);
}

/// The numerator is the product over all nodes.
pub proof fn lemma_numerator_is_product(xs: Seq<u8>, t: u8, n: int)
    ensures
        lagrange_numerator(xs, t, n) == product_except(xs, -1, t, n),
    decreases n,
{
    if n > 0 {
        lemma_numerator_is_product(xs, t, n - 1);
    }
}

/// Where no node occurs twice, the denominator is the product over the other
/// nodes.
pub proof fn lemma_denominator_is_product(xs: Seq<u8>, i: int, n: int)
    requires
        0 <= i < xs.len(),
        0 <= n <= xs.len(),
        xs.no_duplicates(),
    ensures
        lagrange_denominator(xs, i, n) == product_except(xs, i, xs[i], n),
    decreases n,
{
    if n > 0 {
        lemma_denominator_is_product(xs, i, n - 1);
    }
}

/// Where no node occurs twice, the coefficient is the value of the basis
/// polynomial: the product of the `t - xs[m]` over the other nodes, divided
/// by the product of the `xs[i] - xs[m]`.
pub proof fn lemma_coefficient_is_basis(xs: Seq<u8>, i: int, t: u8)
    requires
        0 <= i < xs.len(),
        xs.no_duplicates(),
    ensures
        lagrange_coefficient(xs, i, t) == basis(xs, i, t),
{
    let n = xs.len() as int;
    let numerator = lagrange_numerator(xs, t, n);
    let others = product_except(xs, i, t, n);
    let lower = product_except(xs, i, xs[i], n);
    lemma_numerator_is_product(xs, t, n);
    lemma_denominator_is_product(xs, i, n);
    lemma_numerator_zero(xs, t, n);
    lemma_product_zero(xs, i, t, n);
    lemma_product_zero(xs, i, xs[i], n);
    lemma_product_full(xs, i, t, n);
    if numerator == 0 {
        let m = choose|m: int| 0 <= m < n && xs[m] == t;
        lemma_basis_at_node(xs, i, m);
    } else {
        let factor = gf_add(t, xs[i]);
        lemma_add_commutative(t, xs[i]);
        lemma_add_cancel(t, xs[i]);
        lemma_mul_inverse(factor);
        lemma_mul_associative(others, factor, gf_inv(factor));
        lemma_mul_zero_one(others);
    }
}

/// The values at each of `eval_xs` of the Lagrange basis polynomials for the
/// nodes `xs`: row `j` holds, for each node, the value at `eval_xs[j]`.
pub fn lagrange_eval(field: &Gf256, xs: &[u8], eval_xs: &[u8]) -> (r: Vec<Vec<u8>>)
    requires
        field.wf(),
    ensures
        r@.len() == eval_xs@.len(),
        forall|j: int| 0 <= j < r@.len() ==> (#[trigger] r@[j])@.len() == xs@.len(),
        forall|j: int, i: int|
            0 <= j < eval_xs@.len() && 0 <= i < xs@.len() ==> #[trigger] r@[j]@[i]
                == lagrange_coefficient(xs@, i, eval_xs@[j]),
{
    let n = xs.len();
    let mut denominators: Vec<u8> = Vec::new();
    let mut i: usize = 0;
    while i < n
        invariant
            field.wf(),
            i <= n,
            n == xs@.len(),
            denominators@.len() == i,
            forall|k: int|
                0 <= k < i ==> #[trigger] denominators@[k] == lagrange_denominator(
                    xs@,
                    k,
                    n as int,
                ),
        decreases n - i,
    {
        let mut d: u8 = 1;
        let mut m: usize = 0;
        while m < n
            invariant
                field.wf(),
                m <= n,
                i < n,
                n == xs@.len(),
                d == lagrange_denominator(xs@, i as int, m as int),
            decreases n - m,
        {
            if xs[i] != xs[m] {
                d = field.mult(d, field.sub(xs[i], xs[m]));
            }
            m += 1;
        }
        denominators.push(d);
        i += 1;
    }
    let mut rows: Vec<Vec<u8>> = Vec::new();
    let mut j: usize = 0;
    while j < eval_xs.len()
        invariant
            field.wf(),
            j <= eval_xs@.len(),
            n == xs@.len(),
            rows@.len() == j,
            denominators@.len() == n,
            forall|k: int|
                0 <= k < n ==> #[trigger] denominators@[k] == lagrange_denominator(
                    xs@,
                    k,
                    n as int,
                ),
            forall|k: int| 0 <= k < j ==> (#[trigger] rows@[k])@.len() == n,
            forall|k: int, i: int|
                0 <= k < j && 0 <= i < n ==> #[trigger] rows@[k]@[i] == lagrange_coefficient(
                    xs@,
                    i,
                    eval_xs@[k],
                ),
        decreases eval_xs@.len() - j,
    {
        let t = eval_xs[j];
        let mut numerator: u8 = 1;
        let mut m: usize = 0;
        while m < n
            invariant
                field.wf(),
                m <= n,
                n == xs@.len(),
                numerator == lagrange_numerator(xs@, t, m as int),
            decreases n - m,
        {
            numerator = field.mult(numerator, field.sub(t, xs[m]));
            m += 1;
        }
        let mut row: Vec<u8> = Vec::new();
        let mut i: usize = 0;
        while i < n
            invariant
                field.wf(),
                i <= n,
                n == xs@.len(),
                row@.len() == i,
                denominators@.len() == n,
                numerator == lagrange_numerator(xs@, t, n as int),
                forall|k: int|
                    0 <= k < n ==> #[trigger] denominators@[k] == lagrange_denominator(
                        xs@,
                        k,
                        n as int,
                    ),
                forall|k: int|
                    0 <= k < i ==> #[trigger] row@[k] == lagrange_coefficient(xs@, k, t),
            decreases n - i,
        {
            let value = if numerator == 0 {
                if xs[i] == t {
                    1
                } else {
                    0
                }
            } else {
                proof {
                    lemma_numerator_zero(xs@, t, n as int);
                    lemma_add_cancel(xs@[i as int], t);
                    lemma_denominator_nonzero(xs@, i as int, n as int);
                }
                field.div(field.div(numerator, field.sub(xs[i], t)), denominators[i])
            };
            row.push(value);
            i += 1;
        }
        rows.push(row);
        j += 1;
    }
    rows
}

} // verus!
