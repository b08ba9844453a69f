//! Shamir's secret sharing of a byte stream: each byte is the constant term
//! of a polynomial of degree `k - 1` with random coefficients, and the share
//! with index `x` holds the values of these polynomials at `x`.

use crate::error::StreamError;
use crate::gf256::{
    gf_add, gf_div, gf_inv, gf_mul, lemma_add_associative, lemma_add_cancel, lemma_add_zero,
    lemma_mul_associative, lemma_mul_commutative, lemma_mul_distributive, lemma_mul_zero_one, Gf256,
};
use crate::interpolation::{
    basis, lemma_basis_sum, lemma_interpolation, lemma_inverse_of_one, lemma_inverse_of_product,
    lemma_mul_four, lemma_product_ext, lemma_product_zero, lemma_sum_add, lemma_sum_ext,
    lemma_sum_scale, product_except, sum, term,
};
use crate::io::{Read, Write};
use crate::partitioner::{
    appended, chosen, collect_input_xs, collect_output_xs, input_remaining, input_xs,
    inputs_reliable, inputs_wf, is_choice, join_len, lemma_chosen_valid, lemma_shortest_bound,
    lemma_shortest_limits, lemma_shortest_shift, output_xs, outputs_reliable, outputs_wf,
    read_chunks, rows, shortest, valid_indices, write_chunks, InputPartition, OutputPartition,
    Partitioner,
};
use crate::random::random_bytes;
use crate::utils::{copy_range, zero_bytes};
use vstd::prelude::*;

verus! {

/// The number of bytes that are shared or joined in one step.
pub const BUF_SIZE: usize = 512;

/// `x` to the power `e`.
pub open spec fn gf_pow(x: u8, e: int) -> u8
    decreases e,
{
    if e <= 0 {
        1
    } else {
        gf_mul(gf_pow(x, e - 1), x)
    }
}

/// The sum over the first `d` rows of `coefficients` of the byte at `p` times
/// the matching power of `x`, which starts at the first.
pub open spec fn share_sum(coefficients: Seq<Seq<u8>>, p: int, x: u8, d: int) -> u8
    decreases d,
{
    if d <= 0 {
        0
    } else {
        gf_add(
            share_sum(coefficients, p, x, d - 1),
            gf_mul(coefficients[d - 1][p], gf_pow(x, d)),
        )
    }
}

/// The share with index `x` of `secret`: at each position the value at `x` of
/// the polynomial whose constant term is the secret byte and whose further
/// coefficients are the bytes of the rows of `coefficients` at that position.
pub open spec fn shamir_share(secret: Seq<u8>, coefficients: Seq<Seq<u8>>, x: u8) -> Seq<u8> {
    Seq::new(
        secret.len(),
        |p: int| gf_add(secret[p], share_sum(coefficients, p, x, coefficients.len() as int)),
    )
}

/// Whether `coefficients` are `count` rows of `len` bytes each.
pub open spec fn coefficient_rows(coefficients: Seq<Seq<u8>>, count: int, len: int) -> bool {
    &&& coefficients.len() == count
    &&& forall|d: int| 0 <= d < count ==> (#[trigger] coefficients[d]).len() == len
}

/// Whether `shares` are the shares of `secret` for the indices `xs` under the
/// `k - 1` rows of `coefficients`.
pub open spec fn is_sharing_with(
    k: int,
    secret: Seq<u8>,
    xs: Seq<u8>,
    shares: Seq<Seq<u8>>,
    coefficients: Seq<Seq<u8>>,
) -> bool {
    &&& coefficient_rows(coefficients, k - 1, secret.len() as int)
    &&& shares.len() == xs.len()
    &&& forall|j: int|
        0 <= j < xs.len() ==> #[trigger] shares[j] == shamir_share(secret, coefficients, xs[j])
}

/// Whether `shares` can be what splitting `secret` with threshold `k` gives
/// to the indices `xs`: the values of polynomials of degree below `k`.
pub open spec fn is_shamir_sharing(k: int, secret: Seq<u8>, xs: Seq<u8>, shares: Seq<Seq<u8>>)
    -> bool {
    exists|coefficients: Seq<Seq<u8>>| #[trigger]
        is_sharing_with(k, secret, xs, shares, coefficients)
}

/// The weight of share `j` in the sum that recovers the secret: the product
/// over the first `n` other nodes `xs[m]` of `xs[m] / (xs[j] - xs[m])`.
pub open spec fn shamir_weight(xs: Seq<u8>, j: int, n: int) -> u8
    decreases n,
{
    if n <= 0 {
        1
    } else if xs[n - 1] == xs[j] {
        shamir_weight(xs, j, n - 1)
    } else {
        gf_mul(shamir_weight(xs, j, n - 1), gf_div(xs[n - 1], gf_add(xs[j], xs[n - 1])))
    }
}

/// The weights of all shares with the indices `xs`.
pub open spec fn shamir_weights(xs: Seq<u8>) -> Seq<u8> {
    Seq::new(xs.len(), |j: int| shamir_weight(xs, j, xs.len() as int))
}

/// The sum over the first `n` shares of their byte at `p` times their weight.
pub open spec fn weighted_sum(weights: Seq<u8>, shares: Seq<Seq<u8>>, p: int, n: int) -> u8
    decreases n,
{
    if n <= 0 {
        0
    } else {
        gf_add(weighted_sum(weights, shares, p, n - 1), gf_mul(shares[n - 1][p], weights[n - 1]))
    }
}

/// The first `len` bytes of the secret whose shares with the indices `xs` are
/// `shares`.
pub open spec fn shamir_combine(xs: Seq<u8>, shares: Seq<Seq<u8>>, len: int) -> Seq<u8> {
    Seq::new(len as nat, |p: int| weighted_sum(shamir_weights(xs), shares, p, xs.len() as int))
}

/// The weighted sum looks at one position of each share only.
pub proof fn lemma_weighted_sum_window(
    weights: Seq<u8>,
    shares: Seq<Seq<u8>>,
    chunks: Seq<Seq<u8>>,
    done: int,
    p: int,
    n: int,
)
    requires
        forall|j: int| 0 <= j < n ==> (#[trigger] chunks[j])[p] == shares[j][done + p],
    ensures
        weighted_sum(weights, chunks, p, n) == weighted_sum(weights, shares, done + p, n),
    decreases n,
{
    if n > 0 {
        lemma_weighted_sum_window(weights, shares, chunks, done, p, n - 1);
        assert(chunks[n - 1][p] == shares[n - 1][done + p]);
    }
}

/// A share of two secrets in a row is the two shares in a row.
pub proof fn lemma_share_concat(
    first: Seq<u8>,
    first_rows: Seq<Seq<u8>>,
    second: Seq<u8>,
    second_rows: Seq<Seq<u8>>,
    x: u8,
)
    requires
        coefficient_rows(first_rows, first_rows.len() as int, first.len() as int),
        coefficient_rows(second_rows, first_rows.len() as int, second.len() as int),
    ensures
        shamir_share(first + second, concat_rows(first_rows, second_rows), x) == shamir_share(
            first,
            first_rows,
            x,
        ) + shamir_share(second, second_rows, x),
        coefficient_rows(
            concat_rows(first_rows, second_rows),
            first_rows.len() as int,
            (first.len() + second.len()) as int,
        ),
{
    let both = concat_rows(first_rows, second_rows);
    let count = first_rows.len() as int;
    assert forall|p: int| 0 <= p < first.len() + second.len() implies shamir_share(
        first + second,
        both,
        x,
    )[p] == (shamir_share(first, first_rows, x) + shamir_share(second, second_rows, x))[p] by {
        lemma_share_sum_concat(
            first.len() as int,
            second.len() as int,
            first_rows,
            second_rows,
            p,
            x,
            count,
        );
    }
    assert(shamir_share(first + second, both, x) =~= shamir_share(first, first_rows, x)
        + shamir_share(second, second_rows, x));
}

/// Row by row, the bytes of `first` and then those of `second`.
pub open spec fn concat_rows(first: Seq<Seq<u8>>, second: Seq<Seq<u8>>) -> Seq<Seq<u8>> {
    Seq::new(first.len(), |d: int| first[d] + second[d])
}

proof fn lemma_share_sum_concat(
    len: int,
    more: int,
    first_rows: Seq<Seq<u8>>,
    second_rows: Seq<Seq<u8>>,
    p: int,
    x: u8,
    d: int,
)
    requires
        0 <= p < len + more,
        0 <= d <= first_rows.len(),
        first_rows.len() == second_rows.len(),
        forall|e: int| 0 <= e < first_rows.len() ==> (#[trigger] first_rows[e]).len() == len,
        forall|e: int| 0 <= e < second_rows.len() ==> (#[trigger] second_rows[e]).len() == more,
    ensures
        share_sum(concat_rows(first_rows, second_rows), p, x, d) == if p < len {
            share_sum(first_rows, p, x, d)
        } else {
            share_sum(second_rows, p - len, x, d)
        },
    decreases d,
{
    if d > 0 {
        lemma_share_sum_concat(len, more, first_rows, second_rows, p, x, d - 1);
        assert(first_rows[d - 1].len() == len);
        assert(second_rows[d - 1].len() == more);
        assert(concat_rows(first_rows, second_rows)[d - 1] == first_rows[d - 1] + second_rows[d
            - 1]);
    }
}

/// Where no node occurs twice, the weight of a share is the value at zero of
/// the basis polynomial of its node.
pub proof fn lemma_weight_is_basis(xs: Seq<u8>, j: int, n: int)
    requires
        0 <= j < xs.len(),
        0 <= n <= xs.len(),
        xs.no_duplicates(),
    ensures
        shamir_weight(xs, j, n) == gf_mul(
            product_except(xs, j, 0, n),
            gf_inv(product_except(xs, j, xs[j], n)),
        ),
    decreases n,
{
    if n == 0 {
        lemma_inverse_of_one();
        lemma_mul_zero_one(1);
    } else {
        lemma_weight_is_basis(xs, j, n - 1);
        if n - 1 != j {
            let node = xs[n - 1];
            let upper = product_except(xs, j, 0, n - 1);
            let lower = product_except(xs, j, xs[j], n - 1);
            let factor = gf_add(xs[j], node);
            lemma_add_zero(node);
            lemma_add_cancel(xs[j], node);
            lemma_product_zero(xs, j, xs[j], n - 1);
            lemma_inverse_of_product(lower, factor);
            lemma_mul_four(upper, node, gf_inv(lower), gf_inv(factor));
        }
    }
}

/// The weighted sum is a sum.
pub proof fn lemma_weighted_sum_is_sum(weights: Seq<u8>, shares: Seq<Seq<u8>>, p: int, n: int)
    ensures
        weighted_sum(weights, shares, p, n) == sum(
            |j: int| gf_mul(shares[j][p], weights[j]),
            n,
        ),
    decreases n,
{
    if n > 0 {
        lemma_weighted_sum_is_sum(weights, shares, p, n - 1);
    }
}

/// `e` roots that are all zero.
pub open spec fn zero_roots(e: int) -> Seq<u8> {
    Seq::new(e as nat, |i: int| 0u8)
}

/// A power of `x` is the value at `x` of the polynomial whose roots are all
/// zero.
pub proof fn lemma_power_is_product(x: u8, e: int)
    requires
        0 <= e,
    ensures
        gf_pow(x, e) == product_except(zero_roots(e), -1, x, e),
    decreases e,
{
    if e > 0 {
        lemma_power_is_product(x, e - 1);
        lemma_product_ext(zero_roots(e), -1, zero_roots(e - 1), -1, x, e - 1);
        lemma_add_zero(x);
    }
}

/// The weighted sum of the values at the nodes of a polynomial of degree `d`
/// below the number of nodes is its constant term.
pub proof fn lemma_recover_byte(
    xs: Seq<u8>,
    secret: u8,
    coefficients: Seq<Seq<u8>>,
    p: int,
    d: int,
)
    requires
        xs.no_duplicates(),
        0 <= d < xs.len(),
    ensures
        sum(
            |j: int| gf_mul(basis(xs, j, 0), gf_add(secret, share_sum(coefficients, p, xs[j], d))),
            xs.len() as int,
        ) == secret,
    decreases d,
{
    let n = xs.len() as int;
    let whole = |j: int|
        gf_mul(basis(xs, j, 0), gf_add(secret, share_sum(coefficients, p, xs[j], d)));
    let plain = |j: int| basis(xs, j, 0);
    if d == 0 {
        let scaled = |j: int| gf_mul(secret, plain(j));
        assert forall|j: int| 0 <= j < n implies #[trigger] whole(j) == scaled(j) by {
            lemma_add_zero(secret);
            lemma_mul_commutative(basis(xs, j, 0), secret);
        }
        lemma_sum_ext(whole, scaled, n);
        lemma_sum_scale(secret, plain, scaled, n);
        lemma_basis_sum(xs, 0);
        lemma_mul_zero_one(secret);
    } else {
        let c = coefficients[d - 1][p];
        let roots = zero_roots(d);
        let lower = |j: int|
            gf_mul(basis(xs, j, 0), gf_add(secret, share_sum(coefficients, p, xs[j], d - 1)));
        let power = |j: int| term(xs, roots, -1, 0, j);
        let top = |j: int| gf_mul(c, power(j));
        assert forall|j: int| 0 <= j < n implies #[trigger] whole(j) == gf_add(
            lower(j),
            top(j),
        ) by {
            let b = basis(xs, j, 0);
            let before = share_sum(coefficients, p, xs[j], d - 1);
            let last = gf_mul(c, gf_pow(xs[j], d));
            lemma_power_is_product(xs[j], d);
            lemma_add_associative(secret, before, last);
            lemma_mul_distributive(b, gf_add(secret, before), last);
            lemma_mul_four(b, 1, c, gf_pow(xs[j], d));
            lemma_mul_zero_one(b);
            lemma_mul_commutative(b, c);
            lemma_mul_associative_pair(b, c, gf_pow(xs[j], d));
        }
        lemma_sum_add(lower, top, whole, n);
        lemma_recover_byte(xs, secret, coefficients, p, d - 1);
        lemma_sum_scale(c, power, top, n);
        lemma_interpolation(xs, roots, -1, 0);
        assert(0 <= 0 < d && 0 != -1 && roots[0] == 0);
        lemma_product_zero(roots, -1, 0, d);
        lemma_mul_zero_one(c);
        lemma_add_zero(secret);
    }
}

/// `b * (c * e)` is `c * (b * e)`.
proof fn lemma_mul_associative_pair(b: u8, c: u8, e: u8)
    ensures
        gf_mul(b, gf_mul(c, e)) == gf_mul(c, gf_mul(b, e)),
{
    lemma_mul_associative(b, c, e);
    lemma_mul_associative(c, b, e);
    lemma_mul_commutative(b, c);
}

/// Joining undoes splitting: the shares of a secret for as many different
/// indices as the threshold join to the secret.
pub proof fn lemma_shamir_round_trip(k: int, secret: Seq<u8>, xs: Seq<u8>, shares: Seq<Seq<u8>>)
    requires
        1 <= k,
        xs.len() == k,
        xs.no_duplicates(),
        is_shamir_sharing(k, secret, xs, shares),
    ensures
        join_len(shares, None) == secret.len(),
        shamir_combine(xs, shares, secret.len() as int) == secret,
{
    let coefficients = choose|coefficients: Seq<Seq<u8>>| #[trigger]
        is_sharing_with(k, secret, xs, shares, coefficients);
    let len = secret.len() as int;
    let weights = shamir_weights(xs);
    assert forall|j: int| 0 <= j < k implies (#[trigger] shares[j]).len() == len by {
        assert(shares[j] == shamir_share(secret, coefficients, xs[j]));
    }
    lemma_all_as_long(shares, len, k);
    assert forall|p: int| 0 <= p < len implies weighted_sum(weights, shares, p, k)
        == secret[p] by {
        lemma_weighted_sum_is_sum(weights, shares, p, k);
        let direct = |j: int| gf_mul(shares[j][p], weights[j]);
        let wanted = |j: int|
            gf_mul(
                basis(xs, j, 0),
                gf_add(secret[p], share_sum(coefficients, p, xs[j], k - 1)),
            );
        assert forall|j: int| 0 <= j < k implies #[trigger] direct(j) == wanted(j) by {
            lemma_weight_is_basis(xs, j, k);
            assert(shares[j] == shamir_share(secret, coefficients, xs[j]));
            lemma_mul_commutative(shares[j][p], weights[j]);
        }
        lemma_sum_ext(direct, wanted, k);
        lemma_recover_byte(xs, secret[p], coefficients, p, k - 1);
    }
    assert(shamir_combine(xs, shares, len) =~= secret);
}

/// Shares that are all as long have that length for their shortest.
pub proof fn lemma_all_as_long(shares: Seq<Seq<u8>>, len: int, n: int)
    requires
        1 <= n <= shares.len(),
        forall|j: int| 0 <= j < n ==> (#[trigger] shares[j]).len() == len,
    ensures
        shortest(shares, shares[0].len() as int, n) == len,
        shortest(shares, len, n) == len,
    decreases n,
{
    assert(shares[0].len() == len);
    assert(shares[n - 1].len() == len);
    if n > 1 {
        lemma_all_as_long(shares, len, n - 1);
    } else {
        assert(shortest(shares, len, 0) == len);
    }
}

/// Some of the shares of a secret are shares of the secret for their
/// indices.
pub proof fn lemma_shamir_choice(
    k: int,
    secret: Seq<u8>,
    xs: Seq<u8>,
    shares: Seq<Seq<u8>>,
    picks: Seq<int>,
)
    requires
        is_shamir_sharing(k, secret, xs, shares),
        is_choice(picks, xs.len() as int, picks.len() as int),
    ensures
        is_shamir_sharing(k, secret, chosen(xs, picks), chosen(shares, picks)),
{
    let coefficients = choose|coefficients: Seq<Seq<u8>>| #[trigger]
        is_sharing_with(k, secret, xs, shares, coefficients);
    let some_xs = chosen(xs, picks);
    let some = chosen(shares, picks);
    assert forall|j: int| 0 <= j < some_xs.len() implies #[trigger] some[j] == shamir_share(
        secret,
        coefficients,
        some_xs[j],
    ) by {
        assert(shares[picks[j]] == shamir_share(secret, coefficients, xs[picks[j]]));
    }
    assert(is_sharing_with(k, secret, some_xs, some, coefficients));
}

/// Every share of a secret is as long as the secret.
pub proof fn lemma_shamir_share_len(k: int, secret: Seq<u8>, xs: Seq<u8>, shares: Seq<Seq<u8>>)
    requires
        is_shamir_sharing(k, secret, xs, shares),
    ensures
        shares.len() == xs.len(),
        forall|j: int| 0 <= j < xs.len() ==> (#[trigger] shares[j]).len() == secret.len(),
{
    let coefficients = choose|coefficients: Seq<Seq<u8>>| #[trigger]
        is_sharing_with(k, secret, xs, shares, coefficients);
    assert forall|j: int| 0 <= j < xs.len() implies (#[trigger] shares[j]).len()
        == secret.len() by {
        assert(shares[j] == shamir_share(secret, coefficients, xs[j]));
    }
}

/// Shamir's scheme with a threshold.
pub struct Shamir {
    k: u8,
}

impl Shamir {
    /// The scheme in which `k` shares recover the secret.
    pub fn new(k: u8) -> (r: Self)
        requires
            k > 1,
        ensures
            r.wf(),
            r.threshold() == k,
    {
        Shamir { k }
    }

    /// The number of shares that recover the secret.
    pub fn k(&self) -> (k: u8)
        ensures
            k == self.threshold(),
    {
        self.k
    }
}

/// The shares of `secret` for the indices `xs`, where row `d` of
/// `coefficients` holds for each byte the coefficient of degree `d + 1`.
pub fn share_chunk(field: &Gf256, xs: &[u8], secret: &[u8], coefficients: &Vec<Vec<u8>>) -> (r:
    Vec<Vec<u8>>)
    requires
        field.wf(),
        coefficient_rows(rows(coefficients@), coefficients@.len() as int, secret@.len() as int),
    ensures
        r@.len() == xs@.len(),
        forall|j: int|
            0 <= j < xs@.len() ==> (#[trigger] r@[j])@ == shamir_share(
                secret@,
                rows(coefficients@),
                xs@[j],
            ),
{
    let n = xs.len();
    let degree = coefficients.len();
    let len = secret.len();
    let mut shares: Vec<Vec<u8>> = Vec::new();
    let mut j: usize = 0;
    while j < n
        invariant
            field.wf(),
            j <= n,
            n == xs@.len(),
            degree == coefficients@.len(),
            len == secret@.len(),
            coefficient_rows(rows(coefficients@), degree as int, len as int),
            shares@.len() == j,
            forall|i: int|
                0 <= i < j ==> (#[trigger] shares@[i])@ == shamir_share(
                    secret@,
                    rows(coefficients@),
                    xs@[i],
                ),
        decreases n - j,
    {
        let x = xs[j];
        let mut share = copy_range(secret, 0, len);
        let mut scale: u8 = 1;
        let mut d: usize = 0;
        proof {
            assert forall|p: int| 0 <= p < len implies share@[p] == gf_add(
                secret@[p],
                share_sum(rows(coefficients@), p, x, 0),
            ) by {
                lemma_add_zero(secret@[p]);
            }
        }
        while d < degree
            invariant
                field.wf(),
                d <= degree,
                degree == coefficients@.len(),
                len == secret@.len(),
                coefficient_rows(rows(coefficients@), degree as int, len as int),
                share@.len() == len,
                scale == gf_pow(x, d as int),
                forall|p: int|
                    0 <= p < len ==> #[trigger] share@[p] == gf_add(
                        secret@[p],
                        share_sum(rows(coefficients@), p, x, d as int),
                    ),
            decreases degree - d,
        {
            scale = field.mult(scale, x);
            let ghost before = share@;
            assert(rows(coefficients@)[d as int].len() == len);
            field.add_scaled_multiword(share.as_mut_slice(), coefficients[d].as_slice(), scale);
            proof {
                assert forall|p: int| 0 <= p < len implies #[trigger] share@[p] == gf_add(
                    secret@[p],
                    share_sum(rows(coefficients@), p, x, d + 1),
                ) by {
                    let term = gf_mul(rows(coefficients@)[d as int][p], scale);
                    assert(share@[p] == gf_add(before[p], term));
                    lemma_add_associative(
                        secret@[p],
                        share_sum(rows(coefficients@), p, x, d as int),
                        term,
                    );
                }
            }
            d += 1;
        }
        proof {
            assert(share@ =~= shamir_share(secret@, rows(coefficients@), x));
        }
        shares.push(share);
        j += 1;
    }
    shares
}

/// `count` rows of `len` random bytes each.
fn random_rows(count: usize, len: usize) -> (r: Result<Vec<Vec<u8>>, StreamError>)
    ensures
        r matches Ok(v) ==> coefficient_rows(rows(v@), count as int, len as int),
        r matches Err(e) ==> e == StreamError::Io,
{
    let mut out: Vec<Vec<u8>> = Vec::new();
    let mut d: usize = 0;
    while d < count
        invariant
            d <= count,
            out@.len() == d,
            forall|e: int| 0 <= e < d ==> (#[trigger] out@[e])@.len() == len,
        decreases count - d,
    {
        match random_bytes(len) {
            Err(e) => {
                return Err(e);
            },
            Ok(row) => {
                out.push(row);
            },
        }
        d += 1;
    }
    Ok(out)
}

/// The weights of the shares with the indices `xs` in the sum that recovers
/// the secret.
pub fn combine_weights(field: &Gf256, xs: &[u8]) -> (r: Vec<u8>)
    requires
        field.wf(),
    ensures
        r@ == shamir_weights(xs@),
{
    let n = xs.len();
    let mut weights: Vec<u8> = Vec::new();
    let mut j: usize = 0;
    while j < n
        invariant
            field.wf(),
            j <= n,
            n == xs@.len(),
            weights@.len() == j,
            forall|i: int| 0 <= i < j ==> #[trigger] weights@[i] == shamir_weight(xs@, i, n as int),
        decreases n - j,
    {
        let mut weight: u8 = 1;
        let mut m: usize = 0;
        while m < n
            invariant
                field.wf(),
                m <= n,
                j < n,
                n == xs@.len(),
                weight == shamir_weight(xs@, j as int, m as int),
            decreases n - m,
        {
            if xs[m] != xs[j] {
                proof {
                    lemma_add_cancel(xs@[j as int], xs@[m as int]);
                }
                weight = field.mult(weight, field.div(xs[m], field.sub(xs[j], xs[m])));
            }
            m += 1;
        }
        weights.push(weight);
        j += 1;
    }
    assert(weights@ =~= shamir_weights(xs@));
    weights
}

/// The sum of the `chunks`, each scaled by its weight.
pub fn combine_chunk(field: &Gf256, weights: &[u8], chunks: &Vec<Vec<u8>>, len: usize) -> (r: Vec<
    u8,
>)
    requires
        field.wf(),
        chunks@.len() == weights@.len(),
        forall|j: int| 0 <= j < chunks@.len() ==> (#[trigger] chunks@[j])@.len() >= len,
    ensures
        r@.len() == len,
        forall|p: int|
            0 <= p < len ==> #[trigger] r@[p] == weighted_sum(
                weights@,
                rows(chunks@),
                p,
                weights@.len() as int,
            ),
{
    let n = weights.len();
    let mut sum = zero_bytes(len);
    let mut j: usize = 0;
    while j < n
        invariant
            field.wf(),
            j <= n,
            n == weights@.len(),
            chunks@.len() == n,
            forall|i: int| 0 <= i < n ==> (#[trigger] chunks@[i])@.len() >= len,
            sum@.len() == len,
            forall|p: int|
                0 <= p < len ==> #[trigger] sum@[p] == weighted_sum(
                    weights@,
                    rows(chunks@),
                    p,
                    j as int,
                ),
        decreases n - j,
    {
        assert(chunks@[j as int]@.len() >= len);
        field.add_scaled_multiword(sum.as_mut_slice(), chunks[j].as_slice(), weights[j]);
        j += 1;
    }
    sum
}

impl Shamir {
    /// Writes to `output` the secret whose shares `inputs` deliver, as far as
    /// the shortest of them reaches, and to no more than `limit` bytes where
    /// there is a limit. Returns `output`.
    pub fn join_up_to<R: Read, W: Write>(
        &self,
        inputs: &mut Vec<InputPartition<R>>,
        output: W,
        limit: Option<usize>,
    ) -> (r: Result<W, StreamError>)
        requires
            self.wf(),
            self.threshold() == old(inputs)@.len(),
            valid_indices(input_xs(old(inputs)@)),
            inputs_wf(old(inputs)@),
            output.wf(),
        ensures
            inputs_wf(final(inputs)@),
            final(inputs)@.len() == old(inputs)@.len(),
            input_xs(final(inputs)@) == input_xs(old(inputs)@),
            inputs_reliable(old(inputs)@) && output.reliable() ==> r is Ok,
            r matches Ok(w) ==> {
                let shares = input_remaining(old(inputs)@);
                let len = join_len(shares, limit);
                &&& w.wf()
                &&& w.reliable() == output.reliable()
                &&& w.follows(&output)
                &&& inputs_reliable(final(inputs)@) == inputs_reliable(old(inputs)@)
                &&& w.written() == output.written() + shamir_combine(
                    input_xs(old(inputs)@),
                    shares,
                    len,
                )
                &&& (limit matches Some(l) && len == l ==> forall|j: int|
                    0 <= j < shares.len() ==> (#[trigger] final(inputs)@[j]).reader.remaining()
                        == shares[j].skip(len))
            },
    {
        let mut sink = output;
        let field = Gf256::new();
        let n = inputs.len();
        let xs = collect_input_xs(inputs);
        let weights = combine_weights(&field, xs.as_slice());
        let mut bufs: Vec<Vec<u8>> = Vec::new();
        let mut j: usize = 0;
        while j < n
            invariant
                j <= n,
                bufs@.len() == j,
                forall|i: int| 0 <= i < j ==> (#[trigger] bufs@[i])@.len() == BUF_SIZE,
            decreases n - j,
        {
            bufs.push(zero_bytes(BUF_SIZE));
            j += 1;
        }
        let ghost shares = input_remaining(inputs@);
        let ghost target = join_len(shares, limit);
        let ghost cap = match limit {
            Some(l) => l as int,
            None => shares[0].len() as int,
        };
        let ghost mut done: int = 0;
        let mut left = limit;
        proof {
            lemma_shortest_bound(shares, cap, n as int);
            assert(shamir_combine(xs@, shares, 0) =~= Seq::<u8>::empty());
            assert(sink.written() + Seq::<u8>::empty() =~= sink.written());
            sink.lemma_follows_itself();
            assert forall|i: int| 0 <= i < n implies (#[trigger] inputs@[i]).reader.remaining()
                == shares[i].skip(0) by {
                assert(shares[i].skip(0) =~= shares[i]);
            }
        }
        loop
            invariant_except_break
                forall|i: int|
                    0 <= i < n ==> (#[trigger] inputs@[i]).reader.remaining() == shares[i].skip(
                        done as int,
                    ),
            invariant
                field.wf(),
                n == inputs@.len(),
                n == old(inputs)@.len(),
                n >= 2,
                bufs@.len() == n,
                forall|i: int| 0 <= i < n ==> (#[trigger] bufs@[i])@.len() == BUF_SIZE,
                xs@ == input_xs(old(inputs)@),
                weights@ == shamir_weights(xs@),
                shares == input_remaining(old(inputs)@),
                target == shortest(shares, cap, n as int),
                cap == match limit {
                    Some(l) => l as int,
                    None => shares[0].len() as int,
                },
                0 <= cap,
                target <= cap,
                forall|i: int| 0 <= i < n ==> target <= (#[trigger] shares[i]).len(),
                limit matches Some(l) ==> left == Some((l - done) as usize),
                limit is None ==> left is None,
                inputs_wf(inputs@),
                input_xs(inputs@) == input_xs(old(inputs)@),
                inputs_reliable(inputs@) == inputs_reliable(old(inputs)@),
                sink.wf(),
                sink.reliable() == output.reliable(),
                sink.follows(&output),
                0 <= done <= target,
                sink.written() == output.written() + shamir_combine(
                    xs@,
                    shares,
                    done as int,
                ),
            ensures
                n == inputs@.len(),
                inputs_wf(inputs@),
                input_xs(inputs@) == input_xs(old(inputs)@),
                inputs_reliable(inputs@) == inputs_reliable(old(inputs)@),
                sink.wf(),
                sink.reliable() == output.reliable(),
                sink.follows(&output),
                done == target,
                sink.written() == output.written() + shamir_combine(
                    xs@,
                    shares,
                    done as int,
                ),
                limit matches Some(l) && target == l ==> forall|i: int|
                    0 <= i < n ==> (#[trigger] inputs@[i]).reader.remaining() == shares[i].skip(
                        done as int,
                    ),
            decreases target - done,
        {
            let chunk = match left {
                Some(l) => if l < BUF_SIZE {
                    l
                } else {
                    BUF_SIZE
                },
                None => BUF_SIZE,
            };
            let ghost rest = Seq::new(n as nat, |i: int| shares[i].skip(done as int));
            proof {
                assert(input_remaining(inputs@) =~= rest);
            }
            let least = match read_chunks(inputs, &mut bufs, chunk) {
                Err(e) => {
                    return Err(e);
                },
                Ok(least) => least,
            };
            proof {
                lemma_shortest_shift(shares, done as int, chunk as int, n as int);
                lemma_shortest_bound(shares, cap, n as int);
                lemma_shortest_bound(shares, done + chunk, n as int);
                if done + chunk <= cap {
                    lemma_shortest_limits(shares, done + chunk, cap, n as int);
                } else {
                    lemma_shortest_limits(shares, cap, done + chunk, n as int);
                }
            }
            if least == 0 {
                break;
            }
            let sum = combine_chunk(&field, weights.as_slice(), &bufs, least);
            let ghost earlier = sink;
            match sink.write_all(sum.as_slice()) {
                Err(e) => {
                    return Err(e);
                },
                Ok(()) => {},
            }
            proof {
                sink.lemma_follows_chain(&earlier, &output);
                assert forall|p: int| 0 <= p < least implies sum@[p] == weighted_sum(
                    weights@,
                    shares,
                    done + p,
                    n as int,
                ) by {
                    assert forall|i: int| 0 <= i < n implies (#[trigger] rows(bufs@)[i])[p]
                        == shares[i][done + p] by {
                        assert(bufs@[i]@.take(least as int)[p] == rest[i].take(least as int)[p]);
                    }
                    lemma_weighted_sum_window(
                        weights@,
                        shares,
                        rows(bufs@),
                        done as int,
                        p,
                        n as int,
                    );
                }
                assert(shamir_combine(xs@, shares, done as int) + sum@ =~= shamir_combine(
                    xs@,
                    shares,
                    done + least,
                ));
                assert(output.written() + shamir_combine(xs@, shares, done as int) + sum@
                    =~= output.written() + (shamir_combine(xs@, shares, done as int)
                    + sum@));
                assert forall|i: int| 0 <= i < n && least == chunk implies rest[i].skip(
                    chunk as int,
                ) == shares[i].skip(done + chunk) by {
                    assert(rest[i].skip(chunk as int) =~= shares[i].skip(done + chunk));
                }
            }
            proof {
                done = done + least;
            }
            left = match left {
                Some(l) => Some(l - least),
                None => None,
            };
            if least < chunk {
                break;
            }
        }
        Ok(sink)
    }

}

impl Partitioner for Shamir {
    closed spec fn wf(&self) -> bool {
        self.k >= 2
    }

    closed spec fn threshold(&self) -> int {
        self.k as int
    }

    open spec fn is_sharing(&self, message: Seq<u8>, xs: Seq<u8>, shares: Seq<Seq<u8>>) -> bool {
        is_shamir_sharing(self.threshold(), message, xs, shares)
    }

    open spec fn joined(&self, xs: Seq<u8>, shares: Seq<Seq<u8>>) -> Option<Seq<u8>> {
        Some(shamir_combine(xs, shares, join_len(shares, None)))
    }

    fn threshold_value(&self) -> (k: u8) {
        self.k
    }

    open spec fn draws_random(&self, len: nat) -> bool {
        len > 0
    }

    open spec fn premises(&self) -> bool {
        true
    }

    proof fn lemma_round_trip(&self, message: Seq<u8>, xs: Seq<u8>, shares: Seq<Seq<u8>>) {
        lemma_shamir_round_trip(self.threshold(), message, xs, shares);
    }

    proof fn lemma_choice(
        &self,
        message: Seq<u8>,
        xs: Seq<u8>,
        shares: Seq<Seq<u8>>,
        picks: Seq<int>,
    ) {
        lemma_chosen_valid(xs, picks);
        lemma_shamir_choice(self.threshold(), message, xs, shares, picks);
    }

    proof fn lemma_threshold(&self) {
    }

    /// Writes to each of `outputs` its share of all that `input` delivers.
    ///
    /// Fresh random coefficients are drawn for every byte; the call fails
    /// with `Io` where the random generator does. Nothing is drawn for an
    /// empty input, which is split without fail.
    fn split<R: Read, W: Write>(&self, input: R, outputs: &mut Vec<OutputPartition<W>>) -> (r:
        Result<(), StreamError>)
        ensures
            input.reliable() && input.remaining().len() == 0 ==> r is Ok,
    {
        let mut source = input;
        let field = Gf256::new();
        let xs = collect_output_xs(outputs);
        let degree = (self.k - 1) as usize;
        let mut read_buf = zero_bytes(BUF_SIZE);
        let ghost message = source.remaining();
        let ghost mut done: Seq<u8> = Seq::empty();
        let ghost mut coefficients: Seq<Seq<u8>> = Seq::new(degree as nat, |d: int| Seq::empty());
        proof {
            assert forall|j: int| 0 <= j < outputs@.len() implies (
            #[trigger] outputs@[j]).writer.written() == old(outputs)@[j].writer.written()
                + shamir_share(done, coefficients, xs@[j]) by {
                assert(shamir_share(done, coefficients, xs@[j]) =~= Seq::<u8>::empty());
                assert(outputs@[j].writer.written() + Seq::<u8>::empty()
                    =~= outputs@[j].writer.written());
            }
            assert(message.skip(0) =~= message);
            assert(message.take(0) =~= done);
        }
        loop
            invariant
                field.wf(),
                source.wf(),
                source.reliable() == input.reliable(),
                degree == self.threshold() - 1,
                read_buf@.len() == BUF_SIZE,
                xs@ == output_xs(old(outputs)@),
                outputs_wf(outputs@),
                outputs@.len() == old(outputs)@.len(),
                output_xs(outputs@) == output_xs(old(outputs)@),
                outputs_reliable(outputs@) == outputs_reliable(old(outputs)@),
                done.len() <= message.len(),
                done == message.take(done.len() as int),
                source.remaining() == message.skip(done.len() as int),
                message == input.remaining(),
                coefficient_rows(coefficients, degree as int, done.len() as int),
                forall|j: int|
                    0 <= j < outputs@.len() ==> (#[trigger] outputs@[j]).writer.written()
                        == old(outputs)@[j].writer.written() + shamir_share(
                        done,
                        coefficients,
                        xs@[j],
                    ),
            ensures
                done == message,
                coefficient_rows(coefficients, degree as int, done.len() as int),
                outputs_wf(outputs@),
                outputs@.len() == old(outputs)@.len(),
                output_xs(outputs@) == output_xs(old(outputs)@),
                outputs_reliable(outputs@) == outputs_reliable(old(outputs)@),
                xs@ == output_xs(old(outputs)@),
                forall|j: int|
                    0 <= j < outputs@.len() ==> (#[trigger] outputs@[j]).writer.written()
                        == old(outputs)@[j].writer.written() + shamir_share(
                        done,
                        coefficients,
                        xs@[j],
                    ),
            decreases message.len() - done.len(),
        {
            let count = match source.read(read_buf.as_mut_slice()) {
                Err(e) => {
                    return Err(e);
                },
                Ok(count) => count,
            };
            if count == 0 {
                proof {
                    assert(message.take(message.len() as int) =~= message);
                }
                break;
            }
            let fresh = match random_rows(degree, count) {
                Err(e) => {
                    return Err(e);
                },
                Ok(fresh) => fresh,
            };
            let secret = vstd::slice::slice_subrange(read_buf.as_slice(), 0, count);
            let shares = share_chunk(&field, xs.as_slice(), secret, &fresh);
            let ghost before = outputs@;
            match write_chunks(outputs, &shares) {
                Err(e) => {
                    return Err(e);
                },
                Ok(()) => {},
            }
            proof {
                let longer = done + secret@;
                let both = concat_rows(coefficients, rows(fresh@));
                assert(secret@ =~= message.skip(done.len() as int).take(count as int));
                assert(longer =~= message.take(longer.len() as int));
                assert(message.skip(done.len() as int).skip(count as int) =~= message.skip(
                    longer.len() as int,
                ));
                assert forall|j: int| 0 <= j < outputs@.len() implies (
                #[trigger] outputs@[j]).writer.written() == old(outputs)@[j].writer.written()
                    + shamir_share(longer, both, xs@[j]) by {
                    lemma_share_concat(done, coefficients, secret@, rows(fresh@), xs@[j]);
                    assert(before[j].writer.written() == old(outputs)@[j].writer.written()
                        + shamir_share(done, coefficients, xs@[j]));
                    assert(shares@[j]@ == shamir_share(secret@, rows(fresh@), xs@[j]));
                    let base = old(outputs)@[j].writer.written();
                    let first = shamir_share(done, coefficients, xs@[j]);
                    let second = shamir_share(secret@, rows(fresh@), xs@[j]);
                    assert(base + first + second =~= base + (first + second));
                }
                lemma_share_concat(done, coefficients, secret@, rows(fresh@), 0);
                done = longer;
                coefficients = both;
            }
        }
        proof {
            let before = old(outputs)@;
            let after = outputs@;
            let parts = appended(before, after);
            assert forall|j: int| 0 <= j < before.len() implies #[trigger] parts[j]
                == shamir_share(message, coefficients, output_xs(before)[j]) by {
                assert(after[j].writer.written() == before[j].writer.written() + shamir_share(
                    message,
                    coefficients,
                    xs@[j],
                ));
                assert((before[j].writer.written() + shamir_share(
                    message,
                    coefficients,
                    xs@[j],
                )).skip(before[j].writer.written().len() as int) =~= shamir_share(
                    message,
                    coefficients,
                    xs@[j],
                ));
            }
            assert(is_sharing_with(
                self.threshold(),
                message,
                output_xs(before),
                parts,
                coefficients,
            ));
            assert forall|j: int| 0 <= j < before.len() implies (
            #[trigger] after[j]).writer.written() == before[j].writer.written() + parts[j] by {
                assert(after[j].writer.written() == before[j].writer.written() + shamir_share(
                    message,
                    coefficients,
                    xs@[j],
                ));
            }
        }
        Ok(())
    }


    /// Writes to `output` the secret whose shares `inputs` deliver, as far as
    /// the shortest of them reaches. Returns `output`.
    fn join<R: Read, W: Write>(&self, inputs: &mut Vec<InputPartition<R>>, output: W) -> (r:
        Result<W, StreamError>) {
        proof {
            let xs = input_xs(inputs@);
            let shares = input_remaining(inputs@);
            assert forall|message: Seq<u8>| #[trigger]
                is_shamir_sharing(self.threshold(), message, xs, shares) implies Some(
                shamir_combine(xs, shares, join_len(shares, None)),
            ) == Some(message) by {
                lemma_shamir_round_trip(self.threshold(), message, xs, shares);
            }
        }
        self.join_up_to(inputs, output, None)
    }
}

} // verus!
