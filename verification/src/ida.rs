//! Rabin's information dispersal of a byte stream: every `k` bytes are the
//! values at `0, 1, .., k - 1` of a polynomial of degree below `k`, and the
//! share with index `x` holds the values of these polynomials at `x`.

use crate::error::StreamError;
use crate::gf256::{
    gf_add, gf_inv, gf_mul, lemma_mul_associative, lemma_mul_commutative, lemma_mul_zero_one, Gf256,
};
use crate::interpolation::{
    basis, lemma_basis_at_node, lemma_interpolation, lemma_mul_four, lemma_sum_exchange,
    lemma_sum_ext, lemma_sum_scale, lemma_sum_single, product_except, sum, term,
};
use crate::io::{Read, Write};
use crate::padding::{lemma_pad_len, lemma_unpad_pad, pad, unpad};
use crate::padding_streaming::{Op, PaddedReader, PaddedWriter};
use crate::partitioner::{
    appended, chosen, collect_input_xs, collect_output_xs, input_remaining, input_xs,
    inputs_reliable, inputs_wf, is_choice, lemma_chosen_valid, lemma_shortest_bound,
    lemma_shortest_limits, lemma_shortest_shift, output_xs, outputs_reliable, outputs_wf,
    read_chunks, rows, shortest, write_chunks, InputPartition, OutputPartition, Partitioner,
};
use crate::poly::{lagrange_coefficient, lagrange_eval, lemma_coefficient_is_basis};
use crate::shamir::lemma_all_as_long;
use crate::utils::{read_full, zero_bytes};
use vstd::arithmetic::div_mod::{lemma_mod_is_zero, lemma_small_mod};
use vstd::prelude::*;

verus! {

/// The number of bytes that are read from a stream in one step.
pub const BUF_SIZE: usize = 1024;

/// The nodes at which the bytes of a row are the values: `0, 1, .., k - 1`.
pub open spec fn data_xs(k: int) -> Seq<u8> {
    Seq::new(k as nat, |i: int| i as u8)
}

/// The sum of the products of the first `n` entries of `a` and `b`.
pub open spec fn dot(a: Seq<u8>, b: Seq<u8>, n: int) -> u8
    decreases n,
{
    if n <= 0 {
        0
    } else {
        gf_add(dot(a, b, n - 1), gf_mul(a[n - 1], b[n - 1]))
    }
}

/// For each row of `k` bytes of `data`, its product with `coefficients`.
pub open spec fn encode(data: Seq<u8>, k: int, coefficients: Seq<u8>) -> Seq<u8>
    decreases data.len(),
{
    if k <= 0 || data.len() < k {
        Seq::empty()
    } else {
        encode(data.take(data.len() - k), k, coefficients).push(
            dot(data.skip(data.len() - k), coefficients, k),
        )
    }
}

/// The values at `x` of the Lagrange basis polynomials for the data nodes.
pub open spec fn encode_coefficients(k: int, x: u8) -> Seq<u8> {
    Seq::new(k as nat, |i: int| lagrange_coefficient(data_xs(k), i, x))
}

/// The share with index `x` of `data`, whose length is a multiple of `k`: for
/// each row the value at `x` of the polynomial through the bytes of the row.
pub open spec fn ida_share(data: Seq<u8>, k: int, x: u8) -> Seq<u8> {
    encode(data, k, encode_coefficients(k, x))
}

/// The shares of `data` for the indices `xs`.
pub open spec fn ida_shares(data: Seq<u8>, k: int, xs: Seq<u8>) -> Seq<Seq<u8>> {
    Seq::new(xs.len(), |j: int| ida_share(data, k, xs[j]))
}

/// The values at the data node `i` of the Lagrange basis polynomials for the
/// nodes `xs`.
pub open spec fn decode_coefficients(xs: Seq<u8>, i: int) -> Seq<u8> {
    Seq::new(xs.len(), |j: int| lagrange_coefficient(xs, j, i as u8))
}

/// The byte at `r` of each share.
pub open spec fn share_column(shares: Seq<Seq<u8>>, r: int) -> Seq<u8> {
    Seq::new(shares.len(), |j: int| shares[j][r])
}

/// The row of data whose values at the nodes `xs` are the bytes at `r` of
/// `shares`.
pub open spec fn decode_row(xs: Seq<u8>, shares: Seq<Seq<u8>>, r: int) -> Seq<u8> {
    Seq::new(
        xs.len(),
        |i: int| dot(decode_coefficients(xs, i), share_column(shares, r), xs.len() as int),
    )
}

/// The first `count` rows of the data whose shares with the indices `xs` are
/// `shares`.
pub open spec fn ida_decode(xs: Seq<u8>, shares: Seq<Seq<u8>>, count: int) -> Seq<u8>
    decreases count,
{
    if count <= 0 {
        Seq::empty()
    } else {
        ida_decode(xs, shares, count - 1) + decode_row(xs, shares, count - 1)
    }
}

/// A dot product looks at the first `n` entries only.
pub proof fn lemma_dot_ext(a: Seq<u8>, b: Seq<u8>, c: Seq<u8>, d: Seq<u8>, n: int)
    requires
        forall|i: int| 0 <= i < n ==> a[i] == c[i] && b[i] == d[i],
    ensures
        dot(a, b, n) == dot(c, d, n),
    decreases n,
{
    if n > 0 {
        lemma_dot_ext(a, b, c, d, n - 1);
    }
}

/// Each row gives one byte.
pub proof fn lemma_encode_len(data: Seq<u8>, k: int, coefficients: Seq<u8>)
    requires
        k >= 1,
        data.len() % (k as nat) == 0,
    ensures
        encode(data, k, coefficients).len() * k == data.len(),
    decreases data.len(),
{
    if data.len() >= k {
        lemma_rows_step(data.len() as int, k);
        lemma_encode_len(data.take(data.len() - k), k, coefficients);
        assert((encode(data.take(data.len() - k), k, coefficients).len() + 1) * k == encode(
            data.take(data.len() - k),
            k,
            coefficients,
        ).len() * k + k) by (nonlinear_arith);
    } else {
        if data.len() > 0 {
            lemma_small_mod(data.len(), k as nat);
        }
        assert(0 * k == 0);
    }
}

/// Without its last row, a whole number of rows is a whole number of rows.
pub proof fn lemma_rows_step(len: int, k: int)
    requires
        k >= 1,
        len >= 0,
        len % k == 0,
    ensures
        len == 0 || len >= k,
        len >= k ==> (len - k) % k == 0,
        (len + k) % k == 0,
{
    if len > 0 {
        lemma_mod_is_zero(len as nat, k as nat);
    }
    vstd::arithmetic::div_mod::lemma_mod_sub_multiples_vanish(len, k);
    vstd::arithmetic::div_mod::lemma_mod_add_multiples_vanish(len, k);
}

/// The code of two pieces of data in a row is the two codes in a row.
pub proof fn lemma_encode_concat(first: Seq<u8>, second: Seq<u8>, k: int, coefficients: Seq<u8>)
    requires
        k >= 1,
        second.len() % (k as nat) == 0,
    ensures
        encode(first + second, k, coefficients) == encode(first, k, coefficients) + encode(
            second,
            k,
            coefficients,
        ),
    decreases second.len(),
{
    lemma_rows_step(second.len() as int, k);
    if second.len() == 0 {
        assert(first + second =~= first);
        assert(encode(first, k, coefficients) + Seq::<u8>::empty() =~= encode(
            first,
            k,
            coefficients,
        ));
    } else {
        let both = first + second;
        let cut = second.len() - k;
        assert(both.take(both.len() - k) =~= first + second.take(cut));
        assert(both.skip(both.len() - k) =~= second.skip(cut));
        lemma_encode_concat(first, second.take(cut), k, coefficients);
        assert(encode(first, k, coefficients) + encode(second.take(cut), k, coefficients).push(
            dot(second.skip(cut), coefficients, k),
        ) =~= (encode(first, k, coefficients) + encode(second.take(cut), k, coefficients)).push(
            dot(second.skip(cut), coefficients, k),
        ));
    }
}

/// The code of `data`, of which every `k` bytes are a row: one byte for each
/// row and each row of `matrix`.
pub fn encode_chunk(field: &Gf256, matrix: &Vec<Vec<u8>>, data: &[u8], k: usize) -> (r: Vec<
    Vec<u8>,
>)
    requires
        field.wf(),
        k >= 1,
        data@.len() % (k as nat) == 0,
        forall|j: int| 0 <= j < matrix@.len() ==> (#[trigger] matrix@[j])@.len() == k,
    ensures
        r@.len() == matrix@.len(),
        forall|j: int|
            0 <= j < matrix@.len() ==> (#[trigger] r@[j])@ == encode(
                data@,
                k as int,
                matrix@[j]@,
            ),
{
    let n = matrix.len();
    let len = data.len();
    let mut shares: Vec<Vec<u8>> = Vec::new();
    let mut j: usize = 0;
    while j < n
        invariant
            field.wf(),
            j <= n,
            n == matrix@.len(),
            len == data@.len(),
            k >= 1,
            len % k == 0,
            forall|i: int| 0 <= i < n ==> (#[trigger] matrix@[i])@.len() == k,
            shares@.len() == j,
            forall|i: int|
                0 <= i < j ==> (#[trigger] shares@[i])@ == encode(data@, k as int, matrix@[i]@),
        decreases n - j,
    {
        assert(matrix@[j as int]@.len() == k);
        let share = encode_rows(field, matrix[j].as_slice(), data, k);
        shares.push(share);
        j += 1;
    }
    shares
}

/// The products of the rows of `data` with `coefficients`.
fn encode_rows(field: &Gf256, coefficients: &[u8], data: &[u8], k: usize) -> (r: Vec<u8>)
    requires
        field.wf(),
        k >= 1,
        data@.len() % (k as nat) == 0,
        coefficients@.len() == k,
    ensures
        r@ == encode(data@, k as int, coefficients@),
{
    let len = data.len();
    let mut share: Vec<u8> = Vec::new();
    let mut pos: usize = 0;
    proof {
        assert(data@.take(0).len() < k);
    }
    while pos < len
        invariant
            field.wf(),
            pos <= len,
            len == data@.len(),
            k >= 1,
            coefficients@.len() == k,
            len % k == 0,
            pos % k == 0,
            share@ == encode(data@.take(pos as int), k as int, coefficients@),
        decreases len - pos,
    {
        proof {
            vstd::arithmetic::div_mod::lemma_sub_mod_noop(len as int, pos as int, k as int);
            lemma_small_mod(0, k as nat);
            lemma_rows_step((len - pos) as int, k as int);
            lemma_rows_step(pos as int, k as int);
        }
        let mut sum: u8 = 0;
        let mut i: usize = 0;
        let ghost row = data@.subrange(pos as int, pos + k);
        while i < k
            invariant
                field.wf(),
                i <= k,
                pos + k <= len,
                len == data@.len(),
                coefficients@.len() == k,
                row == data@.subrange(pos as int, pos + k),
                sum == dot(row, coefficients@, i as int),
            decreases k - i,
        {
            sum = field.add(sum, field.mult(data[pos + i], coefficients[i]));
            i += 1;
        }
        share.push(sum);
        proof {
            let longer = data@.take(pos + k);
            assert(longer.take(longer.len() - k) =~= data@.take(pos as int));
            assert(longer.skip(longer.len() - k) =~= row);
        }
        pos += k;
    }
    proof {
        assert(data@.take(len as int) =~= data@);
    }
    share
}

/// The rows of data whose values at the nodes of the shares are the first
/// `count` bytes of each of `chunks`; row `i` of `matrix` holds the values at
/// the data node `i` of the basis polynomials for the nodes of the shares.
pub fn decode_chunk(
    field: &Gf256,
    matrix: &Vec<Vec<u8>>,
    chunks: &Vec<Vec<u8>>,
    count: usize,
) -> (r: Vec<u8>)
    requires
        field.wf(),
        matrix@.len() == chunks@.len(),
        forall|i: int| 0 <= i < matrix@.len() ==> (#[trigger] matrix@[i])@.len() == chunks@.len(),
        forall|j: int| 0 <= j < chunks@.len() ==> (#[trigger] chunks@[j])@.len() >= count,
    ensures
        r@ == decode_with(rows(matrix@), rows(chunks@), count as int),
{
    let k = matrix.len();
    let mut out: Vec<u8> = Vec::new();
    let mut r: usize = 0;
    while r < count
        invariant
            field.wf(),
            r <= count,
            k == matrix@.len(),
            k == chunks@.len(),
            forall|i: int| 0 <= i < k ==> (#[trigger] matrix@[i])@.len() == k,
            forall|j: int| 0 <= j < k ==> (#[trigger] chunks@[j])@.len() >= count,
            out@ == decode_with(rows(matrix@), rows(chunks@), r as int),
        decreases count - r,
    {
        let ghost column = share_column(rows(chunks@), r as int);
        let ghost before = out@;
        let mut i: usize = 0;
        while i < k
            invariant
                field.wf(),
                i <= k,
                r < count,
                k == matrix@.len(),
                k == chunks@.len(),
                forall|i: int| 0 <= i < k ==> (#[trigger] matrix@[i])@.len() == k,
                forall|j: int| 0 <= j < k ==> (#[trigger] chunks@[j])@.len() >= count,
                column == share_column(rows(chunks@), r as int),
                out@.len() == before.len() + i,
                out@.take(before.len() as int) == before,
                forall|e: int|
                    0 <= e < i ==> #[trigger] out@[before.len() + e] == dot(
                        rows(matrix@)[e],
                        column,
                        k as int,
                    ),
            decreases k - i,
        {
            let mut sum: u8 = 0;
            let mut j: usize = 0;
            while j < k
                invariant
                    field.wf(),
                    j <= k,
                    i < k,
                    r < count,
                    k == matrix@.len(),
                    k == chunks@.len(),
                    forall|i: int| 0 <= i < k ==> (#[trigger] matrix@[i])@.len() == k,
                    forall|j: int| 0 <= j < k ==> (#[trigger] chunks@[j])@.len() >= count,
                    column == share_column(rows(chunks@), r as int),
                    sum == dot(rows(matrix@)[i as int], column, j as int),
                decreases k - j,
            {
                assert(matrix@[i as int]@.len() == k);
                assert(chunks@[j as int]@.len() >= count);
                sum = field.add(sum, field.mult(matrix[i][j], chunks[j][r]));
                j += 1;
            }
            let ghost old_out = out@;
            out.push(sum);
            proof {
                assert(out@.take(before.len() as int) =~= old_out.take(before.len() as int));
            }
            i += 1;
        }
        proof {
            let row = Seq::new(
                k as nat,
                |e: int| dot(rows(matrix@)[e], share_column(rows(chunks@), r as int), k as int),
            );
            assert forall|e: int| 0 <= e < out@.len() implies out@[e] == (before + row)[e] by {
                if e < before.len() {
                    assert(out@.take(before.len() as int)[e] == before[e]);
                } else {
                    assert(out@[before.len() + (e - before.len())] == row[e - before.len()]);
                }
            }
            assert(out@ =~= before + row);
        }
        r += 1;
    }
    out
}

/// The first `count` rows of data that the rows of `matrix` make of the
/// columns of `shares`.
pub open spec fn decode_with(matrix: Seq<Seq<u8>>, shares: Seq<Seq<u8>>, count: int) -> Seq<u8>
    decreases count,
{
    if count <= 0 {
        Seq::empty()
    } else {
        decode_with(matrix, shares, count - 1) + Seq::new(
            matrix.len(),
            |i: int| dot(matrix[i], share_column(shares, count - 1), matrix.len() as int),
        )
    }
}

/// Decoding with the matrix of the basis polynomials is decoding.
pub proof fn lemma_decode_with(xs: Seq<u8>, matrix: Seq<Seq<u8>>, shares: Seq<Seq<u8>>, count: int)
    requires
        matrix.len() == xs.len(),
        shares.len() == xs.len(),
        forall|i: int| 0 <= i < xs.len() ==> (#[trigger] matrix[i]).len() == xs.len(),
        forall|i: int, j: int|
            0 <= i < xs.len() && 0 <= j < xs.len() ==> #[trigger] matrix[i][j]
                == lagrange_coefficient(xs, j, i as u8),
    ensures
        decode_with(matrix, shares, count) == ida_decode(xs, shares, count),
    decreases count,
{
    if count > 0 {
        lemma_decode_with(xs, matrix, shares, count - 1);
        let k = xs.len() as int;
        let column = share_column(shares, count - 1);
        assert forall|i: int| 0 <= i < k implies dot(matrix[i], column, k) == dot(
            decode_coefficients(xs, i),
            column,
            k,
        ) by {
            lemma_dot_ext(matrix[i], column, decode_coefficients(xs, i), column, k);
        }
        assert(Seq::new(xs.len(), |i: int| dot(matrix[i], column, k)) =~= decode_row(
            xs,
            shares,
            count - 1,
        ));
    }
}

/// A row of data depends on one byte of each share only.
pub proof fn lemma_decode_row_ext(
    xs: Seq<u8>,
    shares: Seq<Seq<u8>>,
    r: int,
    chunks: Seq<Seq<u8>>,
    q: int,
)
    requires
        shares.len() == xs.len(),
        chunks.len() == xs.len(),
        forall|j: int| 0 <= j < xs.len() ==> (#[trigger] chunks[j])[q] == shares[j][r],
    ensures
        decode_row(xs, chunks, q) == decode_row(xs, shares, r),
{
    assert(share_column(chunks, q) =~= share_column(shares, r));
}

/// Decoding looks at the first `count` bytes of each share only, and what
/// comes after `done` rows can be decoded by itself.
pub proof fn lemma_decode_window(
    xs: Seq<u8>,
    shares: Seq<Seq<u8>>,
    chunks: Seq<Seq<u8>>,
    done: int,
    count: int,
)
    requires
        0 <= done,
        0 <= count,
        shares.len() == xs.len(),
        chunks.len() == xs.len(),
        forall|j: int|
            0 <= j < xs.len() ==> (#[trigger] chunks[j]).take(count) == shares[j].subrange(
                done,
                done + count,
            ),
        forall|j: int| 0 <= j < xs.len() ==> (#[trigger] chunks[j]).len() >= count,
        forall|j: int| 0 <= j < xs.len() ==> (#[trigger] shares[j]).len() >= done + count,
    ensures
        ida_decode(xs, shares, done + count) == ida_decode(xs, shares, done) + ida_decode(
            xs,
            chunks,
            count,
        ),
    decreases count,
{
    let first = ida_decode(xs, shares, done);
    if count == 0 {
        assert(first + Seq::<u8>::empty() =~= first);
    } else {
        assert forall|j: int| 0 <= j < xs.len() implies (#[trigger] chunks[j]).take(count - 1)
            == shares[j].subrange(done, done + count - 1) by {
            assert(chunks[j].take(count - 1) =~= chunks[j].take(count).take(count - 1));
            assert(shares[j].subrange(done, done + count - 1) =~= shares[j].subrange(
                done,
                done + count,
            ).take(count - 1));
        }
        lemma_decode_window(xs, shares, chunks, done, count - 1);
        assert forall|j: int| 0 <= j < xs.len() implies (#[trigger] chunks[j])[count - 1]
            == shares[j][done + count - 1] by {
            assert(chunks[j].take(count)[count - 1] == shares[j].subrange(done, done + count)[count
                - 1]);
        }
        lemma_decode_row_ext(xs, shares, done + count - 1, chunks, count - 1);
        let middle = ida_decode(xs, chunks, count - 1);
        let last = decode_row(xs, chunks, count - 1);
        assert(first + middle + last =~= first + (middle + last));
    }
}

/// A dot product is a sum.
pub proof fn lemma_dot_is_sum(a: Seq<u8>, b: Seq<u8>, n: int)
    ensures
        dot(a, b, n) == sum(|i: int| gf_mul(a[i], b[i]), n),
    decreases n,
{
    if n > 0 {
        lemma_dot_is_sum(a, b, n - 1);
    }
}

/// No data node occurs twice.
pub proof fn lemma_data_xs(k: int)
    requires
        0 <= k <= 256,
    ensures
        data_xs(k).no_duplicates(),
        data_xs(k).len() == k,
{
}

/// The byte at `i` of a row is what decoding makes of the values at the
/// nodes `xs` of the polynomial through the row.
pub proof fn lemma_row_round_trip(k: int, xs: Seq<u8>, row: Seq<u8>, i: int)
    requires
        1 <= k <= 256,
        xs.len() == k,
        xs.no_duplicates(),
        0 <= i < k,
    ensures
        dot(
            decode_coefficients(xs, i),
            Seq::new(k as nat, |j: int| dot(row, encode_coefficients(k, xs[j]), k)),
            k,
        ) == row[i],
{
    let data = data_xs(k);
    let t = i as u8;
    let column = Seq::new(k as nat, |j: int| dot(row, encode_coefficients(k, xs[j]), k));
    let decode = decode_coefficients(xs, i);
    let f = |j: int, m: int|
        gf_mul(basis(xs, j, t), gf_mul(row[m], basis(data, m, xs[j])));
    let outer = |j: int| gf_mul(decode[j], column[j]);
    let by_rows = |j: int| sum(|m: int| f(j, m), k);
    let by_columns = |m: int| sum(|j: int| f(j, m), k);
    let single = |m: int|
        gf_mul(
            row[m],
            if m == i {
                1u8
            } else {
                0u8
            },
        );
    lemma_data_xs(k);
    lemma_dot_is_sum(decode, column, k);
    assert forall|j: int| 0 <= j < k implies #[trigger] outer(j) == by_rows(j) by {
        let encode = encode_coefficients(k, xs[j]);
        let inner = |m: int| gf_mul(row[m], encode[m]);
        let plain = |m: int| gf_mul(row[m], basis(data, m, xs[j]));
        let scaled = |m: int| f(j, m);
        lemma_coefficient_is_basis(xs, j, t);
        lemma_dot_is_sum(row, encode, k);
        assert forall|m: int| 0 <= m < k implies #[trigger] inner(m) == plain(m) by {
            lemma_coefficient_is_basis(data, m, xs[j]);
        }
        lemma_sum_ext(inner, plain, k);
        lemma_sum_scale(basis(xs, j, t), plain, scaled, k);
    }
    lemma_sum_ext(outer, by_rows, k);
    lemma_sum_exchange(f, k, k);
    assert forall|m: int| 0 <= m < k implies #[trigger] by_columns(m) == single(m) by {
        let lower = gf_inv(product_except(data, m, data[m], k));
        let c = gf_mul(row[m], lower);
        let values = |j: int| term(xs, data, m, t, j);
        let scaled = |j: int| f(j, m);
        assert forall|j: int| 0 <= j < k implies #[trigger] scaled(j) == gf_mul(
            c,
            values(j),
        ) by {
            let b = basis(xs, j, t);
            let upper = product_except(data, m, xs[j], k);
            // b * (row * (upper * lower)) == (row * lower) * (b * upper)
            lemma_mul_commutative(upper, lower);
            lemma_mul_associative(row[m], lower, upper);
            lemma_mul_four(1, b, c, upper);
            lemma_mul_zero_one(b);
            lemma_mul_zero_one(c);
            lemma_mul_commutative(gf_mul(c, upper), b);
            lemma_mul_commutative(gf_mul(b, upper), c);
            lemma_mul_associative(c, b, upper);
            lemma_mul_associative(c, upper, b);
            lemma_mul_commutative(b, upper);
        }
        lemma_sum_scale(c, values, scaled, k);
        lemma_interpolation(xs, data, m, t);
        lemma_mul_associative(row[m], lower, product_except(data, m, t, k));
        lemma_mul_commutative(lower, product_except(data, m, t, k));
        lemma_basis_at_node(data, m, i);
    }
    lemma_sum_ext(by_columns, single, k);
    assert forall|m: int| 0 <= m < k && m != i implies #[trigger] single(m) == 0 by {
        lemma_mul_zero_one(row[m]);
    }
    lemma_sum_single(single, i, k);
    lemma_mul_zero_one(row[i]);
}

/// Decoding looks at the first `count` bytes of each share only.
pub proof fn lemma_decode_ext(xs: Seq<u8>, first: Seq<Seq<u8>>, second: Seq<Seq<u8>>, count: int)
    requires
        first.len() == xs.len(),
        second.len() == xs.len(),
        forall|j: int, r: int|
            0 <= j < xs.len() && 0 <= r < count ==> #[trigger] first[j][r] == second[j][r],
    ensures
        ida_decode(xs, first, count) == ida_decode(xs, second, count),
    decreases count,
{
    if count > 0 {
        lemma_decode_ext(xs, first, second, count - 1);
        assert forall|j: int| 0 <= j < xs.len() implies (#[trigger] first[j])[count - 1]
            == second[j][count - 1] by {
            assert(first[j][count - 1] == second[j][count - 1]);
        }
        lemma_decode_row_ext(xs, second, count - 1, first, count - 1);
    }
}

/// Decoding the shares of data gives the data.
pub proof fn lemma_decode_shares(k: int, xs: Seq<u8>, data: Seq<u8>)
    requires
        1 <= k <= 256,
        xs.len() == k,
        xs.no_duplicates(),
        data.len() % (k as nat) == 0,
    ensures
        forall|j: int|
            0 <= j < k ==> (#[trigger] ida_shares(data, k, xs)[j]).len() * k == data.len(),
        ida_decode(xs, ida_shares(data, k, xs), ida_shares(data, k, xs)[0].len() as int) == data,
    decreases data.len(),
{
    let shares = ida_shares(data, k, xs);
    assert forall|j: int| 0 <= j < k implies (#[trigger] shares[j]).len() * k == data.len() by {
        lemma_encode_len(data, k, encode_coefficients(k, xs[j]));
    }
    lemma_rows_step(data.len() as int, k);
    if data.len() == 0 {
        assert(shares[0].len() * k == 0);
        assert(shares[0].len() == 0) by (nonlinear_arith)
            requires
                shares[0].len() * k == 0,
                k >= 1,
        ;
        assert(ida_decode(xs, shares, 0) =~= data);
    } else {
        let cut = data.len() - k;
        let front = data.take(cut);
        let row = data.skip(cut);
        let fewer = ida_shares(front, k, xs);
        lemma_decode_shares(k, xs, front);
        let count = fewer[0].len() as int;
        assert forall|j: int| 0 <= j < k implies (#[trigger] fewer[j]).len() == count by {
            lemma_encode_len(front, k, encode_coefficients(k, xs[j]));
            assert(fewer[j].len() * k == fewer[0].len() * k);
            assert(fewer[j].len() == fewer[0].len()) by (nonlinear_arith)
                requires
                    fewer[j].len() * k == fewer[0].len() * k,
                    k >= 1,
            ;
        }
        assert forall|j: int| 0 <= j < k implies #[trigger] shares[j] == fewer[j].push(
            dot(row, encode_coefficients(k, xs[j]), k),
        ) by {
            assert(fewer[j] == encode(front, k, encode_coefficients(k, xs[j])));
        }
        assert(shares[0].len() == count + 1);
        assert forall|j: int, r: int| 0 <= j < k && 0 <= r < count implies #[trigger] shares[j][r]
            == fewer[j][r] by {
            assert(shares[j] == fewer[j].push(dot(row, encode_coefficients(k, xs[j]), k)));
            assert(fewer[j].len() == count);
        }
        lemma_decode_ext(xs, shares, fewer, count);
        let column = Seq::new(k as nat, |j: int| dot(row, encode_coefficients(k, xs[j]), k));
        assert(share_column(shares, count) =~= column) by {
            assert forall|j: int| 0 <= j < k implies share_column(shares, count)[j]
                == column[j] by {
                assert(shares[j] == fewer[j].push(dot(row, encode_coefficients(k, xs[j]), k)));
                assert(fewer[j].len() == count);
            }
        }
        assert forall|i: int| 0 <= i < k implies decode_row(xs, shares, count)[i] == row[i] by {
            lemma_row_round_trip(k, xs, row, i);
        }
        assert(decode_row(xs, shares, count) =~= row);
        assert(front + row =~= data);
    }
}

/// Joining undoes splitting: the shares of a message for as many different
/// indices as the threshold join to the message.
pub proof fn lemma_ida_round_trip(k: int, message: Seq<u8>, xs: Seq<u8>, shares: Seq<Seq<u8>>)
    requires
        1 <= k <= 256,
        xs.len() == k,
        xs.no_duplicates(),
        shares == ida_shares(pad(message, k), k, xs),
    ensures
        ida_join(xs, shares) == Some(message),
{
    let padded = pad(message, k);
    lemma_pad_len(message, k);
    lemma_decode_shares(k, xs, padded);
    let count = shares[0].len() as int;
    assert forall|j: int| 0 <= j < k implies (#[trigger] shares[j]).len() == count by {
        assert(shares[j].len() * k == shares[0].len() * k);
        assert(shares[j].len() == shares[0].len()) by (nonlinear_arith)
            requires
                shares[j].len() * k == shares[0].len() * k,
                k >= 1,
        ;
    }
    lemma_all_as_long(shares, count, k);
    lemma_unpad_pad(message, k);
}

/// Some of the shares of data are the shares of the data for their indices.
pub proof fn lemma_ida_choice(data: Seq<u8>, k: int, xs: Seq<u8>, picks: Seq<int>)
    requires
        is_choice(picks, xs.len() as int, picks.len() as int),
    ensures
        chosen(ida_shares(data, k, xs), picks) == ida_shares(data, k, chosen(xs, picks)),
{
    assert(chosen(ida_shares(data, k, xs), picks) =~= ida_shares(data, k, chosen(xs, picks)));
}

/// The share of a message has one byte for each `k` bytes of the message,
/// and one more.
pub proof fn lemma_ida_share_len(message: Seq<u8>, k: int, x: u8)
    requires
        1 <= k,
    ensures
        ida_share(pad(message, k), k, x).len() == message.len() / (k as nat) + 1,
{
    let padded = pad(message, k);
    let len = message.len() as int;
    let share = ida_share(padded, k, x);
    lemma_pad_len(message, k);
    lemma_encode_len(padded, k, encode_coefficients(k, x));
    vstd::arithmetic::div_mod::lemma_fundamental_div_mod(len, k);
    assert(share.len() == len / k + 1) by (nonlinear_arith)
        requires
            share.len() * k == len + k - len % k,
            len == k * (len / k) + len % k,
            k >= 1,
    ;
}

/// Rabin's scheme with a threshold.
pub struct Ida {
    k: u8,
}

/// The data nodes `0, 1, .., k - 1`.
fn data_nodes(k: u8) -> (r: Vec<u8>)
    ensures
        r@ == data_xs(k as int),
{
    let mut nodes: Vec<u8> = Vec::new();
    let mut i: u8 = 0;
    while i < k
        invariant
            i <= k,
            nodes@.len() == i,
            forall|e: int| 0 <= e < i ==> nodes@[e] == e as u8,
        decreases k - i,
    {
        nodes.push(i);
        i += 1;
    }
    assert(nodes@ =~= data_xs(k as int));
    nodes
}

impl Ida {
    /// The scheme in which `k` shares recover the data.
    pub fn new(k: u8) -> (r: Self)
        requires
            k > 1,
        ensures
            r.wf(),
            r.threshold() == k,
    {
        Ida { k }
    }
}

impl Partitioner for Ida {
    closed spec fn wf(&self) -> bool {
        self.k >= 2
    }

    closed spec fn threshold(&self) -> int {
        self.k as int
    }

    open spec fn is_sharing(&self, message: Seq<u8>, xs: Seq<u8>, shares: Seq<Seq<u8>>) -> bool {
        shares == ida_shares(pad(message, self.threshold()), self.threshold(), xs)
    }

    open spec fn joined(&self, xs: Seq<u8>, shares: Seq<Seq<u8>>) -> Option<Seq<u8>> {
        ida_join(xs, shares)
    }

    fn threshold_value(&self) -> (k: u8) {
        self.k
    }

    open spec fn draws_random(&self, len: nat) -> bool {
        false
    }

    open spec fn premises(&self) -> bool {
        true
    }

    proof fn lemma_round_trip(&self, message: Seq<u8>, xs: Seq<u8>, shares: Seq<Seq<u8>>) {
        lemma_ida_round_trip(self.threshold(), message, xs, shares);
    }

    proof fn lemma_choice(
        &self,
        message: Seq<u8>,
        xs: Seq<u8>,
        shares: Seq<Seq<u8>>,
        picks: Seq<int>,
    ) {
        lemma_chosen_valid(xs, picks);
        lemma_ida_choice(pad(message, self.threshold()), self.threshold(), xs, picks);
    }

    proof fn lemma_threshold(&self) {
    }

    /// Writes to each of `outputs` its share of all that `input` delivers,
    /// padded to rows of `k` bytes.
    #[verifier::rlimit(60)]
    fn split<R: Read, W: Write>(&self, input: R, outputs: &mut Vec<OutputPartition<W>>) -> (r:
        Result<(), StreamError>) {
        let k = self.k as usize;
        let field = Gf256::new();
        let xs = collect_output_xs(outputs);
        let nodes = data_nodes(self.k);
        let matrix = lagrange_eval(&field, nodes.as_slice(), xs.as_slice());
        let mut source = PaddedReader::new(k, input, Op::Pad);
        let target = BUF_SIZE - BUF_SIZE % k;
        let mut read_buf = zero_bytes(BUF_SIZE);
        let ghost padded = source.remaining();
        let ghost mut done: Seq<u8> = Seq::empty();
        proof {
            lemma_pad_len(input.remaining(), k as int);
            vstd::arithmetic::div_mod::lemma_fundamental_div_mod(BUF_SIZE as int, k as int);
            vstd::arithmetic::div_mod::lemma_mod_multiples_basic((BUF_SIZE / k) as int, k as int);
            assert(target == k * (BUF_SIZE / k));
            assert(BUF_SIZE % k < k);
            vstd::arithmetic::mul::lemma_mul_is_commutative(k as int, (BUF_SIZE / k) as int);
            assert forall|j: int| 0 <= j < xs@.len() implies (#[trigger] matrix@[j])@
                == encode_coefficients(k as int, xs@[j]) by {
                assert(matrix@[j]@ =~= encode_coefficients(k as int, xs@[j]));
            }
            assert forall|j: int| 0 <= j < outputs@.len() implies (
            #[trigger] outputs@[j]).writer.written() == old(outputs)@[j].writer.written()
                + ida_share(done, k as int, xs@[j]) by {
                assert(outputs@[j].writer.written() + Seq::<u8>::empty()
                    =~= outputs@[j].writer.written());
            }
            assert(padded.skip(0) =~= padded);
            assert(padded.take(0) =~= done);
            lemma_small_mod(0, k as nat);
        }
        loop
            invariant
                field.wf(),
                source.wf(),
                source.reliable() == input.reliable(),
                2 <= k <= 255,
                k == self.threshold(),
                target % k == 0,
                1 <= target <= BUF_SIZE,
                read_buf@.len() == BUF_SIZE,
                xs@ == output_xs(old(outputs)@),
                matrix@.len() == xs@.len(),
                forall|j: int| 0 <= j < xs@.len() ==> (#[trigger] matrix@[j])@.len() == k,
                forall|j: int|
                    0 <= j < xs@.len() ==> (#[trigger] matrix@[j])@ == encode_coefficients(
                        k as int,
                        xs@[j],
                    ),
                outputs_wf(outputs@),
                outputs@.len() == old(outputs)@.len(),
                output_xs(outputs@) == output_xs(old(outputs)@),
                outputs_reliable(outputs@) == outputs_reliable(old(outputs)@),
                padded == pad(input.remaining(), k as int),
                padded.len() % (k as nat) == 0,
                done.len() % (k as nat) == 0,
                done.len() <= padded.len(),
                done == padded.take(done.len() as int),
                source.remaining() == padded.skip(done.len() as int),
                forall|j: int|
                    0 <= j < outputs@.len() ==> (#[trigger] outputs@[j]).writer.written()
                        == old(outputs)@[j].writer.written() + ida_share(done, k as int, xs@[j]),
            ensures
                done == padded,
                padded == pad(input.remaining(), k as int),
                k == self.threshold(),
                outputs_wf(outputs@),
                outputs@.len() == old(outputs)@.len(),
                output_xs(outputs@) == output_xs(old(outputs)@),
                outputs_reliable(outputs@) == outputs_reliable(old(outputs)@),
                xs@ == output_xs(old(outputs)@),
                forall|j: int|
                    0 <= j < outputs@.len() ==> (#[trigger] outputs@[j]).writer.written()
                        == old(outputs)@[j].writer.written() + ida_share(done, k as int, xs@[j]),
            decreases padded.len() - done.len(),
        {
            let (space, rest) = read_buf.as_mut_slice().split_at_mut(target);
            let read_size = match read_full(&mut source, space) {
                Err(e) => {
                    return Err(e);
                },
                Ok(count) => count,
            };
            proof {
                vstd::arithmetic::div_mod::lemma_sub_mod_noop(
                    padded.len() as int,
                    done.len() as int,
                    k as int,
                );
                lemma_small_mod(0, k as nat);
            }
            if read_size % k != 0 {
                return Err(StreamError::InvalidData);
            }
            if read_size == 0 {
                proof {
                    assert(padded.take(padded.len() as int) =~= padded);
                }
                break;
            }
            let data = vstd::slice::slice_subrange(read_buf.as_slice(), 0, read_size);
            let chunks = encode_chunk(&field, &matrix, data, k);
            let ghost before = outputs@;
            match write_chunks(outputs, &chunks) {
                Err(e) => {
                    return Err(e);
                },
                Ok(()) => {},
            }
            proof {
                let longer = done + data@;
                assert(data@ =~= read_buf@.take(read_size as int));
                assert(read_buf@.take(read_size as int) =~= space@.take(read_size as int));
                assert(data@ =~= padded.skip(done.len() as int).take(read_size as int));
                assert(longer =~= padded.take(longer.len() as int));
                assert(padded.skip(done.len() as int).skip(read_size as int) =~= padded.skip(
                    longer.len() as int,
                ));
                vstd::arithmetic::div_mod::lemma_add_mod_noop(
                    done.len() as int,
                    read_size as int,
                    k as int,
                );
                assert forall|j: int| 0 <= j < outputs@.len() implies (
                #[trigger] outputs@[j]).writer.written() == old(outputs)@[j].writer.written()
                    + ida_share(longer, k as int, xs@[j]) by {
                    let c = encode_coefficients(k as int, xs@[j]);
                    lemma_encode_concat(done, data@, k as int, c);
                    assert(before[j].writer.written() == old(outputs)@[j].writer.written()
                        + ida_share(done, k as int, xs@[j]));
                    assert(chunks@[j]@ == encode(data@, k as int, matrix@[j]@));
                    assert(old(outputs)@[j].writer.written() + encode(done, k as int, c) + encode(
                        data@,
                        k as int,
                        c,
                    ) =~= old(outputs)@[j].writer.written() + (encode(done, k as int, c) + encode(
                        data@,
                        k as int,
                        c,
                    )));
                }
                done = longer;
            }
        }
        proof {
            let before = old(outputs)@;
            let after = outputs@;
            let parts = appended(before, after);
            let wanted = ida_shares(padded, k as int, output_xs(before));
            assert forall|j: int| 0 <= j < before.len() implies #[trigger] parts[j]
                == wanted[j] by {
                let share = ida_share(padded, k as int, xs@[j]);
                assert(after[j].writer.written() == before[j].writer.written() + share);
                assert((before[j].writer.written() + share).skip(
                    before[j].writer.written().len() as int,
                ) =~= share);
            }
            assert(parts =~= wanted);
            assert forall|j: int| 0 <= j < before.len() implies (
            #[trigger] after[j]).writer.written() == before[j].writer.written() + parts[j] by {
                assert(after[j].writer.written() == before[j].writer.written() + ida_share(
                    padded,
                    k as int,
                    xs@[j],
                ));
            }
        }
        Ok(())
    }

    /// Writes to `output` the data whose shares `inputs` deliver, as far as
    /// the shortest of them reaches and without its padding. Returns
    /// `output`.
    ///
    /// Fails with `InvalidData` where the rows that the shares give do not end
    /// in a well-formed padding.
    #[verifier::rlimit(60)]
    fn join<R: Read, W: Write>(&self, inputs: &mut Vec<InputPartition<R>>, output: W) -> (r:
        Result<W, StreamError>)
    {
        proof {
            let xs = input_xs(inputs@);
            let shares = input_remaining(inputs@);
            assert forall|message: Seq<u8>| #[trigger]
                self.is_sharing(message, xs, shares) implies ida_join(xs, shares) == Some(
                message,
            ) by {
                lemma_ida_round_trip(self.threshold(), message, xs, shares);
            }
        }
        let k = self.k as usize;
        let field = Gf256::new();
        let xs = collect_input_xs(inputs);
        let nodes = data_nodes(self.k);
        let matrix = lagrange_eval(&field, xs.as_slice(), nodes.as_slice());
        let mut sink = PaddedWriter::new(k, output, Op::Unpad);
        let mut bufs: Vec<Vec<u8>> = Vec::new();
        let mut j: usize = 0;
        while j < k
            invariant
                j <= k,
                bufs@.len() == j,
                forall|i: int| 0 <= i < j ==> (#[trigger] bufs@[i])@.len() == BUF_SIZE,
            decreases k - j,
        {
            bufs.push(zero_bytes(BUF_SIZE));
            j += 1;
        }
        let ghost shares = input_remaining(inputs@);
        let ghost cap = shares[0].len() as int;
        let ghost target = shortest(shares, cap, k as int);
        let ghost mut done: int = 0;
        proof {
            lemma_shortest_bound(shares, cap, k as int);
            sink.lemma_view();
            output.lemma_follows_itself();
            assert forall|i: int| 0 <= i < k implies (#[trigger] inputs@[i]).reader.remaining()
                == shares[i].skip(0) by {
                assert(shares[i].skip(0) =~= shares[i]);
            }
            assert forall|i: int, e: int| 0 <= i < k && 0 <= e < k implies #[trigger] rows(
                matrix@,
            )[i][e] == lagrange_coefficient(xs@, e, i as u8) by {
                assert(nodes@[i] == i as u8);
            }
        }
        loop
            invariant_except_break
                forall|i: int|
                    0 <= i < k ==> (#[trigger] inputs@[i]).reader.remaining() == shares[i].skip(
                        done,
                    ),
            invariant
                field.wf(),
                2 <= k <= 255,
                k == inputs@.len(),
                k == old(inputs)@.len(),
                k == self.threshold(),
                bufs@.len() == k,
                forall|i: int| 0 <= i < k ==> (#[trigger] bufs@[i])@.len() == BUF_SIZE,
                xs@ == input_xs(old(inputs)@),
                matrix@.len() == k,
                forall|i: int| 0 <= i < k ==> (#[trigger] matrix@[i])@.len() == k,
                forall|i: int, e: int|
                    0 <= i < k && 0 <= e < k ==> #[trigger] rows(matrix@)[i][e]
                        == lagrange_coefficient(xs@, e, i as u8),
                shares == input_remaining(old(inputs)@),
                shares.len() == k,
                cap == shares[0].len(),
                target == shortest(shares, cap, k as int),
                forall|i: int| 0 <= i < k ==> target <= (#[trigger] shares[i]).len(),
                0 <= done <= target,
                inputs_wf(inputs@),
                input_xs(inputs@) == input_xs(old(inputs)@),
                inputs_reliable(inputs@) == inputs_reliable(old(inputs)@),
                sink.wf(),
                sink.base() == output.written(),
                sink.accepted() == ida_decode(xs@, shares, done),
                !sink.is_flushed(),
                sink.op() == Op::Unpad,
                sink.block_size() == k,
                sink.inner().reliable() == output.reliable(),
                sink.inner().follows(&output),
            ensures
                k == inputs@.len(),
                inputs_wf(inputs@),
                input_xs(inputs@) == input_xs(old(inputs)@),
                inputs_reliable(inputs@) == inputs_reliable(old(inputs)@),
                sink.wf(),
                sink.base() == output.written(),
                sink.accepted() == ida_decode(xs@, shares, target),
                !sink.is_flushed(),
                sink.op() == Op::Unpad,
                sink.block_size() == k,
                sink.inner().reliable() == output.reliable(),
                sink.inner().follows(&output),
            decreases target - done,
        {
            let ghost rest = Seq::new(k as nat, |i: int| shares[i].skip(done));
            proof {
                assert(input_remaining(inputs@) =~= rest);
            }
            let least = match read_chunks(inputs, &mut bufs, BUF_SIZE) {
                Err(e) => {
                    return Err(e);
                },
                Ok(least) => least,
            };
            proof {
                lemma_shortest_shift(shares, done, BUF_SIZE as int, k as int);
                lemma_shortest_bound(shares, cap, k as int);
                lemma_shortest_bound(shares, done + BUF_SIZE, k as int);
                if done + BUF_SIZE <= cap {
                    lemma_shortest_limits(shares, done + BUF_SIZE, cap, k as int);
                } else {
                    lemma_shortest_limits(shares, cap, done + BUF_SIZE, k as int);
                }
            }
            if least == 0 {
                break;
            }
            let decoded = decode_chunk(&field, &matrix, &bufs, least);
            proof {
                sink.lemma_view();
            }
            let ghost earlier = sink;
            match sink.write_all(decoded.as_slice()) {
                Err(e) => {
                    proof {
                        assert(!output.reliable());
                    }
                    return Err(e);
                },
                Ok(()) => {},
            }
            proof {
                sink.lemma_follows(earlier);
                sink.inner().lemma_follows_chain(&earlier.inner(), &output);
                lemma_decode_with(xs@, rows(matrix@), rows(bufs@), least as int);
                assert forall|i: int| 0 <= i < k implies (#[trigger] rows(bufs@)[i]).take(
                    least as int,
                ) == shares[i].subrange(done, done + least) by {
                    assert(bufs@[i]@.take(least as int) == rest[i].take(least as int));
                    assert(rest[i].take(least as int) =~= shares[i].subrange(done, done + least));
                }
                lemma_decode_window(xs@, shares, rows(bufs@), done, least as int);
                assert forall|i: int| 0 <= i < k && least == BUF_SIZE implies rest[i].skip(
                    BUF_SIZE as int,
                ) == shares[i].skip(done + BUF_SIZE) by {
                    assert(rest[i].skip(BUF_SIZE as int) =~= shares[i].skip(done + BUF_SIZE));
                }
                done = done + least;
            }
            if least < BUF_SIZE {
                break;
            }
        }
        proof {
            sink.lemma_view();
        }
        let ghost last = sink;
        match sink.flush() {
            Err(e) => Err(e),
            Ok(()) => {
                proof {
                    sink.inner().lemma_follows_chain(&last.inner(), &output);
                }
                Ok(sink.into_inner())
            },
        }
    }
}

impl Ida {
    /// The number of shares that recover the data.
    pub fn k(&self) -> (k: u8)
        ensures
            k == self.threshold(),
    {
        self.k
    }
}

/// What joining `shares` with the indices `xs` gives: the rows that the
/// shortest share reaches, without their padding; `None` where they do not
/// end in a well-formed padding.
pub open spec fn ida_join(xs: Seq<u8>, shares: Seq<Seq<u8>>) -> Option<Seq<u8>> {
    unpad(
        ida_decode(xs, shares, shortest(shares, shares[0].len() as int, xs.len() as int)),
        xs.len() as int,
    )
}

} // verus!
