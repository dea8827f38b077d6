//! Vectors and matrices over a [`Scalar`], as far as a dense network needs
//! them. A vector is a `Vec<T>`; a matrix is a `Vec` of rows. The row-by-row
//! operations also take rows of different lengths, so that the bias vectors
//! of a network can be handled as the rows of one table.
//!
//! Each operation comes with the relation that its result satisfies. The
//! relations fix the operands and the order of every scalar operation.

use vstd::prelude::*;
use crate::scalar::{Scalar, is_zero, is_sum, is_difference, is_product};

verus! {

/// The rows of `m`, each as a sequence.
pub open spec fn rows<T>(m: &Vec<Vec<T>>) -> Seq<Seq<T>> {
    Seq::new(m@.len(), |i: int| m@[i]@)
}

/// Whether `m` has `height` rows of `width` entries each.
pub open spec fn is_matrix<T>(m: Seq<Seq<T>>, height: int, width: int) -> bool {
    &&& m.len() == height
    &&& forall|i: int| 0 <= i < m.len() ==> (#[trigger] m[i]).len() == width
}

/// Whether `a` and `b` have as many rows, and row by row as many entries.
pub open spec fn same_shape<T>(a: Seq<Seq<T>>, b: Seq<Seq<T>>) -> bool {
    &&& a.len() == b.len()
    &&& forall|i: int|
        #![trigger a[i]]
        #![trigger b[i]]
        0 <= i < a.len() ==> a[i].len() == b[i].len()
}

/// Column `j` of `m`, top to bottom.
pub open spec fn column<T>(m: Seq<Seq<T>>, j: int) -> Seq<T> {
    Seq::new(m.len(), |i: int| m[i][j])
}

/// `r` has `n` entries, each a zero.
pub open spec fn is_zero_vector<T: Scalar>(n: int, r: Seq<T>) -> bool {
    &&& r.len() == n
    &&& forall|i: int| 0 <= i < r.len() ==> is_zero(#[trigger] r[i])
}

/// `r` has `height` rows, each a zero vector of `width` entries.
pub open spec fn is_zero_matrix<T: Scalar>(height: int, width: int, r: Seq<Seq<T>>) -> bool {
    &&& r.len() == height
    &&& forall|i: int| 0 <= i < r.len() ==> is_zero_vector(width, #[trigger] r[i])
}

/// `r` is the inner product of `u` and `v`, summed from a zero, left to
/// right: `((0 + u0*v0) + u1*v1) + ...`.
pub open spec fn is_dot<T: Scalar>(u: Seq<T>, v: Seq<T>, r: T) -> bool
    decreases u.len(),
{
    if u.len() == 0 {
        is_zero(r)
    } else {
        exists|acc: T, p: T|
            #![trigger is_product(u.last(), v.last(), p), is_sum(acc, p, r)]
            {
                &&& is_dot(u.drop_last(), v.drop_last(), acc)
                &&& is_product(u.last(), v.last(), p)
                &&& is_sum(acc, p, r)
            }
    }
}

/// `r[i]` is the inner product of row `i` of `m` with `x`.
pub open spec fn is_matrix_vector<T: Scalar>(m: Seq<Seq<T>>, x: Seq<T>, r: Seq<T>) -> bool {
    &&& r.len() == m.len()
    &&& forall|i: int| 0 <= i < r.len() ==> is_dot(m[i], x, #[trigger] r[i])
}

/// `z` is `m * x + b`: the product of `m` with `x`, then `b` added entry by
/// entry.
pub open spec fn is_weighted_input<T: Scalar>(
    m: Seq<Seq<T>>,
    x: Seq<T>,
    b: Seq<T>,
    z: Seq<T>,
) -> bool {
    exists|p: Seq<T>|
        #![trigger is_matrix_vector(m, x, p)]
        is_matrix_vector(m, x, p) && is_vector_sum(p, b, z)
}

/// `r[j]` is the inner product of column `j` of `m` with `d`: the product of
/// the transpose of `m` with `d`.
pub open spec fn is_transposed_matrix_vector<T: Scalar>(
    m: Seq<Seq<T>>,
    d: Seq<T>,
    r: Seq<T>,
) -> bool {
    forall|j: int| 0 <= j < r.len() ==> is_dot(column(m, j), d, #[trigger] r[j])
}

/// `r[i]` is `a[i] + b[i]`.
pub open spec fn is_vector_sum<T: Scalar>(a: Seq<T>, b: Seq<T>, r: Seq<T>) -> bool {
    &&& r.len() == a.len()
    &&& forall|i: int| 0 <= i < r.len() ==> is_sum(a[i], b[i], #[trigger] r[i])
}

/// `r[i]` is `a[i] - b[i]`.
pub open spec fn is_vector_difference<T: Scalar>(a: Seq<T>, b: Seq<T>, r: Seq<T>) -> bool {
    &&& r.len() == a.len()
    &&& forall|i: int| 0 <= i < r.len() ==> is_difference(a[i], b[i], #[trigger] r[i])
}

/// `r[i]` is `a[i] * b[i]`.
pub open spec fn is_hadamard<T: Scalar>(a: Seq<T>, b: Seq<T>, r: Seq<T>) -> bool {
    &&& r.len() == a.len()
    &&& forall|i: int| 0 <= i < r.len() ==> is_product(a[i], b[i], #[trigger] r[i])
}

/// `r[i]` is `v[i] * s`.
pub open spec fn is_scaled<T: Scalar>(v: Seq<T>, s: T, r: Seq<T>) -> bool {
    &&& r.len() == v.len()
    &&& forall|i: int| 0 <= i < r.len() ==> is_product(v[i], s, #[trigger] r[i])
}

/// `r[i][j]` is `d[i] * a[j]`: the product of the column `d` with the row `a`.
pub open spec fn is_outer<T: Scalar>(d: Seq<T>, a: Seq<T>, r: Seq<Seq<T>>) -> bool {
    &&& r.len() == d.len()
    &&& forall|i: int| 0 <= i < r.len() ==> is_scaled_by(d[i], a, #[trigger] r[i])
}

/// `r[j]` is `s * v[j]`.
pub open spec fn is_scaled_by<T: Scalar>(s: T, v: Seq<T>, r: Seq<T>) -> bool {
    &&& r.len() == v.len()
    &&& forall|j: int| 0 <= j < r.len() ==> is_product(s, v[j], #[trigger] r[j])
}

/// Row by row, `r` is the sum of `a` and `b`.
pub open spec fn is_matrix_sum<T: Scalar>(
    a: Seq<Seq<T>>,
    b: Seq<Seq<T>>,
    r: Seq<Seq<T>>,
) -> bool {
    &&& r.len() == a.len()
    &&& forall|i: int| 0 <= i < r.len() ==> is_vector_sum(a[i], b[i], #[trigger] r[i])
}

/// Row by row, `r` is `a - b`.
pub open spec fn is_matrix_difference<T: Scalar>(
    a: Seq<Seq<T>>,
    b: Seq<Seq<T>>,
    r: Seq<Seq<T>>,
) -> bool {
    &&& r.len() == a.len()
    &&& forall|i: int| 0 <= i < r.len() ==> is_vector_difference(a[i], b[i], #[trigger] r[i])
}

/// Row by row, `r` is `m` with every entry multiplied by `s`.
pub open spec fn is_matrix_scaled<T: Scalar>(m: Seq<Seq<T>>, s: T, r: Seq<Seq<T>>) -> bool {
    &&& r.len() == m.len()
    &&& forall|i: int| 0 <= i < r.len() ==> is_scaled(m[i], s, #[trigger] r[i])
}

/// `r` is `m - g * s`: every entry of `g` multiplied by `s`, and the product
/// taken off the entry of `m` in the same place.
pub open spec fn is_descent<T: Scalar>(
    m: Seq<Seq<T>>,
    g: Seq<Seq<T>>,
    s: T,
    r: Seq<Seq<T>>,
) -> bool {
    exists|p: Seq<Seq<T>>|
        #![trigger is_matrix_scaled(g, s, p)]
        is_matrix_scaled(g, s, p) && is_matrix_difference(m, p, r)
}

/// A copy of `v`.
pub fn duplicate<T: Copy>(v: &Vec<T>) -> (r: Vec<T>)
    ensures
        r@ == v@,
{
    let mut r: Vec<T> = Vec::new();
    let mut i: usize = 0;
    while i < v.len()
        invariant
            i <= v.len(),
            r@ == v@.take(i as int),
        decreases v.len() - i,
    {
        r.push(v[i]);
        assert(v@.take(i + 1) =~= v@.take(i as int).push(v@[i as int]));
        i += 1;
    }
    assert(v@.take(v.len() as int) =~= v@);
    r
}

/// The items of `v` in the opposite order.
pub fn reversed<E>(v: Vec<E>) -> (r: Vec<E>)
    ensures
        r@ == v@.reverse(),
{
    let ghost given = v@;
    let mut v = v;
    let mut r: Vec<E> = Vec::new();
    while v.len() > 0
        invariant
            v@ == given.take(given.len() - r.len()),
            r.len() <= given.len(),
            forall|i: int| 0 <= i < r.len() ==> r@[i] == given[given.len() - 1 - i],
        decreases v.len(),
    {
        let item = v.pop();
        assert(v@ =~= given.take(given.len() - r.len() - 1));
        match item {
            Some(x) => {
                r.push(x);
            },
            None => {},
        }
    }
    assert(r@ =~= given.reverse());
    r
}

/// A vector of `n` zeros.
pub fn zero_vector<T: Scalar>(n: usize) -> (r: Vec<T>)
    ensures
        is_zero_vector(n as int, r@),
{
    let mut r: Vec<T> = Vec::new();
    let mut i: usize = 0;
    while i < n
        invariant
            i <= n,
            is_zero_vector(i as int, r@),
        decreases n - i,
    {
        r.push(T::zero());
        i += 1;
    }
    r
}

/// A matrix of `height` rows of `width` zeros.
pub fn zero_matrix<T: Scalar>(height: usize, width: usize) -> (r: Vec<Vec<T>>)
    ensures
        is_zero_matrix(height as int, width as int, rows(&r)),
{
    let mut r: Vec<Vec<T>> = Vec::new();
    let mut i: usize = 0;
    while i < height
        invariant
            i <= height,
            is_zero_matrix(i as int, width as int, rows(&r)),
        decreases height - i,
    {
        let ghost before = rows(&r);
        let row = zero_vector(width);
        r.push(row);
        assert(rows(&r) =~= before.push(row@));
        i += 1;
    }
    r
}

/// The inner product of `u` and `v`.
pub fn dot<T: Scalar>(u: &Vec<T>, v: &Vec<T>) -> (r: T)
    requires
        u.len() == v.len(),
    ensures
        is_dot(u@, v@, r),
{
    let mut acc = T::zero();
    let mut k: usize = 0;
    while k < u.len()
        invariant
            k <= u.len(),
            u.len() == v.len(),
            is_dot(u@.take(k as int), v@.take(k as int), acc),
        decreases u.len() - k,
    {
        let p = u[k].times(v[k]);
        let next = acc.plus(p);
        proof {
            let uk = u@.take(k + 1);
            let vk = v@.take(k + 1);
            assert(uk.drop_last() =~= u@.take(k as int));
            assert(vk.drop_last() =~= v@.take(k as int));
            assert(is_product(uk.last(), vk.last(), p) && is_sum(acc, p, next));
            assert(is_dot(uk, vk, next));
        }
        acc = next;
        k += 1;
    }
    proof {
        assert(u@.take(u.len() as int) =~= u@);
        assert(v@.take(v.len() as int) =~= v@);
    }
    acc
}

/// The inner product of column `j` of `m` with `d`.
fn column_dot<T: Scalar>(m: &Vec<Vec<T>>, j: usize, d: &Vec<T>) -> (r: T)
    requires
        m.len() == d.len(),
        forall|i: int| 0 <= i < m.len() ==> j < (#[trigger] m@[i]).len(),
    ensures
        is_dot(column(rows(m), j as int), d@, r),
{
    let ghost col = column(rows(m), j as int);
    let mut acc = T::zero();
    let mut k: usize = 0;
    while k < m.len()
        invariant
            k <= m.len(),
            m.len() == d.len(),
            col == column(rows(m), j as int),
            forall|i: int| 0 <= i < m.len() ==> j < (#[trigger] m@[i]).len(),
            is_dot(col.take(k as int), d@.take(k as int), acc),
        decreases m.len() - k,
    {
        let p = m[k][j].times(d[k]);
        let next = acc.plus(p);
        proof {
            let uk = col.take(k + 1);
            let vk = d@.take(k + 1);
            assert(uk.drop_last() =~= col.take(k as int));
            assert(vk.drop_last() =~= d@.take(k as int));
            assert(uk.last() == m@[k as int]@[j as int]);
            assert(is_product(uk.last(), vk.last(), p) && is_sum(acc, p, next));
            assert(is_dot(uk, vk, next));
        }
        acc = next;
        k += 1;
    }
    proof {
        assert(col.take(m.len() as int) =~= col);
        assert(d@.take(d.len() as int) =~= d@);
    }
    acc
}

/// The product of the matrix `m` with the vector `x`.
pub fn matrix_vector<T: Scalar>(m: &Vec<Vec<T>>, x: &Vec<T>) -> (r: Vec<T>)
    requires
        is_matrix(rows(m), m.len() as int, x.len() as int),
    ensures
        is_matrix_vector(rows(m), x@, r@),
{
    let mut r: Vec<T> = Vec::new();
    let mut i: usize = 0;
    while i < m.len()
        invariant
            i <= m.len(),
            r.len() == i,
            is_matrix(rows(m), m.len() as int, x.len() as int),
            forall|k: int| 0 <= k < i ==> is_dot(rows(m)[k], x@, #[trigger] r@[k]),
        decreases m.len() - i,
    {
        assert(rows(m)[i as int] == m@[i as int]@);
        let d = dot(&m[i], x);
        r.push(d);
        i += 1;
    }
    r
}

/// `m * x + b`.
pub fn weighted_input<T: Scalar>(m: &Vec<Vec<T>>, x: &Vec<T>, b: &Vec<T>) -> (z: Vec<T>)
    requires
        is_matrix(rows(m), b.len() as int, x.len() as int),
    ensures
        z.len() == b.len(),
        is_weighted_input(rows(m), x@, b@, z@),
{
    let p = matrix_vector(m, x);
    vector_sum(&p, b)
}

/// The product of the transpose of `m` with the vector `d`, where `m` has
/// rows of `width` entries.
pub fn transposed_matrix_vector<T: Scalar>(m: &Vec<Vec<T>>, d: &Vec<T>, width: usize) -> (r: Vec<
    T,
>)
    requires
        is_matrix(rows(m), d.len() as int, width as int),
    ensures
        r.len() == width,
        is_transposed_matrix_vector(rows(m), d@, r@),
{
    let mut r: Vec<T> = Vec::new();
    let mut j: usize = 0;
    while j < width
        invariant
            j <= width,
            r.len() == j,
            is_matrix(rows(m), d.len() as int, width as int),
            forall|k: int| 0 <= k < j ==> is_dot(column(rows(m), k), d@, #[trigger] r@[k]),
        decreases width - j,
    {
        assert forall|i: int| 0 <= i < m.len() implies j < (#[trigger] m@[i]).len() by {
            assert(rows(m)[i].len() == width);
        }
        let t = column_dot(m, j, d);
        r.push(t);
        j += 1;
    }
    r
}

/// The entrywise sum `a + b`.
pub fn vector_sum<T: Scalar>(a: &Vec<T>, b: &Vec<T>) -> (r: Vec<T>)
    requires
        a.len() == b.len(),
    ensures
        is_vector_sum(a@, b@, r@),
{
    let mut r: Vec<T> = Vec::new();
    let mut i: usize = 0;
    while i < a.len()
        invariant
            i <= a.len(),
            a.len() == b.len(),
            r.len() == i,
            forall|k: int| 0 <= k < i ==> is_sum(a@[k], b@[k], #[trigger] r@[k]),
        decreases a.len() - i,
    {
        r.push(a[i].plus(b[i]));
        i += 1;
    }
    r
}

/// The entrywise difference `a - b`.
pub fn vector_difference<T: Scalar>(a: &Vec<T>, b: &Vec<T>) -> (r: Vec<T>)
    requires
        a.len() == b.len(),
    ensures
        is_vector_difference(a@, b@, r@),
{
    let mut r: Vec<T> = Vec::new();
    let mut i: usize = 0;
    while i < a.len()
        invariant
            i <= a.len(),
            a.len() == b.len(),
            r.len() == i,
            forall|k: int| 0 <= k < i ==> is_difference(a@[k], b@[k], #[trigger] r@[k]),
        decreases a.len() - i,
    {
        r.push(a[i].minus(b[i]));
        i += 1;
    }
    r
}

/// The entrywise product of `a` and `b`.
pub fn hadamard<T: Scalar>(a: &Vec<T>, b: &Vec<T>) -> (r: Vec<T>)
    requires
        a.len() == b.len(),
    ensures
        is_hadamard(a@, b@, r@),
{
    let mut r: Vec<T> = Vec::new();
    let mut i: usize = 0;
    while i < a.len()
        invariant
            i <= a.len(),
            a.len() == b.len(),
            r.len() == i,
            forall|k: int| 0 <= k < i ==> is_product(a@[k], b@[k], #[trigger] r@[k]),
        decreases a.len() - i,
    {
        r.push(a[i].times(b[i]));
        i += 1;
    }
    r
}

/// Every entry of `v` multiplied by `s` on the right.
pub fn scaled<T: Scalar>(v: &Vec<T>, s: T) -> (r: Vec<T>)
    ensures
        is_scaled(v@, s, r@),
{
    let mut r: Vec<T> = Vec::new();
    let mut i: usize = 0;
    while i < v.len()
        invariant
            i <= v.len(),
            r.len() == i,
            forall|k: int| 0 <= k < i ==> is_product(v@[k], s, #[trigger] r@[k]),
        decreases v.len() - i,
    {
        r.push(v[i].times(s));
        i += 1;
    }
    r
}

/// Every entry of `v` multiplied by `s` on the left.
fn scaled_by<T: Scalar>(s: T, v: &Vec<T>) -> (r: Vec<T>)
    ensures
        is_scaled_by(s, v@, r@),
{
    let mut r: Vec<T> = Vec::new();
    let mut j: usize = 0;
    while j < v.len()
        invariant
            j <= v.len(),
            r.len() == j,
            forall|k: int| 0 <= k < j ==> is_product(s, v@[k], #[trigger] r@[k]),
        decreases v.len() - j,
    {
        r.push(s.times(v[j]));
        j += 1;
    }
    r
}

/// The outer product of the column `d` with the row `a`.
pub fn outer<T: Scalar>(d: &Vec<T>, a: &Vec<T>) -> (r: Vec<Vec<T>>)
    ensures
        is_outer(d@, a@, rows(&r)),
{
    let mut r: Vec<Vec<T>> = Vec::new();
    let mut i: usize = 0;
    while i < d.len()
        invariant
            i <= d.len(),
            r.len() == i,
            forall|k: int| 0 <= k < i ==> is_scaled_by(d@[k], a@, (#[trigger] r@[k])@),
        decreases d.len() - i,
    {
        let row = scaled_by(d[i], a);
        r.push(row);
        i += 1;
    }
    r
}

/// The row-by-row sum `a + b`.
pub fn matrix_sum<T: Scalar>(a: &Vec<Vec<T>>, b: &Vec<Vec<T>>) -> (r: Vec<Vec<T>>)
    requires
        same_shape(rows(a), rows(b)),
    ensures
        is_matrix_sum(rows(a), rows(b), rows(&r)),
        same_shape(rows(a), rows(&r)),
{
    let mut r: Vec<Vec<T>> = Vec::new();
    let mut i: usize = 0;
    while i < a.len()
        invariant
            i <= a.len(),
            same_shape(rows(a), rows(b)),
            r.len() == i,
            forall|k: int| 0 <= k < i ==> is_vector_sum(a@[k]@, b@[k]@, (#[trigger] r@[k])@),
        decreases a.len() - i,
    {
        assert(rows(a)[i as int].len() == rows(b)[i as int].len());
        let row = vector_sum(&a[i], &b[i]);
        r.push(row);
        i += 1;
    }
    r
}

/// The row-by-row difference `a - b`.
pub fn matrix_difference<T: Scalar>(a: &Vec<Vec<T>>, b: &Vec<Vec<T>>) -> (r: Vec<Vec<T>>)
    requires
        same_shape(rows(a), rows(b)),
    ensures
        is_matrix_difference(rows(a), rows(b), rows(&r)),
        same_shape(rows(a), rows(&r)),
{
    let mut r: Vec<Vec<T>> = Vec::new();
    let mut i: usize = 0;
    while i < a.len()
        invariant
            i <= a.len(),
            same_shape(rows(a), rows(b)),
            r.len() == i,
            forall|k: int|
                0 <= k < i ==> is_vector_difference(a@[k]@, b@[k]@, (#[trigger] r@[k])@),
        decreases a.len() - i,
    {
        assert(rows(a)[i as int].len() == rows(b)[i as int].len());
        let row = vector_difference(&a[i], &b[i]);
        r.push(row);
        i += 1;
    }
    r
}

/// Every entry of `m` multiplied by `s` on the right.
pub fn matrix_scaled<T: Scalar>(m: &Vec<Vec<T>>, s: T) -> (r: Vec<Vec<T>>)
    ensures
        is_matrix_scaled(rows(m), s, rows(&r)),
        same_shape(rows(m), rows(&r)),
{
    let mut r: Vec<Vec<T>> = Vec::new();
    let mut i: usize = 0;
    while i < m.len()
        invariant
            i <= m.len(),
            r.len() == i,
            forall|k: int| 0 <= k < i ==> is_scaled(m@[k]@, s, (#[trigger] r@[k])@),
        decreases m.len() - i,
    {
        let row = scaled(&m[i], s);
        r.push(row);
        i += 1;
    }
    r
}

/// `m - g * s`.
pub fn descent<T: Scalar>(m: &Vec<Vec<T>>, g: &Vec<Vec<T>>, s: T) -> (r: Vec<Vec<T>>)
    requires
        same_shape(rows(m), rows(g)),
    ensures
        is_descent(rows(m), rows(g), s, rows(&r)),
        same_shape(rows(m), rows(&r)),
{
    let p = matrix_scaled(g, s);
    matrix_difference(m, &p)
}

} // verus!
