//! What follows where the operations of the number type are functions of
//! their operands: every relation of the library then holds of one result
//! only. The forward pass has one output, a sample one gradient, a step of
//! gradient descent leaves one network, and an evaluation comes to one count.

use vstd::prelude::*;
use crate::activation::{is_activation, is_sigmoid, is_sigmoid_prime, is_slope};
use crate::argmax::{ArgmaxError, is_argmax, is_argmax_step, is_argmax_upto};
use crate::linalg::{
    column, is_descent, is_dot, is_hadamard, is_matrix_difference, is_matrix_scaled,
    is_matrix_sum, is_matrix_vector, is_outer, is_scaled, is_scaled_by,
    is_transposed_matrix_vector, is_vector_difference, is_vector_sum, is_weighted_input,
    is_zero_matrix, is_zero_vector,
};
use crate::model::{
    NetworkModel, count_true, is_hidden_error, is_layerwise_descent, is_layerwise_sum,
    is_output_error, is_step_size,
};
use crate::sample::MnistSample;
use crate::shuffle::{batch_count, mini_batch};
use crate::scalar::{
    Scalar, is_comparison, is_count, is_difference, is_exp, is_negation, is_one, is_product,
    is_quotient, is_sum, is_zero,
};

verus! {

/// Whether every operation of `T` gives one value only for given operands.
pub open spec fn is_functional<T: Scalar>() -> bool {
    &&& forall|r: T, s: T| #![trigger is_zero(r), is_zero(s)] is_zero(r) && is_zero(s) ==> r == s
    &&& forall|r: T, s: T| #![trigger is_one(r), is_one(s)] is_one(r) && is_one(s) ==> r == s
    &&& forall|n: usize, r: T, s: T|
        #![trigger is_count(n, r), is_count(n, s)]
        is_count(n, r) && is_count(n, s) ==> r == s
    &&& forall|x: T, r: T, s: T|
        #![trigger is_negation(x, r), is_negation(x, s)]
        is_negation(x, r) && is_negation(x, s) ==> r == s
    &&& forall|x: T, r: T, s: T|
        #![trigger is_exp(x, r), is_exp(x, s)]
        is_exp(x, r) && is_exp(x, s) ==> r == s
    &&& forall|a: T, b: T, r: T, s: T|
        #![trigger is_sum(a, b, r), is_sum(a, b, s)]
        is_sum(a, b, r) && is_sum(a, b, s) ==> r == s
    &&& forall|a: T, b: T, r: T, s: T|
        #![trigger is_difference(a, b, r), is_difference(a, b, s)]
        is_difference(a, b, r) && is_difference(a, b, s) ==> r == s
    &&& forall|a: T, b: T, r: T, s: T|
        #![trigger is_product(a, b, r), is_product(a, b, s)]
        is_product(a, b, r) && is_product(a, b, s) ==> r == s
    &&& forall|a: T, b: T, r: T, s: T|
        #![trigger is_quotient(a, b, r), is_quotient(a, b, s)]
        is_quotient(a, b, r) && is_quotient(a, b, s) ==> r == s
    &&& forall|a: T, b: T, r: Option<bool>, s: Option<bool>|
        #![trigger is_comparison(a, b, r), is_comparison(a, b, s)]
        is_comparison(a, b, r) && is_comparison(a, b, s) ==> r == s
}

/// Two vectors have one inner product.
pub proof fn lemma_one_dot<T: Scalar>(u: Seq<T>, v: Seq<T>, r: T, s: T)
    requires
        is_functional::<T>(),
        is_dot(u, v, r),
        is_dot(u, v, s),
    ensures
        r == s,
    decreases u.len(),
{
    if u.len() > 0 {
        let (acc_r, p_r) = choose|acc: T, p: T|
            #![trigger is_product(u.last(), v.last(), p), is_sum(acc, p, r)]
            is_dot(u.drop_last(), v.drop_last(), acc) && is_product(u.last(), v.last(), p)
                && is_sum(acc, p, r);
        let (acc_s, p_s) = choose|acc: T, p: T|
            #![trigger is_product(u.last(), v.last(), p), is_sum(acc, p, s)]
            is_dot(u.drop_last(), v.drop_last(), acc) && is_product(u.last(), v.last(), p)
                && is_sum(acc, p, s);
        lemma_one_dot(u.drop_last(), v.drop_last(), acc_r, acc_s);
    }
}

/// A number has one sigmoid.
pub proof fn lemma_one_sigmoid<T: Scalar>(x: T, r: T, s: T)
    requires
        is_functional::<T>(),
        is_sigmoid(x, r),
        is_sigmoid(x, s),
    ensures
        r == s,
{
}

/// A layer has one weighted input for an input.
pub proof fn lemma_one_weighted_input<T: Scalar>(
    m: Seq<Seq<T>>,
    x: Seq<T>,
    b: Seq<T>,
    r: Seq<T>,
    s: Seq<T>,
)
    requires
        is_functional::<T>(),
        is_weighted_input(m, x, b, r),
        is_weighted_input(m, x, b, s),
    ensures
        r == s,
{
    let p = choose|p: Seq<T>| is_matrix_vector(m, x, p) && is_vector_sum(p, b, r);
    let q = choose|q: Seq<T>| is_matrix_vector(m, x, q) && is_vector_sum(q, b, s);
    assert forall|i: int| 0 <= i < p.len() implies p[i] == q[i] by {
        lemma_one_dot(m[i], x, p[i], q[i]);
    }
    assert(p =~= q);
    assert(r =~= s);
}

/// A weighted input has one activation.
pub proof fn lemma_one_activation<T: Scalar>(z: Seq<T>, r: Seq<T>, s: Seq<T>)
    requires
        is_functional::<T>(),
        is_activation(z, r),
        is_activation(z, s),
    ensures
        r == s,
{
    assert forall|i: int| 0 <= i < r.len() implies r[i] == s[i] by {
        lemma_one_sigmoid(z[i], r[i], s[i]);
    }
    assert(r =~= s);
}

/// Two forward passes on one input agree up to layer `l`.
proof fn lemma_passes_agree<T: Scalar>(
    net: NetworkModel<T>,
    input: Seq<T>,
    zs: Seq<Seq<T>>,
    acts: Seq<Seq<T>>,
    zs2: Seq<Seq<T>>,
    acts2: Seq<Seq<T>>,
    l: int,
)
    requires
        is_functional::<T>(),
        net.is_forward_pass(input, zs, acts),
        net.is_forward_pass(input, zs2, acts2),
        0 <= l <= net.depth(),
    ensures
        acts[l] == acts2[l],
        l > 0 ==> zs[l - 1] == zs2[l - 1],
    decreases l,
{
    if l > 0 {
        lemma_passes_agree(net, input, zs, acts, zs2, acts2, l - 1);
        assert(net.is_layer(l - 1, acts[l - 1], zs[l - 1], acts[l - 1 + 1]));
        assert(net.is_layer(l - 1, acts2[l - 1], zs2[l - 1], acts2[l - 1 + 1]));
        lemma_one_weighted_input(
            net.weights[l - 1],
            acts[l - 1],
            net.biases[l - 1],
            zs[l - 1],
            zs2[l - 1],
        );
        lemma_one_activation(zs[l - 1], acts[l], acts2[l]);
    }
}

/// The network has one output for an input.
pub proof fn lemma_one_output<T: Scalar>(
    net: NetworkModel<T>,
    input: Seq<T>,
    out: Seq<T>,
    out2: Seq<T>,
)
    requires
        is_functional::<T>(),
        net.is_output(input, out),
        net.is_output(input, out2),
    ensures
        out == out2,
{
    let (zs, acts) = choose|zs: Seq<Seq<T>>, acts: Seq<Seq<T>>|
        net.is_forward_pass(input, zs, acts) && acts[net.depth()] == out;
    let (zs2, acts2) = choose|zs: Seq<Seq<T>>, acts: Seq<Seq<T>>|
        net.is_forward_pass(input, zs, acts) && acts[net.depth()] == out2;
    lemma_passes_agree(net, input, zs, acts, zs2, acts2, net.depth());
}

/// The scan for the largest entry is in one state after `k` entries.
proof fn lemma_one_scan<T: Scalar>(
    v: Seq<T>,
    k: int,
    r: Result<usize, ArgmaxError>,
    s: Result<usize, ArgmaxError>,
)
    requires
        is_functional::<T>(),
        is_argmax_upto(v, k, r),
        is_argmax_upto(v, k, s),
    ensures
        r == s,
    decreases k,
{
    if k > 0 {
        let (prev_r, c_r) = choose|prev: Result<usize, ArgmaxError>, c: Option<bool>|
            is_argmax_upto(v, k - 1, prev) && is_argmax_step(v, k, prev, c, r);
        let (prev_s, c_s) = choose|prev: Result<usize, ArgmaxError>, c: Option<bool>|
            is_argmax_upto(v, k - 1, prev) && is_argmax_step(v, k, prev, c, s);
        lemma_one_scan(v, k - 1, prev_r, prev_s);
    }
}

/// A vector has one place of its largest entry, or one error.
pub proof fn lemma_one_argmax<T: Scalar>(
    v: Seq<T>,
    r: Result<usize, ArgmaxError>,
    s: Result<usize, ArgmaxError>,
)
    requires
        is_functional::<T>(),
        is_argmax(v, r),
        is_argmax(v, s),
    ensures
        r == s,
{
    if v.len() > 0 {
        lemma_one_scan(v, v.len() as int, r, s);
    }
}

/// A sample is a hit or it is not.
pub proof fn lemma_one_verdict<T: Scalar>(
    net: NetworkModel<T>,
    sample: MnistSample<T>,
    hit: bool,
    hit2: bool,
)
    requires
        is_functional::<T>(),
        net.is_hit(sample, hit),
        net.is_hit(sample, hit2),
    ensures
        hit == hit2,
{
    let (out, p, q) = choose|
        out: Seq<T>,
        p: Result<usize, ArgmaxError>,
        q: Result<usize, ArgmaxError>,
    |
        #![trigger net.is_output(sample.image@, out), is_argmax(out, p), is_argmax(sample.label@, q)]
        net.is_output(sample.image@, out) && is_argmax(out, p) && is_argmax(sample.label@, q)
            && hit == (p == q);
    let (out2, p2, q2) = choose|
        out: Seq<T>,
        p: Result<usize, ArgmaxError>,
        q: Result<usize, ArgmaxError>,
    |
        #![trigger net.is_output(sample.image@, out), is_argmax(out, p), is_argmax(sample.label@, q)]
        net.is_output(sample.image@, out) && is_argmax(out, p) && is_argmax(sample.label@, q)
            && hit2 == (p == q);
    lemma_one_output(net, sample.image@, out, out2);
    lemma_one_argmax(out, p, p2);
    lemma_one_argmax(sample.label@, q, q2);
}

/// Evaluation can be repeated: on one network and one collection of samples
/// it comes to one count, however often it is done, where the operations of
/// the number type are functions of their operands.
pub proof fn lemma_evaluation_repeats<T: Scalar>(
    net: NetworkModel<T>,
    data: Seq<MnistSample<T>>,
    first: int,
    second: int,
)
    requires
        is_functional::<T>(),
        net.is_score(data, first),
        net.is_score(data, second),
    ensures
        first == second,
{
    let hits = choose|hits: Seq<bool>|
        net.is_hits(data, hits) && first == count_true(hits);
    let hits2 = choose|hits: Seq<bool>|
        net.is_hits(data, hits) && second == count_true(hits);
    assert forall|i: int| 0 <= i < hits.len() implies hits[i] == hits2[i] by {
        lemma_one_verdict(net, data[i], hits[i], hits2[i]);
    }
    assert(hits =~= hits2);
}

/// A number has one slope of the sigmoid.
pub proof fn lemma_one_sigmoid_prime<T: Scalar>(x: T, r: T, s: T)
    requires
        is_functional::<T>(),
        is_sigmoid_prime(x, r),
        is_sigmoid_prime(x, s),
    ensures
        r == s,
{
    let (a, one, d) = choose|a: T, one: T, d: T|
        #![trigger is_sigmoid(x, a), is_difference(one, a, d)]
        is_sigmoid(x, a) && is_one(one) && is_difference(one, a, d) && is_product(a, d, r);
    let (a2, one2, d2) = choose|a: T, one: T, d: T|
        #![trigger is_sigmoid(x, a), is_difference(one, a, d)]
        is_sigmoid(x, a) && is_one(one) && is_difference(one, a, d) && is_product(a, d, s);
    lemma_one_sigmoid(x, a, a2);
}

/// A weighted input has one vector of slopes.
pub proof fn lemma_one_slope<T: Scalar>(z: Seq<T>, r: Seq<T>, s: Seq<T>)
    requires
        is_functional::<T>(),
        is_slope(z, r),
        is_slope(z, s),
    ensures
        r == s,
{
    assert forall|i: int| 0 <= i < r.len() implies r[i] == s[i] by {
        lemma_one_sigmoid_prime(z[i], r[i], s[i]);
    }
    assert(r =~= s);
}

/// The entrywise operations on two vectors have one result each.
pub proof fn lemma_one_entrywise<T: Scalar>(a: Seq<T>, b: Seq<T>, r: Seq<T>, s: Seq<T>)
    requires
        is_functional::<T>(),
    ensures
        is_vector_sum(a, b, r) && is_vector_sum(a, b, s) ==> r == s,
        is_vector_difference(a, b, r) && is_vector_difference(a, b, s) ==> r == s,
        is_hadamard(a, b, r) && is_hadamard(a, b, s) ==> r == s,
{
    if is_vector_sum(a, b, r) && is_vector_sum(a, b, s) {
        assert(r =~= s);
    }
    if is_vector_difference(a, b, r) && is_vector_difference(a, b, s) {
        assert(r =~= s);
    }
    if is_hadamard(a, b, r) && is_hadamard(a, b, s) {
        assert(r =~= s);
    }
}

/// A vector multiplied by a number, on either side, has one result.
pub proof fn lemma_one_scaled<T: Scalar>(v: Seq<T>, c: T, r: Seq<T>, s: Seq<T>)
    requires
        is_functional::<T>(),
    ensures
        is_scaled(v, c, r) && is_scaled(v, c, s) ==> r == s,
        is_scaled_by(c, v, r) && is_scaled_by(c, v, s) ==> r == s,
{
    if is_scaled(v, c, r) && is_scaled(v, c, s) {
        assert(r =~= s);
    }
    if is_scaled_by(c, v, r) && is_scaled_by(c, v, s) {
        assert(r =~= s);
    }
}

/// The row-by-row operations on two matrices have one result each.
pub proof fn lemma_one_rowwise<T: Scalar>(
    a: Seq<Seq<T>>,
    b: Seq<Seq<T>>,
    r: Seq<Seq<T>>,
    s: Seq<Seq<T>>,
)
    requires
        is_functional::<T>(),
    ensures
        is_matrix_sum(a, b, r) && is_matrix_sum(a, b, s) ==> r == s,
        is_matrix_difference(a, b, r) && is_matrix_difference(a, b, s) ==> r == s,
{
    if is_matrix_sum(a, b, r) && is_matrix_sum(a, b, s) {
        assert forall|i: int| 0 <= i < r.len() implies r[i] == s[i] by {
            lemma_one_entrywise(a[i], b[i], r[i], s[i]);
        }
        assert(r =~= s);
    }
    if is_matrix_difference(a, b, r) && is_matrix_difference(a, b, s) {
        assert forall|i: int| 0 <= i < r.len() implies r[i] == s[i] by {
            lemma_one_entrywise(a[i], b[i], r[i], s[i]);
        }
        assert(r =~= s);
    }
}

/// A matrix less a multiple of another has one result.
pub proof fn lemma_one_descent<T: Scalar>(
    m: Seq<Seq<T>>,
    g: Seq<Seq<T>>,
    c: T,
    r: Seq<Seq<T>>,
    s: Seq<Seq<T>>,
)
    requires
        is_functional::<T>(),
        is_descent(m, g, c, r),
        is_descent(m, g, c, s),
    ensures
        r == s,
{
    let p = choose|p: Seq<Seq<T>>| is_matrix_scaled(g, c, p) && is_matrix_difference(m, p, r);
    let q = choose|q: Seq<Seq<T>>| is_matrix_scaled(g, c, q) && is_matrix_difference(m, q, s);
    assert forall|i: int| 0 <= i < p.len() implies p[i] == q[i] by {
        lemma_one_scaled(g[i], c, p[i], q[i]);
    }
    assert(p =~= q);
    lemma_one_rowwise(m, p, r, s);
}

/// A column and a row have one outer product.
pub proof fn lemma_one_outer<T: Scalar>(d: Seq<T>, a: Seq<T>, r: Seq<Seq<T>>, s: Seq<Seq<T>>)
    requires
        is_functional::<T>(),
        is_outer(d, a, r),
        is_outer(d, a, s),
    ensures
        r == s,
{
    assert forall|i: int| 0 <= i < r.len() implies r[i] == s[i] by {
        lemma_one_scaled(a, d[i], r[i], s[i]);
    }
    assert(r =~= s);
}

/// The output layer has one error for a forward pass and a target.
pub proof fn lemma_one_output_error<T: Scalar>(
    a: Seq<T>,
    y: Seq<T>,
    z: Seq<T>,
    r: Seq<T>,
    s: Seq<T>,
)
    requires
        is_functional::<T>(),
        is_output_error(a, y, z, r),
        is_output_error(a, y, z, s),
    ensures
        r == s,
{
    let (c, sp) = choose|c: Seq<T>, sp: Seq<T>|
        #![trigger is_vector_difference(a, y, c), is_slope(z, sp)]
        is_vector_difference(a, y, c) && is_slope(z, sp) && is_hadamard(c, sp, r);
    let (c2, sp2) = choose|c: Seq<T>, sp: Seq<T>|
        #![trigger is_vector_difference(a, y, c), is_slope(z, sp)]
        is_vector_difference(a, y, c) && is_slope(z, sp) && is_hadamard(c, sp, s);
    lemma_one_entrywise(a, y, c, c2);
    lemma_one_slope(z, sp, sp2);
    lemma_one_entrywise(c, sp, r, s);
}

/// A hidden layer has one error for the error of the layer after it.
pub proof fn lemma_one_hidden_error<T: Scalar>(
    w_next: Seq<Seq<T>>,
    delta_next: Seq<T>,
    z: Seq<T>,
    r: Seq<T>,
    s: Seq<T>,
)
    requires
        is_functional::<T>(),
        is_hidden_error(w_next, delta_next, z, r),
        is_hidden_error(w_next, delta_next, z, s),
    ensures
        r == s,
{
    let (t, sp) = choose|t: Seq<T>, sp: Seq<T>|
        #![trigger is_transposed_matrix_vector(w_next, delta_next, t), is_slope(z, sp)]
        t.len() == z.len() && is_transposed_matrix_vector(w_next, delta_next, t) && is_slope(
            z,
            sp,
        ) && is_hadamard(t, sp, r);
    let (t2, sp2) = choose|t: Seq<T>, sp: Seq<T>|
        #![trigger is_transposed_matrix_vector(w_next, delta_next, t), is_slope(z, sp)]
        t.len() == z.len() && is_transposed_matrix_vector(w_next, delta_next, t) && is_slope(
            z,
            sp,
        ) && is_hadamard(t, sp, s);
    assert forall|j: int| 0 <= j < t.len() implies t[j] == t2[j] by {
        lemma_one_dot(column(w_next, j), delta_next, t[j], t2[j]);
    }
    assert(t =~= t2);
    lemma_one_slope(z, sp, sp2);
    lemma_one_entrywise(t, sp, r, s);
}

/// Two backward passes for one forward pass agree from layer `l` on.
proof fn lemma_errors_agree<T: Scalar>(
    net: NetworkModel<T>,
    label: Seq<T>,
    zs: Seq<Seq<T>>,
    acts: Seq<Seq<T>>,
    deltas: Seq<Seq<T>>,
    deltas2: Seq<Seq<T>>,
    l: int,
)
    requires
        is_functional::<T>(),
        net.is_backward_pass(label, zs, acts, deltas),
        net.is_backward_pass(label, zs, acts, deltas2),
        0 <= l < net.depth(),
    ensures
        deltas[l] == deltas2[l],
    decreases net.depth() - l,
{
    let n = net.depth();
    if l == n - 1 {
        lemma_one_output_error(acts[n], label, zs[n - 1], deltas[l], deltas2[l]);
    } else {
        lemma_errors_agree(net, label, zs, acts, deltas, deltas2, l + 1);
        lemma_one_hidden_error(net.weights[l + 1], deltas[l + 1], zs[l], deltas[l], deltas2[l]);
    }
}

/// A sample has one gradient.
pub proof fn lemma_one_gradient<T: Scalar>(
    net: NetworkModel<T>,
    image: Seq<T>,
    label: Seq<T>,
    nabla_b: Seq<Seq<T>>,
    nabla_w: Seq<Seq<Seq<T>>>,
    nabla_b2: Seq<Seq<T>>,
    nabla_w2: Seq<Seq<Seq<T>>>,
)
    requires
        is_functional::<T>(),
        net.is_gradient(image, label, nabla_b, nabla_w),
        net.is_gradient(image, label, nabla_b2, nabla_w2),
    ensures
        nabla_b == nabla_b2,
        nabla_w == nabla_w2,
{
    let n = net.depth();
    let (zs, acts) = choose|zs: Seq<Seq<T>>, acts: Seq<Seq<T>>|
        #![trigger net.is_forward_pass(image, zs, acts)]
        {
            &&& net.is_forward_pass(image, zs, acts)
            &&& net.is_backward_pass(label, zs, acts, nabla_b)
            &&& nabla_w.len() == net.depth()
            &&& forall|l: int|
                0 <= l < net.depth() ==> is_outer(nabla_b[l], acts[l], #[trigger] nabla_w[l])
        };
    let (zs2, acts2) = choose|zs: Seq<Seq<T>>, acts: Seq<Seq<T>>|
        #![trigger net.is_forward_pass(image, zs, acts)]
        {
            &&& net.is_forward_pass(image, zs, acts)
            &&& net.is_backward_pass(label, zs, acts, nabla_b2)
            &&& nabla_w2.len() == net.depth()
            &&& forall|l: int|
                0 <= l < net.depth() ==> is_outer(nabla_b2[l], acts[l], #[trigger] nabla_w2[l])
        };
    assert forall|l: int| 0 <= l < zs.len() implies zs[l] == zs2[l] by {
        lemma_passes_agree(net, image, zs, acts, zs2, acts2, l + 1);
    }
    assert forall|l: int| 0 <= l < acts.len() implies acts[l] == acts2[l] by {
        lemma_passes_agree(net, image, zs, acts, zs2, acts2, l);
    }
    assert(zs =~= zs2);
    assert(acts =~= acts2);
    assert forall|l: int| 0 <= l < nabla_b.len() implies nabla_b[l] == nabla_b2[l] by {
        lemma_errors_agree(net, label, zs, acts, nabla_b, nabla_b2, l);
    }
    assert(nabla_b =~= nabla_b2);
    assert forall|l: int| 0 <= l < nabla_w.len() implies nabla_w[l] == nabla_w2[l] by {
        lemma_one_outer(nabla_b[l], acts[l], nabla_w[l], nabla_w2[l]);
    }
    assert(nabla_w =~= nabla_w2);
}

/// Two stacks of matrices have one sum, matrix by matrix.
pub proof fn lemma_one_layerwise_sum<T: Scalar>(
    a: Seq<Seq<Seq<T>>>,
    b: Seq<Seq<Seq<T>>>,
    r: Seq<Seq<Seq<T>>>,
    s: Seq<Seq<Seq<T>>>,
)
    requires
        is_functional::<T>(),
        is_layerwise_sum(a, b, r),
        is_layerwise_sum(a, b, s),
    ensures
        r == s,
{
    assert forall|l: int| 0 <= l < r.len() implies r[l] == s[l] by {
        lemma_one_rowwise(a[l], b[l], r[l], s[l]);
    }
    assert(r =~= s);
}

/// A stack of matrices less a multiple of another has one result.
pub proof fn lemma_one_layerwise_descent<T: Scalar>(
    m: Seq<Seq<Seq<T>>>,
    g: Seq<Seq<Seq<T>>>,
    c: T,
    r: Seq<Seq<Seq<T>>>,
    s: Seq<Seq<Seq<T>>>,
)
    requires
        is_functional::<T>(),
        is_layerwise_descent(m, g, c, r),
        is_layerwise_descent(m, g, c, s),
    ensures
        r == s,
{
    assert forall|l: int| 0 <= l < r.len() implies r[l] == s[l] by {
        lemma_one_descent(m[l], g[l], c, r[l], s[l]);
    }
    assert(r =~= s);
}

/// A network has one gradient of zeros.
proof fn lemma_one_zero_gradient<T: Scalar>(
    net: NetworkModel<T>,
    b: Seq<Seq<T>>,
    w: Seq<Seq<Seq<T>>>,
    b2: Seq<Seq<T>>,
    w2: Seq<Seq<Seq<T>>>,
)
    requires
        is_functional::<T>(),
        net.is_zero_gradient(b, w),
        net.is_zero_gradient(b2, w2),
    ensures
        b == b2,
        w == w2,
{
    assert forall|l: int| 0 <= l < b.len() implies b[l] == b2[l] by {
        assert(is_zero_vector(net.sizes[l + 1] as int, b[l]));
        assert(is_zero_vector(net.sizes[l + 1] as int, b2[l]));
        assert(b[l] =~= b2[l]);
    }
    assert(b =~= b2);
    assert forall|l: int| 0 <= l < w.len() implies w[l] == w2[l] by {
        let (m, m2) = (w[l], w2[l]);
        assert(is_zero_matrix(net.sizes[l + 1] as int, net.sizes[l] as int, m));
        assert(is_zero_matrix(net.sizes[l + 1] as int, net.sizes[l] as int, m2));
        assert forall|i: int| 0 <= i < m.len() implies m[i] == m2[i] by {
            assert(is_zero_vector(net.sizes[l] as int, m[i]));
            assert(is_zero_vector(net.sizes[l] as int, m2[i]));
            assert(m[i] =~= m2[i]);
        }
        assert(m =~= m2);
    }
    assert(w =~= w2);
}

/// A batch has one sum of gradients.
pub proof fn lemma_one_gradient_sum<T: Scalar>(
    net: NetworkModel<T>,
    batch: Seq<MnistSample<T>>,
    acc_b: Seq<Seq<T>>,
    acc_w: Seq<Seq<Seq<T>>>,
    acc_b2: Seq<Seq<T>>,
    acc_w2: Seq<Seq<Seq<T>>>,
)
    requires
        is_functional::<T>(),
        net.is_gradient_sum(batch, acc_b, acc_w),
        net.is_gradient_sum(batch, acc_b2, acc_w2),
    ensures
        acc_b == acc_b2,
        acc_w == acc_w2,
    decreases batch.len(),
{
    if batch.len() == 0 {
        lemma_one_zero_gradient(net, acc_b, acc_w, acc_b2, acc_w2);
    } else {
        let (image, label) = (batch.last().image@, batch.last().label@);
        let (pb, pw, gb, gw) = choose|
            pb: Seq<Seq<T>>,
            pw: Seq<Seq<Seq<T>>>,
            gb: Seq<Seq<T>>,
            gw: Seq<Seq<Seq<T>>>,
        |
            #![trigger
                net.is_gradient(batch.last().image@, batch.last().label@, gb, gw),
                is_matrix_sum(pb, gb, acc_b),
                is_layerwise_sum(pw, gw, acc_w),
            ]
            {
                &&& net.is_gradient_sum(batch.drop_last(), pb, pw)
                &&& net.is_gradient(batch.last().image@, batch.last().label@, gb, gw)
                &&& is_matrix_sum(pb, gb, acc_b)
                &&& is_layerwise_sum(pw, gw, acc_w)
            };
        let (pb2, pw2, gb2, gw2) = choose|
            pb: Seq<Seq<T>>,
            pw: Seq<Seq<Seq<T>>>,
            gb: Seq<Seq<T>>,
            gw: Seq<Seq<Seq<T>>>,
        |
            #![trigger
                net.is_gradient(batch.last().image@, batch.last().label@, gb, gw),
                is_matrix_sum(pb, gb, acc_b2),
                is_layerwise_sum(pw, gw, acc_w2),
            ]
            {
                &&& net.is_gradient_sum(batch.drop_last(), pb, pw)
                &&& net.is_gradient(batch.last().image@, batch.last().label@, gb, gw)
                &&& is_matrix_sum(pb, gb, acc_b2)
                &&& is_layerwise_sum(pw, gw, acc_w2)
            };
        lemma_one_gradient_sum(net, batch.drop_last(), pb, pw, pb2, pw2);
        lemma_one_gradient(net, image, label, gb, gw, gb2, gw2);
        lemma_one_rowwise(pb, gb, acc_b, acc_b2);
        lemma_one_layerwise_sum(pw, gw, acc_w, acc_w2);
    }
}

/// A step of gradient descent leaves one network.
pub proof fn lemma_one_update<T: Scalar>(
    net: NetworkModel<T>,
    batch: Seq<MnistSample<T>>,
    eta: T,
    after: NetworkModel<T>,
    after2: NetworkModel<T>,
)
    requires
        is_functional::<T>(),
        net.is_update(batch, eta, after),
        net.is_update(batch, eta, after2),
    ensures
        after == after2,
{
    let (b, w, scale) = choose|b: Seq<Seq<T>>, w: Seq<Seq<Seq<T>>>, scale: T|
        #![trigger
            net.is_gradient_sum(batch, b, w),
            is_step_size(eta, batch.len() as usize, scale),
        ]
        {
            &&& net.is_gradient_sum(batch, b, w)
            &&& is_step_size(eta, batch.len() as usize, scale)
            &&& is_descent(net.biases, b, scale, after.biases)
            &&& is_layerwise_descent(net.weights, w, scale, after.weights)
        };
    let (b2, w2, scale2) = choose|b: Seq<Seq<T>>, w: Seq<Seq<Seq<T>>>, scale: T|
        #![trigger
            net.is_gradient_sum(batch, b, w),
            is_step_size(eta, batch.len() as usize, scale),
        ]
        {
            &&& net.is_gradient_sum(batch, b, w)
            &&& is_step_size(eta, batch.len() as usize, scale)
            &&& is_descent(net.biases, b, scale, after2.biases)
            &&& is_layerwise_descent(net.weights, w, scale, after2.weights)
        };
    lemma_one_gradient_sum(net, batch, b, w, b2, w2);
    assert(scale == scale2);
    lemma_one_descent(net.biases, b, scale, after.biases, after2.biases);
    lemma_one_layerwise_descent(net.weights, w, scale, after.weights, after2.weights);
}

/// Two records of an epoch on one order of the samples agree up to
/// mini-batch `k`.
proof fn lemma_epochs_agree<T: Scalar>(
    net: NetworkModel<T>,
    shuffled: Seq<MnistSample<T>>,
    size: int,
    eta: T,
    states: Seq<NetworkModel<T>>,
    states2: Seq<NetworkModel<T>>,
    k: int,
)
    requires
        is_functional::<T>(),
        net.is_epoch_trace(shuffled, size, eta, states),
        net.is_epoch_trace(shuffled, size, eta, states2),
        0 <= k <= batch_count(shuffled.len() as int, size),
    ensures
        states[k] == states2[k],
    decreases k,
{
    if k > 0 {
        lemma_epochs_agree(net, shuffled, size, eta, states, states2, k - 1);
        let batch = mini_batch(shuffled, size, k - 1);
        assert(states[k - 1].is_update(batch, eta, states[k - 1 + 1]));
        assert(states2[k - 1].is_update(batch, eta, states2[k - 1 + 1]));
        lemma_one_update(states[k - 1], batch, eta, states[k], states2[k]);
    }
}

/// An epoch on the samples in a given order leaves one network.
pub proof fn lemma_one_epoch<T: Scalar>(
    net: NetworkModel<T>,
    shuffled: Seq<MnistSample<T>>,
    size: int,
    eta: T,
    after: NetworkModel<T>,
    after2: NetworkModel<T>,
)
    requires
        is_functional::<T>(),
        size > 0,
        net.is_epoch(shuffled, size, eta, after),
        net.is_epoch(shuffled, size, eta, after2),
    ensures
        after == after2,
{
    let n = shuffled.len() as int;
    assert(batch_count(n, size) >= 0) by (nonlinear_arith)
        requires
            size > 0,
            n >= 0,
            batch_count(n, size) == if n <= 0 {
                0
            } else {
                (n - 1) / size + 1
            },
    ;
    let states = choose|states: Seq<NetworkModel<T>>|
        net.is_epoch_trace(shuffled, size, eta, states) && states.last() == after;
    let states2 = choose|states: Seq<NetworkModel<T>>|
        net.is_epoch_trace(shuffled, size, eta, states) && states.last() == after2;
    lemma_epochs_agree(
        net,
        shuffled,
        size,
        eta,
        states,
        states2,
        batch_count(shuffled.len() as int, size),
    );
}

} // verus!
