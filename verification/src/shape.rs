//! The shapes that the relations of the model keep: an output is as long as
//! the last layer, a gradient is shaped like the parameters, and a step of
//! gradient descent leaves the shape of a network as it was.

use vstd::prelude::*;
use crate::activation::is_slope;
use crate::linalg::{
    is_descent, is_hadamard, is_matrix, is_matrix_difference, is_matrix_scaled,
    is_matrix_vector, is_outer, is_scaled_by, is_transposed_matrix_vector, is_vector_difference,
    is_vector_sum, same_shape,
};
use crate::model::{
    NetworkModel, is_layerwise_descent, is_step_size, lemma_shape_carries_over, parameter_shaped,
    same_layer_shapes,
};
use crate::sample::MnistSample;
use crate::scalar::Scalar;
use crate::shuffle::{batch_count, mini_batch};

verus! {

/// In a forward pass the activation that enters layer `l` is as long as
/// `sizes[l]`, and the weighted input of layer `l` as long as `sizes[l + 1]`.
pub proof fn lemma_forward_pass_shape<T: Scalar>(
    net: NetworkModel<T>,
    input: Seq<T>,
    zs: Seq<Seq<T>>,
    acts: Seq<Seq<T>>,
    l: int,
)
    requires
        net.well_formed(),
        input.len() == net.sizes[0],
        net.is_forward_pass(input, zs, acts),
        0 <= l <= net.depth(),
    ensures
        acts[l].len() == net.sizes[l],
        l < net.depth() ==> zs[l].len() == net.sizes[l + 1],
{
    if l > 0 {
        let k = l - 1;
        assert(net.is_layer(k, acts[k], zs[k], acts[k + 1]));
        let p = choose|p: Seq<T>|
            is_matrix_vector(net.weights[k], acts[k], p) && is_vector_sum(p, net.biases[k], zs[k]);
        assert(is_matrix(net.weights[k], net.sizes[k + 1] as int, net.sizes[k] as int));
    }
    if l < net.depth() {
        assert(net.is_layer(l, acts[l], zs[l], acts[l + 1]));
        let p = choose|p: Seq<T>|
            is_matrix_vector(net.weights[l], acts[l], p) && is_vector_sum(p, net.biases[l], zs[l]);
        assert(is_matrix(net.weights[l], net.sizes[l + 1] as int, net.sizes[l] as int));
    }
}

/// The output for an input as long as the first layer is as long as the last
/// layer.
pub proof fn lemma_output_shape<T: Scalar>(net: NetworkModel<T>, input: Seq<T>, out: Seq<T>)
    requires
        net.well_formed(),
        input.len() == net.sizes[0],
        net.is_output(input, out),
    ensures
        out.len() == net.sizes.last(),
{
    let (zs, acts) = choose|zs: Seq<Seq<T>>, acts: Seq<Seq<T>>|
        #![trigger net.is_forward_pass(input, zs, acts)]
        net.is_forward_pass(input, zs, acts) && acts[net.depth()] == out;
    lemma_forward_pass_shape(net, input, zs, acts, net.depth());
}

/// The gradient of a sample that fits is shaped like the parameters, for
/// every network and every such sample.
pub proof fn lemma_gradient_shape<T: Scalar>(
    net: NetworkModel<T>,
    image: Seq<T>,
    label: Seq<T>,
    nabla_b: Seq<Seq<T>>,
    nabla_w: Seq<Seq<Seq<T>>>,
)
    requires
        net.well_formed(),
        net.fits(image, label),
        net.is_gradient(image, label, nabla_b, nabla_w),
    ensures
        parameter_shaped(net.sizes, nabla_b, nabla_w),
{
    let n = net.depth();
    let (zs, acts) = choose|zs: Seq<Seq<T>>, acts: Seq<Seq<T>>|
        #![trigger net.is_forward_pass(image, zs, acts)]
        {
            &&& net.is_forward_pass(image, zs, acts)
            &&& net.is_backward_pass(label, zs, acts, nabla_b)
            &&& nabla_w.len() == net.depth()
            &&& forall|l: int|
                0 <= l < net.depth() ==> is_outer(nabla_b[l], acts[l], #[trigger] nabla_w[l])
        };
    assert forall|l: int| 0 <= l < n implies (#[trigger] nabla_b[l]).len() == net.sizes[l + 1] by {
        lemma_forward_pass_shape(net, image, zs, acts, l);
        if l == n - 1 {
            lemma_forward_pass_shape(net, image, zs, acts, n);
            let (c, sp) = choose|c: Seq<T>, sp: Seq<T>|
                #![trigger is_vector_difference(acts[n], label, c), is_slope(zs[n - 1], sp)]
                is_vector_difference(acts[n], label, c) && is_slope(zs[n - 1], sp) && is_hadamard(
                    c,
                    sp,
                    nabla_b[n - 1],
                );
        } else {
            let (t, sp) = choose|t: Seq<T>, sp: Seq<T>|
                #![trigger
                    is_transposed_matrix_vector(net.weights[l + 1], nabla_b[l + 1], t),
                    is_slope(zs[l], sp),
                ]
                t.len() == zs[l].len() && is_transposed_matrix_vector(
                    net.weights[l + 1],
                    nabla_b[l + 1],
                    t,
                ) && is_slope(zs[l], sp) && is_hadamard(t, sp, nabla_b[l]);
        }
    }
    assert forall|l: int| 0 <= l < n implies is_matrix(
        #[trigger] nabla_w[l],
        net.sizes[l + 1] as int,
        net.sizes[l] as int,
    ) by {
        lemma_forward_pass_shape(net, image, zs, acts, l);
        assert(is_outer(nabla_b[l], acts[l], nabla_w[l]));
        assert forall|i: int| 0 <= i < nabla_w[l].len() implies (#[trigger] nabla_w[l][i]).len()
            == net.sizes[l] by {
            assert(is_scaled_by(nabla_b[l][i], acts[l], nabla_w[l][i]));
        }
    }
}

/// A matrix less a multiple of another has the shape of the first.
pub proof fn lemma_descent_shape<T: Scalar>(
    m: Seq<Seq<T>>,
    g: Seq<Seq<T>>,
    s: T,
    r: Seq<Seq<T>>,
)
    requires
        is_descent(m, g, s, r),
    ensures
        same_shape(m, r),
{
    let p = choose|p: Seq<Seq<T>>| is_matrix_scaled(g, s, p) && is_matrix_difference(m, p, r);
    assert forall|i: int| 0 <= i < m.len() implies m[i].len() == r[i].len() by {
        assert(is_vector_difference(m[i], p[i], r[i]));
    }
}

/// A step of gradient descent keeps the invariant of the network: the sizes
/// stay, and the parameters keep the shape that the sizes call for.
pub proof fn lemma_update_shape<T: Scalar>(
    net: NetworkModel<T>,
    batch: Seq<MnistSample<T>>,
    eta: T,
    after: NetworkModel<T>,
)
    requires
        net.well_formed(),
        net.is_update(batch, eta, after),
    ensures
        after.well_formed(),
        after.sizes == net.sizes,
{
    let (b, w, scale) = choose|b: Seq<Seq<T>>, w: Seq<Seq<Seq<T>>>, scale: T|
        #![trigger
            net.is_gradient_sum(batch, b, w),
            is_step_size(eta, batch.len() as usize, scale),
        ]
        {
            &&& net.is_gradient_sum(batch, b, w)
            &&& is_step_size(eta, batch.len() as usize, scale)
            &&& is_descent(net.biases, b, scale, after.biases)
            &&& is_layerwise_descent(net.weights, w, scale, after.weights)
        };
    lemma_descent_shape(net.biases, b, scale, after.biases);
    assert forall|l: int| 0 <= l < net.weights.len() implies same_shape(
        #[trigger] net.weights[l],
        after.weights[l],
    ) by {
        lemma_descent_shape(net.weights[l], w[l], scale, after.weights[l]);
    }
    assert(same_layer_shapes(net.weights, after.weights));
    lemma_shape_carries_over(
        net.sizes,
        net.biases,
        net.weights,
        after.biases,
        after.weights,
    );
}

/// Every network on the way through an epoch keeps the invariant.
pub proof fn lemma_epoch_shape<T: Scalar>(
    net: NetworkModel<T>,
    shuffled: Seq<MnistSample<T>>,
    size: int,
    eta: T,
    states: Seq<NetworkModel<T>>,
    k: int,
)
    requires
        net.well_formed(),
        net.is_epoch_trace(shuffled, size, eta, states),
        0 <= k <= batch_count(shuffled.len() as int, size),
    ensures
        states[k].well_formed(),
        states[k].sizes == net.sizes,
    decreases k,
{
    if k > 0 {
        lemma_epoch_shape(net, shuffled, size, eta, states, k - 1);
        let batch = mini_batch(shuffled, size, k - 1);
        assert(states[k - 1].is_update(batch, eta, states[k - 1 + 1]));
        lemma_update_shape(states[k - 1], batch, eta, states[k]);
    }
}

} // verus!
