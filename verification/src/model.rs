//! What a network is and what its operations come to, in mathematical terms.
//!
//! [`NetworkModel`] holds the layer sizes and the parameters as sequences.
//! The relations on it say what a forward pass, a gradient, a step of
//! gradient descent and an evaluation are. The functions of
//! [`Network`](crate::network::Network) are specified by them.

use vstd::prelude::*;
use crate::activation::{is_activation, is_sigmoid, is_slope};
use crate::argmax::{ArgmaxError, is_argmax};
use crate::linalg::{
    is_descent, is_hadamard, is_matrix, is_matrix_sum, is_outer, is_transposed_matrix_vector,
    is_vector_difference, is_weighted_input, is_zero_matrix, is_zero_vector, rows, same_shape,
};
use crate::sample::MnistSample;
use crate::scalar::{Scalar, is_count, is_quotient};

verus! {

/// The mathematical content of a network.
pub struct NetworkModel<T> {
    /// The number of neurons in each layer, the input layer first.
    pub sizes: Seq<usize>,
    /// For each layer after the input layer, the bias of each of its neurons.
    pub biases: Seq<Seq<T>>,
    /// For each layer after the input layer, its weight matrix: a row for
    /// each of its neurons, with a weight for each neuron of the layer
    /// before.
    pub weights: Seq<Seq<Seq<T>>>,
}

/// The matrices of `w`, each as its sequence of rows.
pub open spec fn layers<T>(w: &Vec<Vec<Vec<T>>>) -> Seq<Seq<Seq<T>>> {
    Seq::new(w@.len(), |l: int| rows(&w@[l]))
}

/// At least an input and an output layer, and no layer without neurons.
pub open spec fn valid_sizes(sizes: Seq<usize>) -> bool {
    &&& sizes.len() >= 2
    &&& forall|i: int| 0 <= i < sizes.len() ==> #[trigger] sizes[i] > 0
}

/// Whether `b` and `w` have the shape of the biases and weights of a network
/// with these layer sizes: one vector of `sizes[l + 1]` entries and one matrix
/// of `sizes[l + 1]` by `sizes[l]` entries for each layer `l`.
pub open spec fn parameter_shaped<T>(
    sizes: Seq<usize>,
    b: Seq<Seq<T>>,
    w: Seq<Seq<Seq<T>>>,
) -> bool {
    &&& b.len() == sizes.len() - 1
    &&& w.len() == sizes.len() - 1
    &&& forall|l: int| 0 <= l < b.len() ==> (#[trigger] b[l]).len() == sizes[l + 1]
    &&& forall|l: int|
        0 <= l < w.len() ==> is_matrix(#[trigger] w[l], sizes[l + 1] as int, sizes[l] as int)
}

/// Whether `a` and `b` hold as many matrices, one by one of the same shape.
pub open spec fn same_layer_shapes<T>(a: Seq<Seq<Seq<T>>>, b: Seq<Seq<Seq<T>>>) -> bool {
    &&& a.len() == b.len()
    &&& forall|l: int|
        #![trigger a[l]]
        #![trigger b[l]]
        0 <= l < a.len() ==> same_shape(a[l], b[l])
}

/// Matrix by matrix, `r` is the sum of `a` and `b`.
pub open spec fn is_layerwise_sum<T: Scalar>(
    a: Seq<Seq<Seq<T>>>,
    b: Seq<Seq<Seq<T>>>,
    r: Seq<Seq<Seq<T>>>,
) -> bool {
    &&& r.len() == a.len()
    &&& forall|l: int| 0 <= l < r.len() ==> is_matrix_sum(a[l], b[l], #[trigger] r[l])
}

/// Matrix by matrix, `r` is `m - g * s`.
pub open spec fn is_layerwise_descent<T: Scalar>(
    m: Seq<Seq<Seq<T>>>,
    g: Seq<Seq<Seq<T>>>,
    s: T,
    r: Seq<Seq<Seq<T>>>,
) -> bool {
    &&& r.len() == m.len()
    &&& forall|l: int| 0 <= l < r.len() ==> is_descent(m[l], g[l], s, #[trigger] r[l])
}

/// `delta` is the error of the output layer: the difference between the
/// activation `a` and the target `y`, times the slope of the sigmoid at `z`.
pub open spec fn is_output_error<T: Scalar>(
    a: Seq<T>,
    y: Seq<T>,
    z: Seq<T>,
    delta: Seq<T>,
) -> bool {
    exists|c: Seq<T>, sp: Seq<T>|
        #![trigger is_vector_difference(a, y, c), is_slope(z, sp)]
        {
            &&& is_vector_difference(a, y, c)
            &&& is_slope(z, sp)
            &&& is_hadamard(c, sp, delta)
        }
}

/// `delta` is the error of a hidden layer with weighted input `z`: the error
/// `delta_next` of the layer after it, taken back through the transpose of
/// that layer's weights `w_next`, times the slope of the sigmoid at `z`.
pub open spec fn is_hidden_error<T: Scalar>(
    w_next: Seq<Seq<T>>,
    delta_next: Seq<T>,
    z: Seq<T>,
    delta: Seq<T>,
) -> bool {
    exists|t: Seq<T>, sp: Seq<T>|
        #![trigger is_transposed_matrix_vector(w_next, delta_next, t), is_slope(z, sp)]
        {
            &&& t.len() == z.len()
            &&& is_transposed_matrix_vector(w_next, delta_next, t)
            &&& is_slope(z, sp)
            &&& is_hadamard(t, sp, delta)
        }
}

/// `scale` is the learning rate `eta` divided by the number of samples.
pub open spec fn is_step_size<T: Scalar>(eta: T, count: usize, scale: T) -> bool {
    exists|c: T| #![trigger is_count(count, c)] is_count(count, c) && is_quotient(eta, c, scale)
}

/// How many entries of `hits` are `true`.
pub open spec fn count_true(hits: Seq<bool>) -> nat
    decreases hits.len(),
{
    if hits.len() == 0 {
        0
    } else {
        count_true(hits.drop_last()) + if hits.last() {
            1nat
        } else {
            0nat
        }
    }
}

impl<T: Scalar> NetworkModel<T> {
    /// The number of layers that compute: one less than the number of sizes.
    pub open spec fn depth(self) -> int {
        self.sizes.len() - 1
    }

    /// The sizes are valid, and the parameters have the shape that they
    /// call for.
    pub open spec fn well_formed(self) -> bool {
        &&& valid_sizes(self.sizes)
        &&& parameter_shaped(self.sizes, self.biases, self.weights)
    }

    /// Layer `l` takes the input `x` to the weighted input `z` and the
    /// activation `a`.
    pub open spec fn is_layer(self, l: int, x: Seq<T>, z: Seq<T>, a: Seq<T>) -> bool {
        &&& is_weighted_input(self.weights[l], x, self.biases[l], z)
        &&& is_activation(z, a)
    }

    /// `zs` and `acts` record a forward pass on `input`: `acts[0]` is the
    /// input, and layer `l` takes `acts[l]` to `zs[l]` and `acts[l + 1]`.
    pub open spec fn is_forward_pass(
        self,
        input: Seq<T>,
        zs: Seq<Seq<T>>,
        acts: Seq<Seq<T>>,
    ) -> bool {
        &&& zs.len() == self.depth()
        &&& acts.len() == self.depth() + 1
        &&& acts[0] == input
        &&& forall|l: int|
            0 <= l < self.depth() ==> self.is_layer(l, acts[l], #[trigger] zs[l], acts[l + 1])
    }

    /// `out` is what the last layer gives in some forward pass on `input`.
    pub open spec fn is_output(self, input: Seq<T>, out: Seq<T>) -> bool {
        exists|zs: Seq<Seq<T>>, acts: Seq<Seq<T>>|
            #![trigger self.is_forward_pass(input, zs, acts)]
            self.is_forward_pass(input, zs, acts) && acts[self.depth()] == out
    }

    /// Whether a sample with this input and this target fits the network.
    pub open spec fn fits(self, image: Seq<T>, label: Seq<T>) -> bool {
        &&& image.len() == self.sizes[0]
        &&& label.len() == self.sizes.last()
    }

    /// `deltas` holds the error of every layer for the forward pass `zs`,
    /// `acts` and the target `label`: that of the output layer comes from the
    /// target, that of each layer before it from the layer after it.
    pub open spec fn is_backward_pass(
        self,
        label: Seq<T>,
        zs: Seq<Seq<T>>,
        acts: Seq<Seq<T>>,
        deltas: Seq<Seq<T>>,
    ) -> bool {
        let n = self.depth();
        &&& deltas.len() == n
        &&& is_output_error(acts[n], label, zs[n - 1], deltas[n - 1])
        &&& forall|l: int|
            0 <= l < n - 1 ==> is_hidden_error(
                self.weights[l + 1],
                deltas[l + 1],
                zs[l],
                #[trigger] deltas[l],
            )
    }

    /// `nabla_b` and `nabla_w` are the gradient of the squared error on one
    /// sample with respect to the biases and the weights, layer by layer in
    /// forward order: `nabla_b[l]` is the error of layer `l`, and `nabla_w[l]`
    /// its outer product with the activation that enters layer `l`.
    pub open spec fn is_gradient(
        self,
        image: Seq<T>,
        label: Seq<T>,
        nabla_b: Seq<Seq<T>>,
        nabla_w: Seq<Seq<Seq<T>>>,
    ) -> bool {
        exists|zs: Seq<Seq<T>>, acts: Seq<Seq<T>>|
            #![trigger self.is_forward_pass(image, zs, acts)]
            {
                &&& self.is_forward_pass(image, zs, acts)
                &&& self.is_backward_pass(label, zs, acts, nabla_b)
                &&& nabla_w.len() == self.depth()
                &&& forall|l: int|
                    0 <= l < self.depth() ==> is_outer(nabla_b[l], acts[l], #[trigger] nabla_w[l])
            }
    }

    /// `hit` tells whether the network classifies `sample` as its label
    /// says: whether the largest entry of the output stands where the largest
    /// entry of the label stands. Two searches that fail alike count as a hit.
    pub open spec fn is_hit(self, sample: MnistSample<T>, hit: bool) -> bool {
        exists|out: Seq<T>, p: Result<usize, ArgmaxError>, q: Result<usize, ArgmaxError>|
            #![trigger self.is_output(sample.image@, out), is_argmax(out, p), is_argmax(sample.label@, q)]
            {
                &&& self.is_output(sample.image@, out)
                &&& is_argmax(out, p)
                &&& is_argmax(sample.label@, q)
                &&& hit == (p == q)
            }
    }

    /// `hits[i]` tells whether the network classifies `data[i]` as its label
    /// says.
    pub open spec fn is_hits(self, data: Seq<MnistSample<T>>, hits: Seq<bool>) -> bool {
        &&& hits.len() == data.len()
        &&& forall|i: int| 0 <= i < hits.len() ==> self.is_hit(data[i], #[trigger] hits[i])
    }

    /// `count` is the number of samples of `data` that the network classifies
    /// as their labels say.
    pub open spec fn is_score(self, data: Seq<MnistSample<T>>, count: int) -> bool {
        exists|hits: Seq<bool>|
            #![trigger self.is_hits(data, hits)]
            self.is_hits(data, hits) && count == count_true(hits)
    }

    /// Whether every sample of `data` fits the network.
    pub open spec fn all_fit(self, data: Seq<MnistSample<T>>) -> bool {
        forall|i: int| 0 <= i < data.len() ==> self.fits((#[trigger] data[i]).image@, data[i].label@)
    }

    /// `b` and `w` are shaped like the parameters and hold zeros.
    pub open spec fn is_zero_gradient(self, b: Seq<Seq<T>>, w: Seq<Seq<Seq<T>>>) -> bool {
        &&& b.len() == self.depth()
        &&& w.len() == self.depth()
        &&& forall|l: int|
            0 <= l < self.depth() ==> is_zero_vector(self.sizes[l + 1] as int, #[trigger] b[l])
        &&& forall|l: int|
            0 <= l < self.depth() ==> is_zero_matrix(
                self.sizes[l + 1] as int,
                self.sizes[l] as int,
                #[trigger] w[l],
            )
    }

    /// `acc_b` and `acc_w` are the gradients of the samples of `batch` summed
    /// up: starting from zeros, the gradient of each sample is added in the
    /// order of the batch.
    pub open spec fn is_gradient_sum(
        self,
        batch: Seq<MnistSample<T>>,
        acc_b: Seq<Seq<T>>,
        acc_w: Seq<Seq<Seq<T>>>,
    ) -> bool
        decreases batch.len(),
    {
        if batch.len() == 0 {
            self.is_zero_gradient(acc_b, acc_w)
        } else {
            exists|
                prev_b: Seq<Seq<T>>,
                prev_w: Seq<Seq<Seq<T>>>,
                nabla_b: Seq<Seq<T>>,
                nabla_w: Seq<Seq<Seq<T>>>,
            |
                #![trigger
                    self.is_gradient(batch.last().image@, batch.last().label@, nabla_b, nabla_w),
                    is_matrix_sum(prev_b, nabla_b, acc_b),
                    is_layerwise_sum(prev_w, nabla_w, acc_w),
                ]
                {
                    &&& self.is_gradient_sum(batch.drop_last(), prev_b, prev_w)
                    &&& self.is_gradient(batch.last().image@, batch.last().label@, nabla_b, nabla_w)
                    &&& is_matrix_sum(prev_b, nabla_b, acc_b)
                    &&& is_layerwise_sum(prev_w, nabla_w, acc_w)
                }
        }
    }

    /// `after` is this network after one step of gradient descent on
    /// `batch`: every parameter less its summed gradient times the step size
    /// `eta / batch.len()`.
    pub open spec fn is_update(
        self,
        batch: Seq<MnistSample<T>>,
        eta: T,
        after: NetworkModel<T>,
    ) -> bool {
        &&& after.sizes == self.sizes
        &&& exists|acc_b: Seq<Seq<T>>, acc_w: Seq<Seq<Seq<T>>>, scale: T|
            #![trigger
                self.is_gradient_sum(batch, acc_b, acc_w),
                is_step_size(eta, batch.len() as usize, scale),
            ]
            {
                &&& self.is_gradient_sum(batch, acc_b, acc_w)
                &&& is_step_size(eta, batch.len() as usize, scale)
                &&& is_descent(self.biases, acc_b, scale, after.biases)
                &&& is_layerwise_descent(self.weights, acc_w, scale, after.weights)
            }
    }
}

/// Every entry of an output is a sigmoid: a value of `1 / (1 + exp(-z))` for
/// the weighted input `z` of its neuron.
pub proof fn lemma_output_entries_are_sigmoids<T: Scalar>(
    net: NetworkModel<T>,
    input: Seq<T>,
    out: Seq<T>,
    i: int,
)
    requires
        net.well_formed(),
        net.is_output(input, out),
        0 <= i < out.len(),
    ensures
        exists|z: T| is_sigmoid(z, out[i]),
{
    let (zs, acts) = choose|zs: Seq<Seq<T>>, acts: Seq<Seq<T>>|
        #![trigger net.is_forward_pass(input, zs, acts)]
        net.is_forward_pass(input, zs, acts) && acts[net.depth()] == out;
    let last = net.depth() - 1;
    assert(net.is_layer(last, acts[last], zs[last], acts[last + 1]));
    assert(is_sigmoid(zs[last][i], out[i]));
}

/// Parameters of one shape fit the same layer sizes.
pub proof fn lemma_shape_carries_over<T>(
    sizes: Seq<usize>,
    b: Seq<Seq<T>>,
    w: Seq<Seq<Seq<T>>>,
    b2: Seq<Seq<T>>,
    w2: Seq<Seq<Seq<T>>>,
)
    requires
        parameter_shaped(sizes, b, w),
        same_shape(b, b2),
        same_layer_shapes(w, w2),
    ensures
        parameter_shaped(sizes, b2, w2),
{
    assert forall|l: int| 0 <= l < b2.len() implies (#[trigger] b2[l]).len() == sizes[l + 1] by {
        assert(b[l].len() == b2[l].len());
    }
    assert forall|l: int| 0 <= l < w2.len() implies is_matrix(
        #[trigger] w2[l],
        sizes[l + 1] as int,
        sizes[l] as int,
    ) by {
        assert(same_shape(w[l], w2[l]));
        assert(is_matrix(w[l], sizes[l + 1] as int, sizes[l] as int));
        assert forall|i: int| 0 <= i < w2[l].len() implies (#[trigger] w2[l][i]).len()
            == sizes[l] by {
            assert(w[l][i].len() == w2[l][i].len());
        }
    }
}

/// Parameters that fit the same layer sizes have one shape.
pub proof fn lemma_shapes_agree<T>(
    sizes: Seq<usize>,
    b: Seq<Seq<T>>,
    w: Seq<Seq<Seq<T>>>,
    b2: Seq<Seq<T>>,
    w2: Seq<Seq<Seq<T>>>,
)
    requires
        parameter_shaped(sizes, b, w),
        parameter_shaped(sizes, b2, w2),
    ensures
        same_shape(b, b2),
        same_layer_shapes(w, w2),
{
    assert forall|l: int| 0 <= l < w.len() implies same_shape(#[trigger] w[l], w2[l]) by {
        assert(is_matrix(w[l], sizes[l + 1] as int, sizes[l] as int));
        assert(is_matrix(w2[l], sizes[l + 1] as int, sizes[l] as int));
    }
}

} // verus!
