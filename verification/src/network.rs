//! The network: its parameters, the forward pass, backpropagation, the
//! mini-batch update and evaluation.

use vstd::prelude::*;
use crate::activation::{activation, is_slope, slope};
use crate::argmax::{argmax, is_argmax, same_outcome};
use crate::linalg::{
    descent, duplicate, hadamard, is_descent, is_matrix, is_matrix_sum, is_outer,
    is_transposed_matrix_vector, is_vector_difference, is_zero_matrix, is_zero_vector,
    matrix_sum, outer, reversed, rows, same_shape, transposed_matrix_vector, vector_difference,
    weighted_input, zero_matrix, zero_vector,
};
use crate::model::{
    NetworkModel, is_hidden_error, is_layerwise_descent, is_layerwise_sum, is_output_error,
    is_step_size, count_true, layers, lemma_shape_carries_over, lemma_shapes_agree,
    parameter_shaped, same_layer_shapes, valid_sizes,
};
use crate::sample::{MnistSample, samples};
use crate::scalar::{Scalar, is_count, is_positivity, positive};

verus! {

/// Why an operation on a network was refused.
#[derive(Clone, Copy, Debug, PartialEq, Eq)]
pub enum NetworkError {
    /// Fewer than two layers, or a layer without neurons.
    InvalidArchitecture,
    /// A sample whose input or target length is not that of the first or last
    /// layer.
    DimensionMismatch,
    /// A learning rate that is not positive, a mini-batch size of zero, or no
    /// epochs.
    InvalidHyperparameter,
}

/// A source of numbers drawn independently from the standard normal
/// distribution.
pub trait NormalSource<T> {
    /// The next draw.
    fn sample(&mut self) -> T;
}

/// A dense feed-forward network with sigmoid activations.
///
/// Layer `l` maps `sizes[l]` inputs to `sizes[l + 1]` outputs through
/// `weights[l]`, a matrix of `sizes[l + 1]` rows and `sizes[l]` columns, and
/// the bias vector `biases[l]`.
pub struct Network<T> {
    sizes: Vec<usize>,
    biases: Vec<Vec<T>>,
    weights: Vec<Vec<Vec<T>>>,
}

impl<T: Scalar> View for Network<T> {
    type V = NetworkModel<T>;

    closed spec fn view(&self) -> NetworkModel<T> {
        NetworkModel {
            sizes: self.sizes@,
            biases: rows(&self.biases),
            weights: layers(&self.weights),
        }
    }
}

/// The derivative of the squared error with respect to the output
/// activations: `output_activations - y`.
pub fn cost_derivative<T: Scalar>(output_activations: &Vec<T>, y: &Vec<T>) -> (r: Vec<T>)
    requires
        output_activations.len() == y.len(),
    ensures
        is_vector_difference(output_activations@, y@, r@),
{
    vector_difference(output_activations, y)
}

/// Whether `sizes` names at least two layers, none of them empty.
fn sizes_are_valid(sizes: &Vec<usize>) -> (b: bool)
    ensures
        b == valid_sizes(sizes@),
{
    if sizes.len() < 2 {
        return false;
    }
    let mut i: usize = 0;
    while i < sizes.len()
        invariant
            i <= sizes.len(),
            forall|k: int| 0 <= k < i ==> #[trigger] sizes@[k] > 0,
        decreases sizes.len() - i,
    {
        if sizes[i] == 0 {
            return false;
        }
        i += 1;
    }
    true
}

/// Whether `m` has `height` rows of `width` entries.
fn has_shape<T>(m: &Vec<Vec<T>>, height: usize, width: usize) -> (ok: bool)
    ensures
        ok == is_matrix(rows(m), height as int, width as int),
{
    if m.len() != height {
        return false;
    }
    let mut i: usize = 0;
    while i < m.len()
        invariant
            i <= m.len(),
            m.len() == height,
            forall|k: int| 0 <= k < i ==> (#[trigger] rows(m)[k]).len() == width,
        decreases m.len() - i,
    {
        if m[i].len() != width {
            assert(rows(m)[i as int].len() != width);
            return false;
        }
        i += 1;
    }
    true
}

/// Whether `b` and `w` have the shape that `sizes` calls for.
fn shaped_for<T>(sizes: &Vec<usize>, b: &Vec<Vec<T>>, w: &Vec<Vec<Vec<T>>>) -> (ok: bool)
    requires
        sizes.len() >= 1,
    ensures
        ok == parameter_shaped(sizes@, rows(b), layers(w)),
{
    let n = sizes.len() - 1;
    if b.len() != n || w.len() != n {
        return false;
    }
    let mut l: usize = 0;
    while l < n
        invariant
            n == sizes.len() - 1,
            b.len() == n,
            w.len() == n,
            l <= n,
            forall|k: int| 0 <= k < l ==> (#[trigger] rows(b)[k]).len() == sizes@[k + 1],
            forall|k: int|
                0 <= k < l ==> is_matrix(
                    #[trigger] layers(w)[k],
                    sizes@[k + 1] as int,
                    sizes@[k] as int,
                ),
        decreases n - l,
    {
        if b[l].len() != sizes[l + 1] {
            assert(rows(b)[l as int].len() != sizes@[l + 1]);
            return false;
        }
        if !has_shape(&w[l], sizes[l + 1], sizes[l]) {
            assert(layers(w)[l as int] == rows(&w@[l as int]));
            return false;
        }
        assert(layers(w)[l as int] == rows(&w@[l as int]));
        l += 1;
    }
    true
}

/// A vector of `n` draws from `source`.
fn random_vector<T, S: NormalSource<T>>(n: usize, source: &mut S) -> (r: Vec<T>)
    ensures
        r.len() == n,
{
    let mut r: Vec<T> = Vec::new();
    let mut i: usize = 0;
    while i < n
        invariant
            i <= n,
            r.len() == i,
        decreases n - i,
    {
        r.push(source.sample());
        i += 1;
    }
    r
}

/// A matrix of `height` rows of `width` draws from `source`.
fn random_matrix<T, S: NormalSource<T>>(height: usize, width: usize, source: &mut S) -> (r: Vec<
    Vec<T>,
>)
    ensures
        is_matrix(rows(&r), height as int, width as int),
{
    let mut r: Vec<Vec<T>> = Vec::new();
    let mut i: usize = 0;
    while i < height
        invariant
            i <= height,
            is_matrix(rows(&r), i as int, width as int),
        decreases height - i,
    {
        let ghost before = rows(&r);
        let row = random_vector(width, source);
        r.push(row);
        assert(rows(&r) =~= before.push(row@));
        i += 1;
    }
    r
}

/// Matrix by matrix, the sum of `a` and `b`.
fn layerwise_sum<T: Scalar>(a: &Vec<Vec<Vec<T>>>, b: &Vec<Vec<Vec<T>>>) -> (r: Vec<Vec<Vec<T>>>)
    requires
        same_layer_shapes(layers(a), layers(b)),
    ensures
        is_layerwise_sum(layers(a), layers(b), layers(&r)),
        same_layer_shapes(layers(a), layers(&r)),
{
    let mut r: Vec<Vec<Vec<T>>> = Vec::new();
    let mut l: usize = 0;
    while l < a.len()
        invariant
            l <= a.len(),
            r.len() == l,
            same_layer_shapes(layers(a), layers(b)),
            forall|k: int|
                0 <= k < l ==> is_matrix_sum(layers(a)[k], layers(b)[k], #[trigger] layers(&r)[k]),
            forall|k: int| 0 <= k < l ==> same_shape(layers(a)[k], #[trigger] layers(&r)[k]),
        decreases a.len() - l,
    {
        let ghost before = layers(&r);
        assert(same_shape(layers(a)[l as int], layers(b)[l as int]));
        let m = matrix_sum(&a[l], &b[l]);
        r.push(m);
        assert(layers(&r) =~= before.push(rows(&m)));
        l += 1;
    }
    r
}

/// Matrix by matrix, `m - g * s`.
fn layerwise_descent<T: Scalar>(m: &Vec<Vec<Vec<T>>>, g: &Vec<Vec<Vec<T>>>, s: T) -> (r: Vec<
    Vec<Vec<T>>,
>)
    requires
        same_layer_shapes(layers(m), layers(g)),
    ensures
        is_layerwise_descent(layers(m), layers(g), s, layers(&r)),
        same_layer_shapes(layers(m), layers(&r)),
{
    let mut r: Vec<Vec<Vec<T>>> = Vec::new();
    let mut l: usize = 0;
    while l < m.len()
        invariant
            l <= m.len(),
            r.len() == l,
            same_layer_shapes(layers(m), layers(g)),
            forall|k: int|
                0 <= k < l ==> is_descent(layers(m)[k], layers(g)[k], s, #[trigger] layers(&r)[k]),
            forall|k: int| 0 <= k < l ==> same_shape(layers(m)[k], #[trigger] layers(&r)[k]),
        decreases m.len() - l,
    {
        let ghost before = layers(&r);
        assert(same_shape(layers(m)[l as int], layers(g)[l as int]));
        let d = descent(&m[l], &g[l], s);
        r.push(d);
        assert(layers(&r) =~= before.push(rows(&d)));
        l += 1;
    }
    r
}

impl<T: Scalar> Network<T> {
    /// The invariant of the type: the sizes are valid and the parameters have
    /// the shape that the sizes call for.
    pub open spec fn well_formed(&self) -> bool {
        self@.well_formed()
    }

    /// A network with the given layer sizes, the first being that of the
    /// input. Every bias and every weight is drawn from `source`: first the
    /// biases, layer by layer, then the weights, layer by layer and row by
    /// row.
    pub fn new<S: NormalSource<T>>(sizes: Vec<usize>, source: &mut S) -> (r: Result<
        Network<T>,
        NetworkError,
    >)
        ensures
            r is Ok <==> valid_sizes(sizes@),
            r matches Err(e) ==> e == NetworkError::InvalidArchitecture,
            r matches Ok(net) ==> net.well_formed() && net@.sizes == sizes@,
    {
        if !sizes_are_valid(&sizes) {
            return Err(NetworkError::InvalidArchitecture);
        }
        let n = sizes.len() - 1;
        let mut biases: Vec<Vec<T>> = Vec::new();
        let mut l: usize = 0;
        while l < n
            invariant
                n == sizes.len() - 1,
                l <= n,
                biases.len() == l,
                forall|k: int| 0 <= k < l ==> (#[trigger] rows(&biases)[k]).len() == sizes@[k + 1],
            decreases n - l,
        {
            let ghost before = rows(&biases);
            let b = random_vector(sizes[l + 1], source);
            biases.push(b);
            assert(rows(&biases) =~= before.push(b@));
            l += 1;
        }
        let mut weights: Vec<Vec<Vec<T>>> = Vec::new();
        let mut l: usize = 0;
        while l < n
            invariant
                n == sizes.len() - 1,
                l <= n,
                weights.len() == l,
                forall|k: int|
                    0 <= k < l ==> is_matrix(
                        #[trigger] layers(&weights)[k],
                        sizes@[k + 1] as int,
                        sizes@[k] as int,
                    ),
            decreases n - l,
        {
            let ghost before = layers(&weights);
            let w = random_matrix(sizes[l + 1], sizes[l], source);
            weights.push(w);
            assert(layers(&weights) =~= before.push(rows(&w)));
            l += 1;
        }
        Ok(Network { sizes, biases, weights })
    }

    /// A network with the given layer sizes and parameters.
    ///
    /// The sizes are refused as for [`Network::new`]. Parameters that have
    /// not the shape that the sizes call for are refused as a mismatch of
    /// dimensions.
    pub fn from_parameters(
        sizes: Vec<usize>,
        biases: Vec<Vec<T>>,
        weights: Vec<Vec<Vec<T>>>,
    ) -> (r: Result<Network<T>, NetworkError>)
        ensures
            match r {
                Ok(net) => {
                    &&& net.well_formed()
                    &&& net@.sizes == sizes@
                    &&& net@.biases == rows(&biases)
                    &&& net@.weights == layers(&weights)
                },
                Err(NetworkError::InvalidArchitecture) => !valid_sizes(sizes@),
                Err(NetworkError::DimensionMismatch) => {
                    &&& valid_sizes(sizes@)
                    &&& !parameter_shaped(sizes@, rows(&biases), layers(&weights))
                },
                Err(NetworkError::InvalidHyperparameter) => false,
            },
    {
        if !sizes_are_valid(&sizes) {
            return Err(NetworkError::InvalidArchitecture);
        }
        if !shaped_for(&sizes, &biases, &weights) {
            return Err(NetworkError::DimensionMismatch);
        }
        Ok(Network { sizes, biases, weights })
    }

    /// The sizes of the layers, the input layer first.
    pub fn sizes(&self) -> (r: &Vec<usize>)
        ensures
            r@ == self@.sizes,
    {
        &self.sizes
    }

    /// The number of layers, the input layer among them.
    pub fn num_layers(&self) -> (r: usize)
        ensures
            r == self@.sizes.len(),
    {
        self.sizes.len()
    }

    /// The bias vectors, one for each layer after the input layer.
    pub fn biases(&self) -> (r: &Vec<Vec<T>>)
        ensures
            rows(r) == self@.biases,
    {
        &self.biases
    }

    /// The weight matrices, one for each layer after the input layer.
    pub fn weights(&self) -> (r: &Vec<Vec<Vec<T>>>)
        ensures
            layers(r) == self@.weights,
    {
        &self.weights
    }

    /// Whether `sample` has the input length of the first layer and the
    /// target length of the last.
    pub fn accepts(&self, sample: &MnistSample<T>) -> (b: bool)
        requires
            self.well_formed(),
        ensures
            b == self@.fits(sample.image@, sample.label@),
    {
        sample.image.len() == self.sizes[0] && sample.label.len() == self.sizes[self.sizes.len()
            - 1]
    }

    /// The place of the first sample in `data` that does not fit the network,
    /// if there is one.
    pub fn first_misfit(&self, data: &[MnistSample<T>]) -> (r: Option<usize>)
        requires
            self.well_formed(),
        ensures
            r is None <==> self@.all_fit(data@),
            r matches Some(i) ==> {
                &&& i < data.len()
                &&& !self@.fits(data@[i as int].image@, data@[i as int].label@)
                &&& self@.all_fit(data@.take(i as int))
            },
    {
        let mut i: usize = 0;
        while i < data.len()
            invariant
                self.well_formed(),
                i <= data.len(),
                self@.all_fit(data@.take(i as int)),
            decreases data.len() - i,
        {
            if !self.accepts(&data[i]) {
                return Some(i);
            }
            assert forall|k: int| 0 <= k < i + 1 implies self@.fits(
                (#[trigger] data@.take(i + 1)[k]).image@,
                data@.take(i + 1)[k].label@,
            ) by {
                if k < i {
                    assert(data@.take(i as int)[k] == data@.take(i + 1)[k]);
                }
            }
            i += 1;
        }
        assert(data@.take(data.len() as int) =~= data@);
        None
    }

    /// The place of the first sample in `batch` that does not fit the network.
    pub(crate) fn first_misfit_among(&self, batch: &[&MnistSample<T>]) -> (r: Option<usize>)
        requires
            self.well_formed(),
        ensures
            r is None <==> self@.all_fit(samples(batch@)),
            r matches Some(i) ==> {
                &&& i < batch.len()
                &&& !self@.fits(batch@[i as int].image@, batch@[i as int].label@)
                &&& self@.all_fit(samples(batch@).take(i as int))
            },
    {
        let mut i: usize = 0;
        while i < batch.len()
            invariant
                self.well_formed(),
                i <= batch.len(),
                self@.all_fit(samples(batch@).take(i as int)),
            decreases batch.len() - i,
        {
            if !self.accepts(batch[i]) {
                assert(samples(batch@)[i as int] == *batch@[i as int]);
                return Some(i);
            }
            assert forall|k: int| 0 <= k < i + 1 implies self@.fits(
                (#[trigger] samples(batch@).take(i + 1)[k]).image@,
                samples(batch@).take(i + 1)[k].label@,
            ) by {
                if k < i {
                    assert(samples(batch@).take(i as int)[k] == samples(batch@).take(i + 1)[k]);
                }
            }
            i += 1;
        }
        assert(samples(batch@).take(batch.len() as int) =~= samples(batch@));
        None
    }

    /// The activation of the last layer for the input `a`.
    pub fn feedforward(&self, a: &Vec<T>) -> (r: Result<Vec<T>, NetworkError>)
        requires
            self.well_formed(),
        ensures
            r is Ok <==> a.len() == self@.sizes[0],
            r matches Err(e) ==> e == NetworkError::DimensionMismatch,
            r matches Ok(out) ==> {
                &&& out.len() == self@.sizes.last()
                &&& self@.is_output(a@, out@)
            },
    {
        if a.len() != self.sizes[0] {
            return Err(NetworkError::DimensionMismatch);
        }
        let mut current = duplicate(a);
        let ghost mut zs: Seq<Seq<T>> = Seq::empty();
        let ghost mut acts: Seq<Seq<T>> = seq![a@];
        let mut l: usize = 0;
        while l < self.biases.len()
            invariant
                self.well_formed(),
                l <= self.biases.len(),
                zs.len() == l,
                acts.len() == l + 1,
                acts[0] == a@,
                acts[l as int] == current@,
                current.len() == self@.sizes[l as int],
                forall|k: int|
                    0 <= k < l ==> self@.is_layer(k, acts[k], #[trigger] zs[k], acts[k + 1]),
            decreases self.biases.len() - l,
        {
            assert(self@.weights[l as int] == rows(&self.weights[l as int]));
            assert(self@.biases[l as int] == self.biases[l as int]@);
            let z = weighted_input(&self.weights[l], &current, &self.biases[l]);
            let next = activation(&z);
            proof {
                zs = zs.push(z@);
                acts = acts.push(next@);
            }
            current = next;
            l += 1;
        }
        assert(self@.is_forward_pass(a@, zs, acts));
        Ok(current)
    }

    /// The gradient of the squared error on one sample, by backpropagation:
    /// a forward pass that keeps every weighted input and activation, the
    /// error of the output layer, then the errors of the layers before it
    /// from last to first.
    pub fn backprop(&self, mnist_sample: &MnistSample<T>) -> (r: Result<
        (Vec<Vec<T>>, Vec<Vec<Vec<T>>>),
        NetworkError,
    >)
        requires
            self.well_formed(),
        ensures
            r is Ok <==> self@.fits(mnist_sample.image@, mnist_sample.label@),
            r matches Err(e) ==> e == NetworkError::DimensionMismatch,
            r matches Ok((nabla_b, nabla_w)) ==> {
                &&& parameter_shaped(self@.sizes, rows(&nabla_b), layers(&nabla_w))
                &&& self@.is_gradient(
                    mnist_sample.image@,
                    mnist_sample.label@,
                    rows(&nabla_b),
                    layers(&nabla_w),
                )
            },
    {
        let n = self.biases.len();
        if mnist_sample.image.len() != self.sizes[0] || mnist_sample.label.len() != self.sizes[n] {
            return Err(NetworkError::DimensionMismatch);
        }
        let mut activations: Vec<Vec<T>> = Vec::new();
        activations.push(duplicate(&mnist_sample.image));
        let mut zs: Vec<Vec<T>> = Vec::new();

        let mut l: usize = 0;
        while l < n
            invariant
                self.well_formed(),
                n == self.biases.len(),
                l <= n,
                zs.len() == l,
                activations.len() == l + 1,
                activations@[0]@ == mnist_sample.image@,
                forall|k: int| 0 <= k <= l ==> (#[trigger] activations@[k]).len() == self@.sizes[k],
                forall|k: int| 0 <= k < l ==> (#[trigger] zs@[k]).len() == self@.sizes[k + 1],
                forall|k: int|
                    0 <= k < l ==> self@.is_layer(
                        k,
                        activations@[k]@,
                        (#[trigger] zs@[k])@,
                        activations@[k + 1]@,
                    ),
            decreases n - l,
        {
            assert(self@.weights[l as int] == rows(&self.weights[l as int]));
            assert(self@.biases[l as int] == self.biases[l as int]@);
            let z = weighted_input(&self.weights[l], &activations[l], &self.biases[l]);
            let a = activation(&z);
            zs.push(z);
            activations.push(a);
            l += 1;
        }

        let sp = slope(&zs[n - 1]);
        let c = cost_derivative(&activations[n], &mnist_sample.label);
        let delta = hadamard(&c, &sp);
        let product = outer(&delta, &activations[n - 1]);
        assert(is_output_error(
            activations@[n as int]@,
            mnist_sample.label@,
            zs@[n - 1]@,
            delta@,
        )) by {
            assert(is_vector_difference(activations@[n as int]@, mnist_sample.label@, c@)
                && is_slope(zs@[n - 1]@, sp@));
        }
        let mut nabla_b: Vec<Vec<T>> = Vec::new();
        let mut nabla_w: Vec<Vec<Vec<T>>> = Vec::new();
        nabla_b.push(delta);
        nabla_w.push(product);

        let mut l: usize = 2;
        while l <= n
            invariant
                self.well_formed(),
                n == self.biases.len(),
                2 <= l <= n + 1,
                zs.len() == n,
                activations.len() == n + 1,
                nabla_b.len() == l - 1,
                nabla_w.len() == l - 1,
                forall|k: int| 0 <= k <= n ==> (#[trigger] activations@[k]).len() == self@.sizes[k],
                forall|k: int| 0 <= k < n ==> (#[trigger] zs@[k]).len() == self@.sizes[k + 1],
                forall|k: int|
                    0 <= k < l - 1 ==> (#[trigger] nabla_b@[k]).len() == self@.sizes[n - k],
                forall|k: int|
                    0 <= k < l - 1 ==> is_outer(
                        nabla_b@[k]@,
                        activations@[n - 1 - k]@,
                        rows(#[trigger] &nabla_w@[k]),
                    ),
                is_output_error(
                    activations@[n as int]@,
                    mnist_sample.label@,
                    zs@[n - 1]@,
                    nabla_b@[0]@,
                ),
                forall|k: int|
                    1 <= k < l - 1 ==> is_hidden_error(
                        self@.weights[n - k],
                        nabla_b@[k - 1]@,
                        zs@[n - 1 - k]@,
                        (#[trigger] nabla_b@[k])@,
                    ),
            decreases n + 1 - l,
        {
            let sp = slope(&zs[n - l]);
            assert(self@.weights[n - l + 1] == rows(&self.weights[n - l + 1]));
            let t = transposed_matrix_vector(
                &self.weights[n - l + 1],
                &nabla_b[l - 2],
                self.sizes[n - l + 1],
            );
            let delta = hadamard(&t, &sp);
            let product = outer(&delta, &activations[n - l]);
            assert(is_hidden_error(
                self@.weights[n - l + 1],
                nabla_b@[l - 2]@,
                zs@[n - l]@,
                delta@,
            )) by {
                assert(is_transposed_matrix_vector(self@.weights[n - l + 1], nabla_b@[l - 2]@, t@)
                    && is_slope(zs@[n - l]@, sp@));
            }
            nabla_b.push(delta);
            nabla_w.push(product);
            l += 1;
        }

        let ghost b_rev = rows(&nabla_b);
        let ghost w_rev = layers(&nabla_w);
        let nabla_b = reversed(nabla_b);
        let nabla_w = reversed(nabla_w);
        proof {
            let zs_m = rows(&zs);
            let acts_m = rows(&activations);
            let b_m = rows(&nabla_b);
            let w_m = layers(&nabla_w);
            assert(self@.is_forward_pass(mnist_sample.image@, zs_m, acts_m));
            assert forall|j: int| 0 <= j < n implies b_m[j] == b_rev[n - 1 - j] && w_m[j]
                == w_rev[n - 1 - j] by {}
            assert forall|j: int| 0 <= j < n - 1 implies is_hidden_error(
                self@.weights[j + 1],
                b_m[j + 1],
                zs_m[j],
                #[trigger] b_m[j],
            ) by {
                let k = n - 1 - j;
                assert(is_hidden_error(
                    self@.weights[n - k],
                    b_rev[k - 1],
                    zs_m[n - 1 - k],
                    b_rev[k],
                ));
            }
            assert(self@.is_backward_pass(mnist_sample.label@, zs_m, acts_m, b_m));
            assert forall|j: int| 0 <= j < n implies is_outer(
                b_m[j],
                acts_m[j],
                #[trigger] w_m[j],
            ) by {
                let k = n - 1 - j;
                assert(is_outer(b_rev[k], acts_m[n - 1 - k], w_rev[k]));
            }
            assert(parameter_shaped(self@.sizes, b_m, w_m)) by {
                assert forall|j: int| 0 <= j < n implies is_matrix(
                    #[trigger] w_m[j],
                    self@.sizes[j + 1] as int,
                    self@.sizes[j] as int,
                ) by {
                    assert(is_outer(b_m[j], acts_m[j], w_m[j]));
                }
            }
        }
        Ok((nabla_b, nabla_w))
    }

    /// Zeros in the shape of the parameters.
    fn zero_gradient(&self) -> (r: (Vec<Vec<T>>, Vec<Vec<Vec<T>>>))
        requires
            self.well_formed(),
        ensures
            self@.is_zero_gradient(rows(&r.0), layers(&r.1)),
            parameter_shaped(self@.sizes, rows(&r.0), layers(&r.1)),
    {
        let n = self.biases.len();
        let mut b: Vec<Vec<T>> = Vec::new();
        let mut w: Vec<Vec<Vec<T>>> = Vec::new();
        let mut l: usize = 0;
        while l < n
            invariant
                self.well_formed(),
                n == self.biases.len(),
                l <= n,
                b.len() == l,
                w.len() == l,
                forall|k: int|
                    0 <= k < l ==> is_zero_vector(
                        self@.sizes[k + 1] as int,
                        #[trigger] rows(&b)[k],
                    ),
                forall|k: int|
                    0 <= k < l ==> is_zero_matrix(
                        self@.sizes[k + 1] as int,
                        self@.sizes[k] as int,
                        #[trigger] layers(&w)[k],
                    ),
            decreases n - l,
        {
            let ghost b_before = rows(&b);
            let ghost w_before = layers(&w);
            let v = zero_vector(self.sizes[l + 1]);
            let m = zero_matrix(self.sizes[l + 1], self.sizes[l]);
            b.push(v);
            w.push(m);
            assert(rows(&b) =~= b_before.push(v@));
            assert(layers(&w) =~= w_before.push(rows(&m)));
            l += 1;
        }
        proof {
            assert forall|k: int| 0 <= k < n implies is_matrix(
                #[trigger] layers(&w)[k],
                self@.sizes[k + 1] as int,
                self@.sizes[k] as int,
            ) by {
                let m = layers(&w)[k];
                assert(is_zero_matrix(self@.sizes[k + 1] as int, self@.sizes[k] as int, m));
                assert forall|i: int| 0 <= i < m.len() implies (#[trigger] m[i]).len()
                    == self@.sizes[k] by {
                    assert(is_zero_vector(self@.sizes[k] as int, m[i]));
                }
            }
            assert forall|k: int| 0 <= k < n implies (#[trigger] rows(&b)[k]).len()
                == self@.sizes[k + 1] by {
                assert(is_zero_vector(self@.sizes[k + 1] as int, rows(&b)[k]));
            }
        }
        (b, w)
    }

    /// One step of gradient descent on a batch of samples that fit.
    pub(crate) fn descend(&mut self, mini_batch: &[&MnistSample<T>], eta: T)
        requires
            old(self).well_formed(),
            mini_batch.len() > 0,
            old(self)@.all_fit(samples(mini_batch@)),
        ensures
            final(self).well_formed(),
            final(self)@.sizes == old(self)@.sizes,
            old(self)@.is_update(samples(mini_batch@), eta, final(self)@),
    {
        let ghost batch = samples(mini_batch@);
        let (mut acc_b, mut acc_w) = self.zero_gradient();
        let mut k: usize = 0;
        while k < mini_batch.len()
            invariant
                self.well_formed(),
                *self == *old(self),
                batch == samples(mini_batch@),
                self@.all_fit(batch),
                k <= mini_batch.len(),
                parameter_shaped(self@.sizes, rows(&acc_b), layers(&acc_w)),
                self@.is_gradient_sum(batch.take(k as int), rows(&acc_b), layers(&acc_w)),
            decreases mini_batch.len() - k,
        {
            let ghost prev_b = rows(&acc_b);
            let ghost prev_w = layers(&acc_w);
            assert(batch[k as int] == *mini_batch@[k as int]);
            assert(self@.fits(batch[k as int].image@, batch[k as int].label@));
            match self.backprop(mini_batch[k]) {
                Ok((nabla_b, nabla_w)) => {
                    proof {
                        lemma_shapes_agree(
                            self@.sizes,
                            rows(&acc_b),
                            layers(&acc_w),
                            rows(&nabla_b),
                            layers(&nabla_w),
                        );
                    }
                    let next_b = matrix_sum(&acc_b, &nabla_b);
                    let next_w = layerwise_sum(&acc_w, &nabla_w);
                    proof {
                        lemma_shape_carries_over(
                            self@.sizes,
                            rows(&acc_b),
                            layers(&acc_w),
                            rows(&next_b),
                            layers(&next_w),
                        );
                        let upto = batch.take(k + 1);
                        assert(upto.drop_last() =~= batch.take(k as int));
                        assert(upto.last() == batch[k as int]);
                        assert(self@.is_gradient(
                            upto.last().image@,
                            upto.last().label@,
                            rows(&nabla_b),
                            layers(&nabla_w),
                        ) && is_matrix_sum(prev_b, rows(&nabla_b), rows(&next_b))
                            && is_layerwise_sum(prev_w, layers(&nabla_w), layers(&next_w)));
                        assert(self@.is_gradient_sum(upto, rows(&next_b), layers(&next_w)));
                    }
                    acc_b = next_b;
                    acc_w = next_w;
                },
                // Not reached: every sample of the batch fits.
                Err(_) => {},
            }
            k += 1;
        }
        assert(batch.take(mini_batch.len() as int) =~= batch);
        let count = T::from_count(mini_batch.len());
        let scale = eta.over(count);
        assert(is_step_size(eta, batch.len() as usize, scale)) by {
            assert(is_count(mini_batch.len(), count));
        }
        proof {
            lemma_shapes_agree(
                self@.sizes,
                self@.biases,
                self@.weights,
                rows(&acc_b),
                layers(&acc_w),
            );
        }
        let biases = descent(&self.biases, &acc_b, scale);
        let weights = layerwise_descent(&self.weights, &acc_w, scale);
        proof {
            lemma_shape_carries_over(
                self@.sizes,
                self@.biases,
                self@.weights,
                rows(&biases),
                layers(&weights),
            );
            assert(old(self)@.is_gradient_sum(batch, rows(&acc_b), layers(&acc_w))
                && is_step_size(eta, batch.len() as usize, scale));
        }
        self.biases = biases;
        self.weights = weights;
    }

    /// One step of gradient descent on `mini_batch` with learning rate `eta`.
    ///
    /// The gradients of the samples are summed up, and every parameter is
    /// lowered by its summed gradient times `eta / mini_batch.len()`. A
    /// learning rate that is not positive is refused, and so is a batch with
    /// a sample that does not fit; the network is then left as it was.
    pub fn update_mini_batch(&mut self, mini_batch: &[&MnistSample<T>], eta: T) -> (r: Result<
        (),
        NetworkError,
    >)
        requires
            old(self).well_formed(),
            mini_batch.len() > 0,
        ensures
            final(self).well_formed(),
            match r {
                Ok(_) => {
                    &&& is_positivity(eta, true)
                    &&& old(self)@.all_fit(samples(mini_batch@))
                    &&& old(self)@.is_update(samples(mini_batch@), eta, final(self)@)
                },
                Err(NetworkError::InvalidHyperparameter) => {
                    &&& is_positivity(eta, false)
                    &&& *final(self) == *old(self)
                },
                Err(NetworkError::DimensionMismatch) => {
                    &&& is_positivity(eta, true)
                    &&& !old(self)@.all_fit(samples(mini_batch@))
                    &&& *final(self) == *old(self)
                },
                Err(NetworkError::InvalidArchitecture) => false,
            },
    {
        if !positive(eta) {
            return Err(NetworkError::InvalidHyperparameter);
        }
        if self.first_misfit_among(mini_batch).is_some() {
            return Err(NetworkError::DimensionMismatch);
        }
        self.descend(mini_batch, eta);
        Ok(())
    }

    /// How many samples of `test_data` the network classifies as their labels
    /// say: for how many the largest entry of the output stands where the
    /// largest entry of the label stands.
    pub fn evaluate(&self, test_data: &[MnistSample<T>]) -> (r: Result<usize, NetworkError>)
        requires
            self.well_formed(),
        ensures
            r is Ok <==> self@.all_fit(test_data@),
            r matches Err(e) ==> e == NetworkError::DimensionMismatch,
            r matches Ok(count) ==> {
                &&& count <= test_data.len()
                &&& self@.is_score(test_data@, count as int)
            },
    {
        let mut count: usize = 0;
        let ghost mut hits: Seq<bool> = Seq::empty();
        let mut i: usize = 0;
        while i < test_data.len()
            invariant
                self.well_formed(),
                i <= test_data.len(),
                count <= i,
                self@.all_fit(test_data@.take(i as int)),
                self@.is_hits(test_data@.take(i as int), hits),
                count == count_true(hits),
            decreases test_data.len() - i,
        {
            let sample = &test_data[i];
            if !self.accepts(sample) {
                return Err(NetworkError::DimensionMismatch);
            }
            match self.feedforward(&sample.image) {
                Ok(out) => {
                    let p = argmax(&out);
                    let q = argmax(&sample.label);
                    let hit = same_outcome(p, q);
                    if hit {
                        count += 1;
                    }
                    proof {
                        assert(self@.is_output(sample.image@, out@) && is_argmax(out@, p)
                            && is_argmax(sample.label@, q));
                        assert(self@.is_hit(*sample, hit));
                        let before = hits;
                        hits = hits.push(hit);
                        assert(hits.drop_last() =~= before);
                        assert(test_data@.take(i + 1) =~= test_data@.take(i as int).push(*sample));
                    }
                },
                // Not reached: the sample fits.
                Err(_) => {},
            }
            i += 1;
        }
        assert(test_data@.take(test_data.len() as int) =~= test_data@);
        Ok(count)
    }
}

} // verus!
