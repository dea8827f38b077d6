use mnist_rust::network::cost_derivative;
use mnist_rust::{EpochReport, MnistSample, Network, NetworkError, NormalSource, Scalar};

#[derive(Clone, Copy, Debug, PartialEq)]
struct Real(f64);

impl Scalar for Real {
    fn zero() -> Self {
        Real(0.0)
    }

    fn one() -> Self {
        Real(1.0)
    }

    fn from_count(n: usize) -> Self {
        Real(n as f64)
    }

    fn negated(self) -> Self {
        Real(-self.0)
    }

    fn exp(self) -> Self {
        Real(self.0.exp())
    }

    fn plus(self, rhs: Self) -> Self {
        Real(self.0 + rhs.0)
    }

    fn minus(self, rhs: Self) -> Self {
        Real(self.0 - rhs.0)
    }

    fn times(self, rhs: Self) -> Self {
        Real(self.0 * rhs.0)
    }

    fn over(self, rhs: Self) -> Self {
        Real(self.0 / rhs.0)
    }

    fn exceeds(self, rhs: Self) -> Option<bool> {
        self.0
            .partial_cmp(&rhs.0)
            .map(|o| o == std::cmp::Ordering::Greater)
    }
}

/// A fixed stream of numbers that look standard normal.
struct Seeded {
    state: u64,
}

impl Seeded {
    fn new(seed: u64) -> Self {
        Seeded { state: seed }
    }

    fn uniform(&mut self) -> f64 {
        self.state = self
            .state
            .wrapping_mul(6364136223846793005)
            .wrapping_add(1442695040888963407);
        ((self.state >> 11) as f64 + 0.5) / (1u64 << 53) as f64
    }
}

impl NormalSource<Real> for Seeded {
    fn sample(&mut self) -> Real {
        let u = self.uniform();
        let v = self.uniform();
        Real((-2.0 * u.ln()).sqrt() * (2.0 * std::f64::consts::PI * v).cos())
    }
}

/// A source that counts up: 1, 2, 3, ...
struct Counting {
    next: f64,
}

impl NormalSource<Real> for Counting {
    fn sample(&mut self) -> Real {
        self.next += 1.0;
        Real(self.next)
    }
}

fn reals(values: &[f64]) -> Vec<Real> {
    values.iter().map(|&x| Real(x)).collect()
}

fn matrix(values: &[&[f64]]) -> Vec<Vec<Real>> {
    values.iter().map(|row| reals(row)).collect()
}

fn sample(image: &[f64], label: &[f64]) -> MnistSample<Real> {
    MnistSample {
        label: reals(label),
        image: reals(image),
    }
}

fn seeded_network(sizes: &[usize], seed: u64) -> Network<Real> {
    Network::new(sizes.to_vec(), &mut Seeded::new(seed)).unwrap()
}

fn copy_of(net: &Network<Real>) -> Network<Real> {
    Network::from_parameters(net.sizes().clone(), net.biases().clone(), net.weights().clone())
        .unwrap()
}

fn sigma(x: f64) -> f64 {
    1.0 / (1.0 + (-x).exp())
}

/// Half the squared distance between the output for `s` and its label.
fn cost(net: &Network<Real>, s: &MnistSample<Real>) -> f64 {
    let out = net.feedforward(&s.image).unwrap();
    out.iter()
        .zip(s.label.iter())
        .map(|(a, y)| 0.5 * (a.0 - y.0) * (a.0 - y.0))
        .sum()
}

fn mean_squared_error(net: &Network<Real>, batch: &[MnistSample<Real>]) -> f64 {
    batch.iter().map(|s| 2.0 * cost(net, s)).sum::<f64>() / batch.len() as f64
}

fn distance(net: &Network<Real>, s: &MnistSample<Real>) -> f64 {
    (2.0 * cost(net, s)).sqrt()
}

fn assert_shaped(sizes: &[usize], b: &Vec<Vec<Real>>, w: &Vec<Vec<Vec<Real>>>) {
    assert_eq!(b.len(), sizes.len() - 1);
    assert_eq!(w.len(), sizes.len() - 1);
    for l in 0..sizes.len() - 1 {
        assert_eq!(b[l].len(), sizes[l + 1]);
        assert_eq!(w[l].len(), sizes[l + 1]);
        for row in &w[l] {
            assert_eq!(row.len(), sizes[l]);
        }
    }
}

// ---- construction ----

#[test]
fn new_network_has_the_shapes_of_its_sizes() {
    for sizes in [vec![2, 3, 2], vec![784, 30, 10], vec![1, 1], vec![3, 5, 4, 2, 6]] {
        let net = seeded_network(&sizes, 7);
        assert_eq!(net.sizes(), &sizes);
        assert_eq!(net.num_layers(), sizes.len());
        assert_shaped(&sizes, net.biases(), net.weights());
    }
}

#[test]
fn new_draws_biases_first_then_weights_row_by_row() {
    let net = Network::new(vec![2, 2, 1], &mut Counting { next: 0.0 }).unwrap();
    assert_eq!(net.biases(), &vec![reals(&[1.0, 2.0]), reals(&[3.0])]);
    assert_eq!(
        net.weights(),
        &vec![matrix(&[&[4.0, 5.0], &[6.0, 7.0]]), matrix(&[&[8.0, 9.0]])]
    );
}

#[test]
fn new_draws_look_standard_normal() {
    let net = seeded_network(&[100, 100], 3);
    let all: Vec<f64> = net.weights()[0].iter().flatten().map(|x| x.0).collect();
    let mean = all.iter().sum::<f64>() / all.len() as f64;
    let var = all.iter().map(|x| (x - mean) * (x - mean)).sum::<f64>() / all.len() as f64;
    assert!(mean.abs() < 0.05, "mean {}", mean);
    assert!((var - 1.0).abs() < 0.1, "variance {}", var);
}

#[test]
fn new_refuses_fewer_than_two_layers() {
    let mut source = Seeded::new(1);
    assert_eq!(
        Network::<Real>::new(vec![], &mut source).err(),
        Some(NetworkError::InvalidArchitecture)
    );
    assert_eq!(
        Network::<Real>::new(vec![5], &mut source).err(),
        Some(NetworkError::InvalidArchitecture)
    );
}

#[test]
fn new_refuses_a_layer_without_neurons() {
    let mut source = Seeded::new(1);
    for sizes in [vec![0, 3], vec![2, 0, 1], vec![2, 3, 0]] {
        assert_eq!(
            Network::<Real>::new(sizes, &mut source).err(),
            Some(NetworkError::InvalidArchitecture)
        );
    }
}

#[test]
fn from_parameters_keeps_what_it_is_given() {
    let b = vec![reals(&[0.1, 0.2]), reals(&[0.3])];
    let w = vec![matrix(&[&[1.0, 2.0, 3.0], &[4.0, 5.0, 6.0]]), matrix(&[&[7.0, 8.0]])];
    let net = Network::from_parameters(vec![3, 2, 1], b.clone(), w.clone()).unwrap();
    assert_eq!(net.sizes(), &vec![3, 2, 1]);
    assert_eq!(net.num_layers(), 3);
    assert_eq!(net.biases(), &b);
    assert_eq!(net.weights(), &w);
}

#[test]
fn from_parameters_refuses_bad_sizes() {
    assert_eq!(
        Network::<Real>::from_parameters(vec![3], vec![], vec![]).err(),
        Some(NetworkError::InvalidArchitecture)
    );
    assert_eq!(
        Network::<Real>::from_parameters(vec![1, 0], vec![vec![]], vec![vec![]]).err(),
        Some(NetworkError::InvalidArchitecture)
    );
}

#[test]
fn from_parameters_refuses_wrong_shapes() {
    let b = vec![reals(&[0.1, 0.2])];
    let w = vec![matrix(&[&[1.0, 2.0, 3.0], &[4.0, 5.0, 6.0]])];
    let wrong = |sizes: Vec<usize>, b: &Vec<Vec<Real>>, w: &Vec<Vec<Vec<Real>>>| {
        Network::from_parameters(sizes, b.clone(), w.clone()).err()
    };
    assert_eq!(wrong(vec![3, 2], &b, &w), None);
    // transposed sizes
    assert_eq!(wrong(vec![2, 3], &b, &w), Some(NetworkError::DimensionMismatch));
    // a bias too many
    assert_eq!(
        wrong(vec![3, 2], &vec![reals(&[0.1, 0.2, 0.3])], &w),
        Some(NetworkError::DimensionMismatch)
    );
    // a ragged matrix
    let ragged = vec![vec![reals(&[1.0, 2.0, 3.0]), reals(&[4.0, 5.0])]];
    assert_eq!(wrong(vec![3, 2], &b, &ragged), Some(NetworkError::DimensionMismatch));
    // a layer missing
    assert_eq!(wrong(vec![3, 2, 1], &b, &w), Some(NetworkError::DimensionMismatch));
}

// ---- forward pass ----

#[test]
fn feedforward_of_one_neuron() {
    let net =
        Network::from_parameters(vec![2, 1], vec![reals(&[0.5])], vec![matrix(&[&[1.0, -1.0]])])
            .unwrap();
    let out = net.feedforward(&reals(&[2.0, 1.0])).unwrap();
    assert_eq!(out, reals(&[0.8175744761936437]));
}

#[test]
fn feedforward_chains_the_layers() {
    let net = Network::from_parameters(
        vec![2, 2, 1],
        vec![reals(&[0.0, 1.0]), reals(&[-1.0])],
        vec![matrix(&[&[1.0, 2.0], &[-1.0, 0.5]]), matrix(&[&[2.0, -3.0]])],
    )
    .unwrap();
    let out = net.feedforward(&reals(&[0.5, -0.25])).unwrap();
    let h0 = sigma((0.0 + 1.0 * 0.5 + 2.0 * -0.25) + 0.0);
    let h1 = sigma((0.0 + -1.0 * 0.5 + 0.5 * -0.25) + 1.0);
    let expected = sigma((0.0 + 2.0 * h0 + -3.0 * h1) + -1.0);
    assert_eq!(out, reals(&[expected]));
}

#[test]
fn feedforward_output_has_the_length_of_the_last_layer() {
    for sizes in [vec![2, 3, 2], vec![4, 1], vec![3, 5, 4, 7]] {
        let net = seeded_network(&sizes, 11);
        let input = vec![Real(0.3); sizes[0]];
        assert_eq!(net.feedforward(&input).unwrap().len(), *sizes.last().unwrap());
    }
}

#[test]
fn feedforward_output_lies_strictly_between_zero_and_one() {
    let net = seeded_network(&[3, 6, 4], 5);
    let mut source = Seeded::new(99);
    for _ in 0..50 {
        let input: Vec<Real> = (0..3).map(|_| source.sample()).collect();
        for a in net.feedforward(&input).unwrap() {
            assert!(0.0 < a.0 && a.0 < 1.0);
        }
    }
}

#[test]
fn feedforward_refuses_an_input_of_the_wrong_length() {
    let net = seeded_network(&[2, 3, 2], 1);
    assert_eq!(
        net.feedforward(&reals(&[1.0])).err(),
        Some(NetworkError::DimensionMismatch)
    );
    assert_eq!(
        net.feedforward(&reals(&[1.0, 2.0, 3.0])).err(),
        Some(NetworkError::DimensionMismatch)
    );
    assert_eq!(net.feedforward(&vec![]).err(), Some(NetworkError::DimensionMismatch));
}

#[test]
fn feedforward_does_not_depend_on_earlier_calls() {
    let net = seeded_network(&[2, 3, 2], 1);
    let first = net.feedforward(&reals(&[0.2, 0.9])).unwrap();
    let _ = net.feedforward(&reals(&[5.0, -5.0])).unwrap();
    assert_eq!(net.feedforward(&reals(&[0.2, 0.9])).unwrap(), first);
}

// ---- backpropagation ----

#[test]
fn cost_derivative_is_the_difference() {
    assert_eq!(
        cost_derivative(&reals(&[0.5, 0.25]), &reals(&[1.0, 0.0])),
        reals(&[-0.5, 0.25])
    );
}

#[test]
fn backprop_of_one_neuron() {
    let net =
        Network::from_parameters(vec![1, 1], vec![reals(&[0.0])], vec![matrix(&[&[0.0]])]).unwrap();
    let (nabla_b, nabla_w) = net.backprop(&sample(&[1.0], &[0.0])).unwrap();
    assert_eq!(nabla_b, vec![reals(&[0.125])]);
    assert_eq!(nabla_w, vec![matrix(&[&[0.125]])]);
    let (nabla_b, nabla_w) = net.backprop(&sample(&[2.0], &[1.0])).unwrap();
    assert_eq!(nabla_b, vec![reals(&[-0.125])]);
    assert_eq!(nabla_w, vec![matrix(&[&[-0.25]])]);
}

#[test]
fn backprop_through_a_hidden_layer() {
    let net = Network::from_parameters(
        vec![1, 1, 1],
        vec![reals(&[0.0]), reals(&[0.0])],
        vec![matrix(&[&[0.5]]), matrix(&[&[1.0]])],
    )
    .unwrap();
    let (x, y) = (2.0, 0.0);
    let z1 = 0.5 * x;
    let a1 = sigma(z1);
    let z2 = 1.0 * a1;
    let a2 = sigma(z2);
    let delta2 = (a2 - y) * (a2 * (1.0 - a2));
    let delta1 = (1.0 * delta2) * (a1 * (1.0 - a1));
    let (nabla_b, nabla_w) = net.backprop(&sample(&[x], &[y])).unwrap();
    assert_eq!(nabla_b, vec![reals(&[delta1]), reals(&[delta2])]);
    assert_eq!(nabla_w, vec![matrix(&[&[delta1 * x]]), matrix(&[&[delta2 * a1]])]);
}

#[test]
fn backprop_gradients_come_in_forward_layer_order() {
    let sizes = [2, 3, 1];
    let net = seeded_network(&sizes, 21);
    let (nabla_b, nabla_w) = net.backprop(&sample(&[0.3, -0.8], &[1.0])).unwrap();
    assert_eq!(nabla_b[0].len(), 3);
    assert_eq!(nabla_b[1].len(), 1);
    assert_eq!((nabla_w[0].len(), nabla_w[0][0].len()), (3, 2));
    assert_eq!((nabla_w[1].len(), nabla_w[1][0].len()), (1, 3));
}

#[test]
fn backprop_gradients_are_shaped_like_the_parameters() {
    for sizes in [vec![2, 3, 2], vec![1, 1], vec![4, 3, 5, 2], vec![3, 2, 2, 2, 1]] {
        let net = seeded_network(&sizes, 13);
        let s = MnistSample {
            image: vec![Real(0.5); sizes[0]],
            label: vec![Real(1.0); *sizes.last().unwrap()],
        };
        let (nabla_b, nabla_w) = net.backprop(&s).unwrap();
        assert_shaped(&sizes, &nabla_b, &nabla_w);
    }
}

#[test]
fn backprop_matches_finite_differences() {
    let sizes = vec![2, 3, 2];
    let net = seeded_network(&sizes, 42);
    let s = sample(&[0.6, -0.4], &[1.0, 0.0]);
    let (nabla_b, nabla_w) = net.backprop(&s).unwrap();
    let eps = 1e-5;
    let with = |b: Vec<Vec<Real>>, w: Vec<Vec<Vec<Real>>>| {
        Network::from_parameters(sizes.clone(), b, w).unwrap()
    };
    for l in 0..2 {
        for i in 0..sizes[l + 1] {
            let mut up = net.biases().clone();
            let mut down = net.biases().clone();
            up[l][i].0 += eps;
            down[l][i].0 -= eps;
            let numeric = (cost(&with(up, net.weights().clone()), &s)
                - cost(&with(down, net.weights().clone()), &s))
                / (2.0 * eps);
            assert!(
                (numeric - nabla_b[l][i].0).abs() < 1e-4,
                "bias {} {}: {} against {}",
                l,
                i,
                numeric,
                nabla_b[l][i].0
            );
            for j in 0..sizes[l] {
                let mut up = net.weights().clone();
                let mut down = net.weights().clone();
                up[l][i][j].0 += eps;
                down[l][i][j].0 -= eps;
                let numeric = (cost(&with(net.biases().clone(), up), &s)
                    - cost(&with(net.biases().clone(), down), &s))
                    / (2.0 * eps);
                assert!(
                    (numeric - nabla_w[l][i][j].0).abs() < 1e-4,
                    "weight {} {} {}: {} against {}",
                    l,
                    i,
                    j,
                    numeric,
                    nabla_w[l][i][j].0
                );
            }
        }
    }
}

#[test]
fn backprop_refuses_a_sample_that_does_not_fit() {
    let net = seeded_network(&[2, 3, 2], 1);
    assert_eq!(
        net.backprop(&sample(&[1.0], &[1.0, 0.0])).err(),
        Some(NetworkError::DimensionMismatch)
    );
    assert_eq!(
        net.backprop(&sample(&[1.0, 0.0], &[1.0])).err(),
        Some(NetworkError::DimensionMismatch)
    );
    assert_eq!(
        net.backprop(&sample(&[1.0, 0.0], &[1.0, 0.0, 0.0])).err(),
        Some(NetworkError::DimensionMismatch)
    );
}

#[test]
fn backprop_leaves_the_parameters_alone() {
    let net = seeded_network(&[2, 3, 2], 8);
    let before = (net.biases().clone(), net.weights().clone());
    let _ = net.backprop(&sample(&[1.0, 0.0], &[1.0, 0.0])).unwrap();
    assert_eq!((net.biases().clone(), net.weights().clone()), before);
}

#[test]
fn accepts_tells_whether_a_sample_fits() {
    let net = seeded_network(&[2, 3, 1], 1);
    assert!(net.accepts(&sample(&[1.0, 0.0], &[1.0])));
    assert!(!net.accepts(&sample(&[1.0], &[1.0])));
    assert!(!net.accepts(&sample(&[1.0, 0.0], &[1.0, 0.0])));
}

#[test]
fn first_misfit_names_the_first_sample_that_does_not_fit() {
    let net = seeded_network(&[2, 3, 1], 1);
    let good = || sample(&[1.0, 0.0], &[1.0]);
    assert_eq!(net.first_misfit(&[good(), good()]), None);
    assert_eq!(net.first_misfit(&[]), None);
    let data = [good(), sample(&[1.0], &[1.0]), good(), sample(&[1.0, 0.0], &[])];
    assert_eq!(net.first_misfit(&data), Some(1));
}

// ---- mini-batch update ----

#[test]
fn update_mini_batch_of_one_neuron() {
    let mut net =
        Network::from_parameters(vec![1, 1], vec![reals(&[0.0])], vec![matrix(&[&[0.0]])]).unwrap();
    let a = sample(&[1.0], &[0.0]);
    let b = sample(&[2.0], &[1.0]);
    // summed gradients: bias 0.125 - 0.125, weight 0.125 - 0.25; step size 2 / 2
    net.update_mini_batch(&[&a, &b], Real(2.0)).unwrap();
    assert_eq!(net.biases(), &vec![reals(&[0.0])]);
    assert_eq!(net.weights(), &vec![matrix(&[&[0.125]])]);
}

#[test]
fn update_mini_batch_takes_off_the_summed_gradient_times_the_step_size() {
    let sizes = vec![2, 3, 2];
    let mut net = seeded_network(&sizes, 17);
    let batch =
        [sample(&[0.1, 0.9], &[1.0, 0.0]), sample(&[0.8, 0.2], &[0.0, 1.0]), sample(&[0.5, 0.5], &[1.0, 0.0])];
    let eta = 0.3;
    let mut sum_b = vec![vec![0.0; 3], vec![0.0; 2]];
    let mut sum_w = vec![vec![vec![0.0; 2]; 3], vec![vec![0.0; 3]; 2]];
    for s in &batch {
        let (nabla_b, nabla_w) = net.backprop(s).unwrap();
        for l in 0..2 {
            for i in 0..sizes[l + 1] {
                sum_b[l][i] = sum_b[l][i] + nabla_b[l][i].0;
                for j in 0..sizes[l] {
                    sum_w[l][i][j] = sum_w[l][i][j] + nabla_w[l][i][j].0;
                }
            }
        }
    }
    let scale = eta / 3.0;
    let before = copy_of(&net);
    let refs: Vec<&MnistSample<Real>> = batch.iter().collect();
    net.update_mini_batch(&refs, Real(eta)).unwrap();
    for l in 0..2 {
        for i in 0..sizes[l + 1] {
            assert_eq!(net.biases()[l][i].0, before.biases()[l][i].0 - sum_b[l][i] * scale);
            for j in 0..sizes[l] {
                assert_eq!(
                    net.weights()[l][i][j].0,
                    before.weights()[l][i][j].0 - sum_w[l][i][j] * scale
                );
            }
        }
    }
}

#[test]
fn update_mini_batch_lowers_the_mean_squared_error() {
    for seed in [1, 2, 3, 4, 5] {
        let mut net = seeded_network(&[2, 3, 2], seed);
        let batch = [
            sample(&[0.1, 0.9], &[1.0, 0.0]),
            sample(&[0.8, 0.2], &[0.0, 1.0]),
            sample(&[0.3, 0.7], &[1.0, 0.0]),
            sample(&[0.9, 0.4], &[0.0, 1.0]),
        ];
        let before = mean_squared_error(&net, &batch);
        let refs: Vec<&MnistSample<Real>> = batch.iter().collect();
        net.update_mini_batch(&refs, Real(0.1)).unwrap();
        let after = mean_squared_error(&net, &batch);
        assert!(after < before, "seed {}: {} is not below {}", seed, after, before);
    }
}

#[test]
fn one_update_on_one_sample_brings_the_output_closer() {
    for seed in [1, 2, 3, 4, 5] {
        let mut net = seeded_network(&[2, 3, 2], seed);
        let s = sample(&[1.0, 0.0], &[1.0, 0.0]);
        let before = distance(&net, &s);
        net.update_mini_batch(&[&s], Real(1.0)).unwrap();
        let after = distance(&net, &s);
        assert!(after < before, "seed {}: {} is not below {}", seed, after, before);
    }
}

#[test]
fn update_mini_batch_keeps_the_shapes() {
    let sizes = vec![3, 4, 2];
    let mut net = seeded_network(&sizes, 2);
    let s = sample(&[1.0, 0.0, 0.5], &[1.0, 0.0]);
    net.update_mini_batch(&[&s, &s], Real(0.5)).unwrap();
    assert_eq!(net.sizes(), &sizes);
    assert_shaped(&sizes, net.biases(), net.weights());
}

#[test]
fn update_mini_batch_refuses_a_learning_rate_that_is_not_positive() {
    let mut net = seeded_network(&[2, 3, 2], 9);
    let before = copy_of(&net);
    let s = sample(&[1.0, 0.0], &[1.0, 0.0]);
    for eta in [0.0, -0.0, -1.0, f64::NAN, f64::NEG_INFINITY] {
        assert_eq!(
            net.update_mini_batch(&[&s], Real(eta)),
            Err(NetworkError::InvalidHyperparameter)
        );
        assert_eq!(net.biases(), before.biases());
        assert_eq!(net.weights(), before.weights());
    }
}

#[test]
fn update_mini_batch_refuses_a_sample_that_does_not_fit() {
    let mut net = seeded_network(&[2, 3, 2], 9);
    let before = copy_of(&net);
    let good = sample(&[1.0, 0.0], &[1.0, 0.0]);
    let bad = sample(&[1.0, 0.0, 0.0], &[1.0, 0.0]);
    assert_eq!(
        net.update_mini_batch(&[&good, &bad], Real(1.0)),
        Err(NetworkError::DimensionMismatch)
    );
    assert_eq!(net.biases(), before.biases());
    assert_eq!(net.weights(), before.weights());
}

#[test]
fn update_mini_batch_checks_the_learning_rate_first() {
    let mut net = seeded_network(&[2, 3, 2], 9);
    let bad = sample(&[1.0], &[1.0, 0.0]);
    assert_eq!(
        net.update_mini_batch(&[&bad], Real(0.0)),
        Err(NetworkError::InvalidHyperparameter)
    );
}

// ---- evaluation ----

#[test]
fn evaluate_counts_the_samples_classified_as_labelled() {
    // The output is larger in place 0 exactly when the input is negative.
    let net = Network::from_parameters(
        vec![1, 2],
        vec![reals(&[0.0, 0.0])],
        vec![matrix(&[&[-1.0], &[1.0]])],
    )
    .unwrap();
    let data = [
        sample(&[-2.0], &[1.0, 0.0]),
        sample(&[3.0], &[1.0, 0.0]),
        sample(&[0.5], &[0.0, 1.0]),
        sample(&[-0.5], &[0.0, 1.0]),
        sample(&[-0.1], &[0.9, 0.2]),
    ];
    assert_eq!(net.evaluate(&data), Ok(3));
    assert_eq!(net.evaluate(&data[..1]), Ok(1));
    assert_eq!(net.evaluate(&data[1..2]), Ok(0));
    assert_eq!(net.evaluate(&[]), Ok(0));
}

#[test]
fn evaluate_takes_the_first_of_equal_maxima() {
    let net = Network::from_parameters(
        vec![1, 2],
        vec![reals(&[0.0, 0.0])],
        vec![matrix(&[&[0.0], &[0.0]])],
    )
    .unwrap();
    // Both outputs are one half: place 0 is taken.
    assert_eq!(net.evaluate(&[sample(&[1.0], &[1.0, 0.0])]), Ok(1));
    assert_eq!(net.evaluate(&[sample(&[1.0], &[0.0, 1.0])]), Ok(0));
    assert_eq!(net.evaluate(&[sample(&[1.0], &[0.5, 0.5])]), Ok(1));
}

#[test]
fn evaluate_counts_two_searches_that_fail_alike() {
    let net = Network::from_parameters(
        vec![1, 2],
        vec![reals(&[0.0, 0.0])],
        vec![matrix(&[&[-1.0], &[1.0]])],
    )
    .unwrap();
    let nan = f64::NAN;
    // no order among the outputs, none among the labels
    assert_eq!(net.evaluate(&[sample(&[nan], &[nan, 0.0])]), Ok(1));
    // no order among the outputs only
    assert_eq!(net.evaluate(&[sample(&[nan], &[1.0, 0.0])]), Ok(0));
    // no order among the labels only
    assert_eq!(net.evaluate(&[sample(&[1.0], &[0.0, nan])]), Ok(0));
}

#[test]
fn evaluate_twice_gives_the_same_count() {
    let net = seeded_network(&[2, 4, 2], 31);
    let mut source = Seeded::new(5);
    let data: Vec<MnistSample<Real>> = (0..40)
        .map(|i| {
            let label = if i % 2 == 0 { [1.0, 0.0] } else { [0.0, 1.0] };
            MnistSample { image: vec![source.sample(), source.sample()], label: reals(&label) }
        })
        .collect();
    let first = net.evaluate(&data).unwrap();
    assert_eq!(net.evaluate(&data), Ok(first));
    assert!(first <= data.len());
}

#[test]
fn evaluate_refuses_a_sample_that_does_not_fit() {
    let net = seeded_network(&[2, 3, 2], 1);
    let good = sample(&[1.0, 0.0], &[1.0, 0.0]);
    assert_eq!(
        net.evaluate(&[good, sample(&[1.0], &[1.0, 0.0])]),
        Err(NetworkError::DimensionMismatch)
    );
    assert_eq!(
        net.evaluate(&[sample(&[1.0, 0.0], &[1.0])]),
        Err(NetworkError::DimensionMismatch)
    );
}

// ---- training ----

/// Two classes in the unit square, parted by the line `x + y = 1` with a
/// margin on both sides.
fn separable(count: usize, seed: u64) -> Vec<MnistSample<Real>> {
    let mut source = Seeded::new(seed);
    let mut data = Vec::new();
    while data.len() < count {
        let (x, y) = (source.uniform(), source.uniform());
        if (x + y - 1.0).abs() < 0.1 {
            continue;
        }
        let label = if x + y < 1.0 { [1.0, 0.0] } else { [0.0, 1.0] };
        data.push(sample(&[x, y], &label));
    }
    data
}

#[test]
fn training_separates_two_classes() {
    let training = separable(100, 1);
    let held_out = separable(100, 2);
    let mut net = seeded_network(&[2, 4, 2], 3);
    let reports = net
        .sgd(training.iter().collect(), 50, 10, Real(1.0), Some(&held_out))
        .unwrap();
    assert_eq!(reports.len(), 50);
    let correct = net.evaluate(&held_out).unwrap();
    assert!(correct >= 95, "only {} of 100", correct);
    assert_eq!(reports[49].accuracy, Some((correct, 100)));
}

#[test]
fn sgd_reports_every_epoch_in_order() {
    let training = separable(20, 1);
    let held_out = separable(10, 2);
    let mut net = seeded_network(&[2, 3, 2], 3);
    let reports = net.sgd(training.iter().collect(), 4, 8, Real(0.5), Some(&held_out)).unwrap();
    assert_eq!(reports.len(), 4);
    for (e, report) in reports.iter().enumerate() {
        assert_eq!(report.epoch, e);
        let (correct, total) = report.accuracy.unwrap();
        assert_eq!(total, 10);
        assert!(correct <= 10);
    }
}

#[test]
fn sgd_without_held_out_data_reports_no_accuracy() {
    let training = separable(20, 1);
    let mut net = seeded_network(&[2, 3, 2], 3);
    let reports = net.sgd(training.iter().collect(), 3, 5, Real(0.5), None).unwrap();
    assert_eq!(
        reports,
        vec![
            EpochReport { epoch: 0, accuracy: None },
            EpochReport { epoch: 1, accuracy: None },
            EpochReport { epoch: 2, accuracy: None },
        ]
    );
}

#[test]
fn sgd_with_one_batch_for_all_is_one_update_for_each_epoch() {
    // With every sample in one mini-batch the order within it decides only
    // the order of summing, which is exact for these numbers.
    let a = sample(&[1.0], &[0.0]);
    let b = sample(&[2.0], &[1.0]);
    let start = || {
        Network::from_parameters(vec![1, 1], vec![reals(&[0.0])], vec![matrix(&[&[0.0]])]).unwrap()
    };
    let mut trained = start();
    trained.sgd(vec![&a, &b], 1, 2, Real(2.0), None).unwrap();
    let mut stepped = start();
    stepped.update_mini_batch(&[&a, &b], Real(2.0)).unwrap();
    assert_eq!(trained.biases(), stepped.biases());
    assert_eq!(trained.weights(), stepped.weights());
    assert_eq!(trained.weights(), &vec![matrix(&[&[0.125]])]);
}

#[test]
fn sgd_uses_every_sample_once_in_an_epoch() {
    // One neuron without input weight to learn from: with images of zero,
    // only the bias moves, and each sample moves it by a step that depends
    // on the bias alone. Labels equal to the output leave it where it is,
    // so the bias after an epoch tells how many samples pulled.
    let pull = sample(&[0.0], &[0.0]);
    let rest = sample(&[0.0], &[0.5]);
    let data = vec![&rest, &pull, &rest, &rest, &pull, &rest, &pull];
    let start = || {
        Network::from_parameters(vec![1, 1], vec![reals(&[0.0])], vec![matrix(&[&[0.0]])]).unwrap()
    };
    // All in one batch of seven: three pulls of 0.125, step size 7 / 7.
    let mut net = start();
    net.sgd(data.clone(), 1, 7, Real(7.0), None).unwrap();
    assert_eq!(net.biases(), &vec![reals(&[-0.375])]);
    // In batches of three the last batch holds one sample.
    let mut net = start();
    net.sgd(data.clone(), 1, 3, Real(1e-9), None).unwrap();
    let moved = -net.biases()[0][0].0;
    let per_pull_in_full_batch = 0.125 * 1e-9 / 3.0;
    let per_pull_in_last_batch = 0.125 * 1e-9;
    let candidates = [
        3.0 * per_pull_in_full_batch,
        2.0 * per_pull_in_full_batch + per_pull_in_last_batch,
    ];
    assert!(
        candidates.iter().any(|c| (moved - c).abs() < 1e-15),
        "the bias moved by {}",
        moved
    );
}

#[test]
fn sgd_shuffles_the_training_data() {
    // With mini-batches of one sample the order of the samples decides the
    // result. In the order given, the parameters would come out as below.
    let training = separable(30, 4);
    let start = seeded_network(&[2, 3, 2], 6);
    let mut in_order = copy_of(&start);
    for s in &training {
        in_order.update_mini_batch(&[s], Real(3.0)).unwrap();
    }
    let mut differs = false;
    for _ in 0..3 {
        let mut net = copy_of(&start);
        net.sgd(training.iter().collect(), 1, 1, Real(3.0), None).unwrap();
        differs = differs || net.weights() != in_order.weights();
    }
    assert!(differs);
}

#[test]
fn sgd_on_no_samples_changes_nothing() {
    let mut net = seeded_network(&[2, 3, 2], 6);
    let before = copy_of(&net);
    let reports = net.sgd(vec![], 2, 5, Real(1.0), None).unwrap();
    assert_eq!(reports.len(), 2);
    assert_eq!(net.biases(), before.biases());
    assert_eq!(net.weights(), before.weights());
}

#[test]
fn sgd_refuses_bad_hyperparameters() {
    let training = separable(10, 1);
    let mut net = seeded_network(&[2, 3, 2], 6);
    let before = copy_of(&net);
    let refs = || training.iter().collect::<Vec<_>>();
    assert_eq!(net.sgd(refs(), 0, 5, Real(1.0), None), Err(NetworkError::InvalidHyperparameter));
    assert_eq!(net.sgd(refs(), 3, 0, Real(1.0), None), Err(NetworkError::InvalidHyperparameter));
    assert_eq!(net.sgd(refs(), 3, 5, Real(0.0), None), Err(NetworkError::InvalidHyperparameter));
    assert_eq!(net.sgd(refs(), 3, 5, Real(-2.0), None), Err(NetworkError::InvalidHyperparameter));
    assert_eq!(
        net.sgd(refs(), 3, 5, Real(f64::NAN), None),
        Err(NetworkError::InvalidHyperparameter)
    );
    assert_eq!(net.biases(), before.biases());
    assert_eq!(net.weights(), before.weights());
}

#[test]
fn sgd_refuses_samples_that_do_not_fit_before_it_changes_anything() {
    let mut training = separable(10, 1);
    training.push(sample(&[1.0, 0.0, 0.0], &[1.0, 0.0]));
    let held_out = separable(5, 2);
    let mut net = seeded_network(&[2, 3, 2], 6);
    let before = copy_of(&net);
    assert_eq!(
        net.sgd(training.iter().collect(), 3, 4, Real(1.0), Some(&held_out)),
        Err(NetworkError::DimensionMismatch)
    );
    assert_eq!(net.biases(), before.biases());
    assert_eq!(net.weights(), before.weights());

    let training = separable(10, 1);
    let mut held_out = separable(5, 2);
    held_out[3] = sample(&[1.0, 0.0], &[1.0]);
    assert_eq!(
        net.sgd(training.iter().collect(), 3, 4, Real(1.0), Some(&held_out)),
        Err(NetworkError::DimensionMismatch)
    );
    assert_eq!(net.biases(), before.biases());
    assert_eq!(net.weights(), before.weights());
}

#[test]
fn sgd_checks_the_hyperparameters_first() {
    let training = vec![sample(&[1.0], &[1.0, 0.0])];
    let mut net = seeded_network(&[2, 3, 2], 6);
    assert_eq!(
        net.sgd(training.iter().collect(), 0, 4, Real(1.0), None),
        Err(NetworkError::InvalidHyperparameter)
    );
}
