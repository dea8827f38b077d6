//! Training by stochastic gradient descent: epochs of shuffled mini-batches,
//! each epoch followed by an evaluation on held-out data where there is any.

use vstd::prelude::*;
use vstd::slice::slice_subrange;
use crate::model::NetworkModel;
use crate::network::{Network, NetworkError};
use crate::sample::{MnistSample, samples};
use crate::scalar::{Scalar, is_positivity, positive};
use crate::shuffle::{
    batch_bounds, batch_bounds_at, batch_count, lemma_batches_hold_each_sample_once, mini_batch,
    mini_batches, shuffle,
};

verus! {

/// What one epoch of training came to.
#[derive(Clone, Copy, Debug, PartialEq, Eq)]
pub struct EpochReport {
    /// The number of the epoch, from 0.
    pub epoch: usize,
    /// Where held-out data was given: how many of its samples the network
    /// classified as labelled after this epoch, and how many there are.
    pub accuracy: Option<(usize, usize)>,
}

/// The samples of the held-out data, if there is any.
pub open spec fn held_out<T>(test_data: Option<&[MnistSample<T>]>) -> Option<Seq<MnistSample<T>>> {
    match test_data {
        Some(data) => Some(data@),
        None => None,
    }
}

impl<T: Scalar> NetworkModel<T> {
    /// `states` records one epoch on the samples in the order `shuffled`:
    /// it starts with this network, and mini-batch `k` takes `states[k]` to
    /// `states[k + 1]` by one step of gradient descent.
    pub open spec fn is_epoch_trace(
        self,
        shuffled: Seq<MnistSample<T>>,
        size: int,
        eta: T,
        states: Seq<NetworkModel<T>>,
    ) -> bool {
        let count = batch_count(shuffled.len() as int, size);
        &&& states.len() == count + 1
        &&& states[0] == self
        &&& forall|k: int|
            0 <= k < count ==> states[k].is_update(
                #[trigger] mini_batch(shuffled, size, k),
                eta,
                states[k + 1],
            )
    }

    /// `after` is this network after one epoch on the samples in the order
    /// `shuffled`, in mini-batches of `size`.
    pub open spec fn is_epoch(
        self,
        shuffled: Seq<MnistSample<T>>,
        size: int,
        eta: T,
        after: NetworkModel<T>,
    ) -> bool {
        exists|states: Seq<NetworkModel<T>>|
            #![trigger self.is_epoch_trace(shuffled, size, eta, states)]
            self.is_epoch_trace(shuffled, size, eta, states) && states.last() == after
    }

    /// `report` is what is told of epoch `epoch` when it left this network:
    /// the score on the held-out data, if there is any.
    pub open spec fn is_report(
        self,
        epoch: int,
        test: Option<Seq<MnistSample<T>>>,
        report: EpochReport,
    ) -> bool {
        &&& report.epoch == epoch
        &&& match test {
            None => report.accuracy is None,
            Some(data) => report.accuracy matches Some((correct, total)) && total == data.len()
                && self.is_score(data, correct as int),
        }
    }

    /// `orders`, `nets` and `reports` record a training run: every epoch `e`
    /// goes through all of `data` in the order `orders[e]`, takes `nets[e]`
    /// to `nets[e + 1]`, and ends with `reports[e]`.
    pub open spec fn is_training_trace(
        self,
        data: Seq<MnistSample<T>>,
        epochs: int,
        size: int,
        eta: T,
        test: Option<Seq<MnistSample<T>>>,
        orders: Seq<Seq<MnistSample<T>>>,
        nets: Seq<NetworkModel<T>>,
        reports: Seq<EpochReport>,
    ) -> bool {
        &&& orders.len() == epochs
        &&& nets.len() == epochs + 1
        &&& reports.len() == epochs
        &&& nets[0] == self
        &&& forall|e: int|
            0 <= e < epochs ==> {
                &&& (#[trigger] orders[e]).to_multiset() == data.to_multiset()
                &&& nets[e].is_epoch(orders[e], size, eta, nets[e + 1])
                &&& nets[e + 1].is_report(e, test, reports[e])
            }
    }

    /// `after` is this network after `epochs` epochs of training on `data`,
    /// and `reports` is what was told of them.
    pub open spec fn is_training(
        self,
        data: Seq<MnistSample<T>>,
        epochs: int,
        size: int,
        eta: T,
        test: Option<Seq<MnistSample<T>>>,
        after: NetworkModel<T>,
        reports: Seq<EpochReport>,
    ) -> bool {
        exists|orders: Seq<Seq<MnistSample<T>>>, nets: Seq<NetworkModel<T>>|
            #![trigger self.is_training_trace(data, epochs, size, eta, test, orders, nets, reports)]
            self.is_training_trace(data, epochs, size, eta, test, orders, nets, reports)
                && nets.last() == after
    }
}

/// In every epoch of a training run each training sample is in exactly one
/// mini-batch: the mini-batches that the epoch goes through, put end to end
/// in their order, hold the samples of the training data, each as often as
/// the training data does. The mini-batches of epoch `e` are those of
/// `orders[e]`, none is empty, and none holds more than `size` samples.
pub proof fn lemma_each_sample_once_in_every_epoch<T: Scalar>(
    net: NetworkModel<T>,
    data: Seq<MnistSample<T>>,
    epochs: int,
    size: int,
    eta: T,
    test: Option<Seq<MnistSample<T>>>,
    orders: Seq<Seq<MnistSample<T>>>,
    nets: Seq<NetworkModel<T>>,
    reports: Seq<EpochReport>,
    e: int,
)
    requires
        size > 0,
        net.is_training_trace(data, epochs, size, eta, test, orders, nets, reports),
        0 <= e < epochs,
    ensures
        mini_batches(orders[e], size).flatten().to_multiset() == data.to_multiset(),
        forall|k: int|
            0 <= k < mini_batches(orders[e], size).len() ==> {
                &&& (#[trigger] mini_batches(orders[e], size)[k]) == mini_batch(orders[e], size, k)
                &&& 0 < mini_batches(orders[e], size)[k].len() <= size
            },
{
    lemma_batches_hold_each_sample_once(data, orders[e], size);
}

/// Whether samples fit depends on the layer sizes alone.
proof fn lemma_fit_by_sizes<T: Scalar>(
    a: NetworkModel<T>,
    b: NetworkModel<T>,
    data: Seq<MnistSample<T>>,
)
    requires
        a.sizes == b.sizes,
        a.all_fit(data),
    ensures
        b.all_fit(data),
{
    assert forall|i: int| 0 <= i < data.len() implies b.fits(
        (#[trigger] data[i]).image@,
        data[i].label@,
    ) by {
        assert(a.fits(data[i].image@, data[i].label@));
    }
}

/// Samples that all fit still do in another order.
proof fn lemma_fit_in_any_order<T: Scalar>(
    net: NetworkModel<T>,
    a: Seq<MnistSample<T>>,
    b: Seq<MnistSample<T>>,
)
    requires
        a.to_multiset() == b.to_multiset(),
        net.all_fit(a),
    ensures
        net.all_fit(b),
{
    broadcast use vstd::seq_lib::group_to_multiset_ensures;

    assert forall|i: int| 0 <= i < b.len() implies net.fits(
        (#[trigger] b[i]).image@,
        b[i].label@,
    ) by {
        assert(b.contains(b[i]));
        assert(b.to_multiset().count(b[i]) > 0);
        assert(a.contains(b[i]));
        let j = choose|j: int| 0 <= j < a.len() && a[j] == b[i];
        assert(net.fits(a[j].image@, a[j].label@));
    }
}

/// Two sequences with the same items, each as often, still have the same
/// items after a map over both.
pub proof fn lemma_map_keeps_permutation<A, B>(a: Seq<A>, b: Seq<A>, f: spec_fn(A) -> B)
    requires
        a.to_multiset() == b.to_multiset(),
    ensures
        a.map_values(f).to_multiset() == b.map_values(f).to_multiset(),
    decreases a.len(),
{
    broadcast use vstd::seq_lib::group_to_multiset_ensures;

    if a.len() == 0 {
        assert(a.to_multiset().len() == a.len());
        assert(b.to_multiset().len() == b.len());
        assert(a.map_values(f) =~= b.map_values(f));
    } else {
        let x = a.last();
        let a1 = a.drop_last();
        assert(a =~= a1.push(x));
        assert(a.contains(x));
        assert(b.to_multiset().count(x) > 0);
        assert(b.contains(x));
        let j = choose|j: int| 0 <= j < b.len() && b[j] == x;
        let b1 = b.remove(j);
        assert(a1.to_multiset() =~= a.to_multiset().remove(x));
        assert(b1.to_multiset() =~= b.to_multiset().remove(x));
        lemma_map_keeps_permutation(a1, b1, f);
        assert(a.map_values(f) =~= a1.map_values(f).push(f(x)));
        assert(b1.map_values(f).len() == b.len() - 1);
        assert(b.map_values(f) =~= b1.map_values(f).insert(j, f(x)));
        assert(a.map_values(f).to_multiset() =~= b.map_values(f).to_multiset());
    }
}

impl<T: Scalar> Network<T> {
    /// One pass over `training_data` in its order, in mini-batches of
    /// `mini_batch_size`, the last of which may be shorter.
    fn epoch(&mut self, training_data: &Vec<&MnistSample<T>>, mini_batch_size: usize, eta: T)
        requires
            old(self).well_formed(),
            mini_batch_size > 0,
            old(self)@.all_fit(samples(training_data@)),
        ensures
            final(self).well_formed(),
            final(self)@.sizes == old(self)@.sizes,
            old(self)@.is_epoch(
                samples(training_data@),
                mini_batch_size as int,
                eta,
                final(self)@,
            ),
    {
        let n = training_data.len();
        let ghost data = samples(training_data@);
        let ghost size = mini_batch_size as int;
        let ghost mut states: Seq<NetworkModel<T>> = seq![self@];
        let bounds = batch_bounds(n, mini_batch_size);
        let mut k: usize = 0;
        while k < bounds.len()
            invariant
                self.well_formed(),
                self@.sizes == old(self)@.sizes,
                n == training_data.len(),
                size == mini_batch_size,
                data == samples(training_data@),
                old(self)@.all_fit(data),
                bounds.len() == batch_count(n as int, size),
                forall|j: int|
                    0 <= j < bounds.len() ==> {
                        &&& (#[trigger] bounds[j]).0 == batch_bounds_at(n as int, size, j).0
                        &&& bounds[j].1 == batch_bounds_at(n as int, size, j).1
                        &&& bounds[j].0 < bounds[j].1 <= n
                    },
                k <= bounds.len(),
                states.len() == k + 1,
                states[0] == old(self)@,
                states[k as int] == self@,
                forall|j: int|
                    0 <= j < k ==> states[j].is_update(
                        #[trigger] mini_batch(data, size, j),
                        eta,
                        states[j + 1],
                    ),
            decreases bounds.len() - k,
        {
            let (start, end) = bounds[k];
            let batch = slice_subrange(training_data.as_slice(), start, end);
            proof {
                assert(samples(batch@) =~= mini_batch(data, size, k as int));
                lemma_fit_by_sizes(old(self)@, self@, data);
                assert forall|i: int| 0 <= i < samples(batch@).len() implies self@.fits(
                    (#[trigger] samples(batch@)[i]).image@,
                    samples(batch@)[i].label@,
                ) by {
                    assert(samples(batch@)[i] == data[start + i]);
                }
            }
            self.descend(batch, eta);
            proof {
                states = states.push(self@);
            }
            k += 1;
        }
        assert(old(self)@.is_epoch_trace(data, size, eta, states));
    }

    /// Trains the network by stochastic gradient descent.
    ///
    /// Every epoch puts `training_data` into a fresh random order, splits it
    /// into mini-batches of `mini_batch_size` (the last may be shorter) and
    /// takes one step of gradient descent on each in turn. Where `test_data`
    /// is given, the network is evaluated on it after every epoch. The
    /// reports of the epochs are returned in order.
    ///
    /// Nothing is changed where the call is refused: for no epochs, a
    /// mini-batch size of zero or a learning rate that is not positive, and
    /// for a sample, in either collection, that does not fit the network.
    pub fn sgd(
        &mut self,
        training_data: Vec<&MnistSample<T>>,
        epochs: usize,
        mini_batch_size: usize,
        eta: T,
        test_data: Option<&[MnistSample<T>]>,
    ) -> (r: Result<Vec<EpochReport>, NetworkError>)
        requires
            old(self).well_formed(),
        ensures
            final(self).well_formed(),
            match r {
                Ok(reports) => {
                    &&& epochs > 0
                    &&& mini_batch_size > 0
                    &&& is_positivity(eta, true)
                    &&& old(self)@.all_fit(samples(training_data@))
                    &&& held_out(test_data) matches Some(data) ==> old(self)@.all_fit(data)
                    &&& old(self)@.is_training(
                        samples(training_data@),
                        epochs as int,
                        mini_batch_size as int,
                        eta,
                        held_out(test_data),
                        final(self)@,
                        reports@,
                    )
                },
                Err(NetworkError::InvalidHyperparameter) => {
                    &&& epochs == 0 || mini_batch_size == 0 || is_positivity(eta, false)
                    &&& *final(self) == *old(self)
                },
                Err(NetworkError::DimensionMismatch) => {
                    &&& epochs > 0
                    &&& mini_batch_size > 0
                    &&& is_positivity(eta, true)
                    &&& !(old(self)@.all_fit(samples(training_data@)) && (held_out(
                        test_data,
                    ) matches Some(data) ==> old(self)@.all_fit(data)))
                    &&& *final(self) == *old(self)
                },
                Err(NetworkError::InvalidArchitecture) => false,
            },
    {
        if epochs == 0 || mini_batch_size == 0 || !positive(eta) {
            return Err(NetworkError::InvalidHyperparameter);
        }
        if self.first_misfit_among(training_data.as_slice()).is_some() {
            return Err(NetworkError::DimensionMismatch);
        }
        match test_data {
            Some(data) => {
                if self.first_misfit(data).is_some() {
                    return Err(NetworkError::DimensionMismatch);
                }
            },
            None => {},
        }
        let ghost data = samples(training_data@);
        let ghost test = held_out(test_data);
        let ghost mut orders: Seq<Seq<MnistSample<T>>> = Seq::empty();
        let ghost mut nets: Seq<NetworkModel<T>> = seq![self@];
        let mut training_data = training_data;
        let mut reports: Vec<EpochReport> = Vec::new();
        let mut epoch: usize = 0;
        while epoch < epochs
            invariant
                self.well_formed(),
                self@.sizes == old(self)@.sizes,
                mini_batch_size > 0,
                epoch <= epochs,
                test == held_out(test_data),
                samples(training_data@).to_multiset() == data.to_multiset(),
                old(self)@.all_fit(data),
                test matches Some(held) ==> old(self)@.all_fit(held),
                orders.len() == epoch,
                nets.len() == epoch + 1,
                reports.len() == epoch,
                nets[0] == old(self)@,
                nets[epoch as int] == self@,
                forall|e: int|
                    0 <= e < epoch ==> {
                        &&& (#[trigger] orders[e]).to_multiset() == data.to_multiset()
                        &&& nets[e].is_epoch(orders[e], mini_batch_size as int, eta, nets[e + 1])
                        &&& nets[e + 1].is_report(e, test, reports@[e])
                    },
            decreases epochs - epoch,
        {
            let ghost unshuffled = training_data@;
            shuffle(&mut training_data);
            proof {
                lemma_map_keeps_permutation(
                    unshuffled,
                    training_data@,
                    |s: &MnistSample<T>| *s,
                );
                lemma_fit_in_any_order(old(self)@, data, samples(training_data@));
                lemma_fit_by_sizes(old(self)@, self@, samples(training_data@));
            }
            self.epoch(&training_data, mini_batch_size, eta);
            let accuracy = match test_data {
                Some(held) => {
                    proof {
                        lemma_fit_by_sizes(old(self)@, self@, held@);
                    }
                    match self.evaluate(held) {
                        Ok(correct) => Some((correct, held.len())),
                        // Not reached: every held-out sample fits.
                        Err(_) => None,
                    }
                },
                None => None,
            };
            let report = EpochReport { epoch, accuracy };
            reports.push(report);
            proof {
                orders = orders.push(samples(training_data@));
                nets = nets.push(self@);
            }
            epoch += 1;
        }
        assert(old(self)@.is_training_trace(
            data,
            epochs as int,
            mini_batch_size as int,
            eta,
            test,
            orders,
            nets,
            reports@,
        ));
        Ok(reports)
    }
}

} // verus!
