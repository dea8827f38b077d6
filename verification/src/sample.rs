//! A labelled example, and how one is made from a record of a digit data
//! set: a digit from 0 to 9 and the grey values of its image, from 0 to 255.

use vstd::prelude::*;
use crate::scalar::{Scalar, is_count, is_one, is_quotient, is_zero};

verus! {

/// One labelled example.
#[derive(Debug, PartialEq)]
pub struct MnistSample<T> {
    /// The target output: as long as the last layer of the network.
    pub label: Vec<T>,
    /// The input: as long as the first layer of the network.
    pub image: Vec<T>,
}

/// The samples that `batch` refers to, in its order.
pub open spec fn samples<T>(batch: Seq<&MnistSample<T>>) -> Seq<MnistSample<T>> {
    batch.map_values(|s: &MnistSample<T>| *s)
}

/// The number of digits, and so the length of a label.
pub const CLASSES: usize = 10;

/// The largest grey value of a pixel.
pub const BRIGHTEST: usize = 255;

/// `v` has a one in place `hot` and zeros in the other places of `classes`.
pub open spec fn is_one_hot<T: Scalar>(hot: usize, classes: usize, v: Seq<T>) -> bool {
    &&& v.len() == classes
    &&& forall|i: int|
        0 <= i < v.len() ==> if i == hot {
            is_one(#[trigger] v[i])
        } else {
            is_zero(v[i])
        }
}

/// `r[i]` is `pixels[i]` divided by the number that stands for `brightest`.
pub open spec fn is_normalised<T: Scalar>(pixels: Seq<T>, brightest: usize, r: Seq<T>) -> bool {
    exists|top: T|
        #![trigger is_count(brightest, top)]
        {
            &&& is_count(brightest, top)
            &&& r.len() == pixels.len()
            &&& forall|i: int| 0 <= i < r.len() ==> is_quotient(pixels[i], top, #[trigger] r[i])
        }
}

/// The vector of `classes` entries with a one in place `hot` and zeros
/// elsewhere.
pub fn one_hot<T: Scalar>(hot: usize, classes: usize) -> (v: Vec<T>)
    requires
        hot < classes,
    ensures
        is_one_hot(hot, classes, v@),
{
    let mut v: Vec<T> = Vec::new();
    let mut i: usize = 0;
    while i < classes
        invariant
            i <= classes,
            v.len() == i,
            forall|k: int|
                0 <= k < i ==> if k == hot {
                    is_one(#[trigger] v@[k])
                } else {
                    is_zero(v@[k])
                },
        decreases classes - i,
    {
        if i == hot {
            v.push(T::one());
        } else {
            v.push(T::zero());
        }
        i += 1;
    }
    v
}

/// The grey values `pixels` brought into the range from 0 to 1.
pub fn normalised<T: Scalar>(pixels: &Vec<T>) -> (r: Vec<T>)
    ensures
        is_normalised(pixels@, BRIGHTEST, r@),
{
    let top = T::from_count(BRIGHTEST);
    let mut r: Vec<T> = Vec::new();
    let mut i: usize = 0;
    while i < pixels.len()
        invariant
            i <= pixels.len(),
            r.len() == i,
            forall|k: int| 0 <= k < i ==> is_quotient(pixels@[k], top, #[trigger] r@[k]),
        decreases pixels.len() - i,
    {
        r.push(pixels[i].over(top));
        i += 1;
    }
    proof {
        assert(is_count(BRIGHTEST, top));
    }
    r
}

impl<T: Scalar> MnistSample<T> {
    /// The sample for one record: the label has a one in the place of the
    /// digit, and the image holds the grey values divided by 255.
    pub fn from_record(digit: usize, pixels: &Vec<T>) -> (sample: MnistSample<T>)
        requires
            digit < CLASSES,
        ensures
            is_one_hot(digit, CLASSES, sample.label@),
            is_normalised(pixels@, BRIGHTEST, sample.image@),
    {
        MnistSample { label: one_hot(digit, CLASSES), image: normalised(pixels) }
    }
}

} // verus!
