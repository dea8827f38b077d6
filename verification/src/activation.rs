//! The logistic activation and its derivative.

use vstd::prelude::*;
use crate::scalar::{Scalar, is_one, is_negation, is_exp, is_sum, is_difference, is_product, is_quotient};

verus! {

/// `y` is a value of `1 / (1 + exp(-x))`, computed in that order.
pub open spec fn is_sigmoid<T: Scalar>(x: T, y: T) -> bool {
    exists|one: T, n: T, e: T, d: T|
        #![trigger is_negation(x, n), is_exp(n, e), is_sum(one, e, d)]
        {
            &&& is_one(one)
            &&& is_negation(x, n)
            &&& is_exp(n, e)
            &&& is_sum(one, e, d)
            &&& is_quotient(one, d, y)
        }
}

/// `y` is a value of `s * (1 - s)` where `s` is a sigmoid of `x`.
pub open spec fn is_sigmoid_prime<T: Scalar>(x: T, y: T) -> bool {
    exists|s: T, one: T, d: T|
        #![trigger is_sigmoid(x, s), is_difference(one, s, d)]
        {
            &&& is_sigmoid(x, s)
            &&& is_one(one)
            &&& is_difference(one, s, d)
            &&& is_product(s, d, y)
        }
}

/// `a[i]` is a sigmoid of `z[i]`.
pub open spec fn is_activation<T: Scalar>(z: Seq<T>, a: Seq<T>) -> bool {
    &&& a.len() == z.len()
    &&& forall|i: int| 0 <= i < a.len() ==> is_sigmoid(z[i], #[trigger] a[i])
}

/// `s[i]` is the derivative of the sigmoid at `z[i]`.
pub open spec fn is_slope<T: Scalar>(z: Seq<T>, s: Seq<T>) -> bool {
    &&& s.len() == z.len()
    &&& forall|i: int| 0 <= i < s.len() ==> is_sigmoid_prime(z[i], #[trigger] s[i])
}

/// The logistic function `1 / (1 + exp(-x))`.
pub fn sigmoid<T: Scalar>(x: T) -> (y: T)
    ensures
        is_sigmoid(x, y),
{
    let one = T::one();
    let n = x.negated();
    let e = n.exp();
    let d = one.plus(e);
    let y = one.over(d);
    proof {
        assert(is_negation(x, n) && is_exp(n, e) && is_sum(one, e, d));
    }
    y
}

/// The derivative of the logistic function, `s * (1 - s)` with `s = sigmoid(x)`.
pub fn sigmoid_prime<T: Scalar>(x: T) -> (y: T)
    ensures
        is_sigmoid_prime(x, y),
{
    let s = sigmoid(x);
    let one = T::one();
    let d = one.minus(s);
    let y = s.times(d);
    proof {
        assert(is_sigmoid(x, s) && is_difference(one, s, d));
    }
    y
}

/// The sigmoid of every entry of `z`.
pub fn activation<T: Scalar>(z: &Vec<T>) -> (a: Vec<T>)
    ensures
        is_activation(z@, a@),
{
    let mut a: Vec<T> = Vec::new();
    let mut i: usize = 0;
    while i < z.len()
        invariant
            i <= z.len(),
            a.len() == i,
            forall|k: int| 0 <= k < i ==> is_sigmoid(z@[k], #[trigger] a@[k]),
        decreases z.len() - i,
    {
        a.push(sigmoid(z[i]));
        i += 1;
    }
    a
}

/// The derivative of the sigmoid at every entry of `z`.
pub fn slope<T: Scalar>(z: &Vec<T>) -> (s: Vec<T>)
    ensures
        is_slope(z@, s@),
{
    let mut s: Vec<T> = Vec::new();
    let mut i: usize = 0;
    while i < z.len()
        invariant
            i <= z.len(),
            s.len() == i,
            forall|k: int| 0 <= k < i ==> is_sigmoid_prime(z@[k], #[trigger] s@[k]),
        decreases z.len() - i,
    {
        s.push(sigmoid_prime(z[i]));
        i += 1;
    }
    s
}

} // verus!
