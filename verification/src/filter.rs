//! The Haar filter value type and its evaluator.
//!
//! A filter holds at most nine weighted sample points in fixed-capacity
//! arrays: `points` stores coordinates flattened as `x0, y0, x1, y1, ...`,
//! `weights` the matching nonzero weights, and `count` how many slots are in
//! use.  The active entries are kept in strictly ascending row-major order,
//! so two filters with the same canonical geometry are equal values.

use vstd::prelude::*;

use crate::integral::IntegralImage;
use crate::model::{
    coord_lt, scale_entries, strictly_ordered, weighted_sum, lemma_weighted_sum_scale,
};

verus! {

/// Whether the first region of a Haar filter is counted with positive or
/// negative sign.
#[derive(Copy, Clone, PartialEq, Eq, Debug)]
pub enum Sign {
    Positive,
    Negative,
}

/// The integer factor a sign stands for.
pub open spec fn sign_factor(sign: Sign) -> int {
    if sign is Positive {
        1
    } else {
        -1
    }
}

/// The multiplier applied to every weight of a filter built with `sign`.
pub fn multiplier(sign: Sign) -> (m: i8)
    ensures
        m as int == sign_factor(sign),
{
    match sign {
        Sign::Positive => 1i8,
        Sign::Negative => -1i8,
    }
}

/// The first `n` entries packed into flattened point and weight storage.
pub open spec fn pack_entries(points: Seq<u32>, weights: Seq<i8>, n: int) -> Seq<
    ((u32, u32), int),
> {
    Seq::new(n as nat, |j: int| ((points[2 * j], points[2 * j + 1]), weights[j] as int))
}

/// A Haar filter whose value on an integral image is the weighted sum of
/// the image's values at the filter's points.
#[derive(Copy, Clone, PartialEq, Eq, Debug)]
pub struct HaarFilter {
    pub points: [u32; 18],
    pub weights: [i8; 9],
    pub count: usize,
}

impl HaarFilter {
    /// The active `(coordinate, weight)` entries.
    pub open spec fn entries(&self) -> Seq<((u32, u32), int)> {
        pack_entries(self.points@, self.weights@, self.count as int)
    }

    /// The canonical-form invariant: at most nine entries, every active
    /// weight nonzero, and coordinates strictly ascending in row-major
    /// order (hence no duplicates).
    pub open spec fn wf(&self) -> bool {
        &&& self.count <= 9
        &&& strictly_ordered(self.entries())
        &&& forall|j: int| 0 <= j < self.count ==> (#[trigger] self.entries()[j]).1 != 0
    }

    /// Returns this filter with every weight multiplied by `sign`'s factor:
    /// the filter that computes the sign-flipped feature.
    pub fn scaled_by(self, sign: Sign) -> (r: HaarFilter)
        requires
            self.count <= 9,
            forall|j: int| 0 <= j < 9 ==> -127 <= (#[trigger] self.weights@[j]),
        ensures
            r.count == self.count,
            r.points == self.points,
            r.entries() == scale_entries(self.entries(), sign_factor(sign)),
            self.wf() ==> r.wf(),
            forall|img: Map<(u32, u32), int>| #[trigger] weighted_sum(r.entries(), img)
                == sign_factor(sign) * weighted_sum(self.entries(), img),
            forall|j: int| 0 <= j < 9 ==> (#[trigger] r.weights@[j]) as int == sign_factor(sign)
                * (self.weights@[j] as int),
    {
        let m = multiplier(sign);
        let mut copy = self;
        let mut i: usize = 0;
        while i < 9
            invariant
                i <= 9,
                -1 <= m <= 1,
                m != 0,
                m as int == sign_factor(sign),
                copy.points == self.points,
                copy.count == self.count,
                forall|j: int| 0 <= j < 9 ==> -127 <= (#[trigger] self.weights@[j]),
                forall|j: int|
                    0 <= j < i ==> (#[trigger] copy.weights@[j]) as int == (m as int) * (
                    self.weights@[j] as int),
                forall|j: int| i <= j < 9 ==> (#[trigger] copy.weights@[j]) == self.weights@[j],
            decreases 9 - i,
        {
            let w = copy.weights[i];
            proof {
                assert(-127 <= (m as int) * (w as int) <= 127) by (nonlinear_arith)
                    requires
                        -1 <= m <= 1,
                        -127 <= w <= 127,
                ;
            }
            copy.weights[i] = m * w;
            i += 1;
        }
        proof {
            assert forall|j: int| 0 <= j < copy.count implies (#[trigger] copy.entries()[j]) == (
                self.entries()[j].0,
                sign_factor(sign) * self.entries()[j].1,
            ) by {
                assert(copy.weights@[j] as int == (m as int) * (self.weights@[j] as int));
            }
            assert(copy.entries() =~= scale_entries(self.entries(), sign_factor(sign)));
            if self.wf() {
                assert forall|j: int| 0 <= j < copy.count implies (#[trigger] copy.entries()[j]).1
                    != 0 by {
                    assert(self.entries()[j].1 != 0);
                    assert((m as int) * (self.weights@[j] as int) != 0) by (nonlinear_arith)
                        requires
                            m == 1 || m == -1i8,
                            self.weights@[j] as int != 0,
                    ;
                }
                assert forall|p: int, q: int|
                    0 <= p < q < copy.entries().len() implies coord_lt(
                    (#[trigger] copy.entries()[p]).0,
                    (#[trigger] copy.entries()[q]).0,
                ) by {
                    assert(copy.entries()[p].0 == self.entries()[p].0);
                    assert(copy.entries()[q].0 == self.entries()[q].0);
                    assert(coord_lt(self.entries()[p].0, self.entries()[q].0));
                }
            }
            assert forall|img: Map<(u32, u32), int>| #[trigger] weighted_sum(copy.entries(), img)
                == sign_factor(sign) * weighted_sum(self.entries(), img) by {
                lemma_weighted_sum_scale(self.entries(), sign_factor(sign), img);
            }
        }
        copy
    }

    /// Evaluates the filter on an integral image: the sum over all active
    /// entries of the image's cumulative value at the entry's coordinate
    /// times the entry's weight.  The caller guarantees that every point
    /// lies inside the image and that the value fits the result type.
    pub fn evaluate(&self, integral: &IntegralImage) -> (r: i32)
        requires
            self.count <= 9,
            integral.wf(),
            forall|j: int|
                0 <= j < self.count ==> ((#[trigger] self.entries()[j]).0.0 < integral.width
                    && self.entries()[j].0.1 < integral.height),
            i32::MIN <= weighted_sum(self.entries(), integral@) <= i32::MAX,
        ensures
            r as int == weighted_sum(self.entries(), integral@),
    {
        let sum = self.accumulate(integral);
        proof {
            assert(i32::MIN <= sum <= i32::MAX);
        }
        sum as i32
    }

    /// Evaluates the filter after checking that it applies: returns `None`
    /// exactly when some point lies outside the image or the value does not
    /// fit an `i32`, and the value otherwise.
    pub fn checked_evaluate(&self, integral: &IntegralImage) -> (r: Option<i32>)
        requires
            self.count <= 9,
            integral.wf(),
        ensures
            r is Some <==> ((forall|j: int|
                0 <= j < self.count ==> ((#[trigger] self.entries()[j]).0.0 < integral.width
                    && self.entries()[j].0.1 < integral.height)) && i32::MIN <= weighted_sum(
                self.entries(),
                integral@,
            ) <= i32::MAX),
            r matches Some(v) ==> v as int == weighted_sum(self.entries(), integral@),
    {
        let mut i: usize = 0;
        while i < self.count
            invariant
                i <= self.count <= 9,
                forall|j: int|
                    0 <= j < i ==> ((#[trigger] self.entries()[j]).0.0 < integral.width
                        && self.entries()[j].0.1 < integral.height),
            decreases self.count - i,
        {
            let x = self.points[2 * i];
            let y = self.points[2 * i + 1];
            if !(x < integral.width && y < integral.height) {
                proof {
                    assert(self.entries()[i as int].0.0 == x && self.entries()[i as int].0.1 == y);
                }
                return None;
            }
            i += 1;
        }
        let sum = self.accumulate(integral);
        if -0x8000_0000i64 <= sum && sum <= 0x7fff_ffffi64 {
            Some(sum as i32)
        } else {
            None
        }
    }

    /// The exact weighted sum, accumulated without overflow in 64 bits.
    fn accumulate(&self, integral: &IntegralImage) -> (sum: i64)
        requires
            self.count <= 9,
            integral.wf(),
            forall|j: int|
                0 <= j < self.count ==> ((#[trigger] self.entries()[j]).0.0 < integral.width
                    && self.entries()[j].0.1 < integral.height),
        ensures
            sum as int == weighted_sum(self.entries(), integral@),
    {
        let mut sum: i64 = 0;
        let mut i: usize = 0;
        while i < self.count
            invariant
                self.count <= 9,
                integral.wf(),
                forall|j: int|
                    0 <= j < self.count ==> ((#[trigger] self.entries()[j]).0.0 < integral.width
                        && self.entries()[j].0.1 < integral.height),
                i <= self.count <= 9,
                sum as int == weighted_sum(self.entries().take(i as int), integral@),
                -(i as int) * 0x8_0000_0000_0000 <= sum as int <= (i as int) * 0x8_0000_0000_0000,
            decreases self.count - i,
        {
            let x = self.points[2 * i];
            let y = self.points[2 * i + 1];
            proof {
                assert(self.entries()[i as int].0 == (x, y));
            }
            let p = integral.value_at(x, y);
            let w = self.weights[i];
            proof {
                assert(-0x8_0000_0000_0000 <= (p as int) * (w as int)
                    <= 0x8_0000_0000_0000) by (nonlinear_arith)
                    requires
                        0 <= p <= 0xffff_ffffu32,
                        -128 <= w <= 127,
                ;
            }
            let term: i64 = (p as i64) * (w as i64);
            sum = sum + term;
            proof {
                let taken = self.entries().take(i as int);
                let ext = self.entries().take(i + 1);
                assert(ext.drop_last() =~= taken);
                assert(ext.last() == self.entries()[i as int]);
                assert(integral@[(x, y)] == p as int);
                assert(term as int == (p as int) * (w as int));
            }
            i += 1;
        }
        proof {
            assert(self.entries().take(self.count as int) =~= self.entries());
        }
        sum
    }
}

} // verus!
