//! The corner-weight extractor: one rectangle becomes up to four weighted
//! sample points on the integral image, by inclusion-exclusion.
//!
//! For a rectangle with its top-left pixel at `(left, top)` and extents
//! `width x height`, the sum of the pixel intensities inside it equals
//! `I(right, bottom) - I(right, top-1) - I(left-1, bottom) + I(left-1, top-1)`
//! on an integral image `I`.  Terms at a virtual row or column `-1` are zero
//! and are omitted: their slot keeps weight `0` at a placeholder coordinate.

use vstd::prelude::*;

use crate::model::{seq_weight, unit_weights, weighted_sum};

verus! {

/// The four evaluation points of one rectangle, in the fixed slot order
/// top-left, top-right, bottom-left, bottom-right.  A slot whose corner term
/// is omitted holds weight `0` at a placeholder coordinate.
pub struct EvalPoints {
    pub points: [(u32, u32); 4],
    pub weights: [i8; 4],
}

impl View for EvalPoints {
    type V = Seq<((u32, u32), int)>;

    open spec fn view(&self) -> Seq<((u32, u32), int)> {
        Seq::new(4, |i: int| (self.points@[i], self.weights@[i] as int))
    }
}

impl EvalPoints {
    pub fn new(points: [(u32, u32); 4], weights: [i8; 4]) -> (r: EvalPoints)
        ensures
            r.points == points,
            r.weights == weights,
            r@ == Seq::new(4, |i: int| (points@[i], weights@[i] as int)),
    {
        let r = EvalPoints { points, weights };
        proof {
            assert(r@ =~= Seq::new(4, |i: int| (points@[i], weights@[i] as int)));
        }
        r
    }
}

/// The corner expansion of one rectangle, as entries: bottom-right always
/// weight `+1`; top-left `+1` when both `top > 0` and `left > 0`; top-right
/// `-1` when `top > 0`; bottom-left `-1` when `left > 0`; omitted corners
/// are placeholders with weight `0`.
pub open spec fn rect_entries(top: u32, left: u32, width: u32, height: u32) -> Seq<
    ((u32, u32), int),
> {
    let right = (left + width - 1) as u32;
    let bottom = (top + height - 1) as u32;
    seq![
        if top > 0 && left > 0 {
            ((((left - 1) as u32, (top - 1) as u32)), 1int)
        } else {
            (((0u32, 0u32)), 0int)
        },
        if top > 0 {
            (((right, (top - 1) as u32)), -1int)
        } else {
            (((0u32, 0u32)), 0int)
        },
        if left > 0 {
            ((((left - 1) as u32, bottom)), -1int)
        } else {
            (((0u32, 0u32)), 0int)
        },
        (((right, bottom)), 1int),
    ]
}

/// The inclusion-exclusion value of one rectangle on `img`, with the terms
/// at a clipped top or left edge omitted.
pub open spec fn rect_value(
    img: Map<(u32, u32), int>,
    top: u32,
    left: u32,
    width: u32,
    height: u32,
) -> int {
    let right = (left + width - 1) as u32;
    let bottom = (top + height - 1) as u32;
    img[(right, bottom)] - (if top > 0 {
        img[(right, (top - 1) as u32)]
    } else {
        0
    }) - (if left > 0 {
        img[((left - 1) as u32, bottom)]
    } else {
        0
    }) + (if top > 0 && left > 0 {
        img[((left - 1) as u32, (top - 1) as u32)]
    } else {
        0
    })
}

/// Returns the evaluation points whose weighted sum over any integral image
/// is the rectangle's inclusion-exclusion value.
pub fn eval_points(top: u32, left: u32, width: u32, height: u32) -> (r: EvalPoints)
    requires
        1 <= width,
        1 <= height,
        left + width <= 0x1_0000_0000,
        top + height <= 0x1_0000_0000,
    ensures
        r@ == rect_entries(top, left, width, height),
{
    let right = left + (width - 1);
    let bottom = top + (height - 1);

    let mut points: [(u32, u32); 4] = [(0, 0), (0, 0), (0, 0), (right, bottom)];
    let mut weights: [i8; 4] = [0i8, 0i8, 0i8, 1i8];

    if top > 0 && left > 0 {
        points[0] = (left - 1, top - 1);
        weights[0] = 1i8;
    }
    if top > 0 {
        points[1] = (right, top - 1);
        weights[1] = -1i8;
    }
    if left > 0 {
        points[2] = (left - 1, bottom);
        weights[2] = -1i8;
    }

    let r = EvalPoints::new(points, weights);
    proof {
        assert(r@ =~= rect_entries(top, left, width, height));
    }
    r
}

/// The weighted sum of a rectangle's corner expansion is its
/// inclusion-exclusion value.
pub proof fn lemma_rect_entries_value(
    img: Map<(u32, u32), int>,
    top: u32,
    left: u32,
    width: u32,
    height: u32,
)
    requires
        1 <= width,
        1 <= height,
        left + width <= 0x1_0000_0000,
        top + height <= 0x1_0000_0000,
    ensures
        weighted_sum(rect_entries(top, left, width, height), img) == rect_value(
            img,
            top,
            left,
            width,
            height,
        ),
{
    let s = rect_entries(top, left, width, height);
    let s3 = s.drop_last();
    let s2 = s3.drop_last();
    let s1 = s2.drop_last();
    let s0 = s1.drop_last();
    assert(s0.len() == 0);
    assert(s3[0] == s[0] && s3[1] == s[1] && s3[2] == s[2]);
    assert(s2[0] == s[0] && s2[1] == s[1]);
    assert(s1[0] == s[0]);
    assert(weighted_sum(s0, img) == 0);
    assert(weighted_sum(s1, img) == img[s[0].0] * s[0].1);
    assert(weighted_sum(s2, img) == weighted_sum(s1, img) + img[s[1].0] * s[1].1);
    assert(weighted_sum(s3, img) == weighted_sum(s2, img) + img[s[2].0] * s[2].1);
    assert(weighted_sum(s, img) == weighted_sum(s3, img) + img[s[3].0] * s[3].1);
    assert(weighted_sum(s, img) == img[s[0].0] * s[0].1 + img[s[1].0] * s[1].1 + img[s[2].0]
        * s[2].1 + img[s[3].0] * s[3].1);
    let v0 = img[s[0].0];
    let v1 = img[s[1].0];
    let v2 = img[s[2].0];
    let v3 = img[s[3].0];
    assert(v0 * s[0].1 == if s[0].1 == 1 {
        v0
    } else if s[0].1 == -1 {
        -v0
    } else if s[0].1 == 0 {
        0
    } else {
        v0 * s[0].1
    }) by (nonlinear_arith);
    assert(v1 * s[1].1 == if s[1].1 == 1 {
        v1
    } else if s[1].1 == -1 {
        -v1
    } else if s[1].1 == 0 {
        0
    } else {
        v1 * s[1].1
    }) by (nonlinear_arith);
    assert(v2 * s[2].1 == if s[2].1 == 1 {
        v2
    } else if s[2].1 == -1 {
        -v2
    } else if s[2].1 == 0 {
        0
    } else {
        v2 * s[2].1
    }) by (nonlinear_arith);
    assert(v3 * s[3].1 == if s[3].1 == 1 {
        v3
    } else if s[3].1 == -1 {
        -v3
    } else if s[3].1 == 0 {
        0
    } else {
        v3 * s[3].1
    }) by (nonlinear_arith);
}

/// The four grid coordinates a rectangle's corner expansion can sample,
/// slot by slot; a clipped slot's coordinate here is unused, since its
/// weight is zero.
pub open spec fn corner_coords(top: u32, left: u32, width: u32, height: u32) -> Seq<(u32, u32)> {
    let right = (left + width - 1) as u32;
    let bottom = (top + height - 1) as u32;
    seq![
        (((left - 1) as u32, (top - 1) as u32)),
        ((right, (top - 1) as u32)),
        (((left - 1) as u32, bottom)),
        ((right, bottom)),
    ]
}

/// A corner expansion has four slots, unit weights, and every slot with
/// nonzero weight samples the matching grid coordinate.
pub proof fn lemma_rect_entries_shape(top: u32, left: u32, width: u32, height: u32)
    ensures
        rect_entries(top, left, width, height).len() == 4,
        unit_weights(rect_entries(top, left, width, height)),
        forall|j: int|
            0 <= j < 4 && (#[trigger] rect_entries(top, left, width, height)[j]).1 != 0
                ==> rect_entries(top, left, width, height)[j].0 == corner_coords(
                top,
                left,
                width,
                height,
            )[j],
{
    let s = rect_entries(top, left, width, height);
    let cc = corner_coords(top, left, width, height);
    assert forall|j: int| 0 <= j < 4 implies -1 <= (#[trigger] s[j]).1 <= 1 && (s[j].1 != 0
        ==> s[j].0 == cc[j]) by {
        if j == 0 {
            assert(s[0].1 != 0 ==> s[0].0 == cc[0]);
        } else if j == 1 {
            assert(s[1].1 != 0 ==> s[1].0 == cc[1]);
        } else if j == 2 {
            assert(s[2].1 != 0 ==> s[2].0 == cc[2]);
        } else {
            assert(s[3].0 == cc[3]);
        }
    }
}

/// A cumulative value at a virtual row or column `-1` is zero; elsewhere it
/// is the image's value.
pub open spec fn padded_lookup(img: Map<(u32, u32), int>, x: int, y: int) -> int {
    if x < 0 || y < 0 {
        0
    } else {
        img[(x as u32, y as u32)]
    }
}

/// The full four-term inclusion-exclusion formula, written over an image
/// padded with zeros at row and column `-1`.
pub open spec fn rect_value_padded(
    img: Map<(u32, u32), int>,
    top: u32,
    left: u32,
    width: u32,
    height: u32,
) -> int {
    padded_lookup(img, left + width - 1, top + height - 1) - padded_lookup(
        img,
        left + width - 1,
        top - 1,
    ) - padded_lookup(img, left - 1, top + height - 1) + padded_lookup(img, left - 1, top - 1)
}

/// Boundary clipping: omitting the corner terms of a rectangle that touches
/// the image's top or left edge is the same as evaluating the full formula
/// against an image with an implicit zero value at row and column `-1`.
pub proof fn lemma_boundary_clipping(
    img: Map<(u32, u32), int>,
    top: u32,
    left: u32,
    width: u32,
    height: u32,
)
    requires
        1 <= width,
        1 <= height,
        left + width <= 0x1_0000_0000,
        top + height <= 0x1_0000_0000,
    ensures
        weighted_sum(rect_entries(top, left, width, height), img) == rect_value_padded(
            img,
            top,
            left,
            width,
            height,
        ),
{
    lemma_rect_entries_value(img, top, left, width, height);
}

} // verus!
