//! The five filter-shape builders.  Each one decomposes its template into
//! adjacent rectangles, feeds them to the canonicalizer with alternating
//! sign, and scales the result by the caller's sign.  Every builder's
//! contract pins the filter's value on every integral image to the closed
//! form of its template.

use vstd::prelude::*;

use crate::canonical::{combine_alternating, unit_weights_hold, views_of};
use crate::corner::{
    corner_coords, eval_points, lemma_rect_entries_shape, lemma_rect_entries_value, rect_entries,
    rect_value, EvalPoints,
};
use crate::filter::{sign_factor, HaarFilter, Sign};
use crate::model::{
    alternating, alternating_value, lemma_alternating_support, support_bounded, unit_weights,
    weighted_sum,
};

verus! {

/// The two-region horizontal feature: the sum over the left block minus the
/// sum over the right block.
pub open spec fn two_region_horizontal_value(
    img: Map<(u32, u32), int>,
    top: u32,
    left: u32,
    dx1: u32,
    dx2: u32,
    dy: u32,
) -> int {
    rect_value(img, top, left, dx1, dy) - rect_value(img, top, (left + dx1) as u32, dx2, dy)
}

/// The filter computes the two-region horizontal feature with the given
/// geometry and sign, on every integral image.
pub open spec fn is_two_region_horizontal(
    f: HaarFilter,
    top: u32,
    left: u32,
    dx1: u32,
    dx2: u32,
    dy: u32,
    sign: Sign,
) -> bool {
    forall|img: Map<(u32, u32), int>| #[trigger]
        weighted_sum(f.entries(), img) == sign_factor(sign) * two_region_horizontal_value(
            img,
            top,
            left,
            dx1,
            dx2,
            dy,
        )
}

impl HaarFilter {
    /// Returns the following feature, with all signs reversed if
    /// `sign == Sign::Negative`:
    /// <pre>
    ///     A   B   C
    ///       +   -
    ///     D   E   F
    /// </pre>
    /// `A = (left, top)`, `B.x = left + dx1`, `C.x = B.x + dx2`, and
    /// `D.y = A.y + dy`.  On an integral image `I` its value is
    /// `sign * (I(A) - 2I(B) + I(C) - I(D) + 2I(E) - I(F))`.
    pub fn two_region_horizontal(top: u32, left: u32, dx1: u32, dx2: u32, dy: u32, sign: Sign) -> (f:
        HaarFilter)
        requires
            1 <= dx1,
            1 <= dx2,
            1 <= dy,
            left + dx1 + dx2 <= 0x1_0000_0000,
            top + dy <= 0x1_0000_0000,
        ensures
            f.wf(),
            is_two_region_horizontal(f, top, left, dx1, dx2, dy, sign),
    {
        let r1 = eval_points(top, left, dx1, dy);
        let r2 = eval_points(top, left + dx1, dx2, dy);
        let left2 = left + dx1;
        let mut rs: Vec<EvalPoints> = Vec::new();
        rs.push(r1);
        rs.push(r2);
        proof {
            let vs = views_of(rs@);
            assert(vs.len() == 2);
            assert(vs[0] == rect_entries(top, left, dx1, dy));
            assert(vs[1] == rect_entries(top, left2, dx2, dy));
            lemma_rect_entries_shape(top, left, dx1, dy);
            lemma_rect_entries_shape(top, left2, dx2, dy);
            let cc1 = corner_coords(top, left, dx1, dy);
            let cc2 = corner_coords(top, left2, dx2, dy);
            let cs = cc1 + cc2;
            assert forall|k: int, j: int|
                0 <= k < vs.len() && 0 <= j < vs[k].len() && (#[trigger] vs[k][j]).1
                    != 0 implies cs.contains(vs[k][j].0) by {
                if k == 0 {
                    assert(vs[0][j].0 == cc1[j]);
                    assert(cs[j] == cc1[j]);
                } else {
                    assert(vs[1][j].0 == cc2[j]);
                    assert(cs[4 + j] == cc2[j]);
                }
            }
            lemma_alternating_support(vs, cs, 1);
            assert(cs.len() <= 9);
            assert(support_bounded(alternating(vs, 1), 9));
            assert forall|k: int| 0 <= k < rs@.len() implies unit_weights(
                (#[trigger] rs@[k])@,
            ) by {
                assert(rs@[k]@ == vs[k]);
            }
        }
        let base = combine_alternating(rs.as_slice());
        let f = base.scaled_by(sign);
        proof {
            let vs = views_of(rs@);
            assert forall|img: Map<(u32, u32), int>| #[trigger]
                weighted_sum(f.entries(), img) == sign_factor(sign) * two_region_horizontal_value(
                    img,
                    top,
                    left,
                    dx1,
                    dx2,
                    dy,
                ) by {
                assert(weighted_sum(base.entries(), img) == alternating_value(vs, img, 1));
                assert(alternating_value(vs, img, 1) == 1 * weighted_sum(vs[0], img)
                    + alternating_value(vs.skip(1), img, -1));
                assert(vs.skip(1)[0] == vs[1]);
                assert(alternating_value(vs.skip(1), img, -1) == -1 * weighted_sum(vs[1], img)
                    + alternating_value(vs.skip(1).skip(1), img, 1));
                assert(vs.skip(1).skip(1) =~= Seq::<Seq<((u32, u32), int)>>::empty());
                assert(alternating_value(Seq::<Seq<((u32, u32), int)>>::empty(), img, 1) == 0);
                lemma_rect_entries_value(img, top, left, dx1, dy);
                lemma_rect_entries_value(img, top, left2, dx2, dy);
                assert(weighted_sum(base.entries(), img) == two_region_horizontal_value(
                    img,
                    top,
                    left,
                    dx1,
                    dx2,
                    dy,
                ));
            }
        }
        f
    }
}

/// The two-region vertical feature: the sum over the top block minus the
/// sum over the bottom block.
pub open spec fn two_region_vertical_value(
    img: Map<(u32, u32), int>,
    top: u32,
    left: u32,
    dx: u32,
    dy1: u32,
    dy2: u32,
) -> int {
    rect_value(img, top, left, dx, dy1) - rect_value(img, (top + dy1) as u32, left, dx, dy2)
}

/// The filter computes the two-region vertical feature with the given
/// geometry and sign, on every integral image.
pub open spec fn is_two_region_vertical(
    f: HaarFilter,
    top: u32,
    left: u32,
    dx: u32,
    dy1: u32,
    dy2: u32,
    sign: Sign,
) -> bool {
    forall|img: Map<(u32, u32), int>| #[trigger]
        weighted_sum(f.entries(), img) == sign_factor(sign) * two_region_vertical_value(
            img,
            top,
            left,
            dx,
            dy1,
            dy2,
        )
}

/// The three-region horizontal feature: left block minus middle block plus
/// right block.
pub open spec fn three_region_horizontal_value(
    img: Map<(u32, u32), int>,
    top: u32,
    left: u32,
    dx1: u32,
    dx2: u32,
    dx3: u32,
    dy: u32,
) -> int {
    rect_value(img, top, left, dx1, dy) - rect_value(img, top, (left + dx1) as u32, dx2, dy)
        + rect_value(img, top, (left + dx1 + dx2) as u32, dx3, dy)
}

/// The filter computes the three-region horizontal feature with the given
/// geometry and sign, on every integral image.
pub open spec fn is_three_region_horizontal(
    f: HaarFilter,
    top: u32,
    left: u32,
    dx1: u32,
    dx2: u32,
    dx3: u32,
    dy: u32,
    sign: Sign,
) -> bool {
    forall|img: Map<(u32, u32), int>| #[trigger]
        weighted_sum(f.entries(), img) == sign_factor(sign) * three_region_horizontal_value(
            img,
            top,
            left,
            dx1,
            dx2,
            dx3,
            dy,
        )
}

/// The three-region vertical feature: top block minus middle block plus
/// bottom block.
pub open spec fn three_region_vertical_value(
    img: Map<(u32, u32), int>,
    top: u32,
    left: u32,
    dx: u32,
    dy1: u32,
    dy2: u32,
    dy3: u32,
) -> int {
    rect_value(img, top, left, dx, dy1) - rect_value(img, (top + dy1) as u32, left, dx, dy2)
        + rect_value(img, (top + dy1 + dy2) as u32, left, dx, dy3)
}

/// The filter computes the three-region vertical feature with the given
/// geometry and sign, on every integral image.
pub open spec fn is_three_region_vertical(
    f: HaarFilter,
    top: u32,
    left: u32,
    dx: u32,
    dy1: u32,
    dy2: u32,
    dy3: u32,
    sign: Sign,
) -> bool {
    forall|img: Map<(u32, u32), int>| #[trigger]
        weighted_sum(f.entries(), img) == sign_factor(sign) * three_region_vertical_value(
            img,
            top,
            left,
            dx,
            dy1,
            dy2,
            dy3,
        )
}

/// The four-region checkerboard feature: top-left and bottom-right blocks
/// counted positively, top-right and bottom-left negatively.
pub open spec fn four_region_value(
    img: Map<(u32, u32), int>,
    top: u32,
    left: u32,
    dx1: u32,
    dx2: u32,
    dy1: u32,
    dy2: u32,
) -> int {
    rect_value(img, top, left, dx1, dy1) - rect_value(img, top, (left + dx1) as u32, dx2, dy1)
        + rect_value(img, (top + dy1) as u32, (left + dx1) as u32, dx2, dy2) - rect_value(
        img,
        (top + dy1) as u32,
        left,
        dx1,
        dy2,
    )
}

/// The filter computes the four-region feature with the given geometry and
/// sign, on every integral image.
pub open spec fn is_four_region(
    f: HaarFilter,
    top: u32,
    left: u32,
    dx1: u32,
    dx2: u32,
    dy1: u32,
    dy2: u32,
    sign: Sign,
) -> bool {
    forall|img: Map<(u32, u32), int>| #[trigger]
        weighted_sum(f.entries(), img) == sign_factor(sign) * four_region_value(
            img,
            top,
            left,
            dx1,
            dx2,
            dy1,
            dy2,
        )
}

impl HaarFilter {
    /// Returns the following feature, with the `+` and `-` signs reversed
    /// if `sign == Sign::Negative`:
    /// <pre>
    ///     A   B
    ///       +
    ///     C   D
    ///       -
    ///     E   F
    /// </pre>
    /// The distance between `A` and `B` is `dx`, between `A` and `C` is
    /// `dy1`, and between `C` and `E` is `dy2`.  On an integral image `I`
    /// its value is `sign * (I(A) - I(B) - 2I(C) + 2I(D) + I(E) - I(F))`.
    pub fn two_region_vertical(top: u32, left: u32, dx: u32, dy1: u32, dy2: u32, sign: Sign) -> (f:
        HaarFilter)
        requires
            1 <= dx,
            1 <= dy1,
            1 <= dy2,
            left + dx <= 0x1_0000_0000,
            top + dy1 + dy2 <= 0x1_0000_0000,
        ensures
            f.wf(),
            is_two_region_vertical(f, top, left, dx, dy1, dy2, sign),
    {
        let r1 = eval_points(top, left, dx, dy1);
        let r2 = eval_points(top + dy1, left, dx, dy2);
        let top2 = top + dy1;
        let mut rs: Vec<EvalPoints> = Vec::new();
        rs.push(r1);
        rs.push(r2);
        proof {
            let vs = views_of(rs@);
            assert(vs.len() == 2);
            assert(vs[0] == rect_entries(top, left, dx, dy1));
            assert(vs[1] == rect_entries(top2, left, dx, dy2));
            lemma_rect_entries_shape(top, left, dx, dy1);
            lemma_rect_entries_shape(top2, left, dx, dy2);
            let cc1 = corner_coords(top, left, dx, dy1);
            let cc2 = corner_coords(top2, left, dx, dy2);
            let cs = cc1 + cc2;
            assert forall|k: int, j: int|
                0 <= k < vs.len() && 0 <= j < vs[k].len() && (#[trigger] vs[k][j]).1
                    != 0 implies cs.contains(vs[k][j].0) by {
                if k == 0 {
                    assert(vs[0][j].0 == cc1[j]);
                    assert(cs[j] == cc1[j]);
                } else {
                    assert(vs[1][j].0 == cc2[j]);
                    assert(cs[4 + j] == cc2[j]);
                }
            }
            lemma_alternating_support(vs, cs, 1);
            assert(cs.len() <= 9);
            assert(support_bounded(alternating(vs, 1), 9));
            assert forall|k: int| 0 <= k < rs@.len() implies unit_weights(
                (#[trigger] rs@[k])@,
            ) by {
                assert(rs@[k]@ == vs[k]);
            }
        }
        let base = combine_alternating(rs.as_slice());
        let f = base.scaled_by(sign);
        proof {
            let vs = views_of(rs@);
            assert forall|img: Map<(u32, u32), int>| #[trigger]
                weighted_sum(f.entries(), img) == sign_factor(sign) * two_region_vertical_value(
                    img,
                    top,
                    left,
                    dx,
                    dy1,
                    dy2,
                ) by {
                assert(weighted_sum(base.entries(), img) == alternating_value(vs, img, 1));
                assert(alternating_value(vs, img, 1) == 1 * weighted_sum(vs[0], img)
                    + alternating_value(vs.skip(1), img, -1));
                assert(vs.skip(1)[0] == vs[1]);
                assert(alternating_value(vs.skip(1), img, -1) == -1 * weighted_sum(vs[1], img)
                    + alternating_value(vs.skip(1).skip(1), img, 1));
                assert(vs.skip(1).skip(1) =~= Seq::<Seq<((u32, u32), int)>>::empty());
                assert(alternating_value(Seq::<Seq<((u32, u32), int)>>::empty(), img, 1) == 0);
                lemma_rect_entries_value(img, top, left, dx, dy1);
                lemma_rect_entries_value(img, top2, left, dx, dy2);
            }
        }
        f
    }

    /// Returns the following feature, with the `+` and `-` signs reversed
    /// if `sign == Sign::Negative`:
    /// <pre>
    ///     A   B   C   D
    ///       +   -   +
    ///     E   F   G   H
    /// </pre>
    /// The distance between `A` and `B` is `dx1`, between `B` and `C` is
    /// `dx2`, between `C` and `D` is `dx3`, and between `A` and `E` is
    /// `dy`.  On an integral image `I` its value is
    /// `sign * (I(A) - 2I(B) + 2I(C) - I(D) - I(E) + 2I(F) - 2I(G) + I(H))`.
    pub fn three_region_horizontal(
        top: u32,
        left: u32,
        dx1: u32,
        dx2: u32,
        dx3: u32,
        dy: u32,
        sign: Sign,
    ) -> (f: HaarFilter)
        requires
            1 <= dx1,
            1 <= dx2,
            1 <= dx3,
            1 <= dy,
            left + dx1 + dx2 + dx3 <= 0x1_0000_0000,
            top + dy <= 0x1_0000_0000,
        ensures
            f.wf(),
            is_three_region_horizontal(f, top, left, dx1, dx2, dx3, dy, sign),
    {
        let r1 = eval_points(top, left, dx1, dy);
        let left2 = left + dx1;
        let r2 = eval_points(top, left2, dx2, dy);
        let left3 = left2 + dx2;
        let r3 = eval_points(top, left3, dx3, dy);
        let mut rs: Vec<EvalPoints> = Vec::new();
        rs.push(r1);
        rs.push(r2);
        rs.push(r3);
        proof {
            let vs = views_of(rs@);
            assert(vs.len() == 3);
            assert(vs[0] == rect_entries(top, left, dx1, dy));
            assert(vs[1] == rect_entries(top, left2, dx2, dy));
            assert(vs[2] == rect_entries(top, left3, dx3, dy));
            lemma_rect_entries_shape(top, left, dx1, dy);
            lemma_rect_entries_shape(top, left2, dx2, dy);
            lemma_rect_entries_shape(top, left3, dx3, dy);
            let cc1 = corner_coords(top, left, dx1, dy);
            let cc2 = corner_coords(top, left2, dx2, dy);
            let cc3 = corner_coords(top, left3, dx3, dy);
            let x0 = (left - 1) as u32;
            let x1 = (left + dx1 - 1) as u32;
            let x2 = (left + dx1 + dx2 - 1) as u32;
            let x3 = (left + dx1 + dx2 + dx3 - 1) as u32;
            let y0 = (top - 1) as u32;
            let y1 = (top + dy - 1) as u32;
            let cs = seq![
                ((x0, y0)),
                ((x1, y0)),
                ((x2, y0)),
                ((x3, y0)),
                ((x0, y1)),
                ((x1, y1)),
                ((x2, y1)),
                ((x3, y1)),
            ];
            assert(cc1[0] == cs[0] && cc1[1] == cs[1] && cc1[2] == cs[4] && cc1[3] == cs[5]);
            assert(cc2[0] == cs[1] && cc2[1] == cs[2] && cc2[2] == cs[5] && cc2[3] == cs[6]);
            assert(cc3[0] == cs[2] && cc3[1] == cs[3] && cc3[2] == cs[6] && cc3[3] == cs[7]);
            assert forall|k: int, j: int|
                0 <= k < vs.len() && 0 <= j < vs[k].len() && (#[trigger] vs[k][j]).1
                    != 0 implies cs.contains(vs[k][j].0) by {
                if k == 0 {
                    assert(vs[0][j].0 == cc1[j]);
                    assert(cs.contains(cc1[j]));
                } else if k == 1 {
                    assert(vs[1][j].0 == cc2[j]);
                    assert(cs.contains(cc2[j]));
                } else {
                    assert(vs[2][j].0 == cc3[j]);
                    assert(cs.contains(cc3[j]));
                }
            }
            lemma_alternating_support(vs, cs, 1);
            assert(cs.len() <= 9);
            assert(support_bounded(alternating(vs, 1), 9));
            assert forall|k: int| 0 <= k < rs@.len() implies unit_weights(
                (#[trigger] rs@[k])@,
            ) by {
                assert(rs@[k]@ == vs[k]);
            }
        }
        let base = combine_alternating(rs.as_slice());
        let f = base.scaled_by(sign);
        proof {
            let vs = views_of(rs@);
            assert forall|img: Map<(u32, u32), int>| #[trigger]
                weighted_sum(f.entries(), img) == sign_factor(sign)
                    * three_region_horizontal_value(img, top, left, dx1, dx2, dx3, dy) by {
                assert(weighted_sum(base.entries(), img) == alternating_value(vs, img, 1));
                let t1 = vs.skip(1);
                let t2 = t1.skip(1);
                let t3 = t2.skip(1);
                assert(t1[0] == vs[1] && t2[0] == vs[2]);
                assert(alternating_value(vs, img, 1) == 1 * weighted_sum(vs[0], img)
                    + alternating_value(t1, img, -1));
                assert(alternating_value(t1, img, -1) == -1 * weighted_sum(vs[1], img)
                    + alternating_value(t2, img, 1));
                assert(alternating_value(t2, img, 1) == 1 * weighted_sum(vs[2], img)
                    + alternating_value(t3, img, -1));
                assert(t3 =~= Seq::<Seq<((u32, u32), int)>>::empty());
                assert(alternating_value(Seq::<Seq<((u32, u32), int)>>::empty(), img, -1) == 0);
                lemma_rect_entries_value(img, top, left, dx1, dy);
                lemma_rect_entries_value(img, top, left2, dx2, dy);
                lemma_rect_entries_value(img, top, left3, dx3, dy);
            }
        }
        f
    }

    /// Returns the following feature, with the `+` and `-` signs reversed
    /// if `sign == Sign::Negative`:
    /// <pre>
    ///     A   B
    ///       +
    ///     C   D
    ///       -
    ///     E   F
    ///       +
    ///     G   H
    /// </pre>
    /// The distance between `A` and `B` is `dx`, between `A` and `C` is
    /// `dy1`, between `C` and `E` is `dy2`, and between `E` and `G` is
    /// `dy3`.  On an integral image `I` its value is
    /// `sign * (I(A) - I(B) - 2I(C) + 2I(D) + 2I(E) - 2I(F) - I(G) + I(H))`.
    pub fn three_region_vertical(
        top: u32,
        left: u32,
        dx: u32,
        dy1: u32,
        dy2: u32,
        dy3: u32,
        sign: Sign,
    ) -> (f: HaarFilter)
        requires
            1 <= dx,
            1 <= dy1,
            1 <= dy2,
            1 <= dy3,
            left + dx <= 0x1_0000_0000,
            top + dy1 + dy2 + dy3 <= 0x1_0000_0000,
        ensures
            f.wf(),
            is_three_region_vertical(f, top, left, dx, dy1, dy2, dy3, sign),
    {
        let r1 = eval_points(top, left, dx, dy1);
        let top2 = top + dy1;
        let r2 = eval_points(top2, left, dx, dy2);
        let top3 = top2 + dy2;
        let r3 = eval_points(top3, left, dx, dy3);
        let mut rs: Vec<EvalPoints> = Vec::new();
        rs.push(r1);
        rs.push(r2);
        rs.push(r3);
        proof {
            let vs = views_of(rs@);
            assert(vs.len() == 3);
            assert(vs[0] == rect_entries(top, left, dx, dy1));
            assert(vs[1] == rect_entries(top2, left, dx, dy2));
            assert(vs[2] == rect_entries(top3, left, dx, dy3));
            lemma_rect_entries_shape(top, left, dx, dy1);
            lemma_rect_entries_shape(top2, left, dx, dy2);
            lemma_rect_entries_shape(top3, left, dx, dy3);
            let cc1 = corner_coords(top, left, dx, dy1);
            let cc2 = corner_coords(top2, left, dx, dy2);
            let cc3 = corner_coords(top3, left, dx, dy3);
            let x0 = (left - 1) as u32;
            let x1 = (left + dx - 1) as u32;
            let y0 = (top - 1) as u32;
            let y1 = (top + dy1 - 1) as u32;
            let y2 = (top + dy1 + dy2 - 1) as u32;
            let y3 = (top + dy1 + dy2 + dy3 - 1) as u32;
            let cs = seq![
                ((x0, y0)),
                ((x1, y0)),
                ((x0, y1)),
                ((x1, y1)),
                ((x0, y2)),
                ((x1, y2)),
                ((x0, y3)),
                ((x1, y3)),
            ];
            assert(cc1[0] == cs[0] && cc1[1] == cs[1] && cc1[2] == cs[2] && cc1[3] == cs[3]);
            assert(cc2[0] == cs[2] && cc2[1] == cs[3] && cc2[2] == cs[4] && cc2[3] == cs[5]);
            assert(cc3[0] == cs[4] && cc3[1] == cs[5] && cc3[2] == cs[6] && cc3[3] == cs[7]);
            assert forall|k: int, j: int|
                0 <= k < vs.len() && 0 <= j < vs[k].len() && (#[trigger] vs[k][j]).1
                    != 0 implies cs.contains(vs[k][j].0) by {
                if k == 0 {
                    assert(vs[0][j].0 == cc1[j]);
                    assert(cs.contains(cc1[j]));
                } else if k == 1 {
                    assert(vs[1][j].0 == cc2[j]);
                    assert(cs.contains(cc2[j]));
                } else {
                    assert(vs[2][j].0 == cc3[j]);
                    assert(cs.contains(cc3[j]));
                }
            }
            lemma_alternating_support(vs, cs, 1);
            assert(cs.len() <= 9);
            assert(support_bounded(alternating(vs, 1), 9));
            assert forall|k: int| 0 <= k < rs@.len() implies unit_weights(
                (#[trigger] rs@[k])@,
            ) by {
                assert(rs@[k]@ == vs[k]);
            }
        }
        let base = combine_alternating(rs.as_slice());
        let f = base.scaled_by(sign);
        proof {
            let vs = views_of(rs@);
            assert forall|img: Map<(u32, u32), int>| #[trigger]
                weighted_sum(f.entries(), img) == sign_factor(sign) * three_region_vertical_value(
                    img,
                    top,
                    left,
                    dx,
                    dy1,
                    dy2,
                    dy3,
                ) by {
                assert(weighted_sum(base.entries(), img) == alternating_value(vs, img, 1));
                let t1 = vs.skip(1);
                let t2 = t1.skip(1);
                let t3 = t2.skip(1);
                assert(t1[0] == vs[1] && t2[0] == vs[2]);
                assert(alternating_value(vs, img, 1) == 1 * weighted_sum(vs[0], img)
                    + alternating_value(t1, img, -1));
                assert(alternating_value(t1, img, -1) == -1 * weighted_sum(vs[1], img)
                    + alternating_value(t2, img, 1));
                assert(alternating_value(t2, img, 1) == 1 * weighted_sum(vs[2], img)
                    + alternating_value(t3, img, -1));
                assert(t3 =~= Seq::<Seq<((u32, u32), int)>>::empty());
                assert(alternating_value(Seq::<Seq<((u32, u32), int)>>::empty(), img, -1) == 0);
                lemma_rect_entries_value(img, top, left, dx, dy1);
                lemma_rect_entries_value(img, top2, left, dx, dy2);
                lemma_rect_entries_value(img, top3, left, dx, dy3);
            }
        }
        f
    }

    /// Returns the following feature, with the `+` and `-` signs reversed
    /// if `sign == Sign::Negative`:
    /// <pre>
    ///     A   B   C
    ///       +   -
    ///     D   E   F
    ///       -   +
    ///     G   H   I
    /// </pre>
    /// The distance between `A` and `B` is `dx1`, between `B` and `C` is
    /// `dx2`, between `A` and `D` is `dy1`, and between `D` and `G` is
    /// `dy2`.  On an integral image `I` its value is
    /// `sign * (I(A) - 2I(B) + I(C) - 2I(D) + 4I(E) - 2I(F) + I(G) - 2I(H) + I(I))`.
    pub fn four_region(
        top: u32,
        left: u32,
        dx1: u32,
        dx2: u32,
        dy1: u32,
        dy2: u32,
        sign: Sign,
    ) -> (f: HaarFilter)
        requires
            1 <= dx1,
            1 <= dx2,
            1 <= dy1,
            1 <= dy2,
            left + dx1 + dx2 <= 0x1_0000_0000,
            top + dy1 + dy2 <= 0x1_0000_0000,
        ensures
            f.wf(),
            is_four_region(f, top, left, dx1, dx2, dy1, dy2, sign),
    {
        let left2 = left + dx1;
        let top2 = top + dy1;
        let r1 = eval_points(top, left, dx1, dy1);
        let r2 = eval_points(top, left2, dx2, dy1);
        let r3 = eval_points(top2, left2, dx2, dy2);
        let r4 = eval_points(top2, left, dx1, dy2);
        let mut rs: Vec<EvalPoints> = Vec::new();
        rs.push(r1);
        rs.push(r2);
        rs.push(r3);
        rs.push(r4);
        proof {
            let vs = views_of(rs@);
            assert(vs.len() == 4);
            assert(vs[0] == rect_entries(top, left, dx1, dy1));
            assert(vs[1] == rect_entries(top, left2, dx2, dy1));
            assert(vs[2] == rect_entries(top2, left2, dx2, dy2));
            assert(vs[3] == rect_entries(top2, left, dx1, dy2));
            lemma_rect_entries_shape(top, left, dx1, dy1);
            lemma_rect_entries_shape(top, left2, dx2, dy1);
            lemma_rect_entries_shape(top2, left2, dx2, dy2);
            lemma_rect_entries_shape(top2, left, dx1, dy2);
            let cc1 = corner_coords(top, left, dx1, dy1);
            let cc2 = corner_coords(top, left2, dx2, dy1);
            let cc3 = corner_coords(top2, left2, dx2, dy2);
            let cc4 = corner_coords(top2, left, dx1, dy2);
            let x0 = (left - 1) as u32;
            let x1 = (left + dx1 - 1) as u32;
            let x2 = (left + dx1 + dx2 - 1) as u32;
            let y0 = (top - 1) as u32;
            let y1 = (top + dy1 - 1) as u32;
            let y2 = (top + dy1 + dy2 - 1) as u32;
            let cs = seq![
                ((x0, y0)),
                ((x1, y0)),
                ((x2, y0)),
                ((x0, y1)),
                ((x1, y1)),
                ((x2, y1)),
                ((x0, y2)),
                ((x1, y2)),
                ((x2, y2)),
            ];
            assert(cc1[0] == cs[0] && cc1[1] == cs[1] && cc1[2] == cs[3] && cc1[3] == cs[4]);
            assert(cc2[0] == cs[1] && cc2[1] == cs[2] && cc2[2] == cs[4] && cc2[3] == cs[5]);
            assert(cc3[0] == cs[4] && cc3[1] == cs[5] && cc3[2] == cs[7] && cc3[3] == cs[8]);
            assert(cc4[0] == cs[3] && cc4[1] == cs[4] && cc4[2] == cs[6] && cc4[3] == cs[7]);
            assert forall|k: int, j: int|
                0 <= k < vs.len() && 0 <= j < vs[k].len() && (#[trigger] vs[k][j]).1
                    != 0 implies cs.contains(vs[k][j].0) by {
                if k == 0 {
                    assert(vs[0][j].0 == cc1[j]);
                    assert(cs.contains(cc1[j]));
                } else if k == 1 {
                    assert(vs[1][j].0 == cc2[j]);
                    assert(cs.contains(cc2[j]));
                } else if k == 2 {
                    assert(vs[2][j].0 == cc3[j]);
                    assert(cs.contains(cc3[j]));
                } else {
                    assert(vs[3][j].0 == cc4[j]);
                    assert(cs.contains(cc4[j]));
                }
            }
            lemma_alternating_support(vs, cs, 1);
            assert(cs.len() <= 9);
            assert(support_bounded(alternating(vs, 1), 9));
            assert forall|k: int| 0 <= k < rs@.len() implies unit_weights(
                (#[trigger] rs@[k])@,
            ) by {
                assert(rs@[k]@ == vs[k]);
            }
        }
        let base = combine_alternating(rs.as_slice());
        let f = base.scaled_by(sign);
        proof {
            let vs = views_of(rs@);
            assert forall|img: Map<(u32, u32), int>| #[trigger]
                weighted_sum(f.entries(), img) == sign_factor(sign) * four_region_value(
                    img,
                    top,
                    left,
                    dx1,
                    dx2,
                    dy1,
                    dy2,
                ) by {
                assert(weighted_sum(base.entries(), img) == alternating_value(vs, img, 1));
                let t1 = vs.skip(1);
                let t2 = t1.skip(1);
                let t3 = t2.skip(1);
                let t4 = t3.skip(1);
                assert(t1[0] == vs[1] && t2[0] == vs[2] && t3[0] == vs[3]);
                assert(alternating_value(vs, img, 1) == 1 * weighted_sum(vs[0], img)
                    + alternating_value(t1, img, -1));
                assert(alternating_value(t1, img, -1) == -1 * weighted_sum(vs[1], img)
                    + alternating_value(t2, img, 1));
                assert(alternating_value(t2, img, 1) == 1 * weighted_sum(vs[2], img)
                    + alternating_value(t3, img, -1));
                assert(alternating_value(t3, img, -1) == -1 * weighted_sum(vs[3], img)
                    + alternating_value(t4, img, 1));
                assert(t4 =~= Seq::<Seq<((u32, u32), int)>>::empty());
                assert(alternating_value(Seq::<Seq<((u32, u32), int)>>::empty(), img, 1) == 0);
                lemma_rect_entries_value(img, top, left, dx1, dy1);
                lemma_rect_entries_value(img, top, left2, dx2, dy1);
                lemma_rect_entries_value(img, top2, left2, dx2, dy2);
                lemma_rect_entries_value(img, top2, left, dx1, dy2);
            }
        }
        f
    }
}

/// Sign inversion: two two-region horizontal filters with identical
/// geometry and opposite signs have opposite values on every image.
pub proof fn lemma_sign_inversion_two_region_horizontal(
    pos: HaarFilter,
    neg: HaarFilter,
    top: u32,
    left: u32,
    dx1: u32,
    dx2: u32,
    dy: u32,
    img: Map<(u32, u32), int>,
)
    requires
        is_two_region_horizontal(pos, top, left, dx1, dx2, dy, Sign::Positive),
        is_two_region_horizontal(neg, top, left, dx1, dx2, dy, Sign::Negative),
    ensures
        weighted_sum(neg.entries(), img) == -weighted_sum(pos.entries(), img),
{
    assert(weighted_sum(pos.entries(), img) == 1 * two_region_horizontal_value(
        img,
        top,
        left,
        dx1,
        dx2,
        dy,
    ));
    assert(weighted_sum(neg.entries(), img) == -1 * two_region_horizontal_value(
        img,
        top,
        left,
        dx1,
        dx2,
        dy,
    ));
}

/// Sign inversion for the two-region vertical shape.
pub proof fn lemma_sign_inversion_two_region_vertical(
    pos: HaarFilter,
    neg: HaarFilter,
    top: u32,
    left: u32,
    dx: u32,
    dy1: u32,
    dy2: u32,
    img: Map<(u32, u32), int>,
)
    requires
        is_two_region_vertical(pos, top, left, dx, dy1, dy2, Sign::Positive),
        is_two_region_vertical(neg, top, left, dx, dy1, dy2, Sign::Negative),
    ensures
        weighted_sum(neg.entries(), img) == -weighted_sum(pos.entries(), img),
{
    assert(weighted_sum(pos.entries(), img) == 1 * two_region_vertical_value(
        img,
        top,
        left,
        dx,
        dy1,
        dy2,
    ));
    assert(weighted_sum(neg.entries(), img) == -1 * two_region_vertical_value(
        img,
        top,
        left,
        dx,
        dy1,
        dy2,
    ));
}

/// Sign inversion for the three-region horizontal shape.
pub proof fn lemma_sign_inversion_three_region_horizontal(
    pos: HaarFilter,
    neg: HaarFilter,
    top: u32,
    left: u32,
    dx1: u32,
    dx2: u32,
    dx3: u32,
    dy: u32,
    img: Map<(u32, u32), int>,
)
    requires
        is_three_region_horizontal(pos, top, left, dx1, dx2, dx3, dy, Sign::Positive),
        is_three_region_horizontal(neg, top, left, dx1, dx2, dx3, dy, Sign::Negative),
    ensures
        weighted_sum(neg.entries(), img) == -weighted_sum(pos.entries(), img),
{
    assert(weighted_sum(pos.entries(), img) == 1 * three_region_horizontal_value(
        img,
        top,
        left,
        dx1,
        dx2,
        dx3,
        dy,
    ));
    assert(weighted_sum(neg.entries(), img) == -1 * three_region_horizontal_value(
        img,
        top,
        left,
        dx1,
        dx2,
        dx3,
        dy,
    ));
}

/// Sign inversion for the three-region vertical shape.
pub proof fn lemma_sign_inversion_three_region_vertical(
    pos: HaarFilter,
    neg: HaarFilter,
    top: u32,
    left: u32,
    dx: u32,
    dy1: u32,
    dy2: u32,
    dy3: u32,
    img: Map<(u32, u32), int>,
)
    requires
        is_three_region_vertical(pos, top, left, dx, dy1, dy2, dy3, Sign::Positive),
        is_three_region_vertical(neg, top, left, dx, dy1, dy2, dy3, Sign::Negative),
    ensures
        weighted_sum(neg.entries(), img) == -weighted_sum(pos.entries(), img),
{
    assert(weighted_sum(pos.entries(), img) == 1 * three_region_vertical_value(
        img,
        top,
        left,
        dx,
        dy1,
        dy2,
        dy3,
    ));
    assert(weighted_sum(neg.entries(), img) == -1 * three_region_vertical_value(
        img,
        top,
        left,
        dx,
        dy1,
        dy2,
        dy3,
    ));
}

/// Sign inversion for the four-region shape.
pub proof fn lemma_sign_inversion_four_region(
    pos: HaarFilter,
    neg: HaarFilter,
    top: u32,
    left: u32,
    dx1: u32,
    dx2: u32,
    dy1: u32,
    dy2: u32,
    img: Map<(u32, u32), int>,
)
    requires
        is_four_region(pos, top, left, dx1, dx2, dy1, dy2, Sign::Positive),
        is_four_region(neg, top, left, dx1, dx2, dy1, dy2, Sign::Negative),
    ensures
        weighted_sum(neg.entries(), img) == -weighted_sum(pos.entries(), img),
{
    assert(weighted_sum(pos.entries(), img) == 1 * four_region_value(
        img,
        top,
        left,
        dx1,
        dx2,
        dy1,
        dy2,
    ));
    assert(weighted_sum(neg.entries(), img) == -1 * four_region_value(
        img,
        top,
        left,
        dx1,
        dx2,
        dy1,
        dy2,
    ));
}

} // verus!
