//! The mathematical model shared by the whole crate.
//!
//! A filter, and every intermediate stage of its construction, is modeled as
//! a sequence of `(coordinate, weight)` entries.  Two spec functions give such
//! a sequence its meaning: `seq_weight` is the total weight the sequence
//! assigns to one coordinate, and `weighted_sum` is the value of the sequence
//! on an abstract integral image (a map from coordinates to cumulative sums).

use vstd::prelude::*;

verus! {

/// Strict row-major order on coordinates `(x, y)`: earlier rows come first,
/// and within a row smaller `x` comes first.
pub open spec fn coord_lt(a: (u32, u32), b: (u32, u32)) -> bool {
    a.1 < b.1 || (a.1 == b.1 && a.0 < b.0)
}

/// The entries are strictly ascending in row-major coordinate order; in
/// particular no coordinate appears twice.
pub open spec fn strictly_ordered(s: Seq<((u32, u32), int)>) -> bool {
    forall|i: int, j: int| #![trigger s[i], s[j]] 0 <= i < j < s.len() ==> coord_lt(s[i].0, s[j].0)
}

/// The total weight a sequence of entries assigns to coordinate `c`.
pub open spec fn seq_weight(s: Seq<((u32, u32), int)>, c: (u32, u32)) -> int
    decreases s.len(),
{
    if s.len() == 0 {
        0
    } else {
        seq_weight(s.drop_last(), c) + if s.last().0 == c {
            s.last().1
        } else {
            0
        }
    }
}

/// The value of a sequence of entries on an abstract integral image `img`:
/// the sum over all entries of the image value at the entry's coordinate
/// times the entry's weight.
pub open spec fn weighted_sum(s: Seq<((u32, u32), int)>, img: Map<(u32, u32), int>) -> int
    decreases s.len(),
{
    if s.len() == 0 {
        0
    } else {
        weighted_sum(s.drop_last(), img) + img[s.last().0] * s.last().1
    }
}

/// Every entry's weight multiplied by `k`, coordinates unchanged.
pub open spec fn scale_entries(s: Seq<((u32, u32), int)>, k: int) -> Seq<((u32, u32), int)> {
    Seq::new(s.len(), |i: int| (s[i].0, k * s[i].1))
}

/// `+1` for even `n`, `-1` for odd `n`: the sign given to the `n`-th
/// rectangle of an alternating combination.
pub open spec fn parity_sign(n: nat) -> int {
    if n % 2 == 0 {
        1
    } else {
        -1
    }
}

/// All entries of a sequence of rectangles' corner expansions, flattened,
/// with the first rectangle's entries scaled by `sgn`, the second's by
/// `-sgn`, and so on.
pub open spec fn alternating(rs: Seq<Seq<((u32, u32), int)>>, sgn: int) -> Seq<((u32, u32), int)>
    decreases rs.len(),
{
    if rs.len() == 0 {
        Seq::empty()
    } else {
        scale_entries(rs[0], sgn) + alternating(rs.skip(1), -sgn)
    }
}

/// The literal alternating sum of the rectangles' independent values:
/// `sgn * value(rs[0]) - sgn * value(rs[1]) + ...`.
pub open spec fn alternating_value(
    rs: Seq<Seq<((u32, u32), int)>>,
    img: Map<(u32, u32), int>,
    sgn: int,
) -> int
    decreases rs.len(),
{
    if rs.len() == 0 {
        0
    } else {
        sgn * weighted_sum(rs[0], img) + alternating_value(rs.skip(1), img, -sgn)
    }
}

/// Every entry weight lies in `[-1, 1]`, as the slots of a corner expansion
/// do.
pub open spec fn unit_weights(s: Seq<((u32, u32), int)>) -> bool {
    forall|j: int| 0 <= j < s.len() ==> -1 <= (#[trigger] s[j]).1 <= 1
}

/// Every coordinate to which `s` assigns nonzero total weight occurs in
/// `cs`.
pub open spec fn covers(cs: Seq<(u32, u32)>, s: Seq<((u32, u32), int)>) -> bool {
    forall|c: (u32, u32)| seq_weight(s, c) != 0 ==> #[trigger] cs.contains(c)
}

/// There is a sequence of at most `k` coordinates outside of which the
/// sequence assigns weight zero everywhere.
pub open spec fn support_bounded(s: Seq<((u32, u32), int)>, k: int) -> bool {
    exists|cs: Seq<(u32, u32)>| cs.len() <= k && #[trigger] covers(cs, s)
}

pub proof fn lemma_seq_weight_concat(
    s1: Seq<((u32, u32), int)>,
    s2: Seq<((u32, u32), int)>,
    c: (u32, u32),
)
    ensures
        seq_weight(s1 + s2, c) == seq_weight(s1, c) + seq_weight(s2, c),
    decreases s2.len(),
{
    if s2.len() == 0 {
        assert(s1 + s2 =~= s1);
    } else {
        assert((s1 + s2).drop_last() =~= s1 + s2.drop_last());
        assert((s1 + s2).last() == s2.last());
        lemma_seq_weight_concat(s1, s2.drop_last(), c);
    }
}

pub proof fn lemma_weighted_sum_concat(
    s1: Seq<((u32, u32), int)>,
    s2: Seq<((u32, u32), int)>,
    img: Map<(u32, u32), int>,
)
    ensures
        weighted_sum(s1 + s2, img) == weighted_sum(s1, img) + weighted_sum(s2, img),
    decreases s2.len(),
{
    if s2.len() == 0 {
        assert(s1 + s2 =~= s1);
    } else {
        assert((s1 + s2).drop_last() =~= s1 + s2.drop_last());
        assert((s1 + s2).last() == s2.last());
        lemma_weighted_sum_concat(s1, s2.drop_last(), img);
    }
}

pub proof fn lemma_weighted_sum_scale(
    s: Seq<((u32, u32), int)>,
    k: int,
    img: Map<(u32, u32), int>,
)
    ensures
        weighted_sum(scale_entries(s, k), img) == k * weighted_sum(s, img),
    decreases s.len(),
{
    if s.len() == 0 {
    } else {
        assert(scale_entries(s, k).drop_last() =~= scale_entries(s.drop_last(), k));
        lemma_weighted_sum_scale(s.drop_last(), k, img);
        let w = s.last().1;
        let v = img[s.last().0];
        assert(v * (k * w) == k * (v * w)) by (nonlinear_arith);
        assert(k * (weighted_sum(s.drop_last(), img) + v * w) == k * weighted_sum(
            s.drop_last(),
            img,
        ) + k * (v * w)) by (nonlinear_arith);
    }
}

/// A sequence mentioning a coordinate nowhere assigns it weight zero.
pub proof fn lemma_seq_weight_absent(s: Seq<((u32, u32), int)>, c: (u32, u32))
    requires
        forall|j: int| 0 <= j < s.len() ==> (#[trigger] s[j]).0 != c,
    ensures
        seq_weight(s, c) == 0,
    decreases s.len(),
{
    if s.len() > 0 {
        lemma_seq_weight_absent(s.drop_last(), c);
    }
}

/// In a strictly ordered sequence, the weight assigned to an entry's
/// coordinate is exactly that entry's weight.
pub proof fn lemma_ordered_entry_weight(s: Seq<((u32, u32), int)>, i: int)
    requires
        strictly_ordered(s),
        0 <= i < s.len(),
    ensures
        seq_weight(s, s[i].0) == s[i].1,
    decreases s.len(),
{
    let c = s[i].0;
    if i == s.len() - 1 {
        assert forall|j: int| 0 <= j < s.drop_last().len() implies (#[trigger] s.drop_last()[j]).0
            != c by {
            assert(s.drop_last()[j] == s[j]);
            assert(coord_lt(s[j].0, s[i].0));
        }
        lemma_seq_weight_absent(s.drop_last(), c);
    } else {
        assert(coord_lt(s[i].0, s[s.len() - 1].0));
        assert(s.last().0 != c);
        assert(strictly_ordered(s.drop_last())) by {
            assert forall|p: int, q: int|
                0 <= p < q < s.drop_last().len() implies coord_lt(
                (#[trigger] s.drop_last()[p]).0,
                (#[trigger] s.drop_last()[q]).0,
            ) by {
                assert(s.drop_last()[p] == s[p]);
                assert(s.drop_last()[q] == s[q]);
            }
        }
        assert(s.drop_last()[i] == s[i]);
        lemma_ordered_entry_weight(s.drop_last(), i);
    }
}

/// A coordinate with nonzero total weight is the coordinate of some entry
/// whose own weight is nonzero.
pub proof fn lemma_seq_weight_nonzero_exists(s: Seq<((u32, u32), int)>, c: (u32, u32))
    requires
        seq_weight(s, c) != 0,
    ensures
        exists|j: int| 0 <= j < s.len() && (#[trigger] s[j]).0 == c && s[j].1 != 0,
    decreases s.len(),
{
    if s.last().0 == c && s.last().1 != 0 {
        assert(s[s.len() - 1].0 == c && s[s.len() - 1].1 != 0);
    } else {
        lemma_seq_weight_nonzero_exists(s.drop_last(), c);
        let j = choose|j: int|
            0 <= j < s.drop_last().len() && (#[trigger] s.drop_last()[j]).0 == c
                && s.drop_last()[j].1 != 0;
        assert(s[j].0 == c && s[j].1 != 0);
    }
}

/// When every entry's weight lies in `[-1, 1]`, no coordinate's total weight
/// can exceed the number of entries in magnitude.
pub proof fn lemma_seq_weight_magnitude(s: Seq<((u32, u32), int)>, c: (u32, u32))
    requires
        forall|j: int| 0 <= j < s.len() ==> -1 <= (#[trigger] s[j]).1 <= 1,
    ensures
        -(s.len() as int) <= seq_weight(s, c) <= s.len() as int,
    decreases s.len(),
{
    if s.len() > 0 {
        assert(forall|j: int|
            0 <= j < s.drop_last().len() ==> -1 <= (#[trigger] s.drop_last()[j]).1 <= 1) by {
            assert(forall|j: int|
                0 <= j < s.drop_last().len() ==> s.drop_last()[j] == (#[trigger] s[j]));
        }
        lemma_seq_weight_magnitude(s.drop_last(), c);
        assert(-1 <= s[s.len() - 1].1 <= 1);
    }
}

/// An alternating combination's nonzero-weight coordinates all come from
/// its rectangles' own nonzero-weight slots.
pub proof fn lemma_alternating_support(
    vs: Seq<Seq<((u32, u32), int)>>,
    cs: Seq<(u32, u32)>,
    sgn: int,
)
    requires
        sgn == 1 || sgn == -1,
        forall|k: int, j: int|
            0 <= k < vs.len() && 0 <= j < vs[k].len() && (#[trigger] vs[k][j]).1 != 0
                ==> cs.contains(vs[k][j].0),
    ensures
        covers(cs, alternating(vs, sgn)),
    decreases vs.len(),
{
    if vs.len() == 0 {
        assert forall|c: (u32, u32)|
            seq_weight(alternating(vs, sgn), c) != 0 implies #[trigger] cs.contains(c) by {
            assert(seq_weight(Seq::<((u32, u32), int)>::empty(), c) == 0);
        }
    } else {
        let head = scale_entries(vs[0], sgn);
        let tail = alternating(vs.skip(1), -sgn);
        assert forall|k: int, j: int|
            0 <= k < vs.skip(1).len() && 0 <= j < vs.skip(1)[k].len() && (
            #[trigger] vs.skip(1)[k][j]).1 != 0 implies cs.contains(vs.skip(1)[k][j].0) by {
            assert(vs.skip(1)[k] == vs[k + 1]);
        }
        lemma_alternating_support(vs.skip(1), cs, -sgn);
        assert forall|c: (u32, u32)|
            seq_weight(alternating(vs, sgn), c) != 0 implies #[trigger] cs.contains(c) by {
            lemma_seq_weight_concat(head, tail, c);
            if seq_weight(head, c) != 0 {
                lemma_seq_weight_nonzero_exists(head, c);
                let j = choose|j: int|
                    0 <= j < head.len() && (#[trigger] head[j]).0 == c && head[j].1 != 0;
                assert(head[j] == (vs[0][j].0, sgn * vs[0][j].1));
                assert(vs[0][j].1 != 0) by (nonlinear_arith)
                    requires
                        sgn * vs[0][j].1 != 0,
                ;
                assert(cs.contains(vs[0][j].0));
            } else {
                assert(seq_weight(tail, c) != 0);
            }
        }
    }
}

/// The canonical form is unique: two strictly ordered, zero-free entry
/// sequences that assign every coordinate the same total weight are equal,
/// entry for entry.  This is why equal multisets of corner contributions,
/// however they were decomposed, canonicalize to the same filter.
pub proof fn lemma_canonical_unique(e1: Seq<((u32, u32), int)>, e2: Seq<((u32, u32), int)>)
    requires
        strictly_ordered(e1),
        strictly_ordered(e2),
        forall|j: int| 0 <= j < e1.len() ==> (#[trigger] e1[j]).1 != 0,
        forall|j: int| 0 <= j < e2.len() ==> (#[trigger] e2[j]).1 != 0,
        forall|c: (u32, u32)| #[trigger] seq_weight(e1, c) == seq_weight(e2, c),
    ensures
        e1 == e2,
    decreases e1.len() + e2.len(),
{
    if e1.len() == 0 && e2.len() == 0 {
        assert(e1 =~= e2);
    } else if e1.len() == 0 {
        lemma_ordered_entry_weight(e2, e2.len() - 1);
        lemma_seq_weight_absent(e1, e2.last().0);
        assert(false);
    } else if e2.len() == 0 {
        lemma_ordered_entry_weight(e1, e1.len() - 1);
        lemma_seq_weight_absent(e2, e1.last().0);
        assert(false);
    } else {
        let c1 = e1.last().0;
        let c2 = e2.last().0;
        lemma_ordered_entry_weight(e1, e1.len() - 1);
        lemma_ordered_entry_weight(e2, e2.len() - 1);
        // The last coordinate of each side carries nonzero weight, hence
        // occurs in the other side too; being the maximum of its own side,
        // each bounds the other, so the last coordinates coincide.
        lemma_seq_weight_nonzero_exists(e2, c1);
        let j1 = choose|j: int| 0 <= j < e2.len() && (#[trigger] e2[j]).0 == c1 && e2[j].1 != 0;
        lemma_seq_weight_nonzero_exists(e1, c2);
        let j2 = choose|j: int| 0 <= j < e1.len() && (#[trigger] e1[j]).0 == c2 && e1[j].1 != 0;
        if j1 < e2.len() - 1 {
            assert(coord_lt(e2[j1].0, e2[e2.len() - 1].0));
        }
        if j2 < e1.len() - 1 {
            assert(coord_lt(e1[j2].0, e1[e1.len() - 1].0));
        }
        assert(c1 == c2);
        assert(e1.last().1 == e2.last().1);
        assert forall|c: (u32, u32)| #[trigger] seq_weight(e1.drop_last(), c) == seq_weight(
            e2.drop_last(),
            c,
        ) by {
            assert(seq_weight(e1, c) == seq_weight(e2, c));
        }
        assert(strictly_ordered(e1.drop_last()) && strictly_ordered(e2.drop_last())) by {
            assert(forall|j: int|
                0 <= j < e1.drop_last().len() ==> (#[trigger] e1.drop_last()[j]) == e1[j]);
            assert(forall|j: int|
                0 <= j < e2.drop_last().len() ==> (#[trigger] e2.drop_last()[j]) == e2[j]);
        }
        lemma_canonical_unique(e1.drop_last(), e2.drop_last());
        assert(e1 =~= e1.drop_last().push(e1.last()));
        assert(e2 =~= e2.drop_last().push(e2.last()));
    }
}

/// The value of an alternating flattening is the literal alternating sum of
/// the individual rectangles' values.
pub proof fn lemma_alternating_value(
    rs: Seq<Seq<((u32, u32), int)>>,
    img: Map<(u32, u32), int>,
    sgn: int,
)
    ensures
        weighted_sum(alternating(rs, sgn), img) == alternating_value(rs, img, sgn),
    decreases rs.len(),
{
    if rs.len() == 0 {
    } else {
        lemma_weighted_sum_concat(scale_entries(rs[0], sgn), alternating(rs.skip(1), -sgn), img);
        lemma_weighted_sum_scale(rs[0], sgn, img);
        lemma_alternating_value(rs.skip(1), img, -sgn);
    }
}

/// Appending one more rectangle to an alternating combination appends its
/// entries, scaled by the sign that position receives.
pub proof fn lemma_alternating_push(
    rs: Seq<Seq<((u32, u32), int)>>,
    v: Seq<((u32, u32), int)>,
    sgn: int,
)
    ensures
        alternating(rs.push(v), sgn) == alternating(rs, sgn) + scale_entries(
            v,
            sgn * parity_sign(rs.len()),
        ),
    decreases rs.len(),
{
    if rs.len() == 0 {
        let e = rs.push(v);
        assert(e[0] == v);
        assert(e.skip(1) =~= Seq::<Seq<((u32, u32), int)>>::empty());
        assert(alternating(e.skip(1), -sgn) == Seq::<((u32, u32), int)>::empty());
        assert(alternating(e, sgn) == scale_entries(v, sgn) + Seq::<((u32, u32), int)>::empty());
        assert(scale_entries(v, sgn) + Seq::<((u32, u32), int)>::empty() =~= scale_entries(v, sgn));
        assert(alternating(rs, sgn) =~= Seq::<((u32, u32), int)>::empty());
        assert(parity_sign(rs.len()) == 1);
        assert(scale_entries(v, sgn * 1) =~= scale_entries(v, sgn));
        assert(alternating(rs, sgn) + scale_entries(v, sgn * parity_sign(rs.len()))
            =~= scale_entries(v, sgn * parity_sign(rs.len())));
    } else {
        assert(rs.push(v).skip(1) =~= rs.skip(1).push(v));
        assert(rs.push(v)[0] == rs[0]);
        lemma_alternating_push(rs.skip(1), v, -sgn);
        assert(-sgn * parity_sign(rs.skip(1).len()) == sgn * parity_sign(rs.len())) by {
            assert(rs.skip(1).len() == rs.len() - 1);
            if rs.len() % 2 == 0 {
                assert(parity_sign(rs.len()) == 1);
                assert((rs.len() - 1) % 2 == 1) by (nonlinear_arith)
                    requires
                        rs.len() % 2 == 0,
                        rs.len() >= 1,
                ;
            } else {
                assert((rs.len() - 1) % 2 == 0) by (nonlinear_arith)
                    requires
                        rs.len() % 2 == 1,
                        rs.len() >= 1,
                ;
            }
        }
        assert(alternating(rs.push(v), sgn) == scale_entries(rs[0], sgn) + (alternating(
            rs.skip(1),
            -sgn,
        ) + scale_entries(v, sgn * parity_sign(rs.len()))));
        assert(scale_entries(rs[0], sgn) + (alternating(rs.skip(1), -sgn) + scale_entries(
            v,
            sgn * parity_sign(rs.len()),
        )) =~= (scale_entries(rs[0], sgn) + alternating(rs.skip(1), -sgn)) + scale_entries(
            v,
            sgn * parity_sign(rs.len()),
        ));
    }
}

} // verus!
