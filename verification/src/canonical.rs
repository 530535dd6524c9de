//! The canonicalizer: combines the corner expansions of several rectangles,
//! taken with alternating sign, into one filter in canonical form.
//!
//! Weights are aggregated by coordinate into a working vector that is kept
//! strictly sorted in row-major order; entries whose aggregate weight is
//! zero are dropped when the result is packed.  Aggregating before dropping
//! zeros is what cancels the shared boundary corners of adjacent
//! sub-rectangles, and the sort makes the result independent of the order in
//! which equal contributions arrived.

use vstd::prelude::*;

use crate::corner::EvalPoints;
use crate::filter::{pack_entries, HaarFilter};
use crate::model::{
    alternating, alternating_value, coord_lt, covers, lemma_alternating_push,
    lemma_alternating_value,
    lemma_ordered_entry_weight, lemma_seq_weight_concat, lemma_seq_weight_magnitude,
    lemma_canonical_unique, lemma_weighted_sum_concat, parity_sign, scale_entries, seq_weight,
    strictly_ordered, support_bounded, unit_weights, weighted_sum,
};

verus! {

/// The corner expansions of a sequence of rectangles, as entry sequences.
pub open spec fn views_of(rs: Seq<EvalPoints>) -> Seq<Seq<((u32, u32), int)>> {
    rs.map_values(|r: EvalPoints| r@)
}

/// Every rectangle's corner expansion has unit weights.
pub open spec fn unit_weights_hold(rs: Seq<EvalPoints>) -> bool {
    forall|k: int| 0 <= k < rs.len() ==> unit_weights((#[trigger] rs[k])@)
}

/// The working vector's entries, with weights widened to `int`.
pub open spec fn acc_entries(s: Seq<((u32, u32), i8)>) -> Seq<((u32, u32), int)> {
    Seq::new(s.len(), |i: int| (s[i].0, s[i].1 as int))
}

/// Replacing the entry at `i` by one at the same coordinate shifts the
/// total weight at that coordinate, and the weighted sum, by the change in
/// that one entry's weight.
proof fn lemma_entry_update(s: Seq<((u32, u32), int)>, i: int, e: ((u32, u32), int))
    requires
        0 <= i < s.len(),
        e.0 == s[i].0,
    ensures
        forall|c: (u32, u32)| #[trigger]
            seq_weight(s.update(i, e), c) == seq_weight(s, c) + if c == e.0 {
                e.1 - s[i].1
            } else {
                0
            },
        forall|img: Map<(u32, u32), int>| #[trigger]
            weighted_sum(s.update(i, e), img) == weighted_sum(s, img) + img[e.0] * (e.1 - s[i].1),
{
    let a = s.subrange(0, i);
    let b = s.subrange(i + 1, s.len() as int);
    let old_mid = seq![s[i]];
    let new_mid = seq![e];
    assert(s =~= a + old_mid + b);
    assert(s.update(i, e) =~= a + new_mid + b);
    assert(old_mid.drop_last() =~= Seq::<((u32, u32), int)>::empty());
    assert(new_mid.drop_last() =~= Seq::<((u32, u32), int)>::empty());
    assert forall|c: (u32, u32)| #[trigger]
        seq_weight(s.update(i, e), c) == seq_weight(s, c) + (if c == e.0 {
            e.1 - s[i].1
        } else {
            0
        }) by {
        assert(seq_weight(Seq::<((u32, u32), int)>::empty(), c) == 0);
        lemma_seq_weight_concat(a + old_mid, b, c);
        lemma_seq_weight_concat(a, old_mid, c);
        lemma_seq_weight_concat(a + new_mid, b, c);
        lemma_seq_weight_concat(a, new_mid, c);
        assert(seq_weight(old_mid, c) == if s[i].0 == c {
            s[i].1
        } else {
            0
        });
        assert(seq_weight(new_mid, c) == if e.0 == c {
            e.1
        } else {
            0
        });
    }
    assert forall|img: Map<(u32, u32), int>| #[trigger]
        weighted_sum(s.update(i, e), img) == weighted_sum(s, img) + img[e.0] * (e.1
            - s[i].1) by {
        assert(weighted_sum(Seq::<((u32, u32), int)>::empty(), img) == 0);
        lemma_weighted_sum_concat(a + old_mid, b, img);
        lemma_weighted_sum_concat(a, old_mid, img);
        lemma_weighted_sum_concat(a + new_mid, b, img);
        lemma_weighted_sum_concat(a, new_mid, img);
        assert(weighted_sum(old_mid, img) == img[s[i].0] * s[i].1);
        assert(weighted_sum(new_mid, img) == img[e.0] * e.1);
        assert(img[e.0] * e.1 - img[e.0] * s[i].1 == img[e.0] * (e.1 - s[i].1))
            by (nonlinear_arith);
    }
}

/// Inserting an entry anywhere adds its weight at its coordinate to the
/// totals, and its term to the weighted sum.
proof fn lemma_entry_insert(s: Seq<((u32, u32), int)>, i: int, e: ((u32, u32), int))
    requires
        0 <= i <= s.len(),
    ensures
        forall|c: (u32, u32)| #[trigger]
            seq_weight(s.insert(i, e), c) == seq_weight(s, c) + if c == e.0 {
                e.1
            } else {
                0
            },
        forall|img: Map<(u32, u32), int>| #[trigger]
            weighted_sum(s.insert(i, e), img) == weighted_sum(s, img) + img[e.0] * e.1,
{
    let a = s.subrange(0, i);
    let b = s.subrange(i, s.len() as int);
    let mid = seq![e];
    assert(s =~= a + b);
    assert(s.insert(i, e) =~= a + mid + b);
    assert(mid.drop_last() =~= Seq::<((u32, u32), int)>::empty());
    assert forall|c: (u32, u32)| #[trigger]
        seq_weight(s.insert(i, e), c) == seq_weight(s, c) + (if c == e.0 {
            e.1
        } else {
            0
        }) by {
        assert(seq_weight(Seq::<((u32, u32), int)>::empty(), c) == 0);
        lemma_seq_weight_concat(a + mid, b, c);
        lemma_seq_weight_concat(a, mid, c);
        lemma_seq_weight_concat(a, b, c);
        assert(seq_weight(mid, c) == if e.0 == c {
            e.1
        } else {
            0
        });
    }
    assert forall|img: Map<(u32, u32), int>| #[trigger]
        weighted_sum(s.insert(i, e), img) == weighted_sum(s, img) + img[e.0] * e.1 by {
        assert(weighted_sum(Seq::<((u32, u32), int)>::empty(), img) == 0);
        lemma_weighted_sum_concat(a + mid, b, img);
        lemma_weighted_sum_concat(a, mid, img);
        lemma_weighted_sum_concat(a, b, img);
        assert(weighted_sum(mid, img) == img[e.0] * e.1);
    }
}

/// Row-major comparison, executable form.
fn coord_lt_exec(a: (u32, u32), b: (u32, u32)) -> (r: bool)
    ensures
        r == coord_lt(a, b),
{
    a.1 < b.1 || (a.1 == b.1 && a.0 < b.0)
}

/// Adds weight `w` at coordinate `c` to the sorted working vector, merging
/// with an existing entry at `c` or inserting a new one in order.
#[verifier::rlimit(60)]
fn upsert(acc: &mut Vec<((u32, u32), i8)>, c: (u32, u32), w: i8)
    requires
        strictly_ordered(acc_entries(old(acc)@)),
        forall|i: int| 0 <= i < old(acc)@.len() ==> -16 <= (#[trigger] old(acc)@[i]).1 <= 16,
        -1 <= w <= 1,
    ensures
        strictly_ordered(acc_entries(final(acc)@)),
        forall|c2: (u32, u32)| #[trigger]
            seq_weight(acc_entries(final(acc)@), c2) == seq_weight(acc_entries(old(acc)@), c2)
                + if c2 == c {
                w as int
            } else {
                0
            },
        forall|img: Map<(u32, u32), int>| #[trigger]
            weighted_sum(acc_entries(final(acc)@), img) == weighted_sum(
                acc_entries(old(acc)@),
                img,
            ) + img[c] * (w as int),
        final(acc)@.len() <= old(acc)@.len() + 1,
{
    let ghost orig = acc_entries(acc@);
    let mut i: usize = 0;
    while i < acc.len()
        invariant
            i <= acc@.len(),
            acc_entries(acc@) == orig,
            strictly_ordered(orig),
            forall|j: int| 0 <= j < i ==> coord_lt((#[trigger] orig[j]).0, c),
        ensures
            i <= acc@.len(),
            acc_entries(acc@) == orig,
            forall|j: int| 0 <= j < i ==> coord_lt((#[trigger] orig[j]).0, c),
            i < acc@.len() ==> !coord_lt(orig[i as int].0, c),
        decreases acc@.len() - i,
    {
        proof {
            assert(orig[i as int].0 == acc@[i as int].0);
        }
        if !coord_lt_exec(acc[i].0, c) {
            break ;
        }
        i += 1;
    }
    if i < acc.len() {
        let (c0, w0) = acc[i];
        proof {
            assert(orig[i as int] == (c0, w0 as int));
        }
        if c0.0 == c.0 && c0.1 == c.1 {
            acc[i] = (c0, w0 + w);
            proof {
                let e = (c0, (w0 + w) as int);
                assert(acc_entries(acc@) =~= orig.update(i as int, e));
                lemma_entry_update(orig, i as int, e);
                assert forall|p: int, q: int|
                    0 <= p < q < acc_entries(acc@).len() implies coord_lt(
                    (#[trigger] acc_entries(acc@)[p]).0,
                    (#[trigger] acc_entries(acc@)[q]).0,
                ) by {
                    assert(acc_entries(acc@)[p].0 == orig[p].0);
                    assert(acc_entries(acc@)[q].0 == orig[q].0);
                    assert(coord_lt(orig[p].0, orig[q].0));
                }
            }
            return ;
        }
    }
    acc.insert(i, (c, w));
    proof {
        let e = (c, w as int);
        assert(acc_entries(acc@) =~= orig.insert(i as int, e)) by {
            orig.insert_ensures(i as int, e);
            assert(forall|j: int|
                0 <= j < acc@.len() ==> acc_entries(acc@)[j] == (
                (#[trigger] acc@[j]).0,
                acc@[j].1 as int,
            ));
        }
        lemma_entry_insert(orig, i as int, e);
        orig.insert_ensures(i as int, e);
        let upd = acc_entries(acc@);
        assert forall|p: int, q: int|
            0 <= p < q < upd.len() implies coord_lt(
            (#[trigger] upd[p]).0,
            (#[trigger] upd[q]).0,
        ) by {
            if q < i {
                assert(upd[p] == orig[p] && upd[q] == orig[q]);
            } else if p < i && q == i {
                assert(upd[p] == orig[p] && upd[q] == e);
            } else if p < i && q > i {
                assert(upd[p] == orig[p] && upd[q] == orig[q - 1]);
                assert(coord_lt(orig[p].0, orig[q - 1].0));
            } else if p == i {
                assert(upd[p] == e && upd[q] == orig[q - 1]);
                assert(!coord_lt(orig[i as int].0, c));
                assert(orig[i as int].0 != c);
                assert(coord_lt(c, orig[i as int].0));
            } else {
                assert(upd[p] == orig[p - 1] && upd[q] == orig[q - 1]);
            }
        }
    }
}

/// Determinism under reordering of equal contributions: two canonical
/// filters built from contribution sequences that assign every coordinate
/// the same aggregate weight — however differently the rectangles were
/// decomposed or ordered — have identical entries: the same points, the
/// same weights, in the same order.
pub proof fn lemma_combination_deterministic(
    f1: HaarFilter,
    f2: HaarFilter,
    s1: Seq<((u32, u32), int)>,
    s2: Seq<((u32, u32), int)>,
)
    requires
        f1.wf(),
        f2.wf(),
        forall|c: (u32, u32)| #[trigger] seq_weight(f1.entries(), c) == seq_weight(s1, c),
        forall|c: (u32, u32)| #[trigger] seq_weight(f2.entries(), c) == seq_weight(s2, c),
        forall|c: (u32, u32)| #[trigger] seq_weight(s1, c) == seq_weight(s2, c),
    ensures
        f1.entries() == f2.entries(),
{
    assert forall|c: (u32, u32)| #[trigger]
        seq_weight(f1.entries(), c) == seq_weight(f2.entries(), c) by {
        assert(seq_weight(f1.entries(), c) == seq_weight(s1, c));
    }
    lemma_canonical_unique(f1.entries(), f2.entries());
}

/// A duplicate-free sequence whose elements all occur in `cs` is no longer
/// than `cs`.
proof fn lemma_distinct_within(coords: Seq<(u32, u32)>, cs: Seq<(u32, u32)>)
    requires
        coords.no_duplicates(),
        forall|j: int| 0 <= j < coords.len() ==> cs.contains(#[trigger] coords[j]),
    ensures
        coords.len() <= cs.len(),
{
    broadcast use vstd::seq_lib::seq_to_set_is_finite;

    coords.unique_seq_to_set();
    cs.lemma_cardinality_of_set();
    assert forall|x: (u32, u32)| coords.to_set().contains(x) implies cs.to_set().contains(x) by {
        assert(coords.contains(x));
        let j = choose|j: int| 0 <= j < coords.len() && coords[j] == x;
        assert(cs.contains(coords[j]));
    }
    vstd::set_lib::lemma_len_subset(coords.to_set(), cs.to_set());
}

/// Combines the corner expansions of a sequence of rectangles, the first
/// counted positively, the second negatively, and so on, into one canonical
/// filter: weights are aggregated by coordinate, zero totals are dropped,
/// and the rest is packed in strictly ascending row-major order.
///
/// The result assigns every coordinate exactly the aggregate weight of the
/// combination, and its value on every integral image is the literal
/// alternating sum of the rectangles' own values.
#[verifier::loop_isolation(false)]
pub fn combine_alternating(rects: &[EvalPoints]) -> (f: HaarFilter)
    requires
        rects@.len() <= 4,
        unit_weights_hold(rects@),
        support_bounded(alternating(views_of(rects@), 1), 9),
    ensures
        f.wf(),
        forall|c: (u32, u32)| #[trigger]
            seq_weight(f.entries(), c) == seq_weight(alternating(views_of(rects@), 1), c),
        forall|img: Map<(u32, u32), int>| #[trigger]
            weighted_sum(f.entries(), img) == alternating_value(views_of(rects@), img, 1),
        forall|j: int| 0 <= j < 9 ==> -16 <= (#[trigger] f.weights@[j]) <= 16,
        forall|j: int| f.count <= j < 9 ==> (#[trigger] f.weights@[j]) == 0,
        forall|j: int| 2 * f.count <= j < 18 ==> (#[trigger] f.points@[j]) == 0,
{
    let ghost target = alternating(views_of(rects@), 1);
    let mut acc: Vec<((u32, u32), i8)> = Vec::new();
    let ghost mut done = Seq::<((u32, u32), int)>::empty();
    let mut sign: i8 = 1;
    let mut ri: usize = 0;

    proof {
        assert(rects@.take(0) =~= Seq::<EvalPoints>::empty());
        assert(views_of(rects@.take(0)) =~= Seq::<Seq<((u32, u32), int)>>::empty());
        assert(acc_entries(acc@) =~= Seq::<((u32, u32), int)>::empty());
    }

    while ri < rects.len()
        invariant
            ri <= rects@.len(),
            sign as int == parity_sign(ri as nat),
            done == alternating(views_of(rects@.take(ri as int)), 1),
            done.len() == 4 * ri,
            unit_weights(done),
            strictly_ordered(acc_entries(acc@)),
            acc@.len() <= done.len(),
            forall|c: (u32, u32)| #[trigger]
                seq_weight(acc_entries(acc@), c) == seq_weight(done, c),
            forall|img: Map<(u32, u32), int>| #[trigger]
                weighted_sum(acc_entries(acc@), img) == weighted_sum(done, img),
        decreases rects@.len() - ri,
    {
        let ghost prev_views = views_of(rects@.take(ri as int));
        let ghost rv = rects@[ri as int]@;
        let ghost sgn = sign as int;
        let ghost scaled = scale_entries(rv, sgn);
        let ghost base = done;
        proof {
            assert(unit_weights(rv));
            assert(scaled.take(0) =~= Seq::<((u32, u32), int)>::empty());
            assert(base + scaled.take(0) =~= base);
        }
        let mut ci: usize = 0;
        while ci < 4
            invariant
                ci <= 4,
                ri < rects@.len(),
                sign as int == sgn,
                done == base + scaled.take(ci as int),
                done.len() == 4 * ri + ci,
                unit_weights(done),
                strictly_ordered(acc_entries(acc@)),
                acc@.len() <= done.len(),
                forall|c: (u32, u32)| #[trigger]
                    seq_weight(acc_entries(acc@), c) == seq_weight(done, c),
                forall|img: Map<(u32, u32), int>| #[trigger]
                    weighted_sum(acc_entries(acc@), img) == weighted_sum(done, img),
            decreases 4 - ci,
        {
            let p = rects[ri].points[ci];
            let w0 = rects[ri].weights[ci];
            proof {
                assert(rv[ci as int] == (p, w0 as int));
                assert(-1 <= rv[ci as int].1 <= 1);
                assert(-1 <= (sign as int) * (w0 as int) <= 1) by (nonlinear_arith)
                    requires
                        -1 <= sign as int <= 1,
                        -1 <= w0 as int <= 1,
                ;
            }
            let w = sign * w0;
            proof {
                assert forall|ii: int| 0 <= ii < acc@.len() implies -16 <= (
                #[trigger] acc@[ii]).1 <= 16 by {
                    let ae = acc_entries(acc@);
                    assert(ae[ii] == (acc@[ii].0, acc@[ii].1 as int));
                    lemma_ordered_entry_weight(ae, ii);
                    assert(seq_weight(done, ae[ii].0) == ae[ii].1);
                    lemma_seq_weight_magnitude(done, ae[ii].0);
                }
            }
            upsert(&mut acc, p, w);
            proof {
                let e = (p, w as int);
                let done2 = done.push(e);
                assert(done2.drop_last() =~= done);
                assert(done2.last() == e);
                assert forall|j: int| 0 <= j < done2.len() implies -1 <= (
                #[trigger] done2[j]).1 <= 1 by {
                    if j < done.len() {
                        assert(done2[j] == done[j]);
                    } else {
                        assert(done2[j] == e);
                    }
                }
                assert(scaled[ci as int] == (rv[ci as int].0, sgn * rv[ci as int].1));
                assert(w as int == sgn * (w0 as int));
                assert(scaled.take(ci + 1) =~= scaled.take(ci as int).push(e));
                assert(base + scaled.take(ci + 1) =~= (base + scaled.take(ci as int)).push(e));
                done = done2;
            }
            ci += 1;
        }
        proof {
            assert(scaled.take(4) =~= scaled);
            assert(prev_views.push(rv) =~= views_of(rects@.take(ri as int + 1)));
            lemma_alternating_push(prev_views, rv, 1);
            assert(prev_views.len() == ri as nat);
            assert(1 * parity_sign(ri as nat) == sgn);
            assert(scale_entries(rv, sgn) == scaled);
            assert(done == alternating(views_of(rects@.take(ri as int + 1)), 1));
            assert(parity_sign((ri + 1) as nat) == -parity_sign(ri as nat));
        }
        sign = -sign;
        ri += 1;
    }
    proof {
        assert(rects@.take(rects@.len() as int) =~= rects@);
        assert(done == target);
    }

    let ghost cs = choose|cs: Seq<(u32, u32)>| cs.len() <= 9 && #[trigger] covers(cs, target);

    let mut points: [u32; 18] = [0u32; 18];
    let mut weights: [i8; 9] = [0i8; 9];
    let mut n: usize = 0;
    let mut i: usize = 0;
    proof {
        assert(pack_entries(points@, weights@, 0) =~= Seq::<((u32, u32), int)>::empty());
        assert(acc_entries(acc@).take(0) =~= Seq::<((u32, u32), int)>::empty());
    }
    while i < acc.len()
        invariant
            i <= acc@.len(),
            n <= 9,
            strictly_ordered(pack_entries(points@, weights@, n as int)),
            forall|j: int|
                0 <= j < n ==> (#[trigger] pack_entries(points@, weights@, n as int)[j]).1 != 0,
            forall|j: int|
                0 <= j < n ==> cs.contains(
                    (#[trigger] pack_entries(points@, weights@, n as int)[j]).0,
                ),
            forall|j: int, k: int|
                0 <= j < n && i <= k < acc@.len() ==> coord_lt(
                    (#[trigger] pack_entries(points@, weights@, n as int)[j]).0,
                    (#[trigger] acc_entries(acc@)[k]).0,
                ),
            forall|c: (u32, u32)| #[trigger]
                seq_weight(pack_entries(points@, weights@, n as int), c) == seq_weight(
                    acc_entries(acc@).take(i as int),
                    c,
                ),
            forall|img: Map<(u32, u32), int>| #[trigger]
                weighted_sum(pack_entries(points@, weights@, n as int), img) == weighted_sum(
                    acc_entries(acc@).take(i as int),
                    img,
                ),
            forall|j: int| n <= j < 9 ==> (#[trigger] weights@[j]) == 0,
            forall|j: int| 2 * n <= j < 18 ==> (#[trigger] points@[j]) == 0,
            forall|j: int| 0 <= j < 9 ==> -16 <= (#[trigger] weights@[j]) <= 16,
        decreases acc@.len() - i,
    {
        let (pc, pw) = acc[i];
        let ghost at = acc_entries(acc@);
        let ghost pk = pack_entries(points@, weights@, n as int);
        proof {
            assert(at[i as int] == (pc, pw as int));
            assert(at.take(i + 1) =~= at.take(i as int).push(at[i as int]));
        }
        if pw != 0 {
            proof {
                // The new entry's coordinate carries nonzero aggregate weight,
                // so it lies in the bounding coordinate set; together with the
                // entries already packed it stays duplicate-free, which caps
                // the packed count at the set's size.
                lemma_ordered_entry_weight(at, i as int);
                assert(seq_weight(target, pc) == pw as int);
                assert(cs.contains(pc));
                lemma_seq_weight_magnitude(target, pc);
                assert(-16 <= pw as int <= 16);
                let coords = Seq::new(n as nat, |j: int| pk[j].0);
                let ext = coords.push(pc);
                assert forall|j: int, k: int| 0 <= j < k < ext.len() implies ext[j] != ext[k] by {
                    if k < n {
                        assert(ext[j] == pk[j].0 && ext[k] == pk[k].0);
                        assert(coord_lt(pk[j].0, pk[k].0));
                    } else {
                        assert(ext[k] == pc);
                        assert(ext[j] == pk[j].0);
                        assert(coord_lt(pk[j].0, at[i as int].0));
                    }
                }
                assert(ext.no_duplicates());
                assert(forall|j: int| 0 <= j < ext.len() ==> cs.contains(#[trigger] ext[j]));
                lemma_distinct_within(ext, cs);
                assert(n < 9);
            }
            points[2 * n] = pc.0;
            points[2 * n + 1] = pc.1;
            weights[n] = pw;
            proof {
                let pk2 = pack_entries(points@, weights@, n + 1);
                assert forall|j: int| 0 <= j < n implies #[trigger] pk2[j] == pk[j] by {
                    assert(points@[2 * j] == pk[j].0.0);
                    assert(points@[2 * j + 1] == pk[j].0.1);
                    assert(weights@[j] == pk[j].1 as i8);
                }
                assert(pk2[n as int] == ((pc.0, pc.1), pw as int));
                assert((pc.0, pc.1) == pc);
                assert(pk2 =~= pk.push((pc, pw as int)));
                assert(pk2.drop_last() =~= pk);
                assert forall|c: (u32, u32)| #[trigger]
                    seq_weight(pk2, c) == seq_weight(at.take(i + 1), c) by {
                    assert(at.take(i + 1).drop_last() =~= at.take(i as int));
                    assert(pk2.last() == (pc, pw as int));
                    assert(at.take(i + 1).last() == (pc, pw as int));
                    assert(seq_weight(pk, c) == seq_weight(at.take(i as int), c));
                }
                assert forall|img: Map<(u32, u32), int>| #[trigger]
                    weighted_sum(pk2, img) == weighted_sum(at.take(i + 1), img) by {
                    assert(at.take(i + 1).drop_last() =~= at.take(i as int));
                    assert(pk2.last() == (pc, pw as int));
                    assert(at.take(i + 1).last() == (pc, pw as int));
                    assert(weighted_sum(pk, img) == weighted_sum(at.take(i as int), img));
                }
            }
            n += 1;
        } else {
            proof {
                let e = at[i as int];
                assert(e.1 == 0);
                assert forall|c: (u32, u32)| #[trigger]
                    seq_weight(at.take(i + 1), c) == seq_weight(at.take(i as int), c) by {
                    assert(at.take(i + 1).drop_last() =~= at.take(i as int));
                }
                assert forall|img: Map<(u32, u32), int>| #[trigger]
                    weighted_sum(at.take(i + 1), img) == weighted_sum(at.take(i as int), img) by {
                    assert(at.take(i + 1).drop_last() =~= at.take(i as int));
                    assert(img[e.0] * e.1 == 0) by (nonlinear_arith)
                        requires
                            e.1 == 0,
                    ;
                }
            }
        }
        i += 1;
    }
    proof {
        assert(acc_entries(acc@).take(acc@.len() as int) =~= acc_entries(acc@));
    }
    let f = HaarFilter { points, weights, count: n };
    proof {
        assert(f.entries() == pack_entries(points@, weights@, n as int));
        assert forall|img: Map<(u32, u32), int>| #[trigger]
            weighted_sum(f.entries(), img) == alternating_value(views_of(rects@), img, 1) by {
            lemma_alternating_value(views_of(rects@), img, 1);
        }
    }
    f
}

} // verus!
