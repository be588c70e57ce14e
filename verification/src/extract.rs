//! Mask region extraction.
//!
//! One row-major scan of the sampling grid recovers, for every hue seen on a
//! fully opaque sampled pixel, the bounding rectangle of its samples, and
//! collects the samples themselves in scan order. Results are rendered into
//! world coordinates, re-deriving rectangle corners after the y flip.
//!
//! The scan is a pure function of the mask and the step: it reads the mask,
//! mutates nothing, and always produces a (possibly empty) result.

use crate::color::{hue_key, lemma_hue_key_range, spec_hue_key};
use crate::grid::{default_step, grid, lemma_grid_entry, lemma_grid_in_bounds, spec_default_step};
use crate::ident::{hue_name, spec_hue_name};
use crate::mask::{Mask, MaskView};
use crate::world::{spec_world_x, spec_world_y, world_x, world_y};
use vstd::arithmetic::mul::lemma_mul_inequality;
use vstd::prelude::*;

verus! {

/// The hue key of the pixel under a sampled coordinate.
pub open spec fn sample_hue(m: MaskView, c: (int, int)) -> int {
    spec_hue_key(m.pixel(c.0, c.1))
}

/// The sampling grid of a scan over mask `m` with the given step.
pub open spec fn scan_grid(m: MaskView, step: int) -> Seq<(int, int)> {
    grid(m.width / step, m.height / step, step)
}

/// The sampled coordinates whose pixel is fully opaque, in scan order.
pub open spec fn opaque_samples(m: MaskView, coords: Seq<(int, int)>) -> Seq<(int, int)>
    decreases coords.len(),
{
    if coords.len() == 0 {
        Seq::empty()
    } else {
        let prev = opaque_samples(m, coords.drop_last());
        let c = coords.last();
        if m.opaque_at(c.0, c.1) {
            prev.push(c)
        } else {
            prev
        }
    }
}

/// The opaque samples of a scan carried to world coordinates, in scan order.
pub open spec fn world_points(m: MaskView, coords: Seq<(int, int)>) -> Seq<(int, int)>
    decreases coords.len(),
{
    if coords.len() == 0 {
        Seq::empty()
    } else {
        let prev = world_points(m, coords.drop_last());
        let c = coords.last();
        if m.opaque_at(c.0, c.1) {
            prev.push((spec_world_x(c.0, m.width), spec_world_y(c.1, m.height)))
        } else {
            prev
        }
    }
}

/// A pixel-space bounding box accumulated for one hue.
pub struct BoxModel {
    pub hue: int,
    pub min_x: int,
    pub min_y: int,
    pub max_x: int,
    pub max_y: int,
}

/// `c` lies within box `b`.
pub open spec fn box_contains(b: BoxModel, c: (int, int)) -> bool {
    b.min_x <= c.0 <= b.max_x && b.min_y <= c.1 <= b.max_y
}

/// A box carries a hue key and ordered sides.
pub open spec fn box_wf(b: BoxModel) -> bool {
    &&& 0 <= b.hue < 360000
    &&& b.min_x <= b.max_x
    &&& b.min_y <= b.max_y
}

/// All accumulated boxes are well formed.
pub open spec fn boxes_wf(bs: Seq<BoxModel>) -> bool {
    forall|i: int| 0 <= i < bs.len() ==> box_wf(#[trigger] bs[i])
}

/// The index of the box accumulated for hue `k`: the first entry with that
/// hue, or `-1` when none has been seen yet.
pub open spec fn find_box(bs: Seq<BoxModel>, k: int) -> int
    decreases bs.len(),
{
    if bs.len() == 0 {
        -1
    } else if bs[0].hue == k {
        0
    } else {
        let r = find_box(bs.subrange(1, bs.len() as int), k);
        if r == -1 {
            -1
        } else {
            r + 1
        }
    }
}

/// What `find_box` returns: either no entry has hue `k`, or the result is
/// the first index whose entry does.
pub proof fn lemma_find_box(bs: Seq<BoxModel>, k: int)
    ensures
        find_box(bs, k) == -1 ==> forall|j: int|
            0 <= j < bs.len() ==> (#[trigger] bs[j]).hue != k,
        find_box(bs, k) != -1 ==> {
            &&& 0 <= find_box(bs, k) < bs.len()
            &&& bs[find_box(bs, k)].hue == k
            &&& forall|j: int| 0 <= j < find_box(bs, k) ==> (#[trigger] bs[j]).hue != k
        },
    decreases bs.len(),
{
    if bs.len() != 0 && bs[0].hue != k {
        let tail = bs.subrange(1, bs.len() as int);
        lemma_find_box(tail, k);
        assert(forall|j: int| 0 <= j < tail.len() ==> #[trigger] tail[j] == bs[j + 1]);
        if find_box(bs, k) == -1 {
            assert forall|j: int| 0 <= j < bs.len() implies (#[trigger] bs[j]).hue != k by {
                if j > 0 {
                    assert(bs[j] == tail[j - 1]);
                }
            }
        } else {
            let i = find_box(bs, k);
            assert(bs[i] == tail[i - 1]);
            assert forall|j: int| 0 <= j < i implies (#[trigger] bs[j]).hue != k by {
                if j > 0 {
                    assert(bs[j] == tail[j - 1]);
                }
            }
        }
    }
}

/// The degenerate box seeded by the first sample of a hue.
pub open spec fn box_seed(k: int, x: int, y: int) -> BoxModel {
    BoxModel { hue: k, min_x: x, min_y: y, max_x: x, max_y: y }
}

/// One more sample widens each side of its box monotonically; sides the
/// sample does not pass are unchanged.
pub open spec fn box_merge(b: BoxModel, x: int, y: int) -> BoxModel {
    BoxModel {
        hue: b.hue,
        min_x: if x < b.min_x {
            x
        } else {
            b.min_x
        },
        min_y: if y < b.min_y {
            y
        } else {
            b.min_y
        },
        max_x: if x > b.max_x {
            x
        } else {
            b.max_x
        },
        max_y: if y > b.max_y {
            y
        } else {
            b.max_y
        },
    }
}

/// Folds one opaque sample into the accumulated boxes: the first sighting of
/// a hue appends a degenerate box, a later sighting widens the existing one
/// in place.
pub open spec fn box_add(bs: Seq<BoxModel>, k: int, x: int, y: int) -> Seq<BoxModel> {
    let i = find_box(bs, k);
    if i == -1 {
        bs.push(box_seed(k, x, y))
    } else {
        bs.update(i, box_merge(bs[i], x, y))
    }
}

/// The boxes accumulated after scanning `coords` in order: each opaque
/// sample is folded into the box of its hue; transparent pixels and
/// coordinates off the image are skipped.
pub open spec fn accum_boxes(m: MaskView, coords: Seq<(int, int)>) -> Seq<BoxModel>
    decreases coords.len(),
{
    if coords.len() == 0 {
        Seq::empty()
    } else {
        let prev = accum_boxes(m, coords.drop_last());
        let c = coords.last();
        if m.opaque_at(c.0, c.1) {
            box_add(prev, sample_hue(m, c), c.0, c.1)
        } else {
            prev
        }
    }
}

/// Every accumulated box is well formed: its hue is a hue key and each side
/// pair is ordered, minimum at most maximum.
pub proof fn lemma_accum_boxes_wf(m: MaskView, coords: Seq<(int, int)>)
    ensures
        boxes_wf(accum_boxes(m, coords)),
    decreases coords.len(),
{
    if coords.len() > 0 {
        let pre = coords.drop_last();
        let c = coords.last();
        lemma_accum_boxes_wf(m, pre);
        let prev = accum_boxes(m, pre);
        let bs = accum_boxes(m, coords);
        if m.opaque_at(c.0, c.1) {
            let k = sample_hue(m, c);
            lemma_hue_key_range(m.pixel(c.0, c.1));
            lemma_find_box(prev, k);
            let fi = find_box(prev, k);
            if fi == -1 {
                assert forall|i: int| 0 <= i < bs.len() implies box_wf(#[trigger] bs[i]) by {
                    if i < prev.len() {
                        assert(bs[i] == prev[i]);
                        assert(box_wf(prev[i]));
                    } else {
                        assert(bs[i] == box_seed(k, c.0, c.1));
                    }
                }
            } else {
                assert forall|i: int| 0 <= i < bs.len() implies box_wf(#[trigger] bs[i]) by {
                    if i == fi {
                        assert(bs[i] == box_merge(prev[fi], c.0, c.1));
                        assert(box_wf(prev[fi]));
                    } else {
                        assert(bs[i] == prev[i]);
                        assert(box_wf(prev[i]));
                    }
                }
            }
        }
    }
}

/// Scanning one more grid cell folds exactly that cell into the boxes.
proof fn lemma_accum_take_step(m: MaskView, coords: Seq<(int, int)>, t: int)
    requires
        0 <= t < coords.len(),
    ensures
        accum_boxes(m, coords.take(t + 1)) == (if m.opaque_at(coords[t].0, coords[t].1) {
            box_add(
                accum_boxes(m, coords.take(t)),
                sample_hue(m, coords[t]),
                coords[t].0,
                coords[t].1,
            )
        } else {
            accum_boxes(m, coords.take(t))
        }),
{
    assert(coords.take(t + 1).drop_last() =~= coords.take(t));
    assert(coords.take(t + 1).last() == coords[t]);
}

/// Scanning one more grid cell appends exactly that cell's world point when
/// its pixel is opaque.
proof fn lemma_world_points_take_step(m: MaskView, coords: Seq<(int, int)>, t: int)
    requires
        0 <= t < coords.len(),
    ensures
        world_points(m, coords.take(t + 1)) == (if m.opaque_at(coords[t].0, coords[t].1) {
            world_points(m, coords.take(t)).push(
                (spec_world_x(coords[t].0, m.width), spec_world_y(coords[t].1, m.height)),
            )
        } else {
            world_points(m, coords.take(t))
        }),
{
    assert(coords.take(t + 1).drop_last() =~= coords.take(t));
    assert(coords.take(t + 1).last() == coords[t]);
}

/// A scan that meets no opaque pixel accumulates nothing.
pub proof fn lemma_accum_boxes_empty(m: MaskView, coords: Seq<(int, int)>)
    requires
        forall|t: int|
            0 <= t < coords.len() ==> !m.opaque_at((#[trigger] coords[t]).0, coords[t].1),
    ensures
        accum_boxes(m, coords).len() == 0,
        opaque_samples(m, coords).len() == 0,
        world_points(m, coords).len() == 0,
    decreases coords.len(),
{
    if coords.len() > 0 {
        let pre = coords.drop_last();
        assert(forall|t: int| 0 <= t < pre.len() ==> #[trigger] pre[t] == coords[t]);
        lemma_accum_boxes_empty(m, pre);
        assert(coords.last() == coords[coords.len() - 1]);
    }
}

/// `coords[t]` is an opaque sample of hue `k`.
pub open spec fn opaque_sample_of(m: MaskView, coords: Seq<(int, int)>, t: int, k: int) -> bool {
    &&& 0 <= t < coords.len()
    &&& m.opaque_at(coords[t].0, coords[t].1)
    &&& sample_hue(m, coords[t]) == k
}

/// Each of the four sides of box `b` is attained by some opaque sample of
/// its hue: the box is tight, not merely an enclosure.
pub open spec fn box_sides_attained(m: MaskView, coords: Seq<(int, int)>, b: BoxModel) -> bool {
    &&& exists|t: int|
        opaque_sample_of(m, coords, t, b.hue) && (#[trigger] coords[t]).0 == b.min_x
    &&& exists|t: int|
        opaque_sample_of(m, coords, t, b.hue) && (#[trigger] coords[t]).0 == b.max_x
    &&& exists|t: int|
        opaque_sample_of(m, coords, t, b.hue) && (#[trigger] coords[t]).1 == b.min_y
    &&& exists|t: int|
        opaque_sample_of(m, coords, t, b.hue) && (#[trigger] coords[t]).1 == b.max_y
}

/// Sides attained over a scan prefix stay attained over the whole scan.
proof fn lemma_sides_attained_extend(
    m: MaskView,
    pre: Seq<(int, int)>,
    coords: Seq<(int, int)>,
    b: BoxModel,
)
    requires
        pre.len() <= coords.len(),
        forall|t: int| 0 <= t < pre.len() ==> #[trigger] coords[t] == pre[t],
        box_sides_attained(m, pre, b),
    ensures
        box_sides_attained(m, coords, b),
{
    let k = b.hue;
    let t1 = choose|t: int|
        opaque_sample_of(m, pre, t, k) && (#[trigger] pre[t]).0 == b.min_x;
    assert(opaque_sample_of(m, coords, t1, k) && coords[t1].0 == b.min_x);
    let t2 = choose|t: int|
        opaque_sample_of(m, pre, t, k) && (#[trigger] pre[t]).0 == b.max_x;
    assert(opaque_sample_of(m, coords, t2, k) && coords[t2].0 == b.max_x);
    let t3 = choose|t: int|
        opaque_sample_of(m, pre, t, k) && (#[trigger] pre[t]).1 == b.min_y;
    assert(opaque_sample_of(m, coords, t3, k) && coords[t3].1 == b.min_y);
    let t4 = choose|t: int|
        opaque_sample_of(m, pre, t, k) && (#[trigger] pre[t]).1 == b.max_y;
    assert(opaque_sample_of(m, coords, t4, k) && coords[t4].1 == b.max_y);
}

/// What the accumulated boxes mean, stated directly: the boxes carry
/// pairwise distinct hues; every opaque sample has a box of its hue; each
/// box contains every opaque sample of its hue; and each box is tight, its
/// four sides attained by opaque samples of its hue. Together these make
/// each box exactly the bounding rectangle of the opaque samples of its
/// hue, and the set of hues exactly those seen on opaque samples.
pub proof fn lemma_accum_boxes_exact(m: MaskView, coords: Seq<(int, int)>)
    ensures
        forall|i: int, j: int|
            0 <= i < j < accum_boxes(m, coords).len() ==> (#[trigger] accum_boxes(m, coords)[i]).hue
                != (#[trigger] accum_boxes(m, coords)[j]).hue,
        forall|t: int, k: int|
            #[trigger] opaque_sample_of(m, coords, t, k) ==> exists|i: int|
                0 <= i < accum_boxes(m, coords).len() && (#[trigger] accum_boxes(m, coords)[i]).hue
                    == k,
        forall|i: int, t: int|
            0 <= i < accum_boxes(m, coords).len() && #[trigger] opaque_sample_of(
                m,
                coords,
                t,
                accum_boxes(m, coords)[i].hue,
            ) ==> box_contains(accum_boxes(m, coords)[i], coords[t]),
        forall|i: int|
            0 <= i < accum_boxes(m, coords).len() ==> box_sides_attained(
                m,
                coords,
                #[trigger] accum_boxes(m, coords)[i],
            ),
    decreases coords.len(),
{
    let bs = accum_boxes(m, coords);
    if coords.len() > 0 {
        let pre = coords.drop_last();
        let c = coords.last();
        let n = pre.len() as int;
        lemma_accum_boxes_exact(m, pre);
        let prev = accum_boxes(m, pre);
        assert(forall|t: int| 0 <= t < n ==> #[trigger] coords[t] == pre[t]);
        assert forall|t: int, k: int| #[trigger] opaque_sample_of(m, pre, t, k) implies
            opaque_sample_of(m, coords, t, k) by {}
        assert forall|t: int, k: int|
            #[trigger] opaque_sample_of(m, coords, t, k) && t < n implies opaque_sample_of(
            m,
            pre,
            t,
            k,
        ) by {}
        if !m.opaque_at(c.0, c.1) {
            assert(bs == prev);
            assert forall|t: int, k: int| #[trigger] opaque_sample_of(m, coords, t, k) implies t
                < n by {
                if t == n {
                    assert(coords[t] == c);
                }
            }
            assert forall|t: int, k: int| #[trigger] opaque_sample_of(m, coords, t, k) implies
                exists|i: int| 0 <= i < bs.len() && (#[trigger] bs[i]).hue == k by {
                assert(opaque_sample_of(m, pre, t, k));
            }
            assert forall|i: int, t: int|
                0 <= i < bs.len() && #[trigger] opaque_sample_of(m, coords, t, bs[i].hue) implies
                box_contains(bs[i], coords[t]) by {
                assert(opaque_sample_of(m, pre, t, prev[i].hue));
            }
            assert forall|i: int| 0 <= i < bs.len() implies box_sides_attained(
                m,
                coords,
                #[trigger] bs[i],
            ) by {
                lemma_sides_attained_extend(m, pre, coords, prev[i]);
            }
        } else {
            let k = sample_hue(m, c);
            assert(coords[n] == c);
            assert(opaque_sample_of(m, coords, n, k));
            lemma_find_box(prev, k);
            let fi = find_box(prev, k);
            if fi == -1 {
                // no earlier opaque sample carries hue k
                assert forall|t: int| #[trigger] opaque_sample_of(m, pre, t, k) implies false by {
                    let i = choose|i: int|
                        0 <= i < prev.len() && (#[trigger] prev[i]).hue == k;
                    assert(prev[i].hue != k);
                }
                assert(bs == prev.push(box_seed(k, c.0, c.1)));
                assert(bs.len() == prev.len() + 1);
                assert(forall|i: int| 0 <= i < prev.len() ==> #[trigger] bs[i] == prev[i]);
                assert(bs[prev.len() as int] == box_seed(k, c.0, c.1));
                // distinct hues
                assert forall|i: int, j: int| 0 <= i < j < bs.len() implies (#[trigger] bs[i]).hue
                    != (#[trigger] bs[j]).hue by {
                    if j == prev.len() {
                        assert(bs[i] == prev[i]);
                        assert(prev[i].hue != k);
                    }
                }
                // coverage
                assert forall|t: int, k2: int| #[trigger] opaque_sample_of(m, coords, t, k2)
                    implies exists|i: int|
                    0 <= i < bs.len() && (#[trigger] bs[i]).hue == k2 by {
                    if t < n {
                        assert(opaque_sample_of(m, pre, t, k2));
                        let i = choose|i: int|
                            0 <= i < prev.len() && (#[trigger] prev[i]).hue == k2;
                        assert(bs[i].hue == k2);
                    } else {
                        assert(k2 == k);
                        assert(bs[prev.len() as int].hue == k2);
                    }
                }
                // containment
                assert forall|i: int, t: int|
                    0 <= i < bs.len() && #[trigger] opaque_sample_of(m, coords, t, bs[i].hue)
                    implies box_contains(bs[i], coords[t]) by {
                    if i < prev.len() {
                        assert(bs[i] == prev[i]);
                        if t < n {
                            assert(opaque_sample_of(m, pre, t, prev[i].hue));
                        } else {
                            assert(sample_hue(m, coords[t]) == k);
                            assert(prev[i].hue != k);
                        }
                    } else {
                        assert(bs[i] == box_seed(k, c.0, c.1));
                        if t < n {
                            assert(opaque_sample_of(m, pre, t, k));
                        } else {
                            assert(coords[t] == c);
                        }
                    }
                }
                // attainment
                assert forall|i: int| 0 <= i < bs.len() implies box_sides_attained(
                    m,
                    coords,
                    #[trigger] bs[i],
                ) by {
                    if i < prev.len() {
                        lemma_sides_attained_extend(m, pre, coords, prev[i]);
                    } else {
                        assert(opaque_sample_of(m, coords, n, bs[i].hue) && coords[n].0
                            == bs[i].min_x);
                        assert(opaque_sample_of(m, coords, n, bs[i].hue) && coords[n].0
                            == bs[i].max_x);
                        assert(opaque_sample_of(m, coords, n, bs[i].hue) && coords[n].1
                            == bs[i].min_y);
                        assert(opaque_sample_of(m, coords, n, bs[i].hue) && coords[n].1
                            == bs[i].max_y);
                    }
                }
            } else {
                let merged = box_merge(prev[fi], c.0, c.1);
                assert(bs == prev.update(fi, merged));
                assert(bs.len() == prev.len());
                assert(forall|i: int|
                    0 <= i < bs.len() && i != fi ==> #[trigger] bs[i] == prev[i]);
                assert(bs[fi] == merged);
                assert(forall|i: int| 0 <= i < bs.len() ==> (#[trigger] bs[i]).hue
                    == prev[i].hue);
                // distinct hues carry over unchanged
                assert forall|i: int, j: int| 0 <= i < j < bs.len() implies (#[trigger] bs[i]).hue
                    != (#[trigger] bs[j]).hue by {
                    assert(prev[i].hue != prev[j].hue);
                }
                // only entry fi has hue k
                assert forall|i: int| 0 <= i < bs.len() && i != fi implies (#[trigger] bs[i]).hue
                    != k by {
                    if i < fi {
                        assert(prev[i].hue != k);
                    } else {
                        assert(prev[fi].hue == k);
                        assert(prev[fi].hue != prev[i].hue);
                    }
                }
                // coverage
                assert forall|t: int, k2: int| #[trigger] opaque_sample_of(m, coords, t, k2)
                    implies exists|i: int|
                    0 <= i < bs.len() && (#[trigger] bs[i]).hue == k2 by {
                    if t < n {
                        assert(opaque_sample_of(m, pre, t, k2));
                        let i = choose|i: int|
                            0 <= i < prev.len() && (#[trigger] prev[i]).hue == k2;
                        assert(bs[i].hue == k2);
                    } else {
                        assert(k2 == k);
                        assert(bs[fi].hue == k2);
                    }
                }
                // containment
                assert forall|i: int, t: int|
                    0 <= i < bs.len() && #[trigger] opaque_sample_of(m, coords, t, bs[i].hue)
                    implies box_contains(bs[i], coords[t]) by {
                    if i != fi {
                        assert(bs[i] == prev[i]);
                        if t < n {
                            assert(opaque_sample_of(m, pre, t, prev[i].hue));
                        } else {
                            assert(bs[i].hue != k);
                        }
                    } else {
                        if t < n {
                            assert(opaque_sample_of(m, pre, t, prev[fi].hue));
                            assert(box_contains(prev[fi], pre[t]));
                        } else {
                            assert(coords[t] == c);
                        }
                    }
                }
                // attainment
                assert forall|i: int| 0 <= i < bs.len() implies box_sides_attained(
                    m,
                    coords,
                    #[trigger] bs[i],
                ) by {
                    if i != fi {
                        lemma_sides_attained_extend(m, pre, coords, prev[i]);
                    } else {
                        let b0 = prev[fi];
                        if c.0 < b0.min_x {
                            assert(opaque_sample_of(m, coords, n, k) && coords[n].0
                                == merged.min_x);
                        } else {
                            let t1 = choose|t: int|
                                opaque_sample_of(m, pre, t, b0.hue) && (#[trigger] pre[t]).0
                                    == b0.min_x;
                            assert(opaque_sample_of(m, coords, t1, k) && coords[t1].0
                                == merged.min_x);
                        }
                        if c.0 > b0.max_x {
                            assert(opaque_sample_of(m, coords, n, k) && coords[n].0
                                == merged.max_x);
                        } else {
                            let t2 = choose|t: int|
                                opaque_sample_of(m, pre, t, b0.hue) && (#[trigger] pre[t]).0
                                    == b0.max_x;
                            assert(opaque_sample_of(m, coords, t2, k) && coords[t2].0
                                == merged.max_x);
                        }
                        if c.1 < b0.min_y {
                            assert(opaque_sample_of(m, coords, n, k) && coords[n].1
                                == merged.min_y);
                        } else {
                            let t3 = choose|t: int|
                                opaque_sample_of(m, pre, t, b0.hue) && (#[trigger] pre[t]).1
                                    == b0.min_y;
                            assert(opaque_sample_of(m, coords, t3, k) && coords[t3].1
                                == merged.min_y);
                        }
                        if c.1 > b0.max_y {
                            assert(opaque_sample_of(m, coords, n, k) && coords[n].1
                                == merged.max_y);
                        } else {
                            let t4 = choose|t: int|
                                opaque_sample_of(m, pre, t, b0.hue) && (#[trigger] pre[t]).1
                                    == b0.max_y;
                            assert(opaque_sample_of(m, coords, t4, k) && coords[t4].1
                                == merged.max_y);
                        }
                    }
                }
            }
        }
    }
}

/// Every world point of a scan is the transform of an opaque sampled
/// coordinate, in scan order: point `i` comes from the `i`-th opaque sample,
/// and each opaque sample is one of the scanned coordinates with a fully
/// opaque pixel.
pub proof fn lemma_world_points_sound(m: MaskView, coords: Seq<(int, int)>)
    ensures
        world_points(m, coords).len() == opaque_samples(m, coords).len(),
        forall|i: int|
            0 <= i < world_points(m, coords).len() ==> #[trigger] world_points(m, coords)[i] == (
                spec_world_x(opaque_samples(m, coords)[i].0, m.width),
                spec_world_y(opaque_samples(m, coords)[i].1, m.height),
            ),
        forall|i: int|
            0 <= i < opaque_samples(m, coords).len() ==> coords.contains(
                #[trigger] opaque_samples(m, coords)[i],
            ) && m.opaque_at(
                opaque_samples(m, coords)[i].0,
                opaque_samples(m, coords)[i].1,
            ),
    decreases coords.len(),
{
    if coords.len() > 0 {
        let pre = coords.drop_last();
        let c = coords.last();
        let n = pre.len() as int;
        lemma_world_points_sound(m, pre);
        assert(forall|t: int| 0 <= t < n ==> #[trigger] coords[t] == pre[t]);
        assert(coords[n] == c);
        let os = opaque_samples(m, coords);
        let osp = opaque_samples(m, pre);
        assert forall|i: int| 0 <= i < os.len() implies coords.contains(#[trigger] os[i])
            && m.opaque_at(os[i].0, os[i].1) by {
            if i < osp.len() {
                assert(os[i] == osp[i]);
                assert(pre.contains(osp[i]) && m.opaque_at(osp[i].0, osp[i].1));
                let t = choose|t: int| 0 <= t < pre.len() && pre[t] == osp[i];
                assert(coords[t] == os[i]);
                assert(coords.contains(os[i]));
            } else {
                assert(m.opaque_at(c.0, c.1));
                assert(os[i] == c);
                assert(coords[n] == os[i]);
                assert(coords.contains(os[i]));
            }
        }
    }
}

/// Extraction is a pure function of the mask and the step: any two outputs
/// that satisfy the extraction contract for the same inputs agree, entry for
/// entry, and the point lists are equal outright.
pub proof fn lemma_extraction_deterministic(
    m: MaskView,
    step: int,
    rs1: Seq<Region>,
    ps1: Seq<SamplePoint>,
    rs2: Seq<Region>,
    ps2: Seq<SamplePoint>,
)
    requires
        extraction_post(m, step, rs1, ps1),
        extraction_post(m, step, rs2, ps2),
    ensures
        rs1.len() == rs2.len(),
        forall|i: int|
            0 <= i < rs1.len() ==> {
                &&& (#[trigger] rs1[i]).name@ == rs2[i].name@
                &&& rs1[i].hue == rs2[i].hue
                &&& rs1[i].min_x == rs2[i].min_x
                &&& rs1[i].min_y == rs2[i].min_y
                &&& rs1[i].max_x == rs2[i].max_x
                &&& rs1[i].max_y == rs2[i].max_y
            },
        ps1 == ps2,
{
    let bs = accum_boxes(m, scan_grid(m, step));
    assert forall|i: int| 0 <= i < rs1.len() implies {
        &&& (#[trigger] rs1[i]).name@ == rs2[i].name@
        &&& rs1[i].hue == rs2[i].hue
        &&& rs1[i].min_x == rs2[i].min_x
        &&& rs1[i].min_y == rs2[i].min_y
        &&& rs1[i].max_x == rs2[i].max_x
        &&& rs1[i].max_y == rs2[i].max_y
    } by {
        assert(region_matches(rs1[i], bs[i], m.width, m.height));
        assert(region_matches(rs2[i], bs[i], m.width, m.height));
    }
    let ws = world_points(m, scan_grid(m, step));
    assert(points_model(ps1) == ws);
    assert(points_model(ps2) == ws);
    assert(ps1 =~= ps2) by {
        assert(ps1.len() == points_model(ps1).len());
        assert(ps2.len() == points_model(ps2).len());
        assert forall|i: int| 0 <= i < ps1.len() implies #[trigger] ps1[i] == ps2[i] by {
            assert(points_model(ps1)[i] == points_model(ps2)[i]);
            assert((ps1[i].x as int, ps1[i].y as int) == (ps2[i].x as int, ps2[i].y as int));
        }
    }
}

/// One extracted region: the canonical identifier of its hue and the
/// world-space bounding rectangle of its sampled pixels.
#[derive(PartialEq, Eq, Debug)]
pub struct Region {
    pub name: String,
    pub hue: u32,
    pub min_x: i64,
    pub min_y: i64,
    pub max_x: i64,
    pub max_y: i64,
}

/// A sample point in world coordinates.
#[derive(Clone, Copy, PartialEq, Eq, Structural, Debug)]
pub struct SamplePoint {
    pub x: i64,
    pub y: i64,
}

/// A pixel-space box under construction during a scan.
#[derive(Clone, Copy)]
struct PixelBox {
    hue: u32,
    min_x: u32,
    min_y: u32,
    max_x: u32,
    max_y: u32,
}

impl View for PixelBox {
    type V = BoxModel;

    closed spec fn view(&self) -> BoxModel {
        BoxModel {
            hue: self.hue as int,
            min_x: self.min_x as int,
            min_y: self.min_y as int,
            max_x: self.max_x as int,
            max_y: self.max_y as int,
        }
    }
}

/// The mathematical content of the box vector built by a scan.
spec fn boxes_model(s: Seq<PixelBox>) -> Seq<BoxModel> {
    s.map_values(|b: PixelBox| b@)
}

/// The integer pairs carried by a sample point vector.
pub open spec fn points_model(s: Seq<SamplePoint>) -> Seq<(int, int)> {
    s.map_values(|p: SamplePoint| (p.x as int, p.y as int))
}

/// Region `r` publishes box `b` in world coordinates: the identifier is the
/// canonical name of the hue, and the corners are re-derived after the y
/// flip so that `min` stays the componentwise minimum.
pub open spec fn region_matches(r: Region, b: BoxModel, width: int, height: int) -> bool {
    &&& r.hue == b.hue
    &&& r.name@ == spec_hue_name(b.hue)
    &&& r.min_x == spec_world_x(b.min_x, width)
    &&& r.max_x == spec_world_x(b.max_x, width)
    &&& r.min_y == spec_world_y(b.max_y, height)
    &&& r.max_y == spec_world_y(b.min_y, height)
}

/// The whole contract of one extraction: the regions are exactly the boxes
/// accumulated by the row-major scan, rendered into world coordinates, and
/// the points are exactly the opaque samples so rendered, in scan order.
pub open spec fn extraction_post(
    m: MaskView,
    step: int,
    rs: Seq<Region>,
    ps: Seq<SamplePoint>,
) -> bool {
    let bs = accum_boxes(m, scan_grid(m, step));
    &&& rs.len() == bs.len()
    &&& forall|i: int|
        0 <= i < bs.len() ==> region_matches(#[trigger] rs[i], bs[i], m.width, m.height)
    &&& points_model(ps) == world_points(m, scan_grid(m, step))
}

/// No sampled coordinate of the scan hits a fully opaque pixel.
pub open spec fn no_opaque_samples(m: MaskView, step: int) -> bool {
    forall|t: int|
        0 <= t < scan_grid(m, step).len() ==> !m.opaque_at(
            (#[trigger] scan_grid(m, step)[t]).0,
            scan_grid(m, step)[t].1,
        )
}

/// Finds the box already accumulated for hue `k`, scanning from the front.
fn find_box_index(boxes: &Vec<PixelBox>, k: u32) -> (r: Option<usize>)
    ensures
        r is Some ==> r->Some_0 == find_box(boxes_model(boxes@), k as int)
            && 0 <= find_box(boxes_model(boxes@), k as int) < boxes@.len(),
        r is None ==> find_box(boxes_model(boxes@), k as int) == -1,
{
    let ghost bs = boxes_model(boxes@);
    let mut i: usize = 0;
    while i < boxes.len()
        invariant
            i <= boxes@.len(),
            bs == boxes_model(boxes@),
            bs.len() == boxes@.len(),
            forall|j: int| 0 <= j < i ==> (#[trigger] bs[j]).hue != k,
        decreases boxes@.len() - i,
    {
        if boxes[i].hue == k {
            proof {
                lemma_find_box(bs, k as int);
                assert(bs[i as int].hue == k);
            }
            return Some(i);
        }
        i += 1;
    }
    proof {
        lemma_find_box(bs, k as int);
    }
    None
}

/// Extracts the region rectangles and sample points of one scan of `mask`
/// with the given sampling step.
pub fn extract_regions_with_step(mask: &Mask, step: u32) -> (out: (Vec<Region>, Vec<SamplePoint>))
    requires
        mask@.wf(),
        step >= 1,
    ensures
        extraction_post(mask@, step as int, out.0@, out.1@),
        forall|i: int|
            0 <= i < out.0@.len() ==> (#[trigger] out.0@[i]).min_x <= out.0@[i].max_x
                && out.0@[i].min_y <= out.0@[i].max_y,
        no_opaque_samples(mask@, step as int) ==> out.0@.len() == 0 && out.1@.len() == 0,
{
    let ghost m = mask@;
    let width = mask.width();
    let height = mask.height();
    let x_steps = width / step;
    let y_steps = height / step;
    let ghost g = scan_grid(m, step as int);
    proof {
        assert(g.len() == y_steps * x_steps);
    }

    let mut boxes: Vec<PixelBox> = Vec::new();
    let mut points: Vec<SamplePoint> = Vec::new();
    let ghost mut t: int = 0;

    let mut yi: u32 = 0;
    while yi < y_steps
        invariant
            m == mask@,
            m.wf(),
            step >= 1,
            width == m.width,
            height == m.height,
            x_steps == m.width / (step as int),
            y_steps == m.height / (step as int),
            g == scan_grid(m, step as int),
            g.len() == y_steps * x_steps,
            yi <= y_steps,
            t == yi * x_steps,
            0 <= t <= g.len(),
            boxes_model(boxes@) == accum_boxes(m, g.take(t)),
            points_model(points@) == world_points(m, g.take(t)),
        decreases y_steps - yi,
    {
        let mut xi: u32 = 0;
        proof {
            lemma_mul_inequality(yi as int, y_steps as int - 1, x_steps as int);
            assert((y_steps - 1) * x_steps + x_steps == y_steps * x_steps) by (nonlinear_arith);
        }
        while xi < x_steps
            invariant
                m == mask@,
                m.wf(),
                step >= 1,
                width == m.width,
                height == m.height,
                x_steps == m.width / (step as int),
                y_steps == m.height / (step as int),
                g == scan_grid(m, step as int),
                g.len() == y_steps * x_steps,
                yi < y_steps,
                xi <= x_steps,
                t == yi * x_steps + xi,
                0 <= t <= g.len(),
                t <= yi * x_steps + x_steps <= g.len(),
                boxes_model(boxes@) == accum_boxes(m, g.take(t)),
                points_model(points@) == world_points(m, g.take(t)),
            decreases x_steps - xi,
        {
            proof {
                lemma_grid_entry(x_steps as int, y_steps as int, step as int, xi as int, yi as int);
                lemma_grid_in_bounds(m.width, m.height, step as int);
            }
            let x = xi * step;
            let y = yi * step;
            assert(g[t] == (x as int, y as int));
            let ghost bs = accum_boxes(m, g.take(t));
            proof {
                lemma_accum_take_step(m, g, t);
                lemma_world_points_take_step(m, g, t);
                lemma_accum_boxes_wf(m, g.take(t));
            }
            if let Some(c) = mask.get(x, y) {
                if c.a == 255 {
                    assert(m.opaque_at(g[t].0, g[t].1));
                    let k = hue_key(c);
                    assert(k as int == sample_hue(m, g[t]));
                    let wx = world_x(x, width);
                    let wy = world_y(y, height);
                    points.push(SamplePoint { x: wx, y: wy });
                    proof {
                        assert(points_model(points@) =~= world_points(m, g.take(t + 1)));
                    }
                    match find_box_index(&boxes, k) {
                        Some(i) => {
                            let b = boxes[i];
                            assert(b@ == bs[i as int]);
                            assert(box_wf(bs[i as int]));
                            if x == b.min_x && y == b.min_y && b.min_x == b.max_x && b.min_y
                                == b.max_y {
                                proof {
                                    assert(box_merge(bs[i as int], x as int, y as int)
                                        == bs[i as int]);
                                    assert(bs.update(i as int, bs[i as int]) =~= bs);
                                    assert(boxes_model(boxes@) == accum_boxes(m, g.take(t + 1)));
                                }
                            } else {
                                let mut nb = b;
                                if x < b.min_x {
                                    nb.min_x = x;
                                } else if x > b.max_x {
                                    nb.max_x = x;
                                }
                                if y < b.min_y {
                                    nb.min_y = y;
                                } else if y > b.max_y {
                                    nb.max_y = y;
                                }
                                assert(nb@ == box_merge(bs[i as int], x as int, y as int));
                                boxes.set(i, nb);
                                proof {
                                    assert(boxes_model(boxes@) =~= bs.update(
                                        i as int,
                                        box_merge(bs[i as int], x as int, y as int),
                                    ));
                                }
                            }
                        },
                        None => {
                            boxes.push(
                                PixelBox { hue: k, min_x: x, min_y: y, max_x: x, max_y: y },
                            );
                            proof {
                                assert(boxes_model(boxes@) =~= bs.push(
                                    box_seed(k as int, x as int, y as int),
                                ));
                            }
                        },
                    }
                    assert(boxes_model(boxes@) == accum_boxes(m, g.take(t + 1)));
                } else {
                    assert(!m.opaque_at(g[t].0, g[t].1));
                }
            } else {
                assert(!m.opaque_at(g[t].0, g[t].1));
            }
            xi = xi + 1;
            proof {
                t = t + 1;
            }
        }
        yi = yi + 1;
        proof {
            assert((yi - 1) * x_steps + x_steps == yi * x_steps) by (nonlinear_arith);
            lemma_mul_inequality(yi as int, y_steps as int, x_steps as int);
        }
    }
    proof {
        assert(t == y_steps * x_steps) by (nonlinear_arith)
            requires
                t == yi * x_steps,
                yi == y_steps,
        ;
        assert(g.take(t) =~= g);
    }

    let ghost bs_final = accum_boxes(m, g);
    proof {
        lemma_accum_boxes_wf(m, g);
    }
    let mut regions: Vec<Region> = Vec::new();
    let mut i: usize = 0;
    while i < boxes.len()
        invariant
            m == mask@,
            width == m.width,
            height == m.height,
            boxes_model(boxes@) == bs_final,
            boxes@.len() == bs_final.len(),
            boxes_wf(bs_final),
            i <= boxes@.len(),
            regions@.len() == i,
            forall|j: int|
                0 <= j < i ==> region_matches(#[trigger] regions@[j], bs_final[j], m.width, m.height),
        decreases boxes@.len() - i,
    {
        let b = boxes[i];
        assert(b@ == bs_final[i as int]);
        assert(box_wf(bs_final[i as int]));
        let name = hue_name(b.hue);
        let r = Region {
            name,
            hue: b.hue,
            min_x: world_x(b.min_x, width),
            max_x: world_x(b.max_x, width),
            min_y: world_y(b.max_y, height),
            max_y: world_y(b.min_y, height),
        };
        regions.push(r);
        i = i + 1;
    }
    proof {
        if no_opaque_samples(m, step as int) {
            lemma_accum_boxes_empty(m, g);
        }
    }
    (regions, points)
}

/// Extracts regions and sample points with the default step for the mask's
/// size, `max(1, min(width, height) / 100)`.
pub fn extract_regions(mask: &Mask) -> (out: (Vec<Region>, Vec<SamplePoint>))
    requires
        mask@.wf(),
    ensures
        extraction_post(
            mask@,
            spec_default_step(mask@.width, mask@.height),
            out.0@,
            out.1@,
        ),
        forall|i: int|
            0 <= i < out.0@.len() ==> (#[trigger] out.0@[i]).min_x <= out.0@[i].max_x
                && out.0@[i].min_y <= out.0@[i].max_y,
        no_opaque_samples(mask@, spec_default_step(mask@.width, mask@.height)) ==> out.0@.len()
            == 0 && out.1@.len() == 0,
{
    let step = default_step(mask.width(), mask.height());
    extract_regions_with_step(mask, step)
}

} // verus!
