//! Forest understory shapes: leaf bushes, moss pads on fallen logs and the
//! two-voxel cross-section of fallen trunks.

use vstd::prelude::*;
use rand::rngs::StdRng;
use rand::{Rng, SeedableRng};
use crate::order::{Voxel, strictly_sorted, sort_unique};

verus! {

/// `rand::rngs::StdRng`, carried through opaquely.
#[verifier::external_type_specification]
#[verifier::external_body]
pub struct ExStdRng(StdRng);

/// `SeedableRng::seed_from_u64`: the standard generator seeded from `seed`.
#[verifier::external_body]
fn seeded_rng(seed: u64) -> StdRng {
    StdRng::seed_from_u64(seed)
}

/// `Rng::gen_range` on an inclusive `i32` range: a value in `low ..= high`
/// (it panics on an empty range, which `requires` excludes).
#[verifier::external_body]
fn draw_i32_inclusive(rng: &mut StdRng, low: i32, high: i32) -> (value: i32)
    requires
        low <= high,
    ensures
        low <= value <= high,
{
    rng.gen_range(low..=high)
}

/// `Rng::gen_ratio`: `true` with probability `numerator / denominator`; always `false`
/// for a zero numerator and always `true` when numerator equals denominator. It panics
/// when `numerator > denominator` or `denominator == 0`, which `requires` excludes.
/// (`gen_ratio(n, d)` builds the same Bernoulli threshold as `gen_bool(n as f64 / d as f64)`.)
#[verifier::external_body]
fn draw_ratio(rng: &mut StdRng, numerator: u32, denominator: u32) -> (hit: bool)
    requires
        0 < denominator,
        numerator <= denominator,
    ensures
        numerator == 0 ==> !hit,
        numerator == denominator ==> hit,
{
    rng.gen_ratio(numerator, denominator)
}

/// Chance, in hundredths, that a bush cell is filled (sparse holes).
pub const BUSH_FILL_PERCENT: u32 = 72;
/// Chance, in hundredths, that an upper log face gets a moss pad.
pub const FALLEN_LOG_MOSS_PERCENT: u32 = 55;
/// Offset mixed into the seed of the moss stream.
pub const MOSS_SEED_OFFSET: u64 = 0x4D_05_5E_ED;

/// The cells of `cells` whose flag in `keep` is set, in order.
pub open spec fn select(cells: Seq<Voxel>, keep: Seq<bool>) -> Seq<Voxel>
    decreases cells.len(),
{
    if cells.len() == 0 || keep.len() == 0 {
        Seq::empty()
    } else {
        let rest = select(cells.drop_last(), keep.drop_last());
        if keep.last() {
            rest.push(cells.last())
        } else {
            rest
        }
    }
}

/// Radius of bush layer `y` for a bush of base radius `radius`.
pub open spec fn bush_layer_radius(radius: int, y: int) -> int {
    if radius - y / 2 >= 1 {
        radius - y / 2
    } else {
        1
    }
}

/// `p` is a candidate cell of a bush of the given height and base radius.
pub open spec fn in_bush(height: int, radius: int, p: Voxel) -> bool {
    let r = bush_layer_radius(radius, p.y as int);
    &&& 0 <= p.y <= height
    &&& -r <= p.x <= r
    &&& -r <= p.z <= r
    &&& p.x * p.x + p.z * p.z <= r * r
}

/// Cell `i` of the scan box: layers of `5 × 5` cells, `x` outer, `z` inner, both `-2 ..= 2`.
pub open spec fn box_cell(i: int) -> Voxel {
    Voxel { x: ((i / 5) % 5 - 2) as i32, y: (i / 25) as i32, z: (i % 5 - 2) as i32 }
}

/// Candidate cells of a bush in scan order: layer by layer, then `x`, then `z`.
pub open spec fn bush_candidates(height: int, radius: int) -> Seq<Voxel> {
    Seq::new(((height + 1) * 25) as nat, |i: int| box_cell(i)).filter(
        |p: Voxel| in_bush(height, radius, p),
    )
}

proof fn lemma_select_push(cells: Seq<Voxel>, keep: Seq<bool>, c: Voxel, k: bool)
    ensures
        select(cells.push(c), keep.push(k)) == if k {
            select(cells, keep).push(c)
        } else {
            select(cells, keep)
        },
{
    assert(cells.push(c).drop_last() == cells);
    assert(keep.push(k).drop_last() == keep);
}

/// `voxels` keeps the bush candidates of `height` and `radius` whose flag in `keep` is set.
pub open spec fn bush_drawn(height: int, radius: int, keep: Seq<bool>, voxels: Seq<Voxel>) -> bool {
    &&& 1 <= height <= 2
    &&& 1 <= radius <= 2
    &&& keep.len() == bush_candidates(height, radius).len()
    &&& voxels == select(bush_candidates(height, radius), keep)
}

/// The center cell of bush layer `y`.
pub open spec fn layer_center(y: int) -> Voxel {
    Voxel { x: 0, y: y as i32, z: 0 }
}

proof fn lemma_select_subset(cells: Seq<Voxel>, keep: Seq<bool>, v: Voxel)
    requires
        select(cells, keep).contains(v),
    ensures
        cells.contains(v),
    decreases cells.len(),
{
    if cells.len() > 0 && keep.len() > 0 {
        let rest = select(cells.drop_last(), keep.drop_last());
        if keep.last() && v == cells.last() {
            assert(cells[cells.len() - 1] == v);
        } else {
            if keep.last() {
                let j = choose|j: int| 0 <= j < select(cells, keep).len() && select(cells, keep)[j] == v;
                assert(j < rest.len());
                assert(rest[j] == v);
            }
            lemma_select_subset(cells.drop_last(), keep.drop_last(), v);
            let k = choose|k: int| 0 <= k < cells.drop_last().len() && cells.drop_last()[k] == v;
            assert(cells[k] == v);
        }
    }
}

/// A bush of drawn height `h` spans the layers `0 ..= h`: the center cell `(0, y, 0)` of
/// every layer, the top one included, is a candidate, and every drawn cell lies in the box
/// of `h + 1` layers and half-width 2 above the bush origin.
pub proof fn lemma_bush_spans_its_layers(height: int, radius: int, keep: Seq<bool>, voxels: Seq<Voxel>)
    requires
        1 <= height <= 2,
        1 <= radius <= 2,
    ensures
        forall|y: int| 0 <= y <= height ==> bush_candidates(height, radius).contains(#[trigger] layer_center(y)),
        bush_drawn(height, radius, keep, voxels) ==> forall|v: Voxel| #[trigger] voxels.contains(v)
            ==> 0 <= v.y <= height && -2 <= v.x <= 2 && -2 <= v.z <= 2,
{
    let scan = Seq::new(((height + 1) * 25) as nat, |i: int| box_cell(i));
    let pred = |p: Voxel| in_bush(height, radius, p);
    assert(bush_candidates(height, radius) == scan.filter(pred));
    assert forall|y: int| 0 <= y <= height implies bush_candidates(height, radius).contains(
        #[trigger] layer_center(y),
    ) by {
        let i = 25 * y + 12;
        if y == 0 {
            assert(box_cell(12) == Voxel { x: 0, y: 0, z: 0 });
        } else if y == 1 {
            assert(box_cell(37) == Voxel { x: 0, y: 1, z: 0 });
        } else {
            assert(box_cell(62) == Voxel { x: 0, y: 2, z: 0 });
        }
        assert(scan[i] == Voxel { x: 0, y: y as i32, z: 0 });
        assert(pred(scan[i]));
        scan.lemma_filter_contains(pred, i);
    }
    if bush_drawn(height, radius, keep, voxels) {
        scan.filter_lemma(pred);
        assert forall|v: Voxel| #[trigger] voxels.contains(v) implies 0 <= v.y <= height && -2 <= v.x <= 2 && -2
            <= v.z <= 2 by {
            lemma_select_subset(bush_candidates(height, radius), keep, v);
            let j = choose|j: int| 0 <= j < scan.filter(pred).len() && scan.filter(pred)[j] == v;
            assert(pred(scan.filter(pred)[j]));
            scan.lemma_filter_contains_rev(pred, v);
            let k = choose|k: int| 0 <= k < scan.len() && scan[k] == v;
            assert(scan[k] == box_cell(k));
        }
    }
}

/// The cell at offset `x` along the `x` axis in bush layer `y`.
pub open spec fn layer_edge(x: int, y: int) -> Voxel {
    Voxel { x: x as i32, y: y as i32, z: 0 }
}

/// Width of bush layer `y` for drawn radius `radius`: the radius on the two lowest layers,
/// one voxel on the third.
pub open spec fn layer_width(radius: int, y: int) -> int {
    if y < 2 {
        radius
    } else {
        1
    }
}

/// Bush layers are discs whose radius is the drawn radius on the two lowest layers and one
/// voxel on the third: in layer `y` the cell `w` voxels out along `x` is a candidate and the
/// cell `w + 1` out is not, for `w` that layer's width.
pub proof fn lemma_bush_layer_widths(height: int, radius: int)
    requires
        1 <= height <= 2,
        1 <= radius <= 2,
    ensures
        forall|y: int|
            0 <= y <= height ==> {
                &&& bush_candidates(height, radius).contains(#[trigger] layer_edge(layer_width(radius, y), y))
                &&& !bush_candidates(height, radius).contains(layer_edge(layer_width(radius, y) + 1, y))
            },
{
    let scan = Seq::new(((height + 1) * 25) as nat, |i: int| box_cell(i));
    let pred = |p: Voxel| in_bush(height, radius, p);
    scan.filter_lemma(pred);
    assert forall|y: int| 0 <= y <= height implies {
        &&& bush_candidates(height, radius).contains(#[trigger] layer_edge(layer_width(radius, y), y))
        &&& !bush_candidates(height, radius).contains(layer_edge(layer_width(radius, y) + 1, y))
    } by {
        let w = if y < 2 { radius } else { 1 };
        let i = 25 * y + 5 * (w + 2) + 2;
        assert(0 <= i < scan.len());
        assert(box_cell(i) == layer_edge(w, y)) by {
            assert(i / 25 == y);
            assert((i / 5) % 5 == w + 2);
            assert(i % 5 == 2);
        }
        assert(scan[i] == layer_edge(w, y));
        assert(pred(scan[i])) by {
            assert(w * w <= w * w) by (nonlinear_arith);
        }
        scan.lemma_filter_contains(pred, i);
        if bush_candidates(height, radius).contains(layer_edge(w + 1, y)) {
            let f = scan.filter(pred);
            let j = choose|j: int| 0 <= j < f.len() && f[j] == layer_edge(w + 1, y);
            assert(pred(f[j]));
            assert((w + 1) * (w + 1) > w * w) by (nonlinear_arith)
                requires
                    w >= 1,
            ;
        }
    }
}

/// Irregular leaf cluster (about 1–2 m) relative to the bush origin on the ground.
///
/// Height and base radius are drawn from `1 ..= 2`; each candidate cell, visited in
/// scan order, is kept with probability 72 %.
pub fn bush_cluster_voxels(seed: u64) -> (voxels: Vec<Voxel>)
    ensures
        exists|height: int, radius: int, keep: Seq<bool>| #[trigger] bush_drawn(height, radius, keep, voxels@),
{
    let mut rng = seeded_rng(seed);
    let height = draw_i32_inclusive(&mut rng, 1, 2);
    let radius = draw_i32_inclusive(&mut rng, 1, 2);
    let ghost pred = |p: Voxel| in_bush(height as int, radius as int, p);
    let ghost scan = Seq::new(((height + 1) * 25) as nat, |i: int| box_cell(i));
    let ghost mut keep: Seq<bool> = Seq::empty();
    let mut voxels: Vec<Voxel> = Vec::new();
    let total: i32 = (height + 1) * 25;
    let mut i: i32 = 0;
    while i < total
        invariant
            1 <= height <= 2,
            1 <= radius <= 2,
            total == (height + 1) * 25,
            0 <= i <= total,
            scan == Seq::new(((height + 1) * 25) as nat, |i: int| box_cell(i)),
            pred == (|p: Voxel| in_bush(height as int, radius as int, p)),
            keep.len() == scan.take(i as int).filter(pred).len(),
            voxels@ == select(scan.take(i as int).filter(pred), keep),
        decreases total - i,
    {
        let cell = Voxel { x: (i / 5) % 5 - 2, y: i / 25, z: i % 5 - 2 };
        assert(cell == box_cell(i as int));
        assert(scan.take(i + 1) == scan.take(i as int).push(cell));
        proof {
            scan.take(i as int).lemma_filter_push(cell, pred);
        }
        let y = cell.y;
        assert(-2 <= cell.x <= 2 && -2 <= cell.z <= 2);
        assert(0 <= cell.x * cell.x <= 4) by (nonlinear_arith)
            requires
                -2 <= cell.x <= 2,
        ;
        assert(0 <= cell.z * cell.z <= 4) by (nonlinear_arith)
            requires
                -2 <= cell.z <= 2,
        ;
        let layer = if radius - y / 2 >= 1 { radius - y / 2 } else { 1 };
        assert(1 <= layer <= 2);
        assert(layer * layer <= 4) by (nonlinear_arith)
            requires
                1 <= layer <= 2,
        ;
        let inside = -layer <= cell.x && cell.x <= layer && -layer <= cell.z && cell.z <= layer
            && cell.x * cell.x + cell.z * cell.z <= layer * layer;
        assert(inside == in_bush(height as int, radius as int, cell));
        if inside {
            let hit = draw_ratio(&mut rng, BUSH_FILL_PERCENT, 100);
            proof {
                lemma_select_push(scan.take(i as int).filter(pred), keep, cell, hit);
                keep = keep.push(hit);
            }
            if hit {
                voxels.push(cell);
            }
        }
        i = i + 1;
    }
    assert(scan.take(total as int) == scan);
    assert(bush_drawn(height as int, radius as int, keep, voxels@));
    voxels
}

/// `m` is the moss pad placed on top of log cell `p`.
pub open spec fn moss_above(p: Voxel, m: Voxel) -> bool {
    m.x == p.x && m.y == p.y + 1 && m.z == p.z
}

/// `moss` holds exactly the pads above the log cells with `y >= 1` whose flag in `keep` is set.
pub open spec fn moss_drawn(log: Seq<Voxel>, keep: Seq<bool>, moss: Seq<Voxel>) -> bool {
    &&& keep.len() == log.len()
    &&& forall|m: Voxel|
        #[trigger] moss.contains(m) <==> exists|i: int|
            0 <= i < log.len() && (#[trigger] log[i]).y >= 1 && keep[i] && moss_above(log[i], m)
}

/// Moss pads on the upper face of a fallen log.
///
/// Positions are relative to the same origin as the `log` voxels. Only cells with
/// `y >= 1` are candidates; each one, in order, gets a pad with probability 55 %.
/// The pads are returned sorted by `(x, y, z)` without repetition.
pub fn fallen_log_moss_voxels(seed: u64, log: &[Voxel]) -> (moss: Vec<Voxel>)
    requires
        forall|i: int| 0 <= i < log@.len() && (#[trigger] log@[i]).y >= 1 ==> log@[i].y < i32::MAX,
    ensures
        strictly_sorted(moss@),
        exists|keep: Seq<bool>| #[trigger] moss_drawn(log@, keep, moss@),
{
    let mut rng = seeded_rng(seed.wrapping_add(MOSS_SEED_OFFSET));
    let mut pads: Vec<Voxel> = Vec::new();
    let ghost mut keep: Seq<bool> = Seq::empty();
    let n = log.len();
    for i in 0..n
        invariant
            n == log@.len(),
            forall|k: int| 0 <= k < log@.len() && (#[trigger] log@[k]).y >= 1 ==> log@[k].y < i32::MAX,
            keep.len() == i,
            forall|m: Voxel|
                #[trigger] pads@.contains(m) <==> exists|k: int|
                    0 <= k < i && (#[trigger] log@[k]).y >= 1 && keep[k] && moss_above(log@[k], m),
    {
        let p = log[i];
        let mut hit = false;
        if p.y >= 1 {
            hit = draw_ratio(&mut rng, FALLEN_LOG_MOSS_PERCENT, 100);
        }
        let ghost before = pads@;
        let ghost old_keep = keep;
        proof {
            keep = keep.push(hit);
        }
        if p.y >= 1 && hit {
            pads.push(Voxel { x: p.x, y: p.y + 1, z: p.z });
        }
        proof {
            assert forall|m: Voxel|
                #[trigger] pads@.contains(m) <==> exists|k: int|
                    0 <= k < i + 1 && (#[trigger] log@[k]).y >= 1 && keep[k] && moss_above(log@[k], m) by {
                if pads@.contains(m) {
                    let j = choose|j: int| 0 <= j < pads@.len() && pads@[j] == m;
                    if j < before.len() {
                        assert(before.contains(m));
                        let k = choose|k: int|
                            0 <= k < i && (#[trigger] log@[k]).y >= 1 && old_keep[k] && moss_above(log@[k], m);
                        assert(keep[k] == old_keep[k]);
                    } else {
                        assert(keep[i as int] && moss_above(log@[i as int], m));
                    }
                }
                if exists|k: int| 0 <= k < i + 1 && (#[trigger] log@[k]).y >= 1 && keep[k] && moss_above(log@[k], m) {
                    let k = choose|k: int|
                        0 <= k < i + 1 && (#[trigger] log@[k]).y >= 1 && keep[k] && moss_above(log@[k], m);
                    if k < i {
                        assert(old_keep[k] == keep[k]);
                        assert(before.contains(m));
                        let j = choose|j: int| 0 <= j < before.len() && before[j] == m;
                        assert(pads@[j] == m);
                    } else {
                        assert(pads@[pads@.len() - 1] == m);
                    }
                }
            }
        }
    }
    let moss = sort_unique(&pads);
    assert(moss_drawn(log@, keep, moss@));
    moss
}

/// `p` belongs to the two-voxel-high plus-shaped cross-section stamped at `(cx, cz)`.
pub open spec fn in_log_section(cx: int, cz: int, p: Voxel) -> bool {
    &&& 0 <= p.y <= 1
    &&& (p.z == cz && (p.x == cx || p.x == cx - 1)) || (p.x == cx && (p.z == cz || p.z == cz - 1))
}

/// Trunk voxels of a fallen log whose centerline passes the grid columns `centers`
/// (`(x, z)` pairs): each center gets a 2-high section covering the center and its
/// `-x` and `-z` neighbours. Sorted by `(x, y, z)` without repetition.
pub fn fallen_log_sections(centers: &[(i32, i32)]) -> (voxels: Vec<Voxel>)
    requires
        forall|i: int| 0 <= i < centers@.len() ==> (#[trigger] centers@[i]).0 > i32::MIN && centers@[i].1 > i32::MIN,
    ensures
        strictly_sorted(voxels@),
        forall|p: Voxel|
            #[trigger] voxels@.contains(p) <==> exists|i: int|
                0 <= i < centers@.len() && in_log_section(
                    (#[trigger] centers@[i]).0 as int,
                    centers@[i].1 as int,
                    p,
                ),
{
    let mut raw: Vec<Voxel> = Vec::new();
    let n = centers.len();
    for i in 0..n
        invariant
            n == centers@.len(),
            forall|k: int| 0 <= k < centers@.len() ==> (#[trigger] centers@[k]).0 > i32::MIN && centers@[k].1 > i32::MIN,
            forall|p: Voxel|
                #[trigger] raw@.contains(p) <==> exists|k: int|
                    0 <= k < i && in_log_section((#[trigger] centers@[k]).0 as int, centers@[k].1 as int, p),
    {
        let (cx, cz) = centers[i];
        let ghost before = raw@;
        let mut dy: i32 = 0;
        while dy < 2
            invariant
                0 <= dy <= 2,
                cx > i32::MIN,
                cz > i32::MIN,
                forall|p: Voxel|
                    #[trigger] raw@.contains(p) <==> (before.contains(p) || (in_log_section(cx as int, cz as int, p)
                        && p.y < dy)),
            decreases 2 - dy,
        {
            let ghost at_start = raw@;
            raw.push(Voxel { x: cx - 1, y: dy, z: cz });
            raw.push(Voxel { x: cx, y: dy, z: cz - 1 });
            raw.push(Voxel { x: cx, y: dy, z: cz });
            raw.push(Voxel { x: cx, y: dy, z: cz });
            raw.push(Voxel { x: cx, y: dy, z: cz });
            proof {
                assert forall|p: Voxel|
                    #[trigger] raw@.contains(p) <==> (at_start.contains(p) || (in_log_section(cx as int, cz as int, p)
                        && p.y == dy)) by {
                    if raw@.contains(p) {
                        let j = choose|j: int| 0 <= j < raw@.len() && raw@[j] == p;
                        if j < at_start.len() {
                            assert(at_start[j] == p);
                        }
                    }
                    if at_start.contains(p) {
                        let j = choose|j: int| 0 <= j < at_start.len() && at_start[j] == p;
                        assert(raw@[j] == p);
                    }
                    if in_log_section(cx as int, cz as int, p) && p.y == dy {
                        let base = at_start.len() as int;
                        if p.x == cx - 1 {
                            assert(raw@[base] == p);
                        } else if p.z == cz - 1 {
                            assert(raw@[base + 1] == p);
                        } else {
                            assert(raw@[base + 2] == p);
                        }
                    }
                }
            }
            dy = dy + 1;
        }
        proof {
            assert forall|p: Voxel|
                #[trigger] raw@.contains(p) <==> exists|k: int|
                    0 <= k < i + 1 && in_log_section((#[trigger] centers@[k]).0 as int, centers@[k].1 as int, p) by {
                if exists|k: int| 0 <= k < i + 1 && in_log_section((#[trigger] centers@[k]).0 as int, centers@[k].1 as int, p) {
                    let k = choose|k: int|
                        0 <= k < i + 1 && in_log_section((#[trigger] centers@[k]).0 as int, centers@[k].1 as int, p);
                    if k < i {
                        assert(before.contains(p));
                    }
                }
            }
        }
    }
    sort_unique(&raw)
}

} // verus!
