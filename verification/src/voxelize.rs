//! Thickening of branch skeletons into wood voxels and growth of leaf crowns.
//!
//! A branch skeleton arrives as [`GridSegment`]s: the segment endpoints snapped to
//! the grid, the cross-section radius derived from the branch thickness, the branch
//! depth, and the centerline walked from start to end.

use vstd::prelude::*;
use crate::order::{
    Voxel, voxel_lt, strictly_sorted, sort_unique, contains_sorted, sort_by_position, sorted_by_position,
    at_position, tagged, lemma_at_position_tagged, lemma_at_position_concat,
};

verus! {

/// Block type of tree voxels.
#[derive(Debug, Clone, Copy, PartialEq, Eq, Hash, Structural)]
pub enum BlockType {
    Wood,
    Leaf,
}

/// Cross-section used when thickening line segments into voxels.
#[derive(Debug, Clone, Copy, PartialEq, Eq, Structural)]
pub enum CrossSectionShape {
    Sphere,
    Cube,
}

impl Default for CrossSectionShape {
    fn default() -> (shape: Self)
        ensures
            shape == CrossSectionShape::Cube,
    {
        CrossSectionShape::Cube
    }
}

/// Controls which branch tips receive leaf clusters based on turtle branch depth.
#[derive(Debug, Clone, Copy, PartialEq, Eq, Structural)]
pub struct LeafPlacement {
    /// How many outermost branch-depth levels receive leaves.
    ///
    /// `1` = only tips at the tree's maximum segment depth; `2` = max depth and
    /// one level below (typical crown); larger values widen the leafy region.
    pub crown_levels: u32,
}

impl Default for LeafPlacement {
    fn default() -> (placement: Self)
        ensures
            placement.crown_levels == 2,
    {
        LeafPlacement { crown_levels: 2 }
    }
}

impl LeafPlacement {
    /// Place leaves on every branch tip regardless of depth.
    pub fn all() -> (placement: Self)
        ensures
            placement.crown_levels == u32::MAX,
    {
        LeafPlacement { crown_levels: u32::MAX }
    }
}

/// One branch segment on the voxel grid.
#[derive(Debug)]
pub struct GridSegment {
    /// Start point rounded to the grid.
    pub start: Voxel,
    /// End point rounded to the grid.
    pub end: Voxel,
    /// Cross-section radius: `0` for thickness up to one voxel, else `ceil(thickness / 2)`.
    pub radius: i32,
    /// Branch depth of the turtle state that drew the segment.
    pub depth: u32,
    /// Centerline voxels walked from `start` to `end`.
    pub path: Vec<Voxel>,
}

/// Axis along which a segment mostly runs.
#[derive(Debug, Clone, Copy, PartialEq, Eq, Structural)]
pub enum SegmentAxis {
    X,
    Y,
    Z,
}

pub open spec fn abs(v: int) -> int {
    if v < 0 {
        -v
    } else {
        v
    }
}

/// The dominant axis of a direction; ties prefer Y, then X.
pub open spec fn dominant_axis(dx: int, dy: int, dz: int) -> SegmentAxis {
    if abs(dy) >= abs(dx) && abs(dy) >= abs(dz) {
        SegmentAxis::Y
    } else if abs(dx) >= abs(dz) {
        SegmentAxis::X
    } else {
        SegmentAxis::Z
    }
}

/// The dominant axis of a segment's grid direction.
pub open spec fn segment_axis(s: GridSegment) -> SegmentAxis {
    dominant_axis(s.end.x - s.start.x, s.end.y - s.start.y, s.end.z - s.start.z)
}

/// `p` lies in the ball of radius `r` around `c`.
pub open spec fn in_sphere(c: Voxel, r: int, p: Voxel) -> bool {
    let dx = p.x - c.x;
    let dy = p.y - c.y;
    let dz = p.z - c.z;
    &&& -r <= dx <= r
    &&& -r <= dy <= r
    &&& -r <= dz <= r
    &&& dx * dx + dy * dy + dz * dz <= r * r
}

/// `p` lies in the square of half-size `r` around `c` perpendicular to `axis`.
pub open spec fn in_square(c: Voxel, r: int, axis: SegmentAxis, p: Voxel) -> bool {
    let dx = p.x - c.x;
    let dy = p.y - c.y;
    let dz = p.z - c.z;
    match axis {
        SegmentAxis::Y => dy == 0 && -r <= dx <= r && -r <= dz <= r,
        SegmentAxis::X => dx == 0 && -r <= dy <= r && -r <= dz <= r,
        SegmentAxis::Z => dz == 0 && -r <= dx <= r && -r <= dy <= r,
    }
}

/// `p` belongs to the cross-section placed at centerline voxel `c` of segment `s`.
pub open spec fn in_cross_section(shape: CrossSectionShape, s: GridSegment, c: Voxel, p: Voxel) -> bool {
    match shape {
        CrossSectionShape::Sphere => in_sphere(c, s.radius as int, p),
        CrossSectionShape::Cube => in_square(c, s.radius as int, segment_axis(s), p),
    }
}

/// `p` is covered by the cross-section at some centerline voxel of some segment.
pub open spec fn covered(segments: Seq<GridSegment>, shape: CrossSectionShape, p: Voxel) -> bool {
    exists|i: int, k: int|
        0 <= i < segments.len() && 0 <= k < segments[i].path@.len() && in_cross_section(
            shape,
            segments[i],
            #[trigger] segments[i].path@[k],
            p,
        )
}

/// `c` can be surrounded by a cube of half-size `r` without leaving the `i32` grid.
pub open spec fn fits_grid(c: Voxel, r: int) -> bool {
    &&& 0 <= r
    &&& i32::MIN <= c.x - r && c.x + r <= i32::MAX
    &&& i32::MIN <= c.y - r && c.y + r <= i32::MAX
    &&& i32::MIN <= c.z - r && c.z + r <= i32::MAX
}

/// The difference of two `i32` values neither overflows nor equals `i32::MIN`.
pub open spec fn small_difference(a: i32, b: i32) -> bool {
    i32::MIN < a - b <= i32::MAX
}

/// A segment the voxelizer can process without leaving the `i32` range.
pub open spec fn segment_fits(s: GridSegment) -> bool {
    &&& small_difference(s.end.x, s.start.x)
    &&& small_difference(s.end.y, s.start.y)
    &&& small_difference(s.end.z, s.start.z)
    &&& forall|k: int| 0 <= k < s.path@.len() ==> fits_grid(#[trigger] s.path@[k], s.radius as int)
}

/// The positions of a list of typed voxels.
pub open spec fn positions<B>(s: Seq<(Voxel, B)>) -> Seq<Voxel> {
    s.map_values(|e: (Voxel, B)| e.0)
}

fn dominant_segment_axis(dx: i32, dy: i32, dz: i32) -> (axis: SegmentAxis)
    requires
        dx > i32::MIN,
        dy > i32::MIN,
        dz > i32::MIN,
    ensures
        axis == dominant_axis(dx as int, dy as int, dz as int),
{
    let abs_x = if dx < 0 { -dx } else { dx };
    let abs_y = if dy < 0 { -dy } else { dy };
    let abs_z = if dz < 0 { -dz } else { dz };
    if abs_y >= abs_x && abs_y >= abs_z {
        SegmentAxis::Y
    } else if abs_x >= abs_z {
        SegmentAxis::X
    } else {
        SegmentAxis::Z
    }
}

/// Adds the ball of radius `radius` around `center` (the center alone for radius 0).
fn fill_cross_section_sphere(center: Voxel, radius: i32, voxels: &mut Vec<Voxel>)
    requires
        fits_grid(center, radius as int),
    ensures
        forall|p: Voxel|
            #[trigger] final(voxels)@.contains(p) <==> (old(voxels)@.contains(p) || in_sphere(
                center,
                radius as int,
                p,
            )),
{
    let ghost start = voxels@;
    let r = radius as i64;
    assert(0 <= r * r <= 0x7fff_ffff * 0x7fff_ffff) by (nonlinear_arith)
        requires
            0 <= r <= 0x7fff_ffff,
    ;
    let radius_sq = (r * r) as i128;
    let mut dx: i64 = -r;
    while dx <= r
        invariant
            fits_grid(center, radius as int),
            r == radius,
            radius_sq == radius * radius,
            -r <= dx <= r + 1,
            forall|p: Voxel|
                #[trigger] voxels@.contains(p) <==> (start.contains(p) || (in_sphere(center, radius as int, p)
                    && p.x - center.x < dx)),
        decreases r + 1 - dx,
    {
        let mut dy: i64 = -r;
        while dy <= r
            invariant
                fits_grid(center, radius as int),
                r == radius,
                radius_sq == radius * radius,
                -r <= dx <= r,
                -r <= dy <= r + 1,
                forall|p: Voxel|
                    #[trigger] voxels@.contains(p) <==> (start.contains(p) || (in_sphere(
                        center,
                        radius as int,
                        p,
                    ) && (p.x - center.x < dx || (p.x - center.x == dx && p.y - center.y < dy)))),
            decreases r + 1 - dy,
        {
            let mut dz: i64 = -r;
            while dz <= r
                invariant
                    fits_grid(center, radius as int),
                    r == radius,
                    radius_sq == radius * radius,
                    -r <= dx <= r,
                    -r <= dy <= r,
                    -r <= dz <= r + 1,
                    forall|p: Voxel|
                        #[trigger] voxels@.contains(p) <==> (start.contains(p) || (in_sphere(
                            center,
                            radius as int,
                            p,
                        ) && (p.x - center.x < dx || (p.x - center.x == dx && p.y - center.y < dy)
                            || (p.x - center.x == dx && p.y - center.y == dy && p.z - center.z
                            < dz)))),
                decreases r + 1 - dz,
            {
                assert(0 <= dx * dx <= r * r <= 0x7fff_ffff * 0x7fff_ffff) by (nonlinear_arith)
                    requires
                        -r <= dx <= r,
                        r <= 0x7fff_ffff,
                ;
                assert(0 <= dy * dy <= r * r <= 0x7fff_ffff * 0x7fff_ffff) by (nonlinear_arith)
                    requires
                        -r <= dy <= r,
                        r <= 0x7fff_ffff,
                ;
                assert(0 <= dz * dz <= r * r <= 0x7fff_ffff * 0x7fff_ffff) by (nonlinear_arith)
                    requires
                        -r <= dz <= r,
                        r <= 0x7fff_ffff,
                ;
                let dist_sq = (dx * dx) as i128 + (dy * dy) as i128 + (dz * dz) as i128;
                if dist_sq <= radius_sq {
                    let p = Voxel {
                        x: (center.x as i64 + dx) as i32,
                        y: (center.y as i64 + dy) as i32,
                        z: (center.z as i64 + dz) as i32,
                    };
                    let ghost before = voxels@;
                    voxels.push(p);
                    proof {
                        lemma_contains_push(before, p);
                    }
                }
                dz = dz + 1;
            }
            dy = dy + 1;
        }
        dx = dx + 1;
    }
}

/// Adds the square of half-size `radius` around `center` perpendicular to `axis`.
fn fill_cross_section_cube(center: Voxel, radius: i32, axis: SegmentAxis, voxels: &mut Vec<Voxel>)
    requires
        fits_grid(center, radius as int),
    ensures
        forall|p: Voxel|
            #[trigger] final(voxels)@.contains(p) <==> (old(voxels)@.contains(p) || in_square(
                center,
                radius as int,
                axis,
                p,
            )),
{
    let ghost start = voxels@;
    let r = radius as i64;
    let mut a: i64 = -r;
    while a <= r
        invariant
            fits_grid(center, radius as int),
            r == radius,
            -r <= a <= r + 1,
            forall|p: Voxel|
                #[trigger] voxels@.contains(p) <==> (start.contains(p) || (in_square(
                    center,
                    radius as int,
                    axis,
                    p,
                ) && first_offset(center, axis, p) < a)),
        decreases r + 1 - a,
    {
        let mut b: i64 = -r;
        while b <= r
            invariant
                fits_grid(center, radius as int),
                r == radius,
                -r <= a <= r,
                -r <= b <= r + 1,
                forall|p: Voxel|
                    #[trigger] voxels@.contains(p) <==> (start.contains(p) || (in_square(
                        center,
                        radius as int,
                        axis,
                        p,
                    ) && (first_offset(center, axis, p) < a || (first_offset(center, axis, p) == a
                        && second_offset(center, axis, p) < b)))),
            decreases r + 1 - b,
        {
            let p = match axis {
                SegmentAxis::Y => Voxel {
                    x: (center.x as i64 + a) as i32,
                    y: center.y,
                    z: (center.z as i64 + b) as i32,
                },
                SegmentAxis::X => Voxel {
                    x: center.x,
                    y: (center.y as i64 + a) as i32,
                    z: (center.z as i64 + b) as i32,
                },
                SegmentAxis::Z => Voxel {
                    x: (center.x as i64 + a) as i32,
                    y: (center.y as i64 + b) as i32,
                    z: center.z,
                },
            };
            let ghost before = voxels@;
            voxels.push(p);
            proof {
                lemma_contains_push(before, p);
            }
            b = b + 1;
        }
        a = a + 1;
    }
}

/// Covered by the cross-sections at the first `k` centerline voxels of segment `s`.
pub open spec fn covered_by_path_prefix(shape: CrossSectionShape, s: GridSegment, k: int, p: Voxel) -> bool {
    exists|kk: int| 0 <= kk < k && in_cross_section(shape, s, #[trigger] s.path@[kk], p)
}

/// Adds the cross-section of `segment` at every centerline voxel.
fn fill_segment(segment: &GridSegment, shape: CrossSectionShape, voxels: &mut Vec<Voxel>)
    requires
        segment_fits(*segment),
    ensures
        forall|p: Voxel|
            #[trigger] final(voxels)@.contains(p) <==> (old(voxels)@.contains(p)
                || covered_by_path_prefix(shape, *segment, segment.path@.len() as int, p)),
{
    let ghost start = voxels@;
    let axis = dominant_segment_axis(
        segment.end.x - segment.start.x,
        segment.end.y - segment.start.y,
        segment.end.z - segment.start.z,
    );
    let n = segment.path.len();
    for k in 0..n
        invariant
            n == segment.path@.len(),
            segment_fits(*segment),
            axis == segment_axis(*segment),
            forall|p: Voxel|
                #[trigger] voxels@.contains(p) <==> (start.contains(p) || covered_by_path_prefix(
                    shape,
                    *segment,
                    k as int,
                    p,
                )),
    {
        let center = segment.path[k];
        assert(fits_grid(segment.path@[k as int], segment.radius as int));
        let ghost before = voxels@;
        match shape {
            CrossSectionShape::Sphere => fill_cross_section_sphere(center, segment.radius, voxels),
            CrossSectionShape::Cube => fill_cross_section_cube(center, segment.radius, axis, voxels),
        }
        assert forall|p: Voxel|
            #[trigger] voxels@.contains(p) <==> (start.contains(p) || covered_by_path_prefix(
                shape,
                *segment,
                k + 1,
                p,
            )) by {
            if in_cross_section(shape, *segment, center, p) {
                assert(covered_by_path_prefix(shape, *segment, k + 1, p));
            }
            if covered_by_path_prefix(shape, *segment, k + 1, p) {
                let kk = choose|kk: int|
                    0 <= kk < k + 1 && in_cross_section(shape, *segment, #[trigger] segment.path@[kk], p);
                if kk < k {
                    assert(covered_by_path_prefix(shape, *segment, k as int, p));
                }
            }
        }
    }
}

/// Convert line segments into unique wood voxel positions with an explicit cross-section,
/// sorted by `(x, y, z)`.
pub fn voxelize_with_shape(segments: &[GridSegment], shape: CrossSectionShape) -> (voxels: Vec<(Voxel, BlockType)>)
    requires
        forall|i: int| 0 <= i < segments@.len() ==> segment_fits(#[trigger] segments@[i]),
    ensures
        strictly_sorted(positions(voxels@)),
        forall|i: int| 0 <= i < voxels@.len() ==> (#[trigger] voxels@[i]).1 == BlockType::Wood,
        forall|p: Voxel| #[trigger] positions(voxels@).contains(p) <==> covered(segments@, shape, p),
{
    let mut raw: Vec<Voxel> = Vec::new();
    let n = segments.len();
    for i in 0..n
        invariant
            n == segments@.len(),
            forall|j: int| 0 <= j < segments@.len() ==> segment_fits(#[trigger] segments@[j]),
            forall|p: Voxel|
                #[trigger] raw@.contains(p) <==> covered(segments@.take(i as int), shape, p),
    {
        let ghost before = raw@;
        assert(segment_fits(segments@[i as int]));
        fill_segment(&segments[i], shape, &mut raw);
        assert forall|p: Voxel|
            #[trigger] raw@.contains(p) <==> covered(segments@.take(i + 1), shape, p) by {
            let prefix = segments@.take(i as int);
            let next = segments@.take(i + 1);
            if covered_by_path_prefix(shape, segments@[i as int], segments@[i as int].path@.len() as int, p) {
                let kk = choose|kk: int|
                    0 <= kk < segments@[i as int].path@.len() && in_cross_section(
                        shape,
                        segments@[i as int],
                        #[trigger] segments@[i as int].path@[kk],
                        p,
                    );
                assert(next[i as int] == segments@[i as int]);
                assert(in_cross_section(shape, next[i as int], next[i as int].path@[kk], p));
            }
            if covered(prefix, shape, p) {
                let (ii, kk) = choose|ii: int, kk: int|
                    0 <= ii < prefix.len() && 0 <= kk < prefix[ii].path@.len() && in_cross_section(
                        shape,
                        prefix[ii],
                        #[trigger] prefix[ii].path@[kk],
                        p,
                    );
                assert(next[ii] == prefix[ii]);
                assert(in_cross_section(shape, next[ii], next[ii].path@[kk], p));
            }
            if covered(next, shape, p) {
                let (ii, kk) = choose|ii: int, kk: int|
                    0 <= ii < next.len() && 0 <= kk < next[ii].path@.len() && in_cross_section(
                        shape,
                        next[ii],
                        #[trigger] next[ii].path@[kk],
                        p,
                    );
                if ii < i {
                    assert(prefix[ii] == next[ii]);
                    assert(in_cross_section(shape, prefix[ii], prefix[ii].path@[kk], p));
                } else {
                    assert(next[ii] == segments@[i as int]);
                    assert(covered_by_path_prefix(
                        shape,
                        segments@[i as int],
                        segments@[i as int].path@.len() as int,
                        p,
                    ));
                }
            }
        }
    }
    assert(segments@.take(n as int) == segments@);
    let sorted = sort_unique(&raw);
    let mut voxels: Vec<(Voxel, BlockType)> = Vec::new();
    let m = sorted.len();
    for i in 0..m
        invariant
            m == sorted@.len(),
            voxels@.len() == i,
            forall|j: int| 0 <= j < i ==> (#[trigger] voxels@[j]) == (sorted@[j], BlockType::Wood),
    {
        voxels.push((sorted[i], BlockType::Wood));
    }
    assert(positions(voxels@) == sorted@);
    voxels
}

/// Convert line segments into unique wood voxel positions using [`CrossSectionShape::Cube`].
pub fn voxelize(segments: &[GridSegment]) -> (voxels: Vec<(Voxel, BlockType)>)
    requires
        forall|i: int| 0 <= i < segments@.len() ==> segment_fits(#[trigger] segments@[i]),
    ensures
        strictly_sorted(positions(voxels@)),
        forall|i: int| 0 <= i < voxels@.len() ==> (#[trigger] voxels@[i]).1 == BlockType::Wood,
        forall|p: Voxel|
            #[trigger] positions(voxels@).contains(p) <==> covered(segments@, CrossSectionShape::Cube, p),
{
    voxelize_with_shape(segments, CrossSectionShape::default())
}

/// Extra voxels beyond the branch cross-section for a voluminous leaf crown.
pub const LEAF_CROWN_EXTENSION: i32 = 3;

/// Deepest branch depth among the segments (`0` without segments).
pub open spec fn max_depth(segments: Seq<GridSegment>) -> nat
    decreases segments.len(),
{
    if segments.len() == 0 {
        0
    } else {
        let rest = max_depth(segments.drop_last());
        if segments.last().depth as nat > rest {
            segments.last().depth as nat
        } else {
            rest
        }
    }
}

pub open spec fn saturating_sub(a: int, b: int) -> int {
    if a >= b {
        a - b
    } else {
        0
    }
}

/// Smallest branch depth whose tips still receive leaves.
pub open spec fn min_leaf_depth_spec(segments: Seq<GridSegment>, placement: LeafPlacement) -> int {
    saturating_sub(max_depth(segments) as int, saturating_sub(placement.crown_levels as int, 1))
}

/// Some segment starts at `p`.
pub open spec fn starts_at(segments: Seq<GridSegment>, p: Voxel) -> bool {
    exists|i: int| 0 <= i < segments.len() && (#[trigger] segments[i]).start == p
}

/// Segment `i` ends at a branch tip (no segment starts at its end) deep enough for leaves.
pub open spec fn is_leafy_tip(segments: Seq<GridSegment>, placement: LeafPlacement, i: int) -> bool {
    &&& !starts_at(segments, segments[i].end)
    &&& segments[i].depth >= min_leaf_depth_spec(segments, placement)
}

/// Radius of the leaf cluster grown at a tip whose segment has cross-section radius `r`.
pub open spec fn leaf_radius(r: int) -> int {
    r + LEAF_CROWN_EXTENSION
}

/// `p` lies in the leaf cluster of one of the first `n` segments.
pub open spec fn in_crown_prefix(segments: Seq<GridSegment>, placement: LeafPlacement, n: int, p: Voxel) -> bool {
    exists|i: int|
        0 <= i < n && is_leafy_tip(segments, placement, i) && in_sphere(
            (#[trigger] segments[i]).end,
            leaf_radius(segments[i].radius as int),
            p,
        )
}

/// `p` lies in the leaf cluster of some leafy branch tip.
pub open spec fn in_crown(segments: Seq<GridSegment>, placement: LeafPlacement, p: Voxel) -> bool {
    in_crown_prefix(segments, placement, segments.len() as int, p)
}

/// `p` receives a leaf voxel: it is in the crown and not taken by wood.
pub open spec fn leaf_at(
    wood: Seq<(Voxel, BlockType)>,
    segments: Seq<GridSegment>,
    placement: LeafPlacement,
    p: Voxel,
) -> bool {
    in_crown(segments, placement, p) && !positions(wood).contains(p)
}

/// A cube cross-section is a square perpendicular to the direction in which the segment
/// mostly runs: for a segment dominated by `x` every voxel of the square at centerline voxel
/// `c` has `x == c.x` (likewise `y` for `y`-dominated and `z` for `z`-dominated segments,
/// ties going to `y`, then `x`), and the square covers every offset up to the radius in the
/// two other axes.
pub proof fn lemma_cube_section_is_perpendicular(s: GridSegment, c: Voxel, p: Voxel)
    ensures
        ({
            let dx = s.end.x - s.start.x;
            let dy = s.end.y - s.start.y;
            let dz = s.end.z - s.start.z;
            let r = s.radius as int;
            let near = |a: int, b: int| -r <= a - b <= r;
            &&& abs(dx) > abs(dy) && abs(dx) >= abs(dz) ==> (in_cross_section(CrossSectionShape::Cube, s, c, p)
                <==> (p.x == c.x && near(p.y as int, c.y as int) && near(p.z as int, c.z as int)))
            &&& abs(dy) >= abs(dx) && abs(dy) >= abs(dz) ==> (in_cross_section(CrossSectionShape::Cube, s, c, p)
                <==> (p.y == c.y && near(p.x as int, c.x as int) && near(p.z as int, c.z as int)))
            &&& abs(dz) > abs(dx) && abs(dz) > abs(dy) ==> (in_cross_section(CrossSectionShape::Cube, s, c, p)
                <==> (p.z == c.z && near(p.x as int, c.x as int) && near(p.y as int, c.y as int)))
        }),
{
}

/// Exactly `crown_levels` branch-depth levels are leafy, counted down from the deepest
/// segment: with one level only the deepest tips get leaves, and when more levels are asked
/// for than the tree has, every depth is leafy. (Zero levels behaves like one.)
pub proof fn lemma_leafy_depth_levels(segments: Seq<GridSegment>, placement: LeafPlacement)
    ensures
        0 <= min_leaf_depth_spec(segments, placement) <= max_depth(segments),
        placement.crown_levels <= 1 ==> min_leaf_depth_spec(segments, placement) == max_depth(segments),
        1 <= placement.crown_levels <= max_depth(segments) + 1 ==> max_depth(segments)
            - min_leaf_depth_spec(segments, placement) + 1 == placement.crown_levels,
        placement.crown_levels > max_depth(segments) + 1 ==> min_leaf_depth_spec(segments, placement) == 0,
{
}

/// Wood takes precedence: a position already holding wood never receives a leaf, so
/// [`add_leaves`] leaves the voxels at every wood position exactly as they were.
pub proof fn lemma_wood_takes_precedence(
    wood: Seq<(Voxel, BlockType)>,
    segments: Seq<GridSegment>,
    placement: LeafPlacement,
    p: Voxel,
)
    requires
        positions(wood).contains(p),
    ensures
        !leaf_at(wood, segments, placement, p),
{
}

/// Every leafy tip can grow its cluster without leaving the `i32` grid.
pub open spec fn crowns_fit(segments: Seq<GridSegment>, placement: LeafPlacement) -> bool {
    forall|i: int|
        0 <= i < segments.len() && is_leafy_tip(segments, placement, i) ==> {
            &&& (#[trigger] segments[i]).radius <= i32::MAX - LEAF_CROWN_EXTENSION
            &&& fits_grid(segments[i].end, leaf_radius(segments[i].radius as int))
        }
}

/// Leaf cluster radius for a branch of cross-section radius `branch_radius`.
pub fn leaf_cluster_radius(branch_radius: i32) -> (r: i32)
    requires
        branch_radius <= i32::MAX - LEAF_CROWN_EXTENSION,
    ensures
        r == leaf_radius(branch_radius as int),
{
    branch_radius + LEAF_CROWN_EXTENSION
}

/// Deepest branch depth among the segments.
pub fn max_segment_depth(segments: &[GridSegment]) -> (depth: u32)
    ensures
        depth == max_depth(segments@),
{
    let mut depth: u32 = 0;
    let n = segments.len();
    for i in 0..n
        invariant
            n == segments@.len(),
            depth == max_depth(segments@.take(i as int)),
    {
        assert(segments@.take(i + 1).drop_last() == segments@.take(i as int));
        if segments[i].depth > depth {
            depth = segments[i].depth;
        }
    }
    assert(segments@.take(n as int) == segments@);
    depth
}

/// Smallest branch depth whose tips receive leaves: the maximum depth minus
/// `crown_levels - 1`, both subtractions saturating at zero.
pub fn min_leaf_depth(segments: &[GridSegment], placement: LeafPlacement) -> (depth: u32)
    ensures
        depth == min_leaf_depth_spec(segments@, placement),
{
    let max_depth = max_segment_depth(segments);
    let levels = if placement.crown_levels >= 1 { placement.crown_levels - 1 } else { 0 };
    if max_depth >= levels { max_depth - levels } else { 0 }
}

/// The positions of a typed voxel list, in order.
fn position_list(voxels: &[(Voxel, BlockType)]) -> (out: Vec<Voxel>)
    ensures
        out@ == positions(voxels@),
{
    let mut out: Vec<Voxel> = Vec::new();
    let n = voxels.len();
    for i in 0..n
        invariant
            n == voxels@.len(),
            out@ == positions(voxels@.take(i as int)),
    {
        assert(voxels@.take(i + 1) == voxels@.take(i as int).push(voxels@[i as int]));
        out.push(voxels[i].0);
    }
    assert(voxels@.take(n as int) == voxels@);
    out
}

/// Extend a wood voxel list with leaf clusters at branch tips.
///
/// A branch tip is a segment end that is not the start of another segment. Only tips
/// whose segment depth reaches [`min_leaf_depth`] are leafy. The leaf radius is the
/// segment's cross-section radius plus [`LEAF_CROWN_EXTENSION`]. Wood positions take
/// precedence: leaves are never placed on existing wood. The result is sorted by
/// position; entries at one position keep the order they had.
pub fn add_leaves(
    wood_voxels: &[(Voxel, BlockType)],
    segments: &[GridSegment],
    placement: LeafPlacement,
) -> (voxels: Vec<(Voxel, BlockType)>)
    requires
        crowns_fit(segments@, placement),
    ensures
        sorted_by_position(voxels@),
        forall|p: Voxel|
            #[trigger] at_position(voxels@, p) == at_position(wood_voxels@, p) + if leaf_at(
                wood_voxels@,
                segments@,
                placement,
                p,
            ) {
                seq![(p, BlockType::Leaf)]
            } else {
                Seq::<(Voxel, BlockType)>::empty()
            },
{
    let wood_positions = sort_unique(&position_list(wood_voxels));
    let n = segments.len();
    let mut start_list: Vec<Voxel> = Vec::new();
    for i in 0..n
        invariant
            n == segments@.len(),
            start_list@.len() == i,
            forall|j: int| 0 <= j < i ==> (#[trigger] start_list@[j]) == segments@[j].start,
    {
        start_list.push(segments[i].start);
    }
    let starts = sort_unique(&start_list);
    assert forall|p: Voxel| starts@.contains(p) <==> starts_at(segments@, p) by {
        if start_list@.contains(p) {
            let j = choose|j: int| 0 <= j < start_list@.len() && start_list@[j] == p;
            assert(segments@[j].start == p);
        }
        if starts_at(segments@, p) {
            let j = choose|j: int| 0 <= j < segments@.len() && (#[trigger] segments@[j]).start == p;
            assert(start_list@[j] == p);
        }
    }
    let min_depth = min_leaf_depth(segments, placement);

    let mut crown: Vec<Voxel> = Vec::new();
    for i in 0..n
        invariant
            n == segments@.len(),
            crowns_fit(segments@, placement),
            min_depth == min_leaf_depth_spec(segments@, placement),
            strictly_sorted(starts@),
            forall|p: Voxel| starts@.contains(p) <==> starts_at(segments@, p),
            forall|p: Voxel|
                #[trigger] crown@.contains(p) <==> in_crown_prefix(segments@, placement, i as int, p),
    {
        let segment = &segments[i];
        let ghost before = crown@;
        if !contains_sorted(&starts, &segment.end) && segment.depth >= min_depth {
            assert(is_leafy_tip(segments@, placement, i as int));
            let radius = leaf_cluster_radius(segment.radius);
            fill_cross_section_sphere(segment.end, radius, &mut crown);
        }
        assert forall|p: Voxel|
            #[trigger] crown@.contains(p) <==> in_crown_prefix(segments@, placement, i + 1, p) by {
            if in_crown_prefix(segments@, placement, i + 1, p) {
                let j = choose|j: int|
                    0 <= j < i + 1 && is_leafy_tip(segments@, placement, j) && in_sphere(
                        (#[trigger] segments@[j]).end,
                        leaf_radius(segments@[j].radius as int),
                        p,
                    );
                if j < i {
                    assert(in_crown_prefix(segments@, placement, i as int, p));
                }
            }
            if in_crown_prefix(segments@, placement, i as int, p) {
                let j = choose|j: int|
                    0 <= j < i && is_leafy_tip(segments@, placement, j) && in_sphere(
                        (#[trigger] segments@[j]).end,
                        leaf_radius(segments@[j].radius as int),
                        p,
                    );
                assert(0 <= j < i + 1);
            }
        }
    }

    let mut kept: Vec<Voxel> = Vec::new();
    let m = crown.len();
    for k in 0..m
        invariant
            m == crown@.len(),
            strictly_sorted(wood_positions@),
            forall|p: Voxel| wood_positions@.contains(p) <==> positions(wood_voxels@).contains(p),
            forall|p: Voxel|
                #[trigger] kept@.contains(p) <==> (crown@.take(k as int).contains(p)
                    && !positions(wood_voxels@).contains(p)),
    {
        let p = crown[k];
        let ghost before = kept@;
        assert(crown@.take(k + 1) == crown@.take(k as int).push(p));
        proof {
            lemma_contains_push(crown@.take(k as int), p);
        }
        if !contains_sorted(&wood_positions, &p) {
            kept.push(p);
            proof {
                lemma_contains_push(before, p);
            }
        }
    }
    assert(crown@.take(m as int) == crown@);
    let leaves = sort_unique(&kept);

    let mut combined: Vec<(Voxel, BlockType)> = Vec::new();
    let w = wood_voxels.len();
    for i in 0..w
        invariant
            w == wood_voxels@.len(),
            combined@ == wood_voxels@.take(i as int),
    {
        assert(wood_voxels@.take(i + 1) == wood_voxels@.take(i as int).push(wood_voxels@[i as int]));
        combined.push(wood_voxels[i]);
    }
    assert(wood_voxels@.take(w as int) == wood_voxels@);
    let l = leaves.len();
    for i in 0..l
        invariant
            l == leaves@.len(),
            combined@ == wood_voxels@ + tagged(leaves@.take(i as int), BlockType::Leaf),
    {
        assert(tagged(leaves@.take(i + 1), BlockType::Leaf) == tagged(leaves@.take(i as int), BlockType::Leaf).push(
            (leaves@[i as int], BlockType::Leaf),
        ));
        combined.push((leaves[i], BlockType::Leaf));
    }
    assert(leaves@.take(l as int) == leaves@);
    let voxels = sort_by_position(&combined);
    assert forall|p: Voxel|
        #[trigger] at_position(voxels@, p) == at_position(wood_voxels@, p) + if leaf_at(
            wood_voxels@,
            segments@,
            placement,
            p,
        ) {
            seq![(p, BlockType::Leaf)]
        } else {
            Seq::<(Voxel, BlockType)>::empty()
        } by {
        lemma_at_position_concat(wood_voxels@, tagged(leaves@, BlockType::Leaf), p);
        lemma_at_position_tagged(leaves@, BlockType::Leaf, p);
    }
    voxels
}

/// First free coordinate offset of `p` from `c` in a square perpendicular to `axis`.
pub open spec fn first_offset(c: Voxel, axis: SegmentAxis, p: Voxel) -> int {
    match axis {
        SegmentAxis::Y => p.x - c.x,
        SegmentAxis::X => p.y - c.y,
        SegmentAxis::Z => p.x - c.x,
    }
}

/// Second free coordinate offset of `p` from `c` in a square perpendicular to `axis`.
pub open spec fn second_offset(c: Voxel, axis: SegmentAxis, p: Voxel) -> int {
    match axis {
        SegmentAxis::Y => p.z - c.z,
        SegmentAxis::X => p.z - c.z,
        SegmentAxis::Z => p.y - c.y,
    }
}

proof fn lemma_contains_push<A>(s: Seq<A>, e: A)
    ensures
        forall|p: A| #[trigger] s.push(e).contains(p) <==> (s.contains(p) || p == e),
{
    assert forall|p: A| #[trigger] s.push(e).contains(p) <==> (s.contains(p) || p == e) by {
        if s.contains(p) {
            let k = choose|k: int| 0 <= k < s.len() && s[k] == p;
            assert(s.push(e)[k] == p);
        }
        if p == e {
            assert(s.push(e)[s.len() as int] == p);
        }
        if s.push(e).contains(p) {
            let k = choose|k: int| 0 <= k < s.len() + 1 && s.push(e)[k] == p;
            if k < s.len() {
                assert(s[k] == p);
            }
        }
    }
}

} // verus!
