//! Connectivity post-process of rock clumps: only the largest 6-connected
//! component of the sampled stone voxels is kept, so placement never emits islands.

use vstd::prelude::*;
use crate::order::{
    Voxel, voxel_lt, strictly_sorted, sort_unique, index_of_sorted, lemma_strictly_sorted_no_duplicates,
};

verus! {

/// Block type of rock voxels.
#[derive(Debug, Clone, Copy, PartialEq, Eq, Hash, Structural)]
pub enum BlockType {
    Stone,
}

/// Face neighbours: positions at Manhattan distance 1.
pub open spec fn adjacent(a: Voxel, b: Voxel) -> bool {
    let dx = a.x - b.x;
    let dy = a.y - b.y;
    let dz = a.z - b.z;
    ||| (dx == 1 || dx == -1) && dy == 0 && dz == 0
    ||| dx == 0 && (dy == 1 || dy == -1) && dz == 0
    ||| dx == 0 && dy == 0 && (dz == 1 || dz == -1)
}

/// A non-empty walk through `cells` in steps between face neighbours.
pub open spec fn is_path(cells: Set<Voxel>, path: Seq<Voxel>) -> bool {
    &&& path.len() >= 1
    &&& forall|i: int| 0 <= i < path.len() ==> cells.contains(#[trigger] path[i])
    &&& forall|i: int| 0 <= i < path.len() - 1 ==> adjacent(#[trigger] path[i], path[i + 1])
}

/// `b` can be reached from `a` through `cells` (6-connectivity).
pub open spec fn linked(cells: Set<Voxel>, a: Voxel, b: Voxel) -> bool {
    exists|path: Seq<Voxel>| is_path(cells, path) && path[0] == a && path.last() == b
}

/// The 6-connected component of `s` within `cells`.
pub open spec fn component(cells: Set<Voxel>, s: Voxel) -> Set<Voxel> {
    Set::new(|b: Voxel| linked(cells, s, b))
}

/// The positions of a list of rock voxels, as a set.
pub open spec fn cell_set(voxels: Seq<(Voxel, BlockType)>) -> Set<Voxel> {
    Set::new(|p: Voxel| exists|i: int| 0 <= i < voxels.len() && (#[trigger] voxels[i]).0 == p)
}

/// Every position has all six face neighbours on the `i32` grid.
pub open spec fn interior(p: Voxel) -> bool {
    &&& i32::MIN < p.x < i32::MAX
    &&& i32::MIN < p.y < i32::MAX
    &&& i32::MIN < p.z < i32::MAX
}

pub proof fn lemma_linked_refl(cells: Set<Voxel>, a: Voxel)
    requires
        cells.contains(a),
    ensures
        linked(cells, a, a),
{
    let path = seq![a];
    assert(is_path(cells, path));
    assert(path[0] == a && path.last() == a);
}

pub proof fn lemma_linked_step(cells: Set<Voxel>, a: Voxel, b: Voxel, c: Voxel)
    requires
        linked(cells, a, b),
        cells.contains(c),
        adjacent(b, c),
    ensures
        linked(cells, a, c),
{
    let path = choose|path: Seq<Voxel>| is_path(cells, path) && path[0] == a && path.last() == b;
    let longer = path.push(c);
    assert forall|i: int| 0 <= i < longer.len() - 1 implies adjacent(#[trigger] longer[i], longer[i + 1]) by {
        if i < path.len() - 1 {
            assert(longer[i] == path[i] && longer[i + 1] == path[i + 1]);
        }
    }
    assert(is_path(cells, longer));
    assert(longer[0] == a && longer.last() == c);
}

/// Linking is symmetric: a walk can be taken backwards.
pub proof fn lemma_linked_symmetric(cells: Set<Voxel>, a: Voxel, b: Voxel)
    requires
        linked(cells, a, b),
    ensures
        linked(cells, b, a),
{
    let path = choose|path: Seq<Voxel>| is_path(cells, path) && path[0] == a && path.last() == b;
    let back = path.reverse();
    assert forall|i: int| 0 <= i < back.len() implies cells.contains(#[trigger] back[i]) by {
        assert(back[i] == path[path.len() - 1 - i]);
    }
    assert forall|i: int| 0 <= i < back.len() - 1 implies adjacent(#[trigger] back[i], back[i + 1]) by {
        let j = path.len() - 2 - i;
        assert(back[i] == path[j + 1] && back[i + 1] == path[j]);
        assert(adjacent(path[j], path[j + 1]));
    }
    assert(back[0] == b);
    assert(back.last() == path[0]);
    assert(is_path(cells, back));
}

/// Linking is transitive: walks can be joined.
pub proof fn lemma_linked_transitive(cells: Set<Voxel>, a: Voxel, b: Voxel, c: Voxel)
    requires
        linked(cells, a, b),
        linked(cells, b, c),
    ensures
        linked(cells, a, c),
{
    let p1 = choose|path: Seq<Voxel>| is_path(cells, path) && path[0] == a && path.last() == b;
    let p2 = choose|path: Seq<Voxel>| is_path(cells, path) && path[0] == b && path.last() == c;
    let joined = p1.drop_last() + p2;
    let k = p1.len() - 1;
    assert forall|i: int| 0 <= i < joined.len() implies cells.contains(#[trigger] joined[i]) by {
        if i < k {
            assert(joined[i] == p1[i]);
        } else {
            assert(joined[i] == p2[i - k]);
        }
    }
    assert forall|i: int| 0 <= i < joined.len() - 1 implies adjacent(#[trigger] joined[i], joined[i + 1]) by {
        if i < k - 1 {
            assert(joined[i] == p1[i] && joined[i + 1] == p1[i + 1]);
        } else if i == k - 1 {
            assert(joined[i] == p1[i] && joined[i + 1] == p2[0]);
            assert(adjacent(p1[k - 1], p1[k]));
        } else {
            assert(joined[i] == p2[i - k] && joined[i + 1] == p2[i - k + 1]);
        }
    }
    if k == 0 {
        assert(joined == p2);
    } else {
        assert(joined[0] == p1[0]);
    }
    assert(joined.last() == p2.last());
    assert(is_path(cells, joined));
}

/// Linked positions have the same component.
pub proof fn lemma_same_component(cells: Set<Voxel>, s: Voxel, t: Voxel)
    requires
        linked(cells, s, t),
    ensures
        component(cells, s) == component(cells, t),
{
    assert forall|b: Voxel| component(cells, s).contains(b) <==> component(cells, t).contains(b) by {
        lemma_linked_symmetric(cells, s, t);
        if linked(cells, s, b) {
            lemma_linked_transitive(cells, t, s, b);
        }
        if linked(cells, t, b) {
            lemma_linked_transitive(cells, s, t, b);
        }
    }
    assert(component(cells, s) =~= component(cells, t));
}

/// `closed` holds every face neighbour in `cells` of each of its members.
pub open spec fn closed_under(cells: Set<Voxel>, closed: Set<Voxel>) -> bool {
    forall|x: Voxel, y: Voxel|
        #![trigger closed.contains(x), adjacent(x, y)]
        closed.contains(x) && cells.contains(y) && adjacent(x, y) ==> closed.contains(y)
}

proof fn lemma_closed_path_prefix(cells: Set<Voxel>, closed: Set<Voxel>, path: Seq<Voxel>, i: int)
    requires
        is_path(cells, path),
        closed.contains(path[0]),
        closed_under(cells, closed),
        0 <= i < path.len(),
    ensures
        closed.contains(path[i]),
    decreases i,
{
    if i > 0 {
        lemma_closed_path_prefix(cells, closed, path, i - 1);
        assert(adjacent(path[i - 1], path[i]));
        assert(cells.contains(path[i]));
    }
}

/// A set that contains `s` and is closed under face neighbours within `cells`
/// contains the whole component of `s`.
pub proof fn lemma_closed_contains_component(cells: Set<Voxel>, closed: Set<Voxel>, s: Voxel, b: Voxel)
    requires
        closed.contains(s),
        closed_under(cells, closed),
        linked(cells, s, b),
    ensures
        closed.contains(b),
{
    let path = choose|path: Seq<Voxel>| is_path(cells, path) && path[0] == s && path.last() == b;
    lemma_closed_path_prefix(cells, closed, path, path.len() - 1);
}

/// The `d`-th face neighbour of `p` (`+x, -x, +y, -y, +z, -z`).
pub open spec fn neighbour(p: Voxel, d: int) -> Voxel {
    if d == 0 {
        Voxel { x: (p.x + 1) as i32, y: p.y, z: p.z }
    } else if d == 1 {
        Voxel { x: (p.x - 1) as i32, y: p.y, z: p.z }
    } else if d == 2 {
        Voxel { x: p.x, y: (p.y + 1) as i32, z: p.z }
    } else if d == 3 {
        Voxel { x: p.x, y: (p.y - 1) as i32, z: p.z }
    } else if d == 4 {
        Voxel { x: p.x, y: p.y, z: (p.z + 1) as i32 }
    } else {
        Voxel { x: p.x, y: p.y, z: (p.z - 1) as i32 }
    }
}

proof fn lemma_adjacent_is_neighbour(p: Voxel, q: Voxel)
    requires
        adjacent(p, q),
    ensures
        exists|d: int| 0 <= d < 6 && q == #[trigger] neighbour(p, d),
{
    if q.x == p.x + 1 {
        assert(q == neighbour(p, 0));
    } else if q.x == p.x - 1 {
        assert(q == neighbour(p, 1));
    } else if q.y == p.y + 1 {
        assert(q == neighbour(p, 2));
    } else if q.y == p.y - 1 {
        assert(q == neighbour(p, 3));
    } else if q.z == p.z + 1 {
        assert(q == neighbour(p, 4));
    } else {
        assert(q == neighbour(p, 5));
    }
}

fn neighbour_exec(p: Voxel, d: usize) -> (q: Voxel)
    requires
        interior(p),
        d < 6,
    ensures
        q == neighbour(p, d as int),
        adjacent(p, q),
{
    if d == 0 {
        Voxel { x: p.x + 1, y: p.y, z: p.z }
    } else if d == 1 {
        Voxel { x: p.x - 1, y: p.y, z: p.z }
    } else if d == 2 {
        Voxel { x: p.x, y: p.y + 1, z: p.z }
    } else if d == 3 {
        Voxel { x: p.x, y: p.y - 1, z: p.z }
    } else if d == 4 {
        Voxel { x: p.x, y: p.y, z: p.z + 1 }
    } else {
        Voxel { x: p.x, y: p.y, z: p.z - 1 }
    }
}

/// Labels `< unset` are finished components, each closed under face neighbours.
pub open spec fn labels_closed(u: Seq<Voxel>, label: Seq<usize>, unset: usize) -> bool {
    forall|i: int, j: int|
        #![trigger label[i], label[j], adjacent(u[i], u[j])]
        0 <= i < u.len() && 0 <= j < u.len() && label[i] != unset && label[i] < unset
            && adjacent(u[i], u[j]) ==> label[j] == label[i]
}

/// Labels the component of `u[start]` with `c`; returns its size.
fn flood_fill(u: &Vec<Voxel>, label: &mut Vec<usize>, start: usize, c: usize) -> (size: usize)
    requires
        strictly_sorted(u@),
        forall|k: int| 0 <= k < u@.len() ==> interior(#[trigger] u@[k]),
        old(label)@.len() == u@.len(),
        start < u@.len(),
        old(label)@[start as int] == u@.len(),
        c < u@.len(),
        forall|i: int| 0 <= i < u@.len() ==> (#[trigger] old(label)@[i] == u@.len() || old(label)@[i] < c),
        labels_closed(u@, old(label)@, u@.len() as usize),
    ensures
        final(label)@.len() == u@.len(),
        forall|i: int|
            0 <= i < u@.len() && old(label)@[i] != u@.len() ==> #[trigger] final(label)@[i] == old(label)@[i],
        forall|i: int|
            0 <= i < u@.len() && old(label)@[i] == u@.len() ==> (#[trigger] final(label)@[i] == c
                || final(label)@[i] == u@.len()),
        forall|i: int|
            0 <= i < u@.len() ==> (#[trigger] final(label)@[i] == c <==> linked(
                u@.to_set(),
                u@[start as int],
                u@[i],
            )),
        component(u@.to_set(), u@[start as int]).finite(),
        size == component(u@.to_set(), u@[start as int]).len(),
        labels_closed(u@, final(label)@, u@.len() as usize),
{
    let n = u.len();
    let ghost cells = u@.to_set();
    let ghost first = u@[start as int];
    let ghost old_label = label@;
    proof {
        lemma_linked_refl(cells, first);
    }
    label.set(start, c);
    let mut queue: Vec<usize> = Vec::new();
    queue.push(start);
    let ghost mut found: Set<Voxel> = Set::empty().insert(first);
    let mut head: usize = 0;
    proof {
        assert(u@[queue@[0] as int] == first);
        assert forall|v: Voxel|
            #[trigger] found.contains(v) <==> exists|k: int| 0 <= k < queue@.len() && u@[#[trigger] queue@[k] as int] == v by {
            if found.contains(v) {
                assert(u@[queue@[0] as int] == v);
            }
        }
        assert forall|i: int| 0 <= i < n implies (#[trigger] label@[i] == c <==> found.contains(u@[i])) by {
            if i != start && u@[i] == first {
                if i < start {
                    assert(voxel_lt(u@[i], u@[start as int]));
                } else {
                    assert(voxel_lt(u@[start as int], u@[i]));
                }
            }
        }
    }
    while head < queue.len()
        invariant
            queue@.len() >= 1,
            queue@[0] == start,
            queue@.len() <= n,
            found.subset_of(cells),
            n == u@.len(),
            cells == u@.to_set(),
            first == u@[start as int],
            strictly_sorted(u@),
            forall|k: int| 0 <= k < n ==> interior(#[trigger] u@[k]),
            label@.len() == n,
            c < n,
            start < n,
            forall|i: int| 0 <= i < n && old_label[i] != n ==> #[trigger] label@[i] == old_label[i],
            forall|i: int| 0 <= i < n && old_label[i] == n ==> (#[trigger] label@[i] == c || label@[i] == n),
            forall|i: int| 0 <= i < n ==> (#[trigger] old_label[i] == n || old_label[i] < c),
            labels_closed(u@, old_label, n),
            forall|i: int| 0 <= i < n ==> (#[trigger] label@[i] == c <==> found.contains(u@[i])),
            forall|k: int| 0 <= k < queue@.len() ==> #[trigger] queue@[k] < n,
            forall|v: Voxel|
                #[trigger] found.contains(v) <==> exists|k: int| 0 <= k < queue@.len() && u@[#[trigger] queue@[k] as int] == v,
            found.finite(),
            found.len() == queue@.len(),
            forall|v: Voxel| #[trigger] found.contains(v) ==> linked(cells, first, v),
            head <= queue@.len(),
            forall|k: int, j: int|
                #![trigger queue@[k], u@[j]]
                0 <= k < head && 0 <= j < n && adjacent(u@[queue@[k] as int], u@[j]) ==> label@[j] == c,
        decreases n - head, n - queue@.len(),
    {
        let qi = queue[head];
        let p = u[qi];
        let ghost old_len = queue@.len();
        assert(found.contains(p));
        let mut d: usize = 0;
        while d < 6
            invariant
                n == u@.len(),
                cells == u@.to_set(),
                first == u@[start as int],
                strictly_sorted(u@),
                forall|k: int| 0 <= k < n ==> interior(#[trigger] u@[k]),
                label@.len() == n,
                c < n,
                start < n,
                head < queue@.len(),
                queue@[0] == start,
                queue@.len() <= n,
                found.subset_of(cells),
                queue@.len() >= old_len,
                old_len == queue@.len() || queue@.len() > old_len,
                qi == queue@[head as int],
                qi < n,
                p == u@[qi as int],
                label@[qi as int] == c,
                d <= 6,
                forall|i: int| 0 <= i < n && old_label[i] != n ==> #[trigger] label@[i] == old_label[i],
                forall|i: int| 0 <= i < n && old_label[i] == n ==> (#[trigger] label@[i] == c || label@[i] == n),
                forall|i: int| 0 <= i < n ==> (#[trigger] old_label[i] == n || old_label[i] < c),
                labels_closed(u@, old_label, n),
                forall|i: int| 0 <= i < n ==> (#[trigger] label@[i] == c <==> found.contains(u@[i])),
                forall|k: int| 0 <= k < queue@.len() ==> #[trigger] queue@[k] < n,
                forall|v: Voxel|
                    #[trigger] found.contains(v) <==> exists|k: int| 0 <= k < queue@.len() && u@[#[trigger] queue@[k] as int] == v,
                found.finite(),
                found.len() == queue@.len(),
                forall|v: Voxel| #[trigger] found.contains(v) ==> linked(cells, first, v),
                forall|k: int, j: int|
                    #![trigger queue@[k], u@[j]]
                    0 <= k < head && 0 <= j < n && adjacent(u@[queue@[k] as int], u@[j]) ==> label@[j] == c,
                forall|e: int, j: int|
                    #![trigger neighbour(p, e), u@[j]]
                    0 <= e < d && 0 <= j < n && u@[j] == neighbour(p, e) ==> label@[j] == c,
            decreases 6 - d,
        {
            let q = neighbour_exec(p, d);
            match index_of_sorted(u, &q) {
                Some(j) => {
                    if label[j] == n {
                        proof {
                            assert(cells.contains(q));
                            lemma_linked_step(cells, first, p, q);
                            assert(!found.contains(q));
                        }
                        let ghost old_queue = queue@;
                        assert(queue@[0] == start);
                        label.set(j, c);
                        queue.push(j);
                        proof {
                            found = found.insert(q);
                            assert(found.subset_of(cells));
                            lemma_strictly_sorted_no_duplicates(u@);
                            u@.unique_seq_to_set();
                            vstd::seq_lib::seq_to_set_is_finite(u@);
                            vstd::set_lib::lemma_len_subset(found, cells);
                            assert forall|v: Voxel|
                                #[trigger] found.contains(v) <==> exists|k: int|
                                    0 <= k < queue@.len() && u@[#[trigger] queue@[k] as int] == v by {
                                if found.contains(v) && v != q {
                                    let k = choose|k: int| 0 <= k < old_queue.len() && u@[#[trigger] old_queue[k] as int] == v;
                                    assert(queue@[k] == old_queue[k]);
                                }
                                if v == q {
                                    assert(queue@[old_queue.len() as int] == j);
                                }
                                if exists|k: int| 0 <= k < queue@.len() && u@[#[trigger] queue@[k] as int] == v {
                                    let k = choose|k: int| 0 <= k < queue@.len() && u@[#[trigger] queue@[k] as int] == v;
                                    if k < old_queue.len() {
                                        assert(queue@[k] == old_queue[k]);
                                    }
                                }
                            }
                            assert forall|i: int| 0 <= i < n implies (#[trigger] label@[i] == c <==> found.contains(u@[i])) by {
                                if i != j && u@[i] == q {
                                    if i < j {
                                        assert(voxel_lt(u@[i], u@[j as int]));
                                    } else {
                                        assert(voxel_lt(u@[j as int], u@[i]));
                                    }
                                }
                            }
                        }
                    } else {
                        proof {
                            if old_label[j as int] != n {
                                assert(adjacent(u@[j as int], u@[qi as int]));
                                assert(label@[j as int] == old_label[j as int]);
                                assert(old_label[qi as int] == old_label[j as int]);
                            }
                        }
                    }
                    proof {
                        assert forall|e: int, jj: int|
                            #![trigger neighbour(p, e), u@[jj]]
                            0 <= e < d + 1 && 0 <= jj < n && u@[jj] == neighbour(p, e) implies label@[jj] == c by {
                            if e == d && jj != j {
                                if jj < j {
                                    assert(voxel_lt(u@[jj], u@[j as int]));
                                } else {
                                    assert(voxel_lt(u@[j as int], u@[jj]));
                                }
                            }
                        }
                    }
                },
                None => {
                    proof {
                        assert forall|e: int, jj: int|
                            #![trigger neighbour(p, e), u@[jj]]
                            0 <= e < d + 1 && 0 <= jj < n && u@[jj] == neighbour(p, e) implies label@[jj] == c by {
                            if e == d {
                                assert(u@.contains(u@[jj]));
                            }
                        }
                    }
                },
            }
            d = d + 1;
        }
        proof {
            assert forall|k: int, j: int|
                #![trigger queue@[k], u@[j]]
                0 <= k < head + 1 && 0 <= j < n && adjacent(u@[queue@[k] as int], u@[j]) implies label@[j] == c by {
                if k == head {
                    lemma_adjacent_is_neighbour(p, u@[j]);
                    let e = choose|e: int| 0 <= e < 6 && u@[j] == #[trigger] neighbour(p, e);
                    assert(u@[j] == neighbour(p, e));
                }
            }
        }
        head = head + 1;
    }
    proof {
        assert(closed_under(cells, found)) by {
            assert forall|x: Voxel, y: Voxel|
                #![trigger found.contains(x), adjacent(x, y)]
                found.contains(x) && cells.contains(y) && adjacent(x, y) implies found.contains(y) by {
                let k = choose|k: int| 0 <= k < queue@.len() && u@[#[trigger] queue@[k] as int] == x;
                let j = choose|j: int| 0 <= j < u@.len() && u@[j] == y;
                assert(label@[j] == c);
            }
        }
        assert forall|v: Voxel| #[trigger] component(cells, first).contains(v) <==> found.contains(v) by {
            if linked(cells, first, v) {
                lemma_closed_contains_component(cells, found, first, v);
            }
        }
        assert(component(cells, first) =~= found);
        assert forall|i: int, j: int|
            #![trigger label@[i], label@[j], adjacent(u@[i], u@[j])]
            0 <= i < n && 0 <= j < n && label@[i] != n && label@[i] < n && adjacent(u@[i], u@[j])
                implies label@[j] == label@[i] by {
            if old_label[i] != n {
                assert(label@[i] == old_label[i]);
                assert(old_label[j] == old_label[i]);
            } else {
                assert(label@[i] == c);
                assert(found.contains(u@[i]));
                assert(cells.contains(u@[j]));
                assert(found.contains(u@[j]));
            }
        }
    }
    queue.len()
}

/// `s` is the least position of a largest component of `cells`; among components of
/// the largest size, its component holds the least position.
pub open spec fn is_largest_component_root(cells: Set<Voxel>, s: Voxel) -> bool {
    &&& cells.contains(s)
    &&& forall|b: Voxel| linked(cells, s, b) ==> !voxel_lt(b, s)
    &&& forall|t: Voxel| cells.contains(t) ==> component(cells, t).len() <= component(cells, s).len()
    &&& forall|t: Voxel, b: Voxel|
        cells.contains(t) && component(cells, t).len() == component(cells, s).len() && linked(cells, t, b)
            ==> !voxel_lt(b, s)
}

/// Entries whose position lies in the component of `s`.
pub open spec fn in_component_of(cells: Set<Voxel>, s: Voxel) -> spec_fn((Voxel, BlockType)) -> bool {
    |e: (Voxel, BlockType)| linked(cells, s, e.0)
}

/// The positions of a voxel list, in order.
fn rock_positions(voxels: &Vec<(Voxel, BlockType)>) -> (out: Vec<Voxel>)
    ensures
        out@.len() == voxels@.len(),
        forall|i: int| 0 <= i < voxels@.len() ==> #[trigger] out@[i] == voxels@[i].0,
{
    let mut out: Vec<Voxel> = Vec::new();
    let n = voxels.len();
    for i in 0..n
        invariant
            n == voxels@.len(),
            out@.len() == i,
            forall|k: int| 0 <= k < i ==> #[trigger] out@[k] == voxels@[k].0,
    {
        out.push(voxels[i].0);
    }
    out
}

/// Mandatory post-process: discard every voxel outside the largest 6-connected
/// component, so automatic multi-seed placement never emits islands. Among equally
/// large components the one holding the smallest position (in `(x, y, z)` order) wins.
/// Kept voxels stay in their input order.
pub fn keep_largest_component(voxels: Vec<(Voxel, BlockType)>) -> (kept: Vec<(Voxel, BlockType)>)
    requires
        forall|i: int| 0 <= i < voxels@.len() ==> interior(#[trigger] voxels@[i].0),
    ensures
        voxels@.len() == 0 ==> kept@ == voxels@,
        voxels@.len() > 0 ==> exists|s: Voxel|
            is_largest_component_root(cell_set(voxels@), s) && kept@ == voxels@.filter(
                in_component_of(cell_set(voxels@), s),
            ),
{
    if voxels.len() == 0 {
        return voxels;
    }
    let ghost cells = cell_set(voxels@);
    let list = rock_positions(&voxels);
    let u = sort_unique(&list);
    let n = u.len();
    proof {
        assert forall|p: Voxel| #[trigger] u@.to_set().contains(p) <==> cells.contains(p) by {
            if list@.contains(p) {
                let i = choose|i: int| 0 <= i < list@.len() && list@[i] == p;
                assert(voxels@[i].0 == p);
            }
            if cells.contains(p) {
                let i = choose|i: int| 0 <= i < voxels@.len() && (#[trigger] voxels@[i]).0 == p;
                assert(list@[i] == p);
            }
        }
        assert(u@.to_set() =~= cells);
        assert forall|k: int| 0 <= k < n implies interior(#[trigger] u@[k]) by {
            assert(u@.contains(u@[k]));
            let i = choose|i: int| 0 <= i < list@.len() && list@[i] == u@[k];
            assert(interior(voxels@[i].0));
        }
        assert(voxels@.len() > 0 && list@.contains(list@[0]));
        assert(u@.contains(list@[0]));
    }
    let mut label: Vec<usize> = Vec::new();
    for i in 0..n
        invariant
            label@.len() == i,
            forall|k: int| 0 <= k < i ==> #[trigger] label@[k] == n,
    {
        label.push(n);
    }
    let mut next: usize = 0;
    let mut best: usize = 0;
    let mut best_size: usize = 0;
    let ghost mut starts: Seq<int> = Seq::empty();
    for s in 0..n
        invariant
            n == u@.len(),
            n > 0,
            u@.to_set() == cells,
            strictly_sorted(u@),
            forall|k: int| 0 <= k < n ==> interior(#[trigger] u@[k]),
            label@.len() == n,
            labels_closed(u@, label@, n),
            next <= s,
            forall|i: int| 0 <= i < n ==> (#[trigger] label@[i] == n || label@[i] < next),
            forall|i: int| 0 <= i < s ==> #[trigger] label@[i] != n,
            starts.len() == next,
            forall|c: int| 0 <= c < next ==> 0 <= #[trigger] starts[c] < s,
            forall|c: int| 0 <= c < next ==> label@[#[trigger] starts[c]] == c,
            forall|c: int, i: int|
                #![trigger starts[c], label@[i]]
                0 <= c < next && 0 <= i < n ==> (label@[i] == c <==> linked(cells, u@[starts[c]], u@[i])),
            forall|c: int| 0 <= c < next ==> component(cells, u@[#[trigger] starts[c]]).finite(),
            forall|c: int, b: Voxel|
                #![trigger starts[c], linked(cells, u@[starts[c]], b)]
                0 <= c < next && linked(cells, u@[starts[c]], b) ==> !voxel_lt(b, u@[starts[c]]),
            next > 0 ==> best < next,
            next > 0 ==> best_size == component(cells, u@[starts[best as int]]).len(),
            forall|c: int| 0 <= c < next ==> component(cells, u@[#[trigger] starts[c]]).len() <= best_size,
            forall|c: int|
                0 <= c < next && component(cells, u@[#[trigger] starts[c]]).len() == best_size ==> starts[best as int]
                    <= starts[c],
    {
        if label[s] == n {
            let ghost before = label@;
            let size = flood_fill(&u, &mut label, s, next);
            proof {
                assert forall|b: Voxel| linked(cells, u@[s as int], b) implies !voxel_lt(b, u@[s as int]) by {
                    assert(cells.contains(b)) by {
                        let path = choose|path: Seq<Voxel>|
                            is_path(cells, path) && path[0] == u@[s as int] && path.last() == b;
                        assert(cells.contains(path[path.len() - 1]));
                    }
                    let i = choose|i: int| 0 <= i < n && u@[i] == b;
                    assert(label@[i] == next);
                    assert(before[i] == n);
                    if i < s {
                        assert(before[i] != n);
                    }
                    if i > s {
                        assert(voxel_lt(u@[s as int], u@[i]));
                    }
                }
                let old_starts = starts;
                starts = starts.push(s as int);
                assert forall|c: int, i: int|
                    #![trigger starts[c], label@[i]]
                    0 <= c < next + 1 && 0 <= i < n implies (label@[i] == c <==> linked(
                        cells,
                        u@[starts[c]],
                        u@[i],
                    )) by {
                    if c < next {
                        assert(starts[c] == old_starts[c]);
                        if before[i] == n {
                            assert(!(before[i] == c));
                            if linked(cells, u@[starts[c]], u@[i]) {
                                assert(before[i] == c);
                            }
                        } else {
                            assert(label@[i] == before[i]);
                        }
                    }
                }
                assert forall|i: int| 0 <= i < s + 1 implies #[trigger] label@[i] != n by {
                    if i == s {
                        lemma_linked_refl(cells, u@[s as int]);
                    } else {
                        assert(before[i] != n);
                    }
                }
            }
            if next == 0 || size > best_size {
                best = next;
                best_size = size;
            }
            proof {
                assert forall|c: int| 0 <= c < next + 1 implies component(cells, u@[#[trigger] starts[c]]).len() <= best_size by {
                    if c < next {
                        assert(starts[c] == starts.drop_last()[c]);
                    }
                }
                assert forall|c: int|
                    0 <= c < next + 1 && component(cells, u@[#[trigger] starts[c]]).len() == best_size implies starts[best as int]
                        <= starts[c] by {
                    if c < next {
                        assert(starts[c] == starts.drop_last()[c]);
                    }
                }
            }
            next = next + 1;
        }
    }
    proof {
        assert(label@[0] != n);
        assert(next > 0);
    }
    let ghost root = u@[starts[best as int]];
    proof {
        assert(0 <= starts[best as int] < n);
        assert(u@.contains(root));
        assert(cells.contains(root));
        assert forall|t: Voxel| cells.contains(t) implies component(cells, t).len() <= component(cells, root).len() by {
            let i = choose|i: int| 0 <= i < n && u@[i] == t;
            let c = label@[i] as int;
            assert(label@[i] != n);
            assert(linked(cells, u@[starts[c]], t));
            lemma_same_component(cells, u@[starts[c]], t);
        }
        assert forall|t: Voxel, b: Voxel|
            cells.contains(t) && component(cells, t).len() == component(cells, root).len() && linked(cells, t, b)
                implies !voxel_lt(b, root) by {
            let i = choose|i: int| 0 <= i < n && u@[i] == t;
            let c = label@[i] as int;
            assert(label@[i] != n);
            assert(linked(cells, u@[starts[c]], t));
            lemma_same_component(cells, u@[starts[c]], t);
            lemma_linked_transitive(cells, u@[starts[c]], t, b);
            assert(!voxel_lt(b, u@[starts[c]]));
            assert(starts[best as int] <= starts[c]);
            if starts[best as int] < starts[c] {
                assert(voxel_lt(u@[starts[best as int]], u@[starts[c]]));
            }
        }
        assert(is_largest_component_root(cells, root));
    }
    let mut kept: Vec<(Voxel, BlockType)> = Vec::new();
    let m = voxels.len();
    for i in 0..m
        invariant
            m == voxels@.len(),
            n == u@.len(),
            u@.to_set() == cells,
            cells == cell_set(voxels@),
            strictly_sorted(u@),
            label@.len() == n,
            best < next,
            starts.len() == next,
            root == u@[starts[best as int]],
            forall|c: int, k: int|
                #![trigger starts[c], label@[k]]
                0 <= c < next && 0 <= k < n ==> (label@[k] == c <==> linked(cells, u@[starts[c]], u@[k])),
            kept@ == voxels@.take(i as int).filter(in_component_of(cells, root)),
    {
        let e = voxels[i];
        assert(voxels@.take(i + 1) == voxels@.take(i as int).push(e));
        proof {
            voxels@.take(i as int).lemma_filter_push(e, in_component_of(cells, root));
            assert(cells.contains(e.0));
        }
        match index_of_sorted(&u, &e.0) {
            Some(k) => {
                assert(label@[k as int] == best <==> linked(cells, u@[starts[best as int]], u@[k as int]));
                if label[k] == best {
                    kept.push(e);
                }
            },
            None => {
                assert(u@.to_set().contains(e.0));
            },
        }
    }
    assert(voxels@.take(m as int) == voxels@);
    kept
}

proof fn lemma_linked_within_component(cells: Set<Voxel>, s: Voxel, b: Voxel)
    requires
        linked(cells, s, b),
    ensures
        linked(component(cells, s), s, b),
{
    let path = choose|path: Seq<Voxel>| is_path(cells, path) && path[0] == s && path.last() == b;
    assert forall|i: int| 0 <= i < path.len() implies component(cells, s).contains(#[trigger] path[i]) by {
        let prefix = path.take(i + 1);
        assert forall|j: int| 0 <= j < prefix.len() implies cells.contains(#[trigger] prefix[j]) by {
            assert(prefix[j] == path[j]);
        }
        assert forall|j: int| 0 <= j < prefix.len() - 1 implies adjacent(#[trigger] prefix[j], prefix[j + 1]) by {
            assert(prefix[j] == path[j] && prefix[j + 1] == path[j + 1]);
        }
        assert(is_path(cells, prefix));
        assert(prefix[0] == s && prefix.last() == path[i]);
    }
    assert(is_path(component(cells, s), path));
}

/// A component is connected in itself: any two of its members are joined by a walk that
/// never leaves the component.
pub proof fn lemma_component_connected(cells: Set<Voxel>, s: Voxel, a: Voxel, b: Voxel)
    requires
        linked(cells, s, a),
        linked(cells, s, b),
    ensures
        linked(component(cells, s), a, b),
{
    lemma_linked_within_component(cells, s, a);
    lemma_linked_within_component(cells, s, b);
    lemma_linked_symmetric(component(cells, s), s, a);
    lemma_linked_transitive(component(cells, s), a, s, b);
}

/// What [`keep_largest_component`] keeps is one connected clump: its positions are exactly
/// the component of the chosen root, and any two of them are joined by a walk through kept
/// positions only (no islands remain).
pub proof fn lemma_kept_clump_is_connected(voxels: Seq<(Voxel, BlockType)>, s: Voxel)
    requires
        cell_set(voxels).contains(s),
    ensures
        cell_set(voxels.filter(in_component_of(cell_set(voxels), s))) == component(cell_set(voxels), s),
        forall|a: Voxel, b: Voxel|
            #![trigger cell_set(voxels.filter(in_component_of(cell_set(voxels), s))).contains(a),
                cell_set(voxels.filter(in_component_of(cell_set(voxels), s))).contains(b)]
            cell_set(voxels.filter(in_component_of(cell_set(voxels), s))).contains(a)
                && cell_set(voxels.filter(in_component_of(cell_set(voxels), s))).contains(b)
                ==> linked(cell_set(voxels.filter(in_component_of(cell_set(voxels), s))), a, b),
{
    let cells = cell_set(voxels);
    let pred = in_component_of(cells, s);
    let kept = voxels.filter(pred);
    voxels.filter_lemma(pred);
    assert forall|p: Voxel| cell_set(kept).contains(p) <==> #[trigger] component(cells, s).contains(p) by {
        if cell_set(kept).contains(p) {
            let i = choose|i: int| 0 <= i < kept.len() && (#[trigger] kept[i]).0 == p;
            assert(pred(kept[i]));
        }
        if component(cells, s).contains(p) {
            let path = choose|path: Seq<Voxel>| is_path(cells, path) && path[0] == s && path.last() == p;
            assert(cells.contains(path[path.len() - 1]));
            let i = choose|i: int| 0 <= i < voxels.len() && (#[trigger] voxels[i]).0 == p;
            assert(pred(voxels[i]));
            assert(kept.contains(voxels[i]));
            let j = choose|j: int| 0 <= j < kept.len() && kept[j] == voxels[i];
            assert(kept[j].0 == p);
        }
    }
    assert(cell_set(kept) =~= component(cells, s));
    assert forall|a: Voxel, b: Voxel|
        #![trigger cell_set(kept).contains(a), cell_set(kept).contains(b)]
        cell_set(kept).contains(a) && cell_set(kept).contains(b) implies linked(cell_set(kept), a, b) by {
        assert(component(cells, s).contains(a));
        assert(component(cells, s).contains(b));
        lemma_component_connected(cells, s, a, b);
    }
}

/// The clump that survives is determined by the positions alone: a set of positions has at
/// most one largest-component root (ties between equally large components are broken by the
/// least position).
pub proof fn lemma_largest_component_root_unique(cells: Set<Voxel>, s: Voxel, t: Voxel)
    requires
        is_largest_component_root(cells, s),
        is_largest_component_root(cells, t),
    ensures
        s == t,
{
    lemma_linked_refl(cells, s);
    lemma_linked_refl(cells, t);
    assert(component(cells, t).len() <= component(cells, s).len());
    assert(component(cells, s).len() <= component(cells, t).len());
    assert(!voxel_lt(t, s));
    assert(!voxel_lt(s, t));
}

/// No two entries share a position.
pub open spec fn distinct_positions(voxels: Seq<(Voxel, BlockType)>) -> bool {
    forall|i: int, j: int| 0 <= i < j < voxels.len() ==> (#[trigger] voxels[i]).0 != (#[trigger] voxels[j]).0
}

/// Filtering keeps positions distinct: when every input position occurs once, so does
/// every kept position.
pub proof fn lemma_kept_positions_distinct(voxels: Seq<(Voxel, BlockType)>, s: Voxel)
    requires
        distinct_positions(voxels),
    ensures
        distinct_positions(voxels.filter(in_component_of(cell_set(voxels), s))),
{
    lemma_filter_keeps_distinct(voxels, in_component_of(cell_set(voxels), s));
}

proof fn lemma_filter_keeps_distinct(voxels: Seq<(Voxel, BlockType)>, pred: spec_fn((Voxel, BlockType)) -> bool)
    requires
        distinct_positions(voxels),
    ensures
        distinct_positions(voxels.filter(pred)),
    decreases voxels.len(),
{
    if voxels.len() > 0 {
        let prefix = voxels.drop_last();
        let last = voxels.last();
        assert(distinct_positions(prefix)) by {
            assert forall|i: int, j: int| 0 <= i < j < prefix.len() implies (#[trigger] prefix[i]).0 != (#[trigger] prefix[j]).0 by {
                assert(prefix[i] == voxels[i] && prefix[j] == voxels[j]);
            }
        }
        lemma_filter_keeps_distinct(prefix, pred);
        assert(voxels == prefix.push(last));
        prefix.lemma_filter_push(last, pred);
        if pred(last) {
            let kept = prefix.filter(pred);
            let out = kept.push(last);
            assert forall|i: int, j: int| 0 <= i < j < out.len() implies (#[trigger] out[i]).0 != (#[trigger] out[j]).0 by {
                if j == kept.len() {
                    assert(out[i] == kept[i]);
                    assert(kept.contains(kept[i]));
                    prefix.lemma_filter_contains_rev(pred, kept[i]);
                    let m = choose|m: int| 0 <= m < prefix.len() && prefix[m] == kept[i];
                    assert(voxels[m] == prefix[m]);
                    assert(voxels[voxels.len() - 1] == last);
                } else {
                    assert(out[i] == kept[i] && out[j] == kept[j]);
                }
            }
        }
    }
}

} // verus!
