//! Integer voxel positions, their lexicographic `(x, y, z)` order, and the sorting
//! routines that give every voxel list of the crate its canonical order.

use vstd::prelude::*;

verus! {

/// A voxel position on the integer grid.
#[derive(Clone, Copy, Debug, PartialEq, Eq, Hash, Structural)]
pub struct Voxel {
    pub x: i32,
    pub y: i32,
    pub z: i32,
}

/// Lexicographic order on `(x, y, z)`.
pub open spec fn voxel_lt(a: Voxel, b: Voxel) -> bool {
    a.x < b.x || (a.x == b.x && (a.y < b.y || (a.y == b.y && a.z < b.z)))
}

/// Every element is smaller than every later one (sorted, without repetition).
pub open spec fn strictly_sorted(s: Seq<Voxel>) -> bool {
    forall|i: int, j: int| 0 <= i < j < s.len() ==> voxel_lt(#[trigger] s[i], #[trigger] s[j])
}

/// Sorted by position, equal positions allowed.
pub open spec fn sorted_by_position<B>(s: Seq<(Voxel, B)>) -> bool {
    forall|i: int, j: int| 0 <= i < j < s.len() ==> !voxel_lt(#[trigger] s[j].0, #[trigger] s[i].0)
}

/// Whether an entry lies at position `p`.
pub open spec fn lies_at<B>(p: Voxel) -> spec_fn((Voxel, B)) -> bool {
    |e: (Voxel, B)| e.0 == p
}

/// The entries of `s` at position `p`, in their order in `s`.
pub open spec fn at_position<B>(s: Seq<(Voxel, B)>, p: Voxel) -> Seq<(Voxel, B)> {
    s.filter(lies_at::<B>(p))
}

/// A strictly sorted list holds no position twice.
pub proof fn lemma_strictly_sorted_no_duplicates(s: Seq<Voxel>)
    requires
        strictly_sorted(s),
    ensures
        s.no_duplicates(),
{
    assert forall|i: int, j: int| 0 <= i < s.len() && 0 <= j < s.len() && i != j implies s[i] != s[j] by {
        if i < j {
            assert(voxel_lt(s[i], s[j]));
        } else {
            assert(voxel_lt(s[j], s[i]));
        }
    }
}

impl Voxel {
    pub fn new(x: i32, y: i32, z: i32) -> (v: Voxel)
        ensures
            v == (Voxel { x, y, z }),
    {
        Voxel { x, y, z }
    }
}

/// Exact comparison in the lexicographic order.
pub fn voxel_less(a: &Voxel, b: &Voxel) -> (r: bool)
    ensures
        r == voxel_lt(*a, *b),
{
    a.x < b.x || (a.x == b.x && (a.y < b.y || (a.y == b.y && a.z < b.z)))
}

proof fn lemma_push_contains<A>(s: Seq<A>, e: A)
    ensures
        forall|p: A| #[trigger] s.push(e).contains(p) <==> (s.contains(p) || p == e),
{
    assert forall|p: A| #[trigger] s.push(e).contains(p) <==> (s.contains(p) || p == e) by {
        if s.contains(p) {
            let k = choose|k: int| 0 <= k < s.len() && s[k] == p;
            assert(s.push(e)[k] == p);
        }
        if p == e {
            assert(s.push(e)[s.len() as int] == p);
        }
        if s.push(e).contains(p) {
            let k = choose|k: int| 0 <= k < s.len() + 1 && s.push(e)[k] == p;
            if k < s.len() {
                assert(s[k] == p);
            }
        }
    }
}

/// Merge two strictly sorted lists into the strictly sorted list of their union.
fn merge_unique(a: &Vec<Voxel>, b: &Vec<Voxel>) -> (out: Vec<Voxel>)
    requires
        strictly_sorted(a@),
        strictly_sorted(b@),
    ensures
        strictly_sorted(out@),
        forall|p: Voxel| out@.contains(p) <==> (a@.contains(p) || b@.contains(p)),
{
    broadcast use vstd::seq_lib::group_seq_properties;

    let mut out: Vec<Voxel> = Vec::new();
    let mut i: usize = 0;
    let mut j: usize = 0;
    while i < a.len() || j < b.len()
        invariant
            strictly_sorted(a@),
            strictly_sorted(b@),
            i <= a@.len(),
            j <= b@.len(),
            strictly_sorted(out@),
            forall|p: Voxel| out@.contains(p) <==> (a@.take(i as int).contains(p) || b@.take(j as int).contains(p)),
            out@.len() > 0 && i < a@.len() ==> voxel_lt(out@.last(), a@[i as int]),
            out@.len() > 0 && j < b@.len() ==> voxel_lt(out@.last(), b@[j as int]),
        decreases a@.len() + b@.len() - i - j,
    {
        let ghost old_out = out@;
        if j >= b.len() || (i < a.len() && voxel_less(&a[i], &b[j])) {
            let e = a[i];
            out.push(e);
            assert(a@.take(i + 1) == a@.take(i as int).push(e));
            proof {
                lemma_push_contains(old_out, e);
                lemma_push_contains(a@.take(i as int), e);
            }
            i = i + 1;
        } else if i >= a.len() || voxel_less(&b[j], &a[i]) {
            let e = b[j];
            out.push(e);
            assert(b@.take(j + 1) == b@.take(j as int).push(e));
            proof {
                lemma_push_contains(old_out, e);
                lemma_push_contains(b@.take(j as int), e);
            }
            j = j + 1;
        } else {
            let e = a[i];
            assert(e == b@[j as int]);
            out.push(e);
            assert(a@.take(i + 1) == a@.take(i as int).push(e));
            assert(b@.take(j + 1) == b@.take(j as int).push(e));
            proof {
                lemma_push_contains(old_out, e);
                lemma_push_contains(a@.take(i as int), e);
                lemma_push_contains(b@.take(j as int), e);
            }
            i = i + 1;
            j = j + 1;
        }
        assert forall|k: int, l: int| 0 <= k < l < out@.len() implies voxel_lt(
            #[trigger] out@[k],
            #[trigger] out@[l],
        ) by {
            if l == out@.len() - 1 && k < old_out.len() {
                assert(voxel_lt(old_out[k], old_out.last()) || k == old_out.len() - 1);
            }
        }
    }
    assert(a@.take(a@.len() as int) == a@);
    assert(b@.take(b@.len() as int) == b@);
    out
}

/// Strictly sorted list of the distinct positions of `v[lo..hi]`.
fn sort_unique_range(v: &Vec<Voxel>, lo: usize, hi: usize) -> (out: Vec<Voxel>)
    requires
        lo <= hi <= v@.len(),
    ensures
        strictly_sorted(out@),
        forall|p: Voxel| out@.contains(p) <==> v@.subrange(lo as int, hi as int).contains(p),
    decreases hi - lo,
{
    if hi - lo == 0 {
        return Vec::new();
    }
    if hi - lo == 1 {
        let mut out = Vec::new();
        out.push(v[lo]);
        assert(v@.subrange(lo as int, hi as int) == seq![v@[lo as int]]);
        return out;
    }
    let mid = lo + (hi - lo) / 2;
    let left = sort_unique_range(v, lo, mid);
    let right = sort_unique_range(v, mid, hi);
    let out = merge_unique(&left, &right);
    assert forall|p: Voxel| v@.subrange(lo as int, hi as int).contains(p) <==> (v@.subrange(
        lo as int,
        mid as int,
    ).contains(p) || v@.subrange(mid as int, hi as int).contains(p)) by {
        let whole = v@.subrange(lo as int, hi as int);
        let l = v@.subrange(lo as int, mid as int);
        let r = v@.subrange(mid as int, hi as int);
        if whole.contains(p) {
            let k = choose|k: int| 0 <= k < whole.len() && whole[k] == p;
            if k < mid - lo {
                assert(l[k] == p);
            } else {
                assert(r[k - (mid - lo)] == p);
            }
        }
        if l.contains(p) {
            let k = choose|k: int| 0 <= k < l.len() && l[k] == p;
            assert(whole[k] == p);
        }
        if r.contains(p) {
            let k = choose|k: int| 0 <= k < r.len() && r[k] == p;
            assert(whole[k + (mid - lo)] == p);
        }
    }
    out
}

proof fn lemma_at_position_push<B>(s: Seq<(Voxel, B)>, e: (Voxel, B), p: Voxel)
    ensures
        at_position(s.push(e), p) == if e.0 == p {
            at_position(s, p).push(e)
        } else {
            at_position(s, p)
        },
{
    s.lemma_filter_push(e, lies_at::<B>(p));
}

proof fn lemma_at_position_none<B>(s: Seq<(Voxel, B)>, p: Voxel)
    requires
        forall|k: int| 0 <= k < s.len() ==> (#[trigger] s[k]).0 != p,
    ensures
        at_position(s, p) == Seq::<(Voxel, B)>::empty(),
{
    let f = at_position(s, p);
    if f.len() > 0 {
        s.lemma_filter_contains_rev(lies_at::<B>(p), f[0]);
        assert(f.contains(f[0]));
    }
}

pub proof fn lemma_at_position_concat<B>(a: Seq<(Voxel, B)>, b: Seq<(Voxel, B)>, p: Voxel)
    ensures
        at_position(a + b, p) == at_position(a, p) + at_position(b, p),
{
    Seq::filter_distributes_over_add(a, b, lies_at::<B>(p));
}

/// Every voxel of `s` tagged with `b`.
pub open spec fn tagged<B>(s: Seq<Voxel>, b: B) -> Seq<(Voxel, B)> {
    s.map_values(|v: Voxel| (v, b))
}

/// In a tagged list without repeated positions, each position holds at most one entry.
pub proof fn lemma_at_position_tagged<B>(s: Seq<Voxel>, b: B, p: Voxel)
    requires
        strictly_sorted(s),
    ensures
        at_position(tagged(s, b), p) == if s.contains(p) {
            seq![(p, b)]
        } else {
            Seq::<(Voxel, B)>::empty()
        },
    decreases s.len(),
{
    if s.len() == 0 {
        assert(tagged(s, b) == Seq::<(Voxel, B)>::empty());
        lemma_at_position_none(tagged(s, b), p);
    } else {
        let front = s.drop_last();
        assert forall|i: int, j: int| 0 <= i < j < front.len() implies voxel_lt(#[trigger] front[i], #[trigger] front[j]) by {
            assert(front[i] == s[i] && front[j] == s[j]);
        }
        lemma_at_position_tagged(front, b, p);
        assert(tagged(s, b) == tagged(front, b).push((s.last(), b)));
        lemma_at_position_push(tagged(front, b), (s.last(), b), p);
        if s.last() == p {
            if front.contains(p) {
                let k = choose|k: int| 0 <= k < front.len() && front[k] == p;
                assert(voxel_lt(s[k], s[s.len() - 1]));
            }
            assert(s[s.len() - 1] == p);
        } else {
            if s.contains(p) {
                let k = choose|k: int| 0 <= k < s.len() && s[k] == p;
                assert(front[k] == p);
            }
            if front.contains(p) {
                let k = choose|k: int| 0 <= k < front.len() && front[k] == p;
                assert(s[k] == p);
            }
        }
    }
}

/// Whether the strictly sorted list `v` holds `p` (binary search).
pub fn contains_sorted(v: &Vec<Voxel>, p: &Voxel) -> (found: bool)
    requires
        strictly_sorted(v@),
    ensures
        found == v@.contains(*p),
{
    let mut lo: usize = 0;
    let mut hi: usize = v.len();
    while lo < hi
        invariant
            strictly_sorted(v@),
            0 <= lo <= hi <= v@.len(),
            forall|k: int| 0 <= k < lo ==> voxel_lt(#[trigger] v@[k], *p),
            forall|k: int| hi <= k < v@.len() ==> voxel_lt(*p, #[trigger] v@[k]),
        decreases hi - lo,
    {
        let mid = lo + (hi - lo) / 2;
        if voxel_less(&v[mid], p) {
            assert forall|k: int| 0 <= k < mid + 1 implies voxel_lt(#[trigger] v@[k], *p) by {
                if k < mid {
                    assert(voxel_lt(v@[k], v@[mid as int]));
                }
            }
            lo = mid + 1;
        } else if voxel_less(p, &v[mid]) {
            assert forall|k: int| mid <= k < v@.len() implies voxel_lt(*p, #[trigger] v@[k]) by {
                if k > mid {
                    assert(voxel_lt(v@[mid as int], v@[k]));
                }
            }
            hi = mid;
        } else {
            assert(v@[mid as int] == *p);
            return true;
        }
    }
    proof {
        if v@.contains(*p) {
            let k = choose|k: int| 0 <= k < v@.len() && v@[k] == *p;
            assert(!voxel_lt(v@[k], *p));
        }
    }
    false
}

/// Index of `p` in the strictly sorted list `v`, if present (binary search).
pub fn index_of_sorted(v: &Vec<Voxel>, p: &Voxel) -> (found: Option<usize>)
    requires
        strictly_sorted(v@),
    ensures
        match found {
            Some(k) => k < v@.len() && v@[k as int] == *p,
            None => !v@.contains(*p),
        },
{
    let mut lo: usize = 0;
    let mut hi: usize = v.len();
    while lo < hi
        invariant
            strictly_sorted(v@),
            0 <= lo <= hi <= v@.len(),
            forall|k: int| 0 <= k < lo ==> voxel_lt(#[trigger] v@[k], *p),
            forall|k: int| hi <= k < v@.len() ==> voxel_lt(*p, #[trigger] v@[k]),
        decreases hi - lo,
    {
        let mid = lo + (hi - lo) / 2;
        if voxel_less(&v[mid], p) {
            assert forall|k: int| 0 <= k < mid + 1 implies voxel_lt(#[trigger] v@[k], *p) by {
                if k < mid {
                    assert(voxel_lt(v@[k], v@[mid as int]));
                }
            }
            lo = mid + 1;
        } else if voxel_less(p, &v[mid]) {
            assert forall|k: int| mid <= k < v@.len() implies voxel_lt(*p, #[trigger] v@[k]) by {
                if k > mid {
                    assert(voxel_lt(v@[mid as int], v@[k]));
                }
            }
            hi = mid;
        } else {
            return Some(mid);
        }
    }
    proof {
        if v@.contains(*p) {
            let k = choose|k: int| 0 <= k < v@.len() && v@[k] == *p;
            assert(!voxel_lt(v@[k], *p));
        }
    }
    None
}

/// Stable merge of two lists sorted by position.
fn merge_stable<B: Copy>(a: &Vec<(Voxel, B)>, b: &Vec<(Voxel, B)>) -> (out: Vec<(Voxel, B)>)
    requires
        sorted_by_position(a@),
        sorted_by_position(b@),
    ensures
        sorted_by_position(out@),
        forall|p: Voxel| #[trigger] at_position(out@, p) == at_position(a@, p) + at_position(b@, p),
{
    let mut out: Vec<(Voxel, B)> = Vec::new();
    let mut i: usize = 0;
    let mut j: usize = 0;
    while i < a.len() || j < b.len()
        invariant
            sorted_by_position(a@),
            sorted_by_position(b@),
            i <= a@.len(),
            j <= b@.len(),
            sorted_by_position(out@),
            forall|p: Voxel|
                #[trigger] at_position(out@, p) == at_position(a@.take(i as int), p) + at_position(
                    b@.take(j as int),
                    p,
                ),
            out@.len() > 0 && i < a@.len() ==> !voxel_lt(a@[i as int].0, out@.last().0),
            out@.len() > 0 && j < b@.len() ==> !voxel_lt(b@[j as int].0, out@.last().0),
            i < a@.len() ==> forall|k: int| 0 <= k < j ==> voxel_lt((#[trigger] b@[k]).0, a@[i as int].0),
        decreases a@.len() + b@.len() - i - j,
    {
        let ghost old_out = out@;
        let ghost old_a = a@.take(i as int);
        let ghost old_b = b@.take(j as int);
        if j >= b.len() || (i < a.len() && !voxel_less(&b[j].0, &a[i].0)) {
            let e = a[i];
            out.push(e);
            assert(a@.take(i + 1) == old_a.push(e));
            assert forall|p: Voxel|
                #[trigger] at_position(out@, p) == at_position(a@.take(i + 1), p) + at_position(
                    old_b,
                    p,
                ) by {
                lemma_at_position_push(old_out, e, p);
                lemma_at_position_push(old_a, e, p);
                if e.0 == p {
                    assert forall|k: int| 0 <= k < old_b.len() implies (#[trigger] old_b[k]).0 != p by {
                        assert(voxel_lt(b@[k].0, a@[i as int].0));
                    }
                    lemma_at_position_none(old_b, p);
                    assert(at_position(old_b, p) == Seq::<(Voxel, B)>::empty());
                    assert(at_position(old_a, p) + at_position(old_b, p) == at_position(old_a, p));
                    assert(at_position(old_a, p).push(e) + at_position(old_b, p) == at_position(
                        old_a,
                        p,
                    ).push(e));
                }
            }
            i = i + 1;
        } else {
            let e = b[j];
            out.push(e);
            assert(b@.take(j + 1) == old_b.push(e));
            assert forall|p: Voxel|
                #[trigger] at_position(out@, p) == at_position(old_a, p) + at_position(
                    b@.take(j + 1),
                    p,
                ) by {
                lemma_at_position_push(old_out, e, p);
                lemma_at_position_push(old_b, e, p);
                if e.0 == p {
                    assert((at_position(old_a, p) + at_position(old_b, p)).push(e) == at_position(
                        old_a,
                        p,
                    ) + at_position(old_b, p).push(e));
                }
            }
            j = j + 1;
        }
        assert forall|k: int, l: int| 0 <= k < l < out@.len() implies !voxel_lt(
            #[trigger] out@[l].0,
            #[trigger] out@[k].0,
        ) by {
            if l == out@.len() - 1 && k < old_out.len() {
                assert(!voxel_lt(old_out.last().0, old_out[k].0) || k == old_out.len() - 1);
            }
        }
    }
    assert(a@.take(a@.len() as int) == a@);
    assert(b@.take(b@.len() as int) == b@);
    out
}

/// Stable sort by position of `v[lo..hi]`.
fn sort_range_by_position<B: Copy>(v: &Vec<(Voxel, B)>, lo: usize, hi: usize) -> (out: Vec<(Voxel, B)>)
    requires
        lo <= hi <= v@.len(),
    ensures
        sorted_by_position(out@),
        forall|p: Voxel| #[trigger] at_position(out@, p) == at_position(v@.subrange(lo as int, hi as int), p),
    decreases hi - lo,
{
    if hi - lo == 0 {
        let out: Vec<(Voxel, B)> = Vec::new();
        assert(v@.subrange(lo as int, hi as int) == out@);
        return out;
    }
    if hi - lo == 1 {
        let mut out = Vec::new();
        out.push(v[lo]);
        assert(v@.subrange(lo as int, hi as int) == out@);
        return out;
    }
    let mid = lo + (hi - lo) / 2;
    let left = sort_range_by_position(v, lo, mid);
    let right = sort_range_by_position(v, mid, hi);
    let out = merge_stable(&left, &right);
    assert forall|p: Voxel| #[trigger] at_position(out@, p) == at_position(v@.subrange(lo as int, hi as int), p) by {
        assert(v@.subrange(lo as int, hi as int) == v@.subrange(lo as int, mid as int) + v@.subrange(
            mid as int,
            hi as int,
        ));
        lemma_at_position_concat(v@.subrange(lo as int, mid as int), v@.subrange(mid as int, hi as int), p);
    }
    out
}

/// Stable sort by position: sorted, and the entries at each position keep their order.
pub fn sort_by_position<B: Copy>(v: &Vec<(Voxel, B)>) -> (out: Vec<(Voxel, B)>)
    ensures
        sorted_by_position(out@),
        forall|p: Voxel| #[trigger] at_position(out@, p) == at_position(v@, p),
{
    let out = sort_range_by_position(v, 0, v.len());
    assert(v@.subrange(0, v@.len() as int) == v@);
    out
}

/// The distinct positions of `v` in strictly increasing order (sort, then deduplicate).
pub fn sort_unique(v: &Vec<Voxel>) -> (out: Vec<Voxel>)
    ensures
        strictly_sorted(out@),
        forall|p: Voxel| out@.contains(p) <==> v@.contains(p),
{
    let out = sort_unique_range(v, 0, v.len());
    assert(v@.subrange(0, v@.len() as int) == v@);
    out
}

} // verus!
