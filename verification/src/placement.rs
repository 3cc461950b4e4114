//! The background grid of Poisson-disc sampling: a `width × depth` array of cells, each
//! holding the index of at most one accepted sample, and the lookup of the samples stored
//! in the `5 × 5` block of cells around a candidate's cell.

use vstd::prelude::*;

verus! {

/// Cells of the sampling grid in row-major order (`z` rows of `width` cells).
pub struct SampleGrid {
    width: i32,
    depth: i32,
    cells: Vec<Option<usize>>,
}

/// The cell of the `5 × 5` block around `(cx, cz)` visited `k`-th: rows (`dz`) outer,
/// columns (`dx`) inner, both from `-2` to `2`.
pub open spec fn block_cell(cx: int, cz: int, k: int) -> (int, int) {
    (cx + k % 5 - 2, cz + k / 5 - 2)
}

/// The sample stored in cell `(x, z)`, if that cell lies inside the grid.
pub open spec fn stored_at(cells: Seq<Option<usize>>, width: int, depth: int, x: int, z: int) -> Option<usize> {
    if 0 <= x < width && 0 <= z < depth {
        cells[z * width + x]
    } else {
        None
    }
}

/// The samples stored in the first `k` cells of the block around `(cx, cz)`, in visiting order.
pub open spec fn block_samples(cells: Seq<Option<usize>>, width: int, depth: int, cx: int, cz: int, k: nat) -> Seq<usize>
    decreases k,
{
    if k == 0 {
        Seq::empty()
    } else {
        let before = block_samples(cells, width, depth, cx, cz, (k - 1) as nat);
        let c = block_cell(cx, cz, k - 1);
        match stored_at(cells, width, depth, c.0, c.1) {
            Some(i) => before.push(i),
            None => before,
        }
    }
}

impl SampleGrid {
    /// Number of columns.
    pub closed spec fn grid_width(&self) -> int {
        self.width as int
    }

    /// Number of rows.
    pub closed spec fn grid_depth(&self) -> int {
        self.depth as int
    }

    /// The cells in row-major order.
    pub closed spec fn contents(&self) -> Seq<Option<usize>> {
        self.cells@
    }

    /// Both dimensions are positive and the cells fill the grid exactly.
    pub closed spec fn wf(&self) -> bool {
        &&& self.width >= 1
        &&& self.depth >= 1
        &&& self.width * self.depth <= i32::MAX
        &&& self.cells@.len() == self.width * self.depth
    }

    /// An empty grid of `width × depth` cells.
    pub fn new(width: i32, depth: i32) -> (grid: Self)
        requires
            width >= 1,
            depth >= 1,
            width * depth <= i32::MAX,
        ensures
            grid.wf(),
            grid.grid_width() == width,
            grid.grid_depth() == depth,
            grid.contents() == Seq::new((width * depth) as nat, |i: int| None::<usize>),
    {
        proof {
            assert(0 <= width * depth) by (nonlinear_arith)
                requires
                    width >= 1,
                    depth >= 1,
            ;
        }
        let total = (width * depth) as usize;
        let mut cells: Vec<Option<usize>> = Vec::new();
        for i in 0..total
            invariant
                cells@.len() == i,
                forall|j: int| 0 <= j < i ==> cells@[j] == None::<usize>,
        {
            cells.push(None);
        }
        let grid = SampleGrid { width, depth, cells };
        assert(grid.contents() =~= Seq::new((width * depth) as nat, |i: int| None::<usize>));
        grid
    }

    /// Records sample `index` in the cell at linear position `cz * width + cx`; positions
    /// outside the cell array are ignored.
    pub fn insert(&mut self, cx: i32, cz: i32, index: usize)
        requires
            old(self).wf(),
            i32::MIN <= cz * old(self).grid_width() + cx <= i32::MAX,
        ensures
            final(self).wf(),
            final(self).grid_width() == old(self).grid_width(),
            final(self).grid_depth() == old(self).grid_depth(),
            final(self).contents() == if 0 <= cz * old(self).grid_width() + cx < old(self).contents().len() {
                old(self).contents().update(cz * old(self).grid_width() + cx, Some(index))
            } else {
                old(self).contents()
            },
    {
        let linear = (cz as i64) * (self.width as i64) + (cx as i64);
        if 0 <= linear && linear < self.cells.len() as i64 {
            self.cells.set(linear as usize, Some(index));
        }
    }

    /// The samples stored in the `5 × 5` block of cells around `(cx, cz)` that lies inside
    /// the grid, rows first, in increasing `z` then `x`.
    pub fn block_neighbours(&self, cx: i32, cz: i32) -> (found: Vec<usize>)
        requires
            self.wf(),
        ensures
            found@ == block_samples(self.contents(), self.grid_width(), self.grid_depth(), cx as int, cz as int, 25),
    {
        let mut found: Vec<usize> = Vec::new();
        let mut k: i64 = 0;
        while k < 25
            invariant
                self.wf(),
                0 <= k <= 25,
                found@ == block_samples(self.contents(), self.grid_width(), self.grid_depth(), cx as int, cz as int, k as nat),
            decreases 25 - k,
        {
            let nx = cx as i64 + k % 5 - 2;
            let nz = cz as i64 + k / 5 - 2;
            if 0 <= nx && nx < self.width as i64 && 0 <= nz && nz < self.depth as i64 {
                proof {
                    assert(0 <= nz * self.width + nx < self.width * self.depth) by (nonlinear_arith)
                        requires
                            0 <= nx < self.width,
                            0 <= nz < self.depth,
                    ;
                }
                let linear = (nz * (self.width as i64) + nx) as usize;
                match self.cells[linear] {
                    Some(i) => found.push(i),
                    None => {},
                }
            }
            k = k + 1;
        }
        found
    }
}

proof fn lemma_block_samples_grow(cells: Seq<Option<usize>>, width: int, depth: int, cx: int, cz: int, k: nat, n: nat, i: usize)
    requires
        k <= n,
        block_samples(cells, width, depth, cx, cz, k).contains(i),
    ensures
        block_samples(cells, width, depth, cx, cz, n).contains(i),
    decreases n - k,
{
    if k < n {
        lemma_block_samples_grow(cells, width, depth, cx, cz, k, (n - 1) as nat, i);
        let before = block_samples(cells, width, depth, cx, cz, (n - 1) as nat);
        let j = choose|j: int| 0 <= j < before.len() && before[j] == i;
        let c = block_cell(cx, cz, n - 1);
        match stored_at(cells, width, depth, c.0, c.1) {
            Some(v) => {
                assert(before.push(v)[j] == i);
            },
            None => {},
        }
    }
}

/// The lookup misses no neighbour: a sample stored in a grid cell at most two cells away
/// (in both directions) from `(cx, cz)` is among the samples of the block around it.
pub proof fn lemma_block_finds_nearby_sample(
    cells: Seq<Option<usize>>,
    width: int,
    depth: int,
    cx: int,
    cz: int,
    x: int,
    z: int,
    i: usize,
)
    requires
        0 <= x < width,
        0 <= z < depth,
        cx - 2 <= x <= cx + 2,
        cz - 2 <= z <= cz + 2,
        cells[z * width + x] == Some(i),
    ensures
        block_samples(cells, width, depth, cx, cz, 25).contains(i),
{
    let k = (z - cz + 2) * 5 + (x - cx + 2);
    assert(k % 5 == x - cx + 2 && k / 5 == z - cz + 2);
    assert(block_cell(cx, cz, k) == (x, z));
    let before = block_samples(cells, width, depth, cx, cz, k as nat);
    assert(block_samples(cells, width, depth, cx, cz, (k + 1) as nat) == before.push(i));
    assert(before.push(i)[before.len() as int] == i);
    lemma_block_samples_grow(cells, width, depth, cx, cz, (k + 1) as nat, 25, i);
}

} // verus!
