//! The uniform grid: bucket storage and the coordinate-to-cell mapping.

use vstd::arithmetic::div_mod::{
    lemma_div_is_ordered, lemma_div_pos_is_pos, lemma_fundamental_div_mod,
};
use vstd::prelude::*;

verus! {

/// A 2D position in world coordinates.
#[derive(Clone, Copy, PartialEq, Eq, Structural, Debug)]
pub struct Position {
    pub x: i64,
    pub y: i64,
}

/// Errors raised by grid operations.
#[derive(Clone, Copy, PartialEq, Eq, Structural, Debug)]
pub enum GridError {
    /// The grid was constructed with a non-positive extent or cell size.
    InvalidConfig,
    /// A removal named a bucket that does not hold the entity.
    NotFound,
}

/// Mathematical model of a [`Grid`]: its configuration and the contents of
/// every bucket, row-major by cell.
#[verifier::ext_equal]
pub ghost struct GridModel {
    /// Side length of the indexed square region `[0, extent)` per axis.
    pub extent: int,
    /// World units per cell edge, uniform on both axes.
    pub cell_size: int,
    /// Cells per axis; the region is square, so rows equal columns.
    pub columns: int,
    /// Bucket `c` holds the identifiers indexed at cell `c`.
    pub buckets: Seq<Seq<u64>>,
}

/// A configuration is valid when both the extent and the cell size are
/// strictly positive.
pub open spec fn valid_config(extent: int, cell_size: int) -> bool {
    0 < extent && 0 < cell_size
}

/// Number of cells per axis: the ceiling of `extent / cell_size`
/// (see [`lemma_cells_per_axis_is_ceil`]).
pub open spec fn cells_per_axis(extent: int, cell_size: int) -> int {
    (extent - 1) / cell_size + 1
}

/// Total number of cells of a grid with the given configuration.
pub open spec fn grid_cells(extent: int, cell_size: int) -> int {
    cells_per_axis(extent, cell_size) * cells_per_axis(extent, cell_size)
}

/// `cells_per_axis` is exactly the ceiling of `extent / cell_size`: the cells
/// cover the extent, and dropping the last cell would leave part uncovered.
pub proof fn lemma_cells_per_axis_is_ceil(extent: int, cell_size: int)
    requires
        valid_config(extent, cell_size),
    ensures
        1 <= cells_per_axis(extent, cell_size),
        cell_size * (cells_per_axis(extent, cell_size) - 1) < extent,
        extent <= cell_size * cells_per_axis(extent, cell_size),
{
    let q = (extent - 1) / cell_size;
    lemma_div_pos_is_pos(extent - 1, cell_size);
    lemma_fundamental_div_mod(extent - 1, cell_size);
    vstd::arithmetic::div_mod::lemma_mod_bound(extent - 1, cell_size);
    assert(extent - 1 == cell_size * q + (extent - 1) % cell_size);
    assert(cell_size * (q + 1) == cell_size * q + cell_size) by (nonlinear_arith);
}

impl GridModel {
    /// Well-formedness: a valid configuration, the derived cell count, and a
    /// bucket for every cell.
    pub open spec fn wf(self) -> bool {
        &&& valid_config(self.extent, self.cell_size)
        &&& self.columns == cells_per_axis(self.extent, self.cell_size)
        &&& self.buckets.len() == self.columns * self.columns
    }
}

/// Whether a position lies inside the indexed region `[0, extent)` on both
/// axes.
pub open spec fn in_bounds(m: GridModel, p: Position) -> bool {
    &&& 0 <= p.x < m.extent
    &&& 0 <= p.y < m.extent
}

/// Row-major cell index of an in-bounds position:
/// `floor(x / cell_size) + floor(y / cell_size) * columns`.
pub open spec fn cell_index(m: GridModel, p: Position) -> int {
    p.x as int / m.cell_size + (p.y as int / m.cell_size) * m.columns
}

/// The cell a position maps to: `None` outside the indexed region (the
/// silent-drop policy), `Some` of the row-major index inside it.
pub open spec fn cell_of(m: GridModel, p: Position) -> Option<int> {
    if in_bounds(m, p) {
        Some(cell_index(m, p))
    } else {
        None
    }
}

/// The cell a position maps to depends only on the grid configuration, not
/// on the bucket contents.
pub proof fn lemma_cell_of_congruent(m1: GridModel, m2: GridModel, p: Position)
    requires
        m1.extent == m2.extent,
        m1.cell_size == m2.cell_size,
        m1.columns == m2.columns,
    ensures
        cell_of(m1, p) == cell_of(m2, p),
{
}

/// The index of every in-bounds position names an existing bucket.
pub proof fn lemma_cell_index_in_range(m: GridModel, p: Position)
    requires
        m.wf(),
        in_bounds(m, p),
    ensures
        0 <= cell_index(m, p) < m.buckets.len(),
        p.x as int / m.cell_size < m.columns,
        p.y as int / m.cell_size < m.columns,
        0 <= p.x as int / m.cell_size,
        0 <= p.y as int / m.cell_size,
{
    let cs = m.cell_size;
    let cols = m.columns;
    let cx = p.x as int / cs;
    let cy = p.y as int / cs;
    lemma_div_pos_is_pos(p.x as int, cs);
    lemma_div_pos_is_pos(p.y as int, cs);
    lemma_div_is_ordered(p.x as int, m.extent - 1, cs);
    lemma_div_is_ordered(p.y as int, m.extent - 1, cs);
    assert(cx + cy * cols < cols * cols) by (nonlinear_arith)
        requires
            0 <= cx <= cols - 1,
            0 <= cy <= cols - 1,
            1 <= cols,
    ;
    assert(0 <= cx + cy * cols) by (nonlinear_arith)
        requires
            0 <= cx,
            0 <= cy,
            1 <= cols,
    ;
}

/// Model of a freshly constructed grid: every bucket exists and is empty.
pub open spec fn grid_init(extent: int, cell_size: int) -> GridModel {
    GridModel {
        extent,
        cell_size,
        columns: cells_per_axis(extent, cell_size),
        buckets: Seq::new(grid_cells(extent, cell_size) as nat, |i: int| Seq::empty()),
    }
}

/// Model of [`Grid::clear`]: the configuration is kept and every bucket is
/// emptied.
pub open spec fn clear_model(m: GridModel) -> GridModel {
    GridModel { buckets: Seq::new(m.buckets.len(), |i: int| Seq::empty()), ..m }
}

/// Model of [`Grid::insert`]: the identifier is appended to the bucket of the
/// position's cell, or nothing changes when the position is out of bounds.
pub open spec fn insert_model(m: GridModel, id: u64, p: Position) -> GridModel {
    match cell_of(m, p) {
        Some(c) => GridModel { buckets: m.buckets.update(c, m.buckets[c].push(id)), ..m },
        None => m,
    }
}

/// Model of [`Grid::remove`]: the first occurrence of the identifier leaves
/// bucket `c`, or nothing changes when the bucket does not hold it.
pub open spec fn remove_model(m: GridModel, id: u64, c: int) -> GridModel {
    match m.buckets[c].index_of_first(id) {
        Some(k) => GridModel { buckets: m.buckets.update(c, m.buckets[c].remove(k)), ..m },
        None => m,
    }
}

/// The uniform spatial hash grid. It owns one bucket of entity identifiers
/// per cell; entity identifiers are foreign keys owned by the caller.
#[derive(Debug)]
pub struct Grid {
    extent: i64,
    cell_size: i64,
    columns: usize,
    buckets: Vec<Vec<u64>>,
}

impl View for Grid {
    type V = GridModel;

    closed spec fn view(&self) -> GridModel {
        GridModel {
            extent: self.extent as int,
            cell_size: self.cell_size as int,
            columns: self.columns as int,
            buckets: Seq::new(self.buckets@.len(), |i: int| self.buckets@[i]@),
        }
    }
}

impl Grid {
    /// Creates a grid over the square region `[0, extent)` with square cells
    /// of side `cell_size`, every bucket empty. Rejects a non-positive
    /// extent or cell size with `InvalidConfig`.
    pub fn new(extent: i64, cell_size: i64) -> (r: Result<Grid, GridError>)
        requires
            valid_config(extent as int, cell_size as int) ==> grid_cells(
                extent as int,
                cell_size as int,
            ) <= usize::MAX,
        ensures
            match r {
                Ok(g) => valid_config(extent as int, cell_size as int) && g@ == grid_init(
                    extent as int,
                    cell_size as int,
                ) && g@.wf(),
                Err(e) => e == GridError::InvalidConfig && !valid_config(
                    extent as int,
                    cell_size as int,
                ),
            },
    {
        if extent <= 0 || cell_size <= 0 {
            return Err(GridError::InvalidConfig);
        }
        let ue = extent as u64;
        let ucs = cell_size as u64;
        proof {
            lemma_cells_per_axis_is_ceil(extent as int, cell_size as int);
            assert((ue - 1) as int / ucs as int <= ue - 1) by (nonlinear_arith)
                requires
                    1 <= ucs,
                    1 <= ue,
            ;
        }
        let cols_wide = (ue - 1) / ucs + 1;
        proof {
            let cpa = cells_per_axis(extent as int, cell_size as int);
            assert(cols_wide as int == cpa);
            assert(cpa <= cpa * cpa) by (nonlinear_arith)
                requires
                    1 <= cpa,
            ;
        }
        let columns = cols_wide as usize;
        let total_cells = columns * columns;
        let mut buckets: Vec<Vec<u64>> = Vec::new();
        for i in 0..total_cells
            invariant
                buckets@.len() == i,
                forall|j: int| 0 <= j < i ==> buckets@[j]@.len() == 0,
        {
            buckets.push(Vec::new());
        }
        let g = Grid { extent, cell_size, columns, buckets };
        proof {
            assert(g@.buckets =~~= grid_init(extent as int, cell_size as int).buckets);
            assert(g@ =~~= grid_init(extent as int, cell_size as int));
        }
        Ok(g)
    }

    /// Resets every bucket to empty. The buckets themselves are kept (their
    /// storage is cleared, not reallocated), so the grid stays well formed.
    pub fn clear(&mut self)
        requires
            old(self)@.wf(),
        ensures
            final(self)@ == clear_model(old(self)@),
            final(self)@.wf(),
    {
        let n = self.buckets.len();
        for i in 0..n
            invariant
                self.buckets@.len() == n,
                self.extent == old(self).extent,
                self.cell_size == old(self).cell_size,
                self.columns == old(self).columns,
                forall|j: int| 0 <= j < i ==> self.buckets@[j]@.len() == 0,
        {
            let bucket = &mut self.buckets[i];
            bucket.clear();
        }
        proof {
            assert(self@.buckets =~~= clear_model(old(self)@).buckets);
            assert(self@ =~~= clear_model(old(self)@));
        }
    }

    /// Maps a position to the row-major index of its cell, or `None` when the
    /// position lies outside `[0, extent)` on either axis. Out-of-bounds
    /// positions are a matter of policy, not an error: entities may roam
    /// outside the indexed region and are simply left unindexed.
    pub fn cell_index_for(&self, p: Position) -> (r: Option<usize>)
        requires
            self@.wf(),
        ensures
            match r {
                Some(i) => cell_of(self@, p) == Some(i as int) && i < self@.buckets.len(),
                None => cell_of(self@, p) is None,
            },
    {
        if p.x < 0 || p.x >= self.extent || p.y < 0 || p.y >= self.extent {
            return None;
        }
        proof {
            lemma_cell_index_in_range(self@, p);
        }
        let ucs = self.cell_size as u64;
        let cx_wide = (p.x as u64) / ucs;
        let cy_wide = (p.y as u64) / ucs;
        let cx = cx_wide as usize;
        let cy = cy_wide as usize;
        let n = self.buckets.len();
        proof {
            assert(cx < self.columns && cy < self.columns);
            assert(cy as int * self.columns as int + cx < n);
            assert(cy * self.columns <= n) by (nonlinear_arith)
                requires
                    cy as int * self.columns as int + cx < n,
                    0 <= cx,
            ;
        }
        let idx = cx + cy * self.columns;
        Some(idx)
    }

    /// Appends the identifier to the bucket of the position's cell; a
    /// position outside the indexed region is silently dropped. No
    /// uniqueness check is made: inserting an identifier twice without a
    /// removal in between leaves duplicate bucket entries.
    pub fn insert(&mut self, id: u64, p: Position)
        requires
            old(self)@.wf(),
        ensures
            final(self)@ == insert_model(old(self)@, id, p),
            final(self)@.wf(),
    {
        let r = self.cell_index_for(p);
        match r {
            Some(i) => {
                let bucket = &mut self.buckets[i];
                bucket.push(id);
                proof {
                    assert(self@.buckets =~~= insert_model(old(self)@, id, p).buckets);
                    assert(self@ =~~= insert_model(old(self)@, id, p));
                }
            },
            None => {
                proof {
                    assert(self@ =~~= insert_model(old(self)@, id, p));
                }
            },
        }
    }

    /// Removes the first occurrence of the identifier from the named bucket.
    /// Returns `NotFound`, leaving the grid unchanged, when the bucket does
    /// not hold the identifier; this is defensive, not fatal, because a
    /// stored cell can in pathological cases be stale.
    pub fn remove(&mut self, id: u64, cell: usize) -> (r: Result<(), GridError>)
        requires
            old(self)@.wf(),
            cell < old(self)@.buckets.len(),
        ensures
            final(self)@ == remove_model(old(self)@, id, cell as int),
            final(self)@.wf(),
            r is Ok <==> old(self)@.buckets[cell as int].contains(id),
            r is Err ==> r == Err::<(), GridError>(GridError::NotFound) && final(self)@ == old(
                self,
            )@,
    {
        let ghost target = old(self)@.buckets[cell as int];
        let n = self.buckets[cell].len();
        let mut k: usize = 0;
        while k < n
            invariant
                self == old(self),
                old(self)@.wf(),
                cell < self.buckets@.len(),
                n == self.buckets@[cell as int]@.len(),
                target == self@.buckets[cell as int],
                k <= n,
                forall|j: int| 0 <= j < k ==> target[j] != id,
            decreases n - k,
        {
            if self.buckets[cell][k] == id {
                proof {
                    target.index_of_first_ensures(id);
                    assert(target[k as int] == id);
                    assert(target.contains(id));
                    let ki = target.index_of_first(id).unwrap();
                    if ki < k as int {
                        assert(target[ki] == id);
                        assert(false);
                    }
                    if ki > k as int {
                        assert(target[k as int] != id);
                        assert(false);
                    }
                    assert(target.index_of_first(id) == Some(k as int));
                }
                let bucket = &mut self.buckets[cell];
                bucket.remove(k);
                proof {
                    assert(self@.buckets =~~= remove_model(old(self)@, id, cell as int).buckets);
                    assert(self@ =~~= remove_model(old(self)@, id, cell as int));
                }
                return Ok(());
            }
            k = k + 1;
        }
        proof {
            target.index_of_first_ensures(id);
            assert(forall|j: int| 0 <= j < target.len() ==> target[j] != id);
            assert(!target.contains(id));
            assert(self@ =~~= remove_model(old(self)@, id, cell as int));
        }
        Err(GridError::NotFound)
    }

    /// A read-only snapshot of the identifiers in one bucket, for occupancy
    /// consumers (visualization, neighbor queries).
    pub fn bucket_contents(&self, cell: usize) -> (r: Vec<u64>)
        requires
            self@.wf(),
            cell < self@.buckets.len(),
        ensures
            r@ == self@.buckets[cell as int],
    {
        let bucket = &self.buckets[cell];
        let n = bucket.len();
        let mut out: Vec<u64> = Vec::new();
        let mut i: usize = 0;
        while i < n
            invariant
                n == bucket@.len(),
                i <= n,
                out@ == bucket@.subrange(0, i as int),
            decreases n - i,
        {
            out.push(bucket[i]);
            proof {
                assert(out@ =~= bucket@.subrange(0, i + 1 as int));
            }
            i = i + 1;
        }
        proof {
            assert(out@ =~= bucket@);
        }
        out
    }

    /// Population count of one bucket, for occupancy consumers.
    pub fn bucket_len(&self, cell: usize) -> (r: usize)
        requires
            self@.wf(),
            cell < self@.buckets.len(),
        ensures
            r == self@.buckets[cell as int].len(),
    {
        self.buckets[cell].len()
    }

    /// The column and row of a cell index: the inverse of the row-major
    /// mapping, used by occupancy consumers to lay cells out in space.
    pub fn cell_coords(&self, cell: usize) -> (r: (usize, usize))
        requires
            self@.wf(),
            cell < self@.buckets.len(),
        ensures
            r.0 as int == cell as int % self@.columns,
            r.1 as int == cell as int / self@.columns,
            r.0 as int + r.1 as int * self@.columns == cell as int,
            (r.0 as int) < self@.columns,
            (r.1 as int) < self@.columns,
    {
        proof {
            lemma_cells_per_axis_is_ceil(self@.extent, self@.cell_size);
            let cols = self@.columns;
            lemma_fundamental_div_mod(cell as int, cols);
            vstd::arithmetic::div_mod::lemma_mod_bound(cell as int, cols);
            assert((cell as int) / cols < cols) by (nonlinear_arith)
                requires
                    0 < cols,
                    cell as int == cols * (cell as int / cols) + cell as int % cols,
                    0 <= cell as int % cols < cols,
                    (cell as int) < cols * cols,
            ;
        }
        let col = cell % self.columns;
        let row = cell / self.columns;
        proof {
            let cols = self@.columns;
            assert(row as int * cols == cols * (cell as int / cols)) by (nonlinear_arith)
                requires
                    row as int == cell as int / cols,
            ;
        }
        (col, row)
    }

    /// Cells per axis along x.
    pub fn columns(&self) -> (r: usize)
        ensures
            r as int == self@.columns,
    {
        self.columns
    }

    /// Cells per axis along y; the indexed region is square, so this equals
    /// [`Grid::columns`].
    pub fn rows(&self) -> (r: usize)
        ensures
            r as int == self@.columns,
    {
        self.columns
    }

    /// Total number of buckets.
    pub fn total_cells(&self) -> (r: usize)
        ensures
            r as int == self@.buckets.len(),
    {
        self.buckets.len()
    }

    /// Side length of the indexed square region.
    pub fn extent(&self) -> (r: i64)
        ensures
            r as int == self@.extent,
    {
        self.extent
    }

    /// World units per cell edge.
    pub fn cell_size(&self) -> (r: i64)
        ensures
            r as int == self@.cell_size,
    {
        self.cell_size
    }
}

} // verus!
