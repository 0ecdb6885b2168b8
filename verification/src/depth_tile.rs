//! The depth buffer of one square tile of an octree voxel render. Regions
//! are addressed by global voxel coordinates, which wrap into the tile; a
//! region whose every column is already at least as near as its far side
//! is hidden, a full region raises its columns to its depth, and a sampling
//! pass evaluates only the columns that are not yet covered.
use vstd::arithmetic::div_mod::{lemma_fundamental_div_mod, lemma_fundamental_div_mod_converse};
use vstd::prelude::*;

verus! {

/// Depths of a `size` by `size` tile, row by row; larger is nearer, and
/// zero is an empty ray.
pub struct DepthTile {
    pub size: usize,
    pub depths: Vec<u32>,
}

impl DepthTile {
    pub open spec fn well_formed(&self) -> bool {
        &&& self.size > 0
        &&& self.depths@.len() == self.size * self.size
    }
}

/// Where global column (`x`, `y`) falls in a tile of `size` columns a side.
pub open spec fn offset_of(x: int, y: int, size: int) -> int {
    (y % size) * size + x % size
}

/// The depth a region reaches: one past its far side.
pub open spec fn fill_depth(corner_z: int, extent: int) -> u32 {
    (corner_z + extent + 1) as u32
}

/// Every column of the `extent` by `extent` region at (`corner_x`,
/// `corner_y`) is at least `fill` deep.
pub open spec fn hidden(
    depths: Seq<u32>,
    size: int,
    corner_x: int,
    corner_y: int,
    extent: int,
    fill: u32,
) -> bool {
    forall|x: int, y: int|
        corner_x <= x < corner_x + extent && corner_y <= y < corner_y + extent ==> depths[offset_of(
            x,
            y,
            size,
        )] >= fill
}

/// How far column `i` of a tile lies right of `corner_x` and below
/// `corner_y`, coordinates wrapping into the tile.
pub open spec fn across(i: int, size: int, corner_x: int) -> int {
    (i % size - corner_x) % size
}

pub open spec fn down(i: int, size: int, corner_y: int) -> int {
    (i / size - corner_y) % size
}

/// The depths once the first `rows` rows of the `extent` by `extent` region
/// at (`corner_x`, `corner_y`), and the first `columns` columns of the row
/// after them, are at least `fill` deep.
pub open spec fn raised_part(
    depths: Seq<u32>,
    size: int,
    corner_x: int,
    corner_y: int,
    extent: int,
    fill: u32,
    rows: int,
    columns: int,
) -> Seq<u32> {
    Seq::new(
        depths.len(),
        |i: int|
            {
                let dx = across(i, size, corner_x);
                let dy = down(i, size, corner_y);
                if dx < extent && (dy < rows || (dy == rows && dx < columns)) && depths[i] < fill {
                    fill
                } else {
                    depths[i]
                }
            },
    )
}

/// The depths once every column of the `extent` by `extent` region at
/// (`corner_x`, `corner_y`) is at least `fill` deep.
pub open spec fn raised(
    depths: Seq<u32>,
    size: int,
    corner_x: int,
    corner_y: int,
    extent: int,
    fill: u32,
) -> Seq<u32> {
    raised_part(depths, size, corner_x, corner_y, extent, fill, extent, 0)
}

/// A column of the tile is `step` columns past `corner` exactly when it is
/// where `corner + step` wraps to.
proof fn lemma_wrap(column: int, corner: int, step: int, size: int)
    requires
        0 <= column < size,
        0 <= step < size,
    ensures
        (column == (corner + step) % size) <==> ((column - corner) % size == step),
{
    lemma_fundamental_div_mod(corner + step, size);
    lemma_fundamental_div_mod(column - corner, size);
    let q = (corner + step) / size;
    let p = (column - corner) / size;
    if column == (corner + step) % size {
        assert(column - corner == size * (-q) + step) by (nonlinear_arith)
            requires
                corner + step == size * q + column,
        ;
        lemma_fundamental_div_mod_converse(column - corner, size, -q, step);
    }
    if (column - corner) % size == step {
        assert(corner + step == size * (-p) + column) by (nonlinear_arith)
            requires
                column - corner == size * p + step,
        ;
        lemma_fundamental_div_mod_converse(corner + step, size, -p, column);
    }
}

/// Each column of the tile is at the offset of its own row and column.
proof fn lemma_column(i: int, size: int)
    requires
        0 < size,
        0 <= i < size * size,
    ensures
        0 <= i % size < size,
        0 <= i / size < size,
        i == (i / size) * size + i % size,
{
    lemma_fundamental_div_mod(i, size);
    assert(0 <= i / size < size) by (nonlinear_arith)
        requires
            0 <= i < size * size,
            i == size * (i / size) + i % size,
            0 <= i % size < size,
    ;
    assert(size * (i / size) == (i / size) * size) by (nonlinear_arith);
}

/// How many of 0, `stride`, 2 * `stride`, ... lie below `extent`.
pub open spec fn steps(extent: int, stride: int) -> int {
    (extent + stride - 1) / stride
}

/// The columns of the tile that a pass over the `extent` by `extent` region
/// at (`corner_x`, `corner_y`) visits every `stride` voxels, row by row.
pub open spec fn sample_grid(size: int, corner_x: int, corner_y: int, extent: int, stride: int) -> Seq<
    usize,
> {
    let n = steps(extent, stride);
    Seq::new(
        (n * n) as nat,
        |j: int| offset_of(corner_x + (j % n) * stride, corner_y + (j / n) * stride, size) as usize,
    )
}

/// The columns of that grid that nothing as near as `near` covers yet.
pub open spec fn uncovered(depths: Seq<u32>, grid: Seq<usize>, near: u32) -> Seq<usize> {
    grid.filter(|column: usize| depths[column as int] < near)
}

proof fn lemma_steps(k: int, extent: int, stride: int)
    requires
        0 <= k,
        0 <= extent,
        0 < stride,
    ensures
        k * stride < extent <==> k < steps(extent, stride),
        0 <= steps(extent, stride),
{
    let n = steps(extent, stride);
    lemma_fundamental_div_mod(extent + stride - 1, stride);
    let r = (extent + stride - 1) % stride;
    assert(k * stride < extent <==> k < n) by (nonlinear_arith)
        requires
            extent + stride - 1 == stride * n + r,
            0 <= r < stride,
            0 <= k,
            0 <= extent,
            0 < stride,
    ;
    assert(0 <= n) by (nonlinear_arith)
        requires
            extent + stride - 1 == stride * n + r,
            0 <= r < stride,
            0 <= extent,
            0 < stride,
    ;
}

proof fn lemma_offset_bound(x: int, y: int, size: int)
    requires
        0 <= x,
        0 <= y,
        0 < size,
    ensures
        0 <= offset_of(x, y, size) < size * size,
        offset_of(x, y, size) % size == x % size,
        offset_of(x, y, size) / size == y % size,
{
    lemma_fundamental_div_mod(x, size);
    lemma_fundamental_div_mod(y, size);
    let row = y % size;
    let column = x % size;
    assert(0 <= row * size + column < size * size) by (nonlinear_arith)
        requires
            0 <= row < size,
            0 <= column < size,
    ;
    lemma_fundamental_div_mod_converse(row * size + column, size, row, column);
}

/// The corners of the children of a region of `extent` voxels a side split
/// into children of `child_extent`: row by row, column by column, and in
/// each column from the far side to the near one.
pub fn child_corners(corner: [usize; 3], extent: usize, child_extent: usize) -> (r: Vec<[usize; 3]>)
    requires
        0 < child_extent <= extent,
        (extent / child_extent) * (extent / child_extent) * (extent / child_extent) <= usize::MAX,
        corner[0] + extent <= usize::MAX,
        corner[1] + extent <= usize::MAX,
        corner[2] + extent <= usize::MAX,
    ensures
        ({
            let n = (extent / child_extent) as int;
            &&& r@.len() == n * n * n
            &&& forall|j: int|
                0 <= j < r@.len() ==> {
                    &&& (#[trigger] r@[j])[0] == corner[0] + ((j / n) % n) * child_extent
                    &&& r@[j][1] == corner[1] + ((j / n) / n) * child_extent
                    &&& r@[j][2] == corner[2] + (n - 1 - j % n) * child_extent
                }
        }),
{
    let n = extent / child_extent;
    let ghost m = n as int;
    proof {
        assert(n * child_extent <= extent) by (nonlinear_arith)
            requires
                n == extent / child_extent,
            m == n,
                0 < child_extent,
                0 <= extent,
        ;
        assert(n > 0) by (nonlinear_arith)
            requires
                n == extent / child_extent,
            m == n,
                0 < child_extent <= extent,
        ;
    }
    let mut corners: Vec<[usize; 3]> = Vec::new();
    let mut y: usize = 0;
    while y < n
        invariant
            y <= n,
            0 < n,
            0 < child_extent,
            n == extent / child_extent,
            m == n,
            n * child_extent <= extent,
            n * n * n <= usize::MAX,
            corner[0] + extent <= usize::MAX,
            corner[1] + extent <= usize::MAX,
            corner[2] + extent <= usize::MAX,
            corners@.len() == y * n * n,
            forall|j: int|
                0 <= j < corners@.len() ==> {
                    &&& (#[trigger] corners@[j])[0] == corner[0] + ((j / m) % m) * child_extent
                    &&& corners@[j][1] == corner[1] + ((j / m) / m) * child_extent
                    &&& corners@[j][2] == corner[2] + (m - 1 - j % m) * child_extent
                },
        decreases n - y,
    {
        let mut x: usize = 0;
        proof {
            assert(y * n * n == (y * n + 0) * n) by (nonlinear_arith);
        }
        while x < n
            invariant
                x <= n,
                y < n,
                0 < n,
                0 < child_extent,
            0 < child_extent,
                n == extent / child_extent,
            m == n,
                n * child_extent <= extent,
                n * n * n <= usize::MAX,
                corner[0] + extent <= usize::MAX,
                corner[1] + extent <= usize::MAX,
                corner[2] + extent <= usize::MAX,
                corners@.len() == (y * n + x) * n,
                forall|j: int|
                    0 <= j < corners@.len() ==> {
                        &&& (#[trigger] corners@[j])[0] == corner[0] + ((j / m) % m) * child_extent
                        &&& corners@[j][1] == corner[1] + ((j / m) / m) * child_extent
                        &&& corners@[j][2] == corner[2] + (m - 1 - j % m) * child_extent
                    },
            decreases n - x,
        {
            let mut z: usize = n;
            proof {
                assert(y * child_extent <= (n - 1) * child_extent && x * child_extent <= (n - 1)
                    * child_extent) by (nonlinear_arith)
                    requires
                        y < n,
                        x < n,
                        0 < child_extent,
                ;
                assert((n - 1) * child_extent + child_extent == n * child_extent) by (nonlinear_arith);
            }
            while z > 0
                invariant
                    z <= n,
                    x < n,
                    y < n,
                    0 < n,
                    0 < child_extent,
                0 < child_extent,
            0 < child_extent,
                    n == extent / child_extent,
            m == n,
                    n * child_extent <= extent,
                    n * n * n <= usize::MAX,
                    y * child_extent <= (n - 1) * child_extent,
                    x * child_extent <= (n - 1) * child_extent,
                    (n - 1) * child_extent + child_extent == n * child_extent,
                    corner[0] + extent <= usize::MAX,
                    corner[1] + extent <= usize::MAX,
                    corner[2] + extent <= usize::MAX,
                    corners@.len() == (y * n + x) * n + (n - z),
                    forall|j: int|
                        0 <= j < corners@.len() ==> {
                            &&& (#[trigger] corners@[j])[0] == corner[0] + ((j / m) % m)
                                * child_extent
                            &&& corners@[j][1] == corner[1] + ((j / m) / m) * child_extent
                            &&& corners@[j][2] == corner[2] + (m - 1 - j % m) * child_extent
                        },
                decreases z,
            {
                z = z - 1;
                proof {
                    assert(z * child_extent <= (n - 1) * child_extent) by (nonlinear_arith)
                        requires
                            z < n,
                            0 < child_extent,
                    ;
                    let j = (y * m + x) * m + (m - 1 - z);
                    lemma_fundamental_div_mod_converse(j, m, y * m + x, m - 1 - z);
                    lemma_fundamental_div_mod_converse(y * m + x, m, y as int, x as int);
                    assert(j < n * n * n) by (nonlinear_arith)
                        requires
                            y < n,
                            x < n,
                            z < n,
                            j == (y * n + x) * n + (n - 1 - z),
                    ;
                }
                let child = [
                    corner[0] + x * child_extent,
                    corner[1] + y * child_extent,
                    corner[2] + z * child_extent,
                ];
                corners.push(child);
            }
            proof {
                assert((y * n + x) * n + n == (y * n + (x + 1)) * n) by (nonlinear_arith);
            }
            x = x + 1;
        }
        proof {
            assert((y * n + n) * n == (y + 1) * n * n) by (nonlinear_arith);
        }
        y = y + 1;
    }
    corners
}

/// A region raised to a depth is hidden at that depth: once a full region
/// is filled, the same region tests hidden, and every depth only grows.
pub proof fn lemma_filled_region_is_hidden(
    depths: Seq<u32>,
    size: int,
    corner_x: int,
    corner_y: int,
    extent: int,
    fill: u32,
)
    requires
        0 < size,
        depths.len() == size * size,
        0 <= extent <= size,
        0 <= corner_x,
        0 <= corner_y,
    ensures
        hidden(raised(depths, size, corner_x, corner_y, extent, fill), size, corner_x, corner_y, extent, fill),
        forall|i: int|
            0 <= i < depths.len() ==> #[trigger] raised(
                depths,
                size,
                corner_x,
                corner_y,
                extent,
                fill,
            )[i] >= depths[i],
{
    let after = raised(depths, size, corner_x, corner_y, extent, fill);
    assert forall|x: int, y: int|
        corner_x <= x < corner_x + extent && corner_y <= y < corner_y + extent implies after[offset_of(
            x,
            y,
            size,
        )] >= fill by {
        let o = offset_of(x, y, size);
        lemma_offset_bound(x, y, size);
        lemma_fundamental_div_mod(x, size);
        lemma_fundamental_div_mod(y, size);
        lemma_wrap(o % size, corner_x, x - corner_x, size);
        lemma_wrap(o / size, corner_y, y - corner_y, size);
    }
}

impl DepthTile {
    /// An empty tile: every ray empty.
    pub fn new(size: usize) -> (r: DepthTile)
        requires
            size > 0,
            size * size <= usize::MAX,
        ensures
            r.well_formed(),
            r.size == size,
            r.depths@ == Seq::new((size * size) as nat, |i: int| 0u32),
    {
        let depths: Vec<u32> = vec![0u32; size * size];
        proof {
            assert(depths@ =~= Seq::new((size * size) as nat, |i: int| 0u32));
        }
        DepthTile { size, depths }
    }

    /// Where a global column falls in the tile.
    pub fn offset(&self, x: usize, y: usize) -> (r: usize)
        requires
            self.well_formed(),
        ensures
            r == offset_of(x as int, y as int, self.size as int),
            r < self.depths@.len(),
    {
        proof {
            lemma_offset_bound(x as int, y as int, self.size as int);
            assert(self.depths@.len() == self.depths.len());
        }
        (y % self.size) * self.size + x % self.size
    }

    /// Whether the region of `extent` voxels a side at `corner` is hidden
    /// behind what the tile already holds.
    pub fn hidden(&self, corner: [usize; 3], extent: usize) -> (r: bool)
        requires
            self.well_formed(),
            corner[0] + extent <= usize::MAX,
            corner[1] + extent <= usize::MAX,
            corner[2] + extent + 1 <= usize::MAX,
        ensures
            r == hidden(
                self.depths@,
                self.size as int,
                corner[0] as int,
                corner[1] as int,
                extent as int,
                fill_depth(corner[2] as int, extent as int),
            ),
    {
        let fill = #[verifier::truncate] ((corner[2] + extent + 1) as u32);
        let mut y: usize = 0;
        while y < extent
            invariant
                y <= extent,
                fill == fill_depth(corner[2] as int, extent as int),
                self.well_formed(),
                corner[0] + extent <= usize::MAX,
                corner[1] + extent <= usize::MAX,
                forall|xx: int, yy: int|
                    corner[0] <= xx < corner[0] + extent && corner[1] <= yy < corner[1] + y
                        ==> self.depths@[offset_of(xx, yy, self.size as int)] >= fill,
            decreases extent - y,
        {
            let ghost row = corner[1] + y;
            let mut x: usize = 0;
            while x < extent
                invariant
                    x <= extent,
                    y < extent,
                    row == corner[1] + y,
                    fill == fill_depth(corner[2] as int, extent as int),
                    self.well_formed(),
                    corner[0] + extent <= usize::MAX,
                    corner[1] + extent <= usize::MAX,
                    forall|xx: int, yy: int|
                        corner[0] <= xx < corner[0] + extent && corner[1] <= yy < corner[1] + y
                            ==> self.depths@[offset_of(xx, yy, self.size as int)] >= fill,
                    forall|xx: int|
                        corner[0] <= xx < corner[0] + x ==> self.depths@[offset_of(
                            xx,
                            row,
                            self.size as int,
                        )] >= fill,
                decreases extent - x,
            {
                let place = self.offset(corner[0] + x, corner[1] + y);
                if self.depths[place] < fill {
                    assert(self.depths@[offset_of(corner[0] + x, row, self.size as int)] < fill);
                    return false;
                }
                x = x + 1;
            }
            y = y + 1;
        }
        true
    }

    /// The columns that a pass over the region of `extent` voxels a side at
    /// `corner` samples every `stride` voxels, row by row, leaving out those
    /// already at least as near as the region's far side.
    pub fn columns_to_sample(&self, corner: [usize; 3], extent: usize, stride: usize) -> (r: Vec<
        usize,
    >)
        requires
            self.well_formed(),
            stride > 0,
            extent + stride <= usize::MAX,
            corner[0] + extent <= usize::MAX,
            corner[1] + extent <= usize::MAX,
            corner[2] + extent <= usize::MAX,
        ensures
            r@ == uncovered(
                self.depths@,
                sample_grid(
                    self.size as int,
                    corner[0] as int,
                    corner[1] as int,
                    extent as int,
                    stride as int,
                ),
                ((corner[2] + extent) as u32),
            ),
    {
        let near = #[verifier::truncate] ((corner[2] + extent) as u32);
        let ghost n = steps(extent as int, stride as int);
        let ghost grid = sample_grid(
            self.size as int,
            corner[0] as int,
            corner[1] as int,
            extent as int,
            stride as int,
        );
        let mut columns: Vec<usize> = Vec::new();
        let mut y: usize = 0;
        let ghost mut row: int = 0;
        proof {
            lemma_steps(0, extent as int, stride as int);
            reveal(Seq::filter);
            assert(grid.take(0) =~= Seq::<usize>::empty());
            assert(row * n == 0) by (nonlinear_arith)
                requires
                    row == 0,
            ;
        }
        while y < extent
            invariant
                self.well_formed(),
                stride > 0,
                extent + stride <= usize::MAX,
                corner[0] + extent <= usize::MAX,
                corner[1] + extent <= usize::MAX,
                near == ((corner[2] + extent) as u32),
                n == steps(extent as int, stride as int),
                0 <= n,
                grid == sample_grid(
                    self.size as int,
                    corner[0] as int,
                    corner[1] as int,
                    extent as int,
                    stride as int,
                ),
                0 <= row,
                y == row * stride,
                y < extent ==> row < n,
                y >= extent ==> row == n,
                columns@ == uncovered(self.depths@, grid.take(row * n), near),
            decreases extent + stride - y,
        {
            let mut x: usize = 0;
            let ghost mut column: int = 0;
            proof {
                lemma_steps(row, extent as int, stride as int);
            }
            while x < extent
                invariant
                    self.well_formed(),
                    stride > 0,
                    extent + stride <= usize::MAX,
                    corner[0] + extent <= usize::MAX,
                    corner[1] + extent <= usize::MAX,
                    y < extent,
                    n == steps(extent as int, stride as int),
                    0 <= row < n,
                    y == row * stride,
                    grid == sample_grid(
                        self.size as int,
                        corner[0] as int,
                        corner[1] as int,
                        extent as int,
                        stride as int,
                    ),
                    0 <= column,
                    x == column * stride,
                    x < extent ==> column < n,
                    x >= extent ==> column == n,
                    columns@ == uncovered(self.depths@, grid.take(row * n + column), near),
                decreases extent + stride - x,
            {
                let place = self.offset(corner[0] + x, corner[1] + y);
                proof {
                    let j = row * n + column;
                    assert(0 <= j < n * n) by (nonlinear_arith)
                        requires
                            0 <= row < n,
                            0 <= column < n,
                            j == row * n + column,
                    ;
                    lemma_fundamental_div_mod_converse(j, n, row, column);
                    assert(n * row == row * n) by (nonlinear_arith);
                    assert(grid[j] == place);
                    reveal(Seq::filter);
                    assert(grid.take(j + 1).drop_last() =~= grid.take(j));
                    assert(grid.take(j + 1).last() == place);
                }
                if self.depths[place] < near {
                    columns.push(place);
                }
                proof {
                    lemma_steps(column + 1, extent as int, stride as int);
                    assert((column + 1) * stride == column * stride + stride) by (nonlinear_arith);
                }
                x = x + stride;
                proof {
                    column = column + 1;
                }
            }
            proof {
                lemma_steps(row + 1, extent as int, stride as int);
                assert((row + 1) * stride == row * stride + stride) by (nonlinear_arith);
                assert(row * n + n == (row + 1) * n) by (nonlinear_arith);
            }
            y = y + stride;
            proof {
                row = row + 1;
            }
        }
        proof {
            assert(grid.take(n * n) =~= grid);
            assert(row * n == n * n);
        }
        columns
    }

    /// Raises every column of the full region of `extent` voxels a side at
    /// `corner` to at least its depth, one past its far side.
    pub fn fill(&mut self, corner: [usize; 3], extent: usize)
        requires
            old(self).well_formed(),
            extent <= old(self).size,
            corner[0] + extent <= usize::MAX,
            corner[1] + extent <= usize::MAX,
            corner[2] + extent + 1 <= usize::MAX,
        ensures
            final(self).well_formed(),
            final(self).size == old(self).size,
            final(self).depths@ == raised(
                old(self).depths@,
                old(self).size as int,
                corner[0] as int,
                corner[1] as int,
                extent as int,
                fill_depth(corner[2] as int, extent as int),
            ),
    {
        let fill = #[verifier::truncate] ((corner[2] + extent + 1) as u32);
        let ghost before = self.depths@;
        let ghost size = self.size as int;
        let ghost start_size = self.size;
        proof {
            assert(self.depths@ =~= raised_part(before, size, corner[0] as int, corner[1] as int, extent as int, fill, 0, 0));
        }
        let mut y: usize = 0;
        while y < extent
            invariant
                y <= extent,
                extent <= self.size,
                self.well_formed(),
                self.size == start_size,
                size == self.size,
                fill == fill_depth(corner[2] as int, extent as int),
                corner[0] + extent <= usize::MAX,
                corner[1] + extent <= usize::MAX,
                before.len() == self.depths@.len(),
                self.depths@ == raised_part(before, size, corner[0] as int, corner[1] as int, extent as int, fill, y as int, 0),
            decreases extent - y,
        {
            let mut x: usize = 0;
            while x < extent
                invariant
                    x <= extent,
                    y < extent,
                    extent <= self.size,
                    self.well_formed(),
                    self.size == start_size,
                    size == self.size,
                    fill == fill_depth(corner[2] as int, extent as int),
                    corner[0] + extent <= usize::MAX,
                    corner[1] + extent <= usize::MAX,
                    before.len() == self.depths@.len(),
                    self.depths@ == raised_part(before, size, corner[0] as int, corner[1] as int, extent as int, fill, y as int, x as int),
                decreases extent - x,
            {
                let ghost current = self.depths@;
                let place = self.offset(corner[0] + x, corner[1] + y);
                proof {
                    lemma_offset_bound((corner[0] + x) as int, (corner[1] + y) as int, size);
                    lemma_wrap(place as int % size, corner[0] as int, x as int, size);
                    lemma_wrap(place as int / size, corner[1] as int, y as int, size);
                }
                if self.depths[place] < fill {
                    self.depths.set(place, fill);
                }
                proof {
                    let next = raised_part(before, size, corner[0] as int, corner[1] as int, extent as int, fill, y as int, x + 1);
                    assert forall|i: int| 0 <= i < self.depths@.len() implies self.depths@[i] == next[i] by {
                        if i != place {
                            lemma_column(i, size);
                            lemma_wrap(i % size, corner[0] as int, x as int, size);
                            lemma_wrap(i / size, corner[1] as int, y as int, size);
                            assert(self.depths@[i] == current[i]);
                        }
                    }
                    assert(self.depths@ =~= next);
                }
                x = x + 1;
            }
            proof {
                assert(self.depths@ =~= raised_part(before, size, corner[0] as int, corner[1] as int, extent as int, fill, y + 1, 0));
            }
            y = y + 1;
        }
    }
}

} // verus!
