//! Assembly of a progressive frame from finished tiles: a finer pass starts
//! from the previous image resampled to its size, each finished tile
//! overwrites its own pixels and their depths, and a snapshot is worth
//! publishing only while pixels remain unfinished. Each pixel's depth says
//! whether a pass has finished it, so a finished empty pixel differs from an
//! unfinished one.
use crate::raster::{place_of, resample, resampled};
use vstd::arithmetic::div_mod::{lemma_fundamental_div_mod, lemma_fundamental_div_mod_converse};
use vstd::prelude::*;

verus! {

/// The depth of a frame's pixel: not yet finished by any pass, or finished
/// by a pass of `count` voxels deep at voxel `depth`, larger being nearer
/// and zero an empty ray. As a fraction of the view's depth it is
/// `1 - depth / count`, and an unfinished pixel counts as `-1`.
#[derive(Clone, Copy, Debug, PartialEq, Eq, Structural)]
pub enum Depth {
    Unfinished,
    Finished { depth: u32, count: u32 },
}

/// An RGBA image with a depth per pixel: four values per pixel, row by row.
pub struct Image {
    pub width: usize,
    pub height: usize,
    pub pixels: Vec<u8>,
    pub depths: Vec<Depth>,
}

impl Image {
    pub open spec fn well_formed(&self) -> bool {
        &&& self.pixels@.len() == self.width * self.height * 4
        &&& self.depths@.len() == self.width * self.height
    }
}

/// A finished tile: its place in the frame, its size, and the shaded color
/// and voxel depth of each of its pixels, `stride` pixels per row.
pub struct Tile {
    pub origin_x: usize,
    pub origin_y: usize,
    pub width: usize,
    pub height: usize,
    pub stride: usize,
    pub colors: Vec<[u8; 4]>,
    pub depths: Vec<u32>,
}

impl Tile {
    /// Every pixel of the tile has a color and a depth.
    pub open spec fn well_formed(&self) -> bool {
        &&& self.width <= self.stride
        &&& self.height > 0 ==> (self.height - 1) * self.stride + self.width <= self.colors@.len()
        &&& self.height > 0 ==> (self.height - 1) * self.stride + self.width <= self.depths@.len()
    }

    /// The tile lies inside a frame of `width` by `height` pixels.
    pub open spec fn fits(&self, width: int, height: int) -> bool {
        self.origin_x + self.width <= width && self.origin_y + self.height <= height
    }
}

/// The frame under construction.
pub struct Assembly {
    pub width: usize,
    pub height: usize,
    pub pixels: Vec<u8>,
    pub depths: Vec<Depth>,
    /// How many voxels deep this pass renders.
    pub depth_count: u32,
    /// No previous frame stands behind the unfinished pixels.
    pub partial: bool,
    /// How many pixels finished tiles have covered.
    pub completed: usize,
}

impl Assembly {
    pub open spec fn well_formed(&self) -> bool {
        &&& self.pixels@.len() == self.width * self.height * 4
        &&& self.depths@.len() == self.width * self.height
        &&& self.width * self.height * 4 <= usize::MAX
    }
}

/// Pixel (`x`, `y`) of a frame lies in the tile, among its first `rows`
/// rows or the first `columns` pixels of the row after them.
pub open spec fn covered(tile: Tile, x: int, y: int, rows: int, columns: int) -> bool {
    &&& tile.origin_x <= x < tile.origin_x + tile.width
    &&& tile.origin_y <= y
    &&& (y - tile.origin_y < rows || (y - tile.origin_y == rows && x - tile.origin_x < columns))
}

/// The pixels of a frame `width` pixels wide once the covered part of the
/// tile has been written over them.
pub open spec fn painted(pixels: Seq<u8>, width: int, tile: Tile, rows: int, columns: int) -> Seq<u8> {
    Seq::new(
        pixels.len(),
        |i: int|
            {
                let x = (i / 4) % width;
                let y = (i / 4) / width;
                if covered(tile, x, y, rows, columns) {
                    tile.colors@[(y - tile.origin_y) * tile.stride + (x - tile.origin_x)][i % 4]
                } else {
                    pixels[i]
                }
            },
    )
}

/// The pixels of a frame `width` pixels wide with the whole tile written
/// over them.
pub open spec fn placed(pixels: Seq<u8>, width: int, tile: Tile) -> Seq<u8> {
    painted(pixels, width, tile, tile.height as int, 0)
}

/// The depths of a frame `width` pixels wide once the covered part of the
/// tile has been written over them, finished by a pass of `count` voxels.
pub open spec fn depth_painted(
    depths: Seq<Depth>,
    width: int,
    tile: Tile,
    count: u32,
    rows: int,
    columns: int,
) -> Seq<Depth> {
    Seq::new(
        depths.len(),
        |i: int|
            {
                let x = i % width;
                let y = i / width;
                if covered(tile, x, y, rows, columns) {
                    Depth::Finished {
                        depth: tile.depths@[(y - tile.origin_y) * tile.stride + (x - tile.origin_x)],
                        count,
                    }
                } else {
                    depths[i]
                }
            },
    )
}

/// The depths of a frame `width` pixels wide with the whole tile written
/// over them.
pub open spec fn depths_placed(depths: Seq<Depth>, width: int, tile: Tile, count: u32) -> Seq<
    Depth,
> {
    depth_painted(depths, width, tile, count, tile.height as int, 0)
}

/// Each pixel of a frame stands at the place of its row and column.
proof fn lemma_cell(i: int, width: int)
    requires
        0 <= i,
        0 < width,
    ensures
        i == (i / width) * width + i % width,
        0 <= i % width < width,
        0 <= i / width,
{
    lemma_fundamental_div_mod(i, width);
    assert(width * (i / width) == (i / width) * width) by (nonlinear_arith);
}

/// Each value of a frame stands at the place of the pixel it belongs to.
proof fn lemma_place(i: int, width: int)
    requires
        0 <= i,
        0 < width,
    ensures
        i == place_of((i / 4) % width, (i / 4) / width, i % 4, width, 4),
        0 <= (i / 4) % width < width,
        0 <= (i / 4) / width,
{
    let q = i / 4;
    lemma_fundamental_div_mod(i, 4);
    lemma_fundamental_div_mod(q, width);
    assert(width * (q / width) == (q / width) * width) by (nonlinear_arith);
}

proof fn lemma_decode_place(i: int, x: int, y: int, k: int, width: int)
    requires
        0 <= x < width,
        0 <= k < 4,
        0 <= y,
        i == place_of(x, y, k, width, 4),
    ensures
        (i / 4) % width == x,
        (i / 4) / width == y,
        i % 4 == k,
{
    lemma_fundamental_div_mod_converse(i, 4, y * width + x, k);
    lemma_fundamental_div_mod_converse(y * width + x, width, y, x);
}

/// Placing a tile writes its color over each pixel it covers and leaves
/// every other pixel as it was, whatever stood there before.
pub proof fn lemma_placed_pixels(pixels: Seq<u8>, width: int, height: int, tile: Tile, x: int, y: int, k: int)
    requires
        pixels.len() == width * height * 4,
        0 <= x < width,
        0 <= y < height,
        0 <= k < 4,
    ensures
        placed(pixels, width, tile)[place_of(x, y, k, width, 4)] == if covered(
            tile,
            x,
            y,
            tile.height as int,
            0,
        ) {
            tile.colors@[(y - tile.origin_y) * tile.stride + (x - tile.origin_x)][k]
        } else {
            pixels[place_of(x, y, k, width, 4)]
        },
{
    let i = place_of(x, y, k, width, 4);
    lemma_decode_place(i, x, y, k, width);
    assert(0 <= i < width * height * 4) by (nonlinear_arith)
        requires
            0 <= x < width,
            0 <= y < height,
            0 <= k < 4,
            i == (y * width + x) * 4 + k,
    ;
}

/// Placing a tile finishes each pixel it covers at the tile's depth for
/// that pixel and leaves every other pixel's depth as it was, unfinished
/// pixels unfinished.
pub proof fn lemma_placed_depths(
    depths: Seq<Depth>,
    width: int,
    height: int,
    tile: Tile,
    count: u32,
    x: int,
    y: int,
)
    requires
        depths.len() == width * height,
        0 <= x < width,
        0 <= y < height,
    ensures
        depths_placed(depths, width, tile, count)[y * width + x] == if covered(
            tile,
            x,
            y,
            tile.height as int,
            0,
        ) {
            Depth::Finished {
                depth: tile.depths@[(y - tile.origin_y) * tile.stride + (x - tile.origin_x)],
                count,
            }
        } else {
            depths[y * width + x]
        },
{
    lemma_fundamental_div_mod_converse(y * width + x, width, y, x);
    assert(0 <= y * width + x < width * height) by (nonlinear_arith)
        requires
            0 <= x < width,
            0 <= y < height,
    ;
}

impl Assembly {
    /// A frame of `width` by `height` pixels for a pass of `depth_count`
    /// voxels: the previous image and its depths resampled to that size, or,
    /// with no previous image, all zero, every pixel unfinished, and partial.
    pub fn new(width: usize, height: usize, depth_count: u32, previous: Option<&Image>) -> (r:
        Assembly)
        requires
            width * height * 4 <= usize::MAX,
            previous matches Some(image) ==> {
                &&& image.well_formed()
                &&& height * image.height <= usize::MAX
                &&& width * image.width <= usize::MAX
                &&& image.width * image.height <= usize::MAX
                &&& width > 0 && height > 0 ==> image.width > 0 && image.height > 0
            },
        ensures
            r.well_formed(),
            r.width == width,
            r.height == height,
            r.completed == 0,
            r.depth_count == depth_count,
            r.partial == previous.is_none(),
            r.depths@ == match previous {
                Some(image) => resampled(
                    image.depths@,
                    image.width as int,
                    image.height as int,
                    width as int,
                    height as int,
                    1,
                ),
                None => Seq::new((width * height) as nat, |i: int| Depth::Unfinished),
            },
            r.pixels@ == match previous {
                Some(image) => resampled(
                    image.pixels@,
                    image.width as int,
                    image.height as int,
                    width as int,
                    height as int,
                    4,
                ),
                None => Seq::new((width * height * 4) as nat, |i: int| 0u8),
            },
    {
        let pixels = match previous {
            Some(image) => resample(&image.pixels, image.width, image.height, width, height, 4),
            None => {
                let zeros: Vec<u8> = vec![0u8; width * height * 4];
                proof {
                    assert(zeros@ =~= Seq::new((width * height * 4) as nat, |i: int| 0u8));
                }
                zeros
            },
        };
        proof {
            assert(width * height <= width * height * 4) by (nonlinear_arith);
        }
        let depths = match previous {
            Some(image) => {
                proof {
                    assert(image.width * image.height * 1 == image.width * image.height);
                    assert(width * height * 1 == width * height);
                }
                resample(&image.depths, image.width, image.height, width, height, 1)
            },
            None => {
                let mut unfinished: Vec<Depth> = Vec::new();
                while unfinished.len() < width * height
                    invariant
                        unfinished@.len() <= width * height,
                        width * height <= usize::MAX,
                        forall|i: int| 0 <= i < unfinished@.len() ==> #[trigger] unfinished@[i] == Depth::Unfinished,
                    decreases width * height - unfinished@.len(),
                {
                    unfinished.push(Depth::Unfinished);
                }
                proof {
                    assert(unfinished@ =~= Seq::new((width * height) as nat, |i: int| Depth::Unfinished));
                }
                unfinished
            },
        };
        proof {
            if previous is Some {
                assert(width * height * 1 == width * height);
            }
        }
        Assembly {
            width,
            height,
            pixels,
            depths,
            depth_count,
            partial: previous.is_none(),
            completed: 0,
        }
    }

    /// Writes a finished tile over its pixels, finishes their depths at the
    /// tile's depths, and counts them as completed.
    pub fn put(&mut self, tile: &Tile)
        requires
            old(self).well_formed(),
            tile.well_formed(),
            tile.fits(old(self).width as int, old(self).height as int),
            old(self).completed + tile.width * tile.height <= usize::MAX,
        ensures
            final(self).well_formed(),
            final(self).width == old(self).width,
            final(self).height == old(self).height,
            final(self).partial == old(self).partial,
            final(self).completed == old(self).completed + tile.width * tile.height,
            final(self).depth_count == old(self).depth_count,
            final(self).pixels@ == placed(old(self).pixels@, old(self).width as int, *tile),
            final(self).depths@ == depths_placed(
                old(self).depths@,
                old(self).width as int,
                *tile,
                old(self).depth_count,
            ),
    {
        let ghost before = self.pixels@;
        let ghost before_depths = self.depths@;
        let ghost width = self.width as int;
        let ghost start = *self;
        let mut row: usize = 0;
        proof {
            assert(tile.colors@.len() == tile.colors.len());
            assert(tile.depths@.len() == tile.depths.len());
            assert(self.pixels@ =~= painted(before, width, *tile, 0, 0));
            assert(self.depths@ =~= depth_painted(before_depths, width, *tile, start.depth_count, 0, 0));
        }
        while row < tile.height
            invariant
                row <= tile.height,
                self.well_formed(),
                tile.well_formed(),
                tile.fits(self.width as int, self.height as int),
                width == self.width,
                self.width == start.width,
                self.height == start.height,
                self.partial == start.partial,
                self.completed == start.completed,
                self.depth_count == start.depth_count,
                start.completed + tile.width * tile.height <= usize::MAX,
                tile.colors@.len() <= usize::MAX,
                tile.depths@.len() <= usize::MAX,
                before.len() == self.pixels@.len(),
                before_depths.len() == self.depths@.len(),
                self.pixels@ == painted(before, width, *tile, row as int, 0),
                self.depths@ == depth_painted(before_depths, width, *tile, start.depth_count, row as int, 0),
            decreases tile.height - row,
        {
            let mut column: usize = 0;
            while column < tile.width
                invariant
                    column <= tile.width,
                    row < tile.height,
                    self.well_formed(),
                    tile.well_formed(),
                    tile.fits(self.width as int, self.height as int),
                    width == self.width,
                    self.width == start.width,
                    self.height == start.height,
                    self.partial == start.partial,
                    self.completed == start.completed,
                    self.depth_count == start.depth_count,
                    tile.colors@.len() <= usize::MAX,
                    tile.depths@.len() <= usize::MAX,
                    before.len() == self.pixels@.len(),
                    before_depths.len() == self.depths@.len(),
                    self.pixels@ == painted(before, width, *tile, row as int, column as int),
                    self.depths@ == depth_painted(
                        before_depths,
                        width,
                        *tile,
                        start.depth_count,
                        row as int,
                        column as int,
                    ),
                decreases tile.width - column,
            {
                let ghost current = self.pixels@;
                let ghost current_depths = self.depths@;
                let ghost x = tile.origin_x + column;
                let ghost y = tile.origin_y + row;
                proof {
                    assert(place_of(x, y, 3, width, 4) < width * self.height * 4) by (nonlinear_arith)
                        requires
                            0 <= x < width,
                            0 <= y < self.height,
                    ;
                    assert(row * tile.stride + column < tile.colors@.len()) by (nonlinear_arith)
                        requires
                            row < tile.height,
                            column < tile.width,
                            (tile.height - 1) * tile.stride + tile.width <= tile.colors@.len(),
                    ;
                    assert(row * tile.stride + column < tile.depths@.len()) by (nonlinear_arith)
                        requires
                            row < tile.height,
                            column < tile.width,
                            (tile.height - 1) * tile.stride + tile.width <= tile.depths@.len(),
                    ;
                    assert(y * width + x < width * self.height) by (nonlinear_arith)
                        requires
                            0 <= x < width,
                            0 <= y < self.height,
                    ;
                }
                let place = ((tile.origin_y + row) * self.width + tile.origin_x + column) * 4;
                let color = tile.colors[row * tile.stride + column];
                self.pixels.set(place, color[0]);
                self.pixels.set(place + 1, color[1]);
                self.pixels.set(place + 2, color[2]);
                self.pixels.set(place + 3, color[3]);
                let cell = (tile.origin_y + row) * self.width + tile.origin_x + column;
                self.depths.set(
                    cell,
                    Depth::Finished {
                        depth: tile.depths[row * tile.stride + column],
                        count: self.depth_count,
                    },
                );
                proof {
                    let next_depths = depth_painted(
                        before_depths,
                        width,
                        *tile,
                        start.depth_count,
                        row as int,
                        column + 1,
                    );
                    assert forall|i: int| 0 <= i < self.depths@.len() implies self.depths@[i]
                        == next_depths[i] by {
                        lemma_cell(i, width);
                        if i == cell {
                            lemma_fundamental_div_mod_converse(i, width, y, x);
                        } else {
                            assert(self.depths@[i] == current_depths[i]);
                            assert(!(i % width == x && i / width == y));
                        }
                    }
                    assert(self.depths@ =~= next_depths);
                    let next = painted(before, width, *tile, row as int, column + 1);
                    assert forall|i: int| 0 <= i < self.pixels@.len() implies self.pixels@[i]
                        == next[i] by {
                        lemma_place(i, width);
                        let px = (i / 4) % width;
                        let py = (i / 4) / width;
                        if place <= i < place + 4 {
                            lemma_decode_place(i, x, y, i - place, width);
                        } else {
                            assert(!(px == x && py == y));
                            assert(self.pixels@[i] == current[i]);
                        }
                    }
                    assert(self.pixels@ =~= next);
                }
                column = column + 1;
            }
            proof {
                assert(self.pixels@ =~= painted(before, width, *tile, row + 1, 0));
                assert(self.depths@ =~= depth_painted(
                    before_depths,
                    width,
                    *tile,
                    start.depth_count,
                    row + 1,
                    0,
                ));
            }
            row = row + 1;
        }
        self.completed = self.completed + tile.width * tile.height;
    }

    /// Whether a snapshot taken now is worth publishing: one is due and
    /// some pixels are still unfinished.
    pub fn publication_due(&self, due: bool) -> (r: bool)
        requires
            self.well_formed(),
        ensures
            r == (due && self.completed < self.width * self.height),
    {
        proof {
            assert(self.width * self.height <= self.width * self.height * 4) by (nonlinear_arith);
        }
        due && self.completed < self.width * self.height
    }
}

/// The color of a tile pixel before shading: its object's color, or white
/// where the ray hit no object.
pub fn base_color(object: Option<usize>, colors: &Vec<[u8; 3]>) -> (r: [u8; 3])
    requires
        object matches Some(i) ==> i < colors@.len(),
    ensures
        r == match object {
            Some(i) => colors@[i as int],
            None => [255u8, 255u8, 255u8],
        },
{
    match object {
        Some(i) => colors[i],
        None => [255, 255, 255],
    }
}

} // verus!
