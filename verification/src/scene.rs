//! Compositing a tile's objects and placing the tile into the image. Each
//! object's depths are merged into the tile's scene, the nearer pixel
//! winning and an earlier object keeping a tie; a depth that reaches the far
//! plane's voxel counts as the far plane itself. A finished tile is copied
//! into the image row by row, clipped at the image's right and bottom edges.
//! A sequence of passes samples at strides that strictly shrink, each
//! dividing or divided by every region size, and each pass walks the depth
//! slabs of a tile from the nearest to the farthest.
use vstd::prelude::*;

verus! {

/// A pixel of a scene: how near its surface is (zero for an empty ray) and
/// which object it shows.
#[derive(Clone, Copy, Debug, PartialEq, Eq, Structural)]
pub struct ScenePixel {
    pub depth: u32,
    pub object: Option<usize>,
}

/// The depth an object's pixel contributes: at or beyond the last voxel
/// before the far plane it is the far plane's own depth.
pub open spec fn clamped(depth: u32, far: u32) -> u32 {
    if depth >= far - 1 {
        far
    } else {
        depth
    }
}

/// A scene pixel once an object's pixel of `depth` has been merged into it.
pub open spec fn merged(pixel: ScenePixel, depth: u32, object: usize, far: u32) -> ScenePixel {
    if clamped(depth, far) > pixel.depth {
        ScenePixel { depth: clamped(depth, far), object: Some(object) }
    } else {
        pixel
    }
}

/// A scene once an object's depths have been merged into it pixel by pixel.
pub open spec fn composited(scene: Seq<ScenePixel>, depths: Seq<u32>, object: usize, far: u32) -> Seq<
    ScenePixel,
> {
    Seq::new(scene.len(), |i: int| merged(scene[i], depths[i], object, far))
}

/// Merges one object's depths into the scene of a tile.
pub fn composite(scene: &mut Vec<ScenePixel>, depths: &Vec<u32>, object: usize, far: u32)
    requires
        old(scene)@.len() == depths@.len(),
        far > 0,
    ensures
        final(scene)@ == composited(old(scene)@, depths@, object, far),
{
    let ghost before = scene@;
    let mut i: usize = 0;
    while i < scene.len()
        invariant
            i <= scene@.len(),
            scene@.len() == before.len(),
            before.len() == depths@.len(),
            far > 0,
            forall|j: int| 0 <= j < i ==> scene@[j] == merged(before[j], depths@[j], object, far),
            forall|j: int| i <= j < scene@.len() ==> scene@[j] == before[j],
        decreases scene@.len() - i,
    {
        let depth = if depths[i] >= far - 1 {
            far
        } else {
            depths[i]
        };
        if depth > scene[i].depth {
            scene.set(i, ScenePixel { depth, object: Some(object) });
        }
        i = i + 1;
    }
    proof {
        assert(scene@ =~= composited(before, depths@, object, far));
    }
}

/// Merging two objects gives the same depths in either order, and the
/// same object wherever their depths differ: the nearer surface shows.
pub proof fn lemma_composite_order(
    scene: Seq<ScenePixel>,
    first: Seq<u32>,
    second: Seq<u32>,
    a: usize,
    b: usize,
    far: u32,
)
    requires
        scene.len() == first.len(),
        scene.len() == second.len(),
        far > 0,
    ensures
        ({
            let ab = composited(composited(scene, first, a, far), second, b, far);
            let ba = composited(composited(scene, second, b, far), first, a, far);
            &&& ab.len() == ba.len()
            &&& forall|i: int| 0 <= i < ab.len() ==> #[trigger] ab[i].depth == ba[i].depth
            &&& forall|i: int|
                0 <= i < ab.len() && clamped(first[i], far) != clamped(second[i], far)
                    ==> #[trigger] ab[i] == ba[i]
        }),
{
}

/// The image pixels of a tile placed with its corner at (`x`, `y`): the
/// tile's rows, `stride` pixels apart, clipped to the image.
pub open spec fn placed_tile(
    image: Seq<ScenePixel>,
    width: int,
    height: int,
    x: int,
    y: int,
    tile: Seq<ScenePixel>,
    stride: int,
) -> Seq<ScenePixel> {
    Seq::new(
        image.len(),
        |i: int|
            {
                let column = i % width;
                let row = i / width;
                if x <= column < x + stride && y <= row < y + stride {
                    tile[(row - y) * stride + (column - x)]
                } else {
                    image[i]
                }
            },
    )
}

/// Copies a finished tile of `stride` by `stride` pixels into an image of
/// `width` by `height` pixels at (`x`, `y`), clipped at the image's edges.
pub fn place_tile(
    image: &mut Vec<ScenePixel>,
    width: usize,
    height: usize,
    x: usize,
    y: usize,
    tile: &Vec<ScenePixel>,
    stride: usize,
)
    requires
        old(image)@.len() == width * height,
        x < width,
        y < height,
        tile@.len() == stride * stride,
    ensures
        final(image)@ == placed_tile(
            old(image)@,
            width as int,
            height as int,
            x as int,
            y as int,
            tile@,
            stride as int,
        ),
{
    let ghost before = image@;
    let rows = if stride < height - y {
        stride
    } else {
        height - y
    };
    let columns = if stride < width - x {
        stride
    } else {
        width - x
    };
    proof {
        assert(image@.len() == image.len());
        assert(tile@.len() == tile.len());
    }
    let mut j: usize = 0;
    while j < rows
        invariant
            j <= rows,
            rows <= stride,
            y + rows <= height,
            columns <= stride,
            x + columns <= width,
            columns == stride || x + columns == width,
            rows == stride || y + rows == height,
            x < width,
            image@.len() == width * height,
            image@.len() <= usize::MAX,
            tile@.len() == stride * stride,
            tile@.len() <= usize::MAX,
            before.len() == width * height,
            forall|i: int|
                0 <= i < image@.len() ==> #[trigger] image@[i] == if x <= i % (width as int) < x
                    + stride && y <= i / (width as int) < y + j {
                    tile@[(i / (width as int) - y) * stride + (i % (width as int) - x)]
                } else {
                    before[i]
                },
        decreases rows - j,
    {
        let mut k: usize = 0;
        while k < columns
            invariant
                k <= columns,
                j < rows,
                rows <= stride,
                y + rows <= height,
                columns <= stride,
                x + columns <= width,
                columns == stride || x + columns == width,
                rows == stride || y + rows == height,
                x < width,
                image@.len() == width * height,
                image@.len() <= usize::MAX,
                tile@.len() == stride * stride,
                tile@.len() <= usize::MAX,
                before.len() == width * height,
                forall|i: int|
                    0 <= i < image@.len() ==> #[trigger] image@[i] == if x <= i % (width as int)
                        < x + stride && (y <= i / (width as int) < y + j || (i / (width as int)
                        == y + j && i % (width as int) < x + k)) {
                        tile@[(i / (width as int) - y) * stride + (i % (width as int) - x)]
                    } else {
                        before[i]
                    },
            decreases columns - k,
        {
            proof {
                assert((y + j) * width + (x + k) < width * height) by (nonlinear_arith)
                    requires
                        y + j < height,
                        x + k < width,
                ;
                assert(j * stride + k < stride * stride) by (nonlinear_arith)
                    requires
                        j < stride,
                        k < stride,
                ;
            }
            let place = (y + j) * width + x + k;
            let pixel = tile[j * stride + k];
            let ghost current = image@;
            image.set(place, pixel);
            proof {
                assert forall|i: int| 0 <= i < image@.len() implies #[trigger] image@[i] == if x
                    <= i % (width as int) < x + stride && (y <= i / (width as int) < y + j || (i
                    / (width as int) == y + j && i % (width as int) < x + k + 1)) {
                    tile@[(i / (width as int) - y) * stride + (i % (width as int) - x)]
                } else {
                    before[i]
                } by {
                    lemma_row_column(i, width as int, height as int);
                    if i == place {
                        vstd::arithmetic::div_mod::lemma_fundamental_div_mod_converse(
                            i,
                            width as int,
                            (y + j) as int,
                            (x + k) as int,
                        );
                    } else {
                        assert(image@[i] == current[i]);
                        if i / (width as int) == y + j && i % (width as int) == x + k {
                            assert(i == place);
                        }
                    }
                }
            }
            k = k + 1;
        }
        proof {
            assert forall|i: int| 0 <= i < image@.len() implies #[trigger] image@[i] == if x <= i
                % (width as int) < x + stride && y <= i / (width as int) < y + j + 1 {
                tile@[(i / (width as int) - y) * stride + (i % (width as int) - x)]
            } else {
                before[i]
            } by {
                lemma_row_column(i, width as int, height as int);
            }
        }
        j = j + 1;
    }
    proof {
        assert forall|i: int| 0 <= i < image@.len() implies #[trigger] image@[i] == placed_tile(
            before,
            width as int,
            height as int,
            x as int,
            y as int,
            tile@,
            stride as int,
        )[i] by {
            lemma_row_column(i, width as int, height as int);
        }
        assert(image@ =~= placed_tile(
            before,
            width as int,
            height as int,
            x as int,
            y as int,
            tile@,
            stride as int,
        ));
    }
}

proof fn lemma_row_column(i: int, width: int, height: int)
    requires
        0 <= i < width * height,
        0 < width,
    ensures
        i == (i / width) * width + i % width,
        0 <= i % width < width,
        0 <= i / width < height,
{
    vstd::arithmetic::div_mod::lemma_fundamental_div_mod(i, width);
    assert(width * (i / width) == (i / width) * width) by (nonlinear_arith);
    assert(i / width < height) by (nonlinear_arith)
        requires
            0 <= i < width * height,
            0 < width,
            i == (i / width) * width + i % width,
            0 <= i % width,
    ;
}

/// A stride divides, or is a multiple of, every region size, and is positive.
pub open spec fn fits_sizes(stride: usize, sizes: Seq<usize>) -> bool {
    &&& stride > 0
    &&& forall|j: int|
        0 <= j < sizes.len() ==> (#[trigger] sizes[j]) % stride == 0 || stride % sizes[j] == 0
}

/// Passes at these strides can refine one another: there is at least one,
/// they strictly shrink, and each fits every region size.
pub open spec fn spec_strides_valid(strides: Seq<usize>, sizes: Seq<usize>) -> bool {
    &&& strides.len() > 0
    &&& forall|i: int, k: int| 0 <= i < k < strides.len() ==> #[trigger] strides[i] > #[trigger] strides[k]
    &&& forall|i: int| 0 <= i < strides.len() ==> fits_sizes(#[trigger] strides[i], sizes)
}

/// Whether a stride fits every region size.
fn stride_fits(stride: usize, sizes: &Vec<usize>) -> (r: bool)
    ensures
        r == fits_sizes(stride, sizes@),
{
    if stride == 0 {
        return false;
    }
    let mut j: usize = 0;
    while j < sizes.len()
        invariant
            stride > 0,
            j <= sizes@.len(),
            forall|m: int| 0 <= m < j ==> (#[trigger] sizes@[m]) % stride == 0 || stride % sizes@[m] == 0,
        decreases sizes@.len() - j,
    {
        let size = sizes[j];
        if size % stride != 0 && (size == 0 || stride % size != 0) {
            assert(size != 0) by (nonlinear_arith)
                requires
                    size % stride != 0,
                    stride > 0,
            ;
            assert(!((sizes@[j as int]) % stride == 0 || stride % sizes@[j as int] == 0));
            return false;
        }
        j = j + 1;
    }
    true
}

/// Whether passes at `strides` over regions of `sizes` can refine one
/// another.
pub fn strides_valid(strides: &Vec<usize>, sizes: &Vec<usize>) -> (r: bool)
    ensures
        r == spec_strides_valid(strides@, sizes@),
{
    if strides.len() == 0 {
        return false;
    }
    let mut i: usize = 0;
    while i < strides.len()
        invariant
            0 < strides@.len(),
            i <= strides@.len(),
            forall|a: int, k: int| 0 <= a < k <= i && k < strides@.len() ==> #[trigger] strides@[a] > #[trigger] strides@[k],
            forall|a: int| 0 <= a < i ==> fits_sizes(#[trigger] strides@[a], sizes@),
        decreases strides@.len() - i,
    {
        if !stride_fits(strides[i], sizes) {
            return false;
        }
        if i + 1 < strides.len() {
            if strides[i] <= strides[i + 1] {
                return false;
            }
            proof {
                assert forall|a: int, k: int| 0 <= a < k <= i + 1 && k < strides@.len() implies #[trigger] strides@[a] > #[trigger] strides@[k] by {
                    if k == i + 1 && a < i {
                        assert(strides@[a] > strides@[i as int]);
                    }
                }
            }
        }
        i = i + 1;
    }
    true
}

/// The depth slabs of a tile `root` voxels a side in a volume `depth`
/// voxels deep, nearest first: the slab index, from the last down to zero.
pub open spec fn spec_slabs(depth: int, root: int) -> Seq<usize> {
    let n = (depth + root - 1) / root;
    Seq::new(n as nat, |r: int| (n - 1 - r) as usize)
}

/// The depth slabs a pass over a tile walks, nearest first.
pub fn slabs(depth: u32, root: usize) -> (r: Vec<usize>)
    requires
        root > 0,
        depth + root <= usize::MAX,
    ensures
        r@ == spec_slabs(depth as int, root as int),
{
    let n = (depth as usize + root - 1) / root;
    let mut order: Vec<usize> = Vec::new();
    let mut z = n;
    while z > 0
        invariant
            z <= n,
            n as int == (depth as int + root as int - 1) / (root as int),
            order@ == Seq::new((n - z) as nat, |r: int| (n - 1 - r) as usize),
        decreases z,
    {
        z = z - 1;
        order.push(z);
        proof {
            assert(order@ =~= Seq::new((n - z) as nat, |r: int| (n - 1 - r) as usize));
        }
    }
    proof {
        assert(order@ =~= spec_slabs(depth as int, root as int));
    }
    order
}

} // verus!
