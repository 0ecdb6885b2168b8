//! The integer side of progressive rasterization: the resolutions that a
//! render passes through, from a coarse first pass to the native pixels,
//! the depth of a final refinement pass, and the nearest-neighbour
//! resampling that lets a finer pass start from the previous image.
use vstd::arithmetic::div_mod::lemma_fundamental_div_mod_converse;
use vstd::prelude::*;

verus! {

/// A raster size in pixels.
#[derive(Clone, Copy, Debug, PartialEq, Eq, Structural)]
pub struct PixelSize {
    pub width: u32,
    pub height: u32,
}

/// The longer edge.
pub open spec fn max_edge(size: PixelSize) -> u32 {
    if size.width >= size.height {
        size.width
    } else {
        size.height
    }
}

/// The longer edge of a size.
pub fn longer_edge(size: PixelSize) -> (r: u32)
    ensures
        r == max_edge(size),
{
    if size.width >= size.height {
        size.width
    } else {
        size.height
    }
}

/// Half of a size in each dimension, rounded up.
pub open spec fn halved(size: PixelSize) -> PixelSize {
    PixelSize {
        width: ((size.width as int + 1) / 2) as u32,
        height: ((size.height as int + 1) / 2) as u32,
    }
}

/// The resolutions of a progressive render of `size`, coarsest first: the
/// size is halved until its longer edge is at most `first_max_edge`.
pub open spec fn spec_resolutions(size: PixelSize, first_max_edge: u32) -> Seq<PixelSize>
    decreases max_edge(size),
{
    if max_edge(size) > first_max_edge && first_max_edge > 0 {
        spec_resolutions(halved(size), first_max_edge).push(size)
    } else {
        seq![size]
    }
}

/// The resolutions of a progressive render, coarsest first, ending at the
/// native size: halving stops at the first size whose longer edge is at
/// most `first_max_edge`.
pub fn resolutions(size: PixelSize, first_max_edge: u32) -> (r: Vec<PixelSize>)
    requires
        first_max_edge > 0,
    ensures
        r@ == spec_resolutions(size, first_max_edge),
{
    let mut sizes: Vec<PixelSize> = Vec::new();
    sizes.push(size);
    let mut current = size;
    while longer_edge(current) > first_max_edge
        invariant
            first_max_edge > 0,
            sizes@.len() >= 1,
            sizes@.last() == current,
            spec_resolutions(size, first_max_edge) == spec_resolutions(current, first_max_edge)
                + sizes@.drop_last().reverse(),
        decreases max_edge(current),
    {
        let ghost before = sizes@;
        current = PixelSize { width: current.width / 2 + current.width % 2, height: current.height / 2 + current.height % 2 };
        proof {
            assert(current == halved(before.last()));
        }
        sizes.push(current);
        proof {
            let previous = before.last();
            assert(spec_resolutions(previous, first_max_edge) == spec_resolutions(current, first_max_edge).push(previous));
            assert(sizes@.drop_last() =~= before);
            assert(before =~= before.drop_last().push(previous));
            assert(before.reverse() =~= seq![previous] + before.drop_last().reverse());
            assert(spec_resolutions(current, first_max_edge).push(previous) + before.drop_last().reverse()
                =~= spec_resolutions(current, first_max_edge) + before.reverse());
        }
    }
    proof {
        assert(spec_resolutions(current, first_max_edge) == seq![current]);
        assert(sizes@ =~= sizes@.drop_last().push(current));
    }
    let mut ordered: Vec<PixelSize> = Vec::new();
    let mut i = sizes.len();
    while i > 0
        invariant
            i <= sizes@.len(),
            ordered@ == sizes@.subrange(i as int, sizes@.len() as int).reverse(),
        decreases i,
    {
        i = i - 1;
        ordered.push(sizes[i]);
        proof {
            assert(ordered@ =~= sizes@.subrange(i as int, sizes@.len() as int).reverse());
        }
    }
    proof {
        assert(sizes@.subrange(0, sizes@.len() as int) =~= sizes@);
        assert(sizes@.reverse() =~= seq![current] + sizes@.drop_last().reverse());
        assert(seq![current] + sizes@.drop_last().reverse() =~= spec_resolutions(size, first_max_edge));
    }
    ordered
}

/// The depth of a pass refined by `multiplier`, unless it overflows or
/// comes to nothing.
pub fn refined_depth(depth: u32, multiplier: u32) -> (r: Option<u32>)
    ensures
        r == (if depth * multiplier <= u32::MAX && depth * multiplier > 0 {
            Some((depth * multiplier) as u32)
        } else {
            None::<u32>
        }),
{
    match depth.checked_mul(multiplier) {
        Some(d) => if d > 0 {
            Some(d)
        } else {
            None
        },
        None => None,
    }
}

/// The cell of a `source_width` by `source_height` image that resampling to
/// `width` by `height` cells reads for cell (`x`, `y`): the nearest one
/// below and to the left, in proportion.
pub open spec fn source_cell(
    x: int,
    y: int,
    source_width: int,
    source_height: int,
    width: int,
    height: int,
) -> int {
    (y * source_height / height) * source_width + x * source_width / width
}

/// Where value `k` of cell (`x`, `y`) stands in a row-by-row image of
/// `width` cells per row and `channels` values per cell.
pub open spec fn place_of(x: int, y: int, k: int, width: int, channels: int) -> int {
    (y * width + x) * channels + k
}

/// The image of `width` by `height` cells of `channels` values each that
/// resampling `source` gives, row by row.
pub open spec fn resampled<T>(
    source: Seq<T>,
    source_width: int,
    source_height: int,
    width: int,
    height: int,
    channels: int,
) -> Seq<T> {
    Seq::new(
        (width * height * channels) as nat,
        |i: int|
            source[source_cell(
                (i / channels) % width,
                (i / channels) / width,
                source_width,
                source_height,
                width,
                height,
            ) * channels + i % channels],
    )
}

proof fn lemma_decode(i: int, x: int, y: int, k: int, width: int, channels: int)
    requires
        0 <= x < width,
        0 <= k < channels,
        0 <= y,
        i == (y * width + x) * channels + k,
    ensures
        i / channels == y * width + x,
        i % channels == k,
        (i / channels) / width == y,
        (i / channels) % width == x,
{
    lemma_fundamental_div_mod_converse(i, channels, y * width + x, k);
    lemma_fundamental_div_mod_converse(y * width + x, width, y, x);
}

proof fn lemma_cell_bound(x: int, y: int, source_width: int, source_height: int, width: int, height: int)
    requires
        0 <= x < width,
        0 <= y < height,
        0 < source_width,
        0 < source_height,
    ensures
        0 <= y * source_height / height < source_height,
        0 <= x * source_width / width < source_width,
        0 <= y * source_height <= height * source_height,
        0 <= x * source_width <= width * source_width,
        0 <= source_cell(x, y, source_width, source_height, width, height) < source_width
            * source_height,
{
    assert(0 <= y * source_height / height < source_height) by (nonlinear_arith)
        requires
            0 <= y < height,
            0 < source_height,
    ;
    assert(0 <= x * source_width / width < source_width) by (nonlinear_arith)
        requires
            0 <= x < width,
            0 < source_width,
    ;
    assert(0 <= y * source_height <= height * source_height) by (nonlinear_arith)
        requires
            0 <= y < height,
            0 < source_height,
    ;
    assert(0 <= x * source_width <= width * source_width) by (nonlinear_arith)
        requires
            0 <= x < width,
            0 < source_width,
    ;
    let row = y * source_height / height;
    let column = x * source_width / width;
    assert(0 <= row * source_width + column < source_width * source_height) by (nonlinear_arith)
        requires
            0 <= row < source_height,
            0 <= column < source_width,
    ;
}

/// Resamples an image to another size: each cell takes the values of the
/// source cell in the same proportional position.
pub fn resample<T: Copy>(
    source: &Vec<T>,
    source_width: usize,
    source_height: usize,
    width: usize,
    height: usize,
    channels: usize,
) -> (r: Vec<T>)
    requires
        source@.len() == source_width * source_height * channels,
        width * height * channels <= usize::MAX,
        height * source_height <= usize::MAX,
        width * source_width <= usize::MAX,
        source_width * source_height <= usize::MAX,
        width > 0 && height > 0 ==> source_width > 0 && source_height > 0,
    ensures
        r@ == resampled(
            source@,
            source_width as int,
            source_height as int,
            width as int,
            height as int,
            channels as int,
        ),
        forall|x: int, y: int, k: int|
            0 <= x < width && 0 <= y < height && 0 <= k < channels ==> r@[#[trigger] place_of(
                x,
                y,
                k,
                width as int,
                channels as int,
            )] == source@[source_cell(
                x,
                y,
                source_width as int,
                source_height as int,
                width as int,
                height as int,
            ) * channels + k],
{
    let ghost target = resampled(
        source@,
        source_width as int,
        source_height as int,
        width as int,
        height as int,
        channels as int,
    );
    let mut r: Vec<T> = Vec::new();
    let mut y: usize = 0;
    proof {
        assert(y * width * channels == 0) by (nonlinear_arith)
            requires
                y == 0,
        ;
        assert(r@ =~= target.take(0));
        assert(source@.len() == source.len());
    }
    while y < height
        invariant
            y <= height,
            source@.len() == source_width * source_height * channels,
            width * height * channels <= usize::MAX,
            height * source_height <= usize::MAX,
            width * source_width <= usize::MAX,
            source_width * source_height <= usize::MAX,
            source@.len() <= usize::MAX,
            width > 0 && height > 0 ==> source_width > 0 && source_height > 0,
            target == resampled(
                source@,
                source_width as int,
                source_height as int,
                width as int,
                height as int,
                channels as int,
            ),
            r@ == target.take(y * width * channels),
            y * width * channels <= width * height * channels,
        decreases height - y,
    {
        let mut x: usize = 0;
        proof {
            assert((y * width + 0) * channels == y * width * channels) by (nonlinear_arith);
        }
        while x < width
            invariant
                x <= width,
                y < height,
                source@.len() == source_width * source_height * channels,
                width * height * channels <= usize::MAX,
                height * source_height <= usize::MAX,
                width * source_width <= usize::MAX,
                source_width * source_height <= usize::MAX,
                source@.len() <= usize::MAX,
                source_width > 0 && source_height > 0 || width == 0,
                target == resampled(
                    source@,
                    source_width as int,
                    source_height as int,
                    width as int,
                    height as int,
                    channels as int,
                ),
                r@ == target.take((y * width + x) * channels),
                (y * width + x) * channels <= width * height * channels,
            decreases width - x,
        {
            proof {
                lemma_cell_bound(
                    x as int,
                    y as int,
                    source_width as int,
                    source_height as int,
                    width as int,
                    height as int,
                );
            }
            let row = y * source_height / height;
            proof {
                assert(row * source_width <= (source_height - 1) * source_width) by (nonlinear_arith)
                    requires
                        0 <= row < source_height,
                        0 <= source_width,
                ;
                assert((source_height - 1) * source_width + source_width == source_width
                    * source_height) by (nonlinear_arith);
            }
            let cell = row * source_width + x * source_width / width;
            proof {
                assert(cell * channels + channels <= source_width * source_height * channels)
                    by (nonlinear_arith)
                    requires
                        0 <= cell < source_width * source_height,
                        0 <= channels,
                ;
                assert((y * width + x) * channels + channels <= width * height * channels)
                    by (nonlinear_arith)
                    requires
                        0 <= x < width,
                        0 <= y < height,
                        0 <= channels,
                ;
            }
            let mut k: usize = 0;
            while k < channels
                invariant
                    k <= channels,
                    x < width,
                    y < height,
                    source@.len() == source_width * source_height * channels,
                    cell == source_cell(
                        x as int,
                        y as int,
                        source_width as int,
                        source_height as int,
                        width as int,
                        height as int,
                    ),
                    cell * channels + channels <= source@.len(),
                    source@.len() <= usize::MAX,
                    target == resampled(
                        source@,
                        source_width as int,
                        source_height as int,
                        width as int,
                        height as int,
                        channels as int,
                    ),
                    r@ == target.take((y * width + x) * channels + k),
                    (y * width + x) * channels + channels <= width * height * channels,
                decreases channels - k,
            {
                let ghost i = (y * width + x) * channels + k;
                proof {
                    lemma_decode(i, x as int, y as int, k as int, width as int, channels as int);
                    assert(target[i] == source@[cell * channels + k]);
                }
                r.push(source[cell * channels + k]);
                proof {
                    assert(r@ =~= target.take(i + 1));
                }
                k = k + 1;
            }
            proof {
                assert((y * width + x) * channels + channels == (y * width + (x + 1)) * channels)
                    by (nonlinear_arith);
                assert((y * width + (x + 1)) * channels <= width * height * channels) by (nonlinear_arith)
                    requires
                        x + 1 <= width,
                        y < height,
                        0 <= channels,
                ;
            }
            x = x + 1;
        }
        proof {
            assert((y * width + width) * channels == (y + 1) * width * channels) by (nonlinear_arith);
            assert((y + 1) * width * channels <= width * height * channels) by (nonlinear_arith)
                requires
                    y + 1 <= height,
                    0 <= width,
                    0 <= channels,
            ;
        }
        y = y + 1;
    }
    proof {
        assert(height * width * channels == width * height * channels) by (nonlinear_arith);
        assert(r@ =~= target);
        assert forall|x: int, y: int, k: int|
            0 <= x < width && 0 <= y < height && 0 <= k < channels implies r@[#[trigger] place_of(
            x,
            y,
            k,
            width as int,
            channels as int,
        )] == source@[source_cell(
            x,
            y,
            source_width as int,
            source_height as int,
            width as int,
            height as int,
        ) * channels + k] by {
            let i = (y * width + x) * channels + k;
            lemma_decode(i, x, y, k, width as int, channels as int);
            assert(i < width * height * channels) by (nonlinear_arith)
                requires
                    0 <= x < width,
                    0 <= y < height,
                    0 <= k < channels,
                    i == (y * width + x) * channels + k,
            ;
        }
    }
    r
}

proof fn lemma_halved_edge(size: PixelSize)
    ensures
        max_edge(halved(size)) == (max_edge(size) + 1) / 2,
        halved(size).width <= size.width,
        halved(size).height <= size.height,
{
}

/// A progressive render ends at the native size, starts at most
/// `first_max_edge` pixels long, and each pass is at least as large as the
/// one before in both dimensions, and different from it.
pub proof fn lemma_resolutions_refine(size: PixelSize, first_max_edge: u32)
    requires
        first_max_edge > 0,
    ensures
        spec_resolutions(size, first_max_edge).len() >= 1,
        spec_resolutions(size, first_max_edge).last() == size,
        max_edge(spec_resolutions(size, first_max_edge)[0]) <= first_max_edge,
        forall|i: int|
            0 <= i < spec_resolutions(size, first_max_edge).len() - 1 ==> {
                &&& spec_resolutions(size, first_max_edge)[i + 1].width
                    >= spec_resolutions(size, first_max_edge)[i].width
                &&& spec_resolutions(size, first_max_edge)[i + 1].height
                    >= spec_resolutions(size, first_max_edge)[i].height
                &&& spec_resolutions(size, first_max_edge)[i + 1]
                    != #[trigger] spec_resolutions(size, first_max_edge)[i]
            },
    decreases max_edge(size),
{
    if max_edge(size) > first_max_edge {
        let smaller = halved(size);
        lemma_halved_edge(size);
        lemma_resolutions_refine(smaller, first_max_edge);
        let before = spec_resolutions(smaller, first_max_edge);
        let sizes = spec_resolutions(size, first_max_edge);
        assert(sizes == before.push(size));
        assert forall|i: int| 0 <= i < sizes.len() - 1 implies {
            &&& sizes[i + 1].width >= sizes[i].width
            &&& sizes[i + 1].height >= sizes[i].height
            &&& sizes[i + 1] != #[trigger] sizes[i]
        } by {
            if i < before.len() - 1 {
                assert(sizes[i] == before[i] && sizes[i + 1] == before[i + 1]);
            } else {
                assert(sizes[i] == smaller && sizes[i + 1] == size);
            }
        }
    }
}

/// Each pass of a progressive render is the next one halved in each
/// dimension, rounded up.
pub proof fn lemma_resolutions_halve(size: PixelSize, first_max_edge: u32)
    requires
        first_max_edge > 0,
    ensures
        forall|i: int|
            0 <= i < spec_resolutions(size, first_max_edge).len() - 1 ==> #[trigger] spec_resolutions(
                size,
                first_max_edge,
            )[i] == halved(spec_resolutions(size, first_max_edge)[i + 1]),
    decreases max_edge(size),
{
    if max_edge(size) > first_max_edge {
        let smaller = halved(size);
        lemma_halved_edge(size);
        lemma_resolutions_halve(smaller, first_max_edge);
        lemma_resolutions_refine(smaller, first_max_edge);
        let before = spec_resolutions(smaller, first_max_edge);
        let sizes = spec_resolutions(size, first_max_edge);
        assert(sizes == before.push(size));
        assert forall|i: int| 0 <= i < sizes.len() - 1 implies #[trigger] sizes[i] == halved(
            sizes[i + 1],
        ) by {
            if i < before.len() - 1 {
                assert(sizes[i] == before[i] && sizes[i + 1] == before[i + 1]);
            } else {
                assert(sizes[i] == smaller && sizes[i + 1] == size);
            }
        }
    }
}

/// Doubling the longest edge allowed in the first pass skips exactly the
/// coarsest pass, if there is more than one.
pub proof fn lemma_doubling_skips_coarsest(size: PixelSize, first_max_edge: u32)
    requires
        first_max_edge > 0,
        2 * first_max_edge <= u32::MAX,
    ensures
        spec_resolutions(size, (2 * first_max_edge) as u32) == spec_resolutions(size, first_max_edge).subrange(
            if spec_resolutions(size, first_max_edge).len() > 1 {
                1
            } else {
                0
            },
            spec_resolutions(size, first_max_edge).len() as int,
        ),
    decreases max_edge(size),
{
    let doubled = (2 * first_max_edge) as u32;
    let fine = spec_resolutions(size, first_max_edge);
    let coarse = spec_resolutions(size, doubled);
    let smaller = halved(size);
    lemma_halved_edge(size);
    if max_edge(size) <= first_max_edge {
        assert(fine.subrange(0, 1) =~= fine);
    } else if max_edge(size) <= doubled {
        assert(spec_resolutions(smaller, first_max_edge) == seq![smaller]);
        assert(fine =~= seq![smaller, size]);
        assert(fine.subrange(1, 2) =~= seq![size]);
    } else {
        lemma_doubling_skips_coarsest(smaller, first_max_edge);
        lemma_resolutions_refine(smaller, first_max_edge);
        let before = spec_resolutions(smaller, first_max_edge);
        assert(spec_resolutions(smaller, first_max_edge) == spec_resolutions(halved(smaller), first_max_edge).push(smaller));
        assert(before.len() > 1);
        assert(coarse == spec_resolutions(smaller, doubled).push(size));
        assert(fine == before.push(size));
        assert(fine.subrange(1, fine.len() as int) =~= before.subrange(1, before.len() as int).push(size));
    }
}

} // verus!
