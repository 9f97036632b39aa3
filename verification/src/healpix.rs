//! HEALPix cell arithmetic in the NESTED scheme.
//!
//! The sky is divided into twelve base cells, and every cell of depth `d` into four cells of
//! depth `d + 1`. In the NESTED numbering the cells of depth [`MAX_DEPTH`], called pixels here,
//! are numbered so that the pixels inside one cell of a coarser depth are consecutive. A cell is
//! thus an interval of pixels, and the cell of depth `d` around pixel `p` is a quotient of `p`.
#[allow(unused_imports)]
use vstd::arithmetic::div_mod::*;
#[allow(unused_imports)]
use vstd::arithmetic::power2::*;
#[allow(unused_imports)]
use vstd::bits::*;
use vstd::prelude::*;

verus! {

/// The deepest HEALPix depth that a 64-bit index can hold.
pub const MAX_DEPTH: u8 = 29;

/// The number of pixels on the sky: twelve base cells of `4^29` pixels each.
pub const FULL_SKY: u64 = 3458764513820540928;

/// The number of pixels inside one cell of depth `depth`.
pub open spec fn cell_width(depth: u8) -> int {
    pow2((2 * (MAX_DEPTH - depth)) as nat) as int
}

/// The number of cells of depth `depth` on the sky.
pub open spec fn cells_at(depth: u8) -> int {
    12 * pow2((2 * depth) as nat) as int
}

/// The cell of depth `depth` around the pixel `pixel`.
pub open spec fn cell_of(pixel: int, depth: u8) -> int {
    pixel / cell_width(depth)
}

/// The cells of one depth tile the sky.
pub proof fn lemma_cells_tile_the_sky(depth: u8)
    requires
        depth <= MAX_DEPTH,
    ensures
        cell_width(depth) > 0,
        cells_at(depth) > 0,
        cells_at(depth) * cell_width(depth) == FULL_SKY,
{
    let d = (2 * depth) as nat;
    let rest = (2 * (MAX_DEPTH - depth)) as nat;
    lemma_pow2_pos(d);
    lemma_pow2_pos(rest);
    lemma_pow2_adds(d, rest);
    lemma2_to64_rest();
    assert(pow2(58) == 0x400000000000000);
    assert(12 * pow2(d) * pow2(rest) == 12 * (pow2(d) * pow2(rest))) by (nonlinear_arith);
}

/// A pixel of the sky lies in a cell of the sky, between that cell's first pixel and the first
/// pixel of the next cell.
pub proof fn lemma_cell_of_pixel(pixel: int, depth: u8)
    requires
        depth <= MAX_DEPTH,
        0 <= pixel < FULL_SKY,
    ensures
        0 <= cell_of(pixel, depth) < cells_at(depth),
        cell_of(pixel, depth) * cell_width(depth) <= pixel,
        pixel < (cell_of(pixel, depth) + 1) * cell_width(depth),
{
    lemma_cells_tile_the_sky(depth);
    let w = cell_width(depth);
    let q = pixel / w;
    lemma_fundamental_div_mod(pixel, w);
    assert(q * w <= pixel < (q + 1) * w) by (nonlinear_arith)
        requires
            pixel == w * q + pixel % w,
            0 <= pixel % w < w,
    ;
    assert(0 <= q < cells_at(depth)) by (nonlinear_arith)
        requires
            q * w <= pixel < (q + 1) * w,
            w > 0,
            0 <= pixel < FULL_SKY,
            cells_at(depth) * w == FULL_SKY,
    ;
}

/// The pixels of a cell are those from its first pixel to just before the next cell's first.
pub proof fn lemma_pixel_in_cell(pixel: int, depth: u8, cell: int)
    requires
        depth <= MAX_DEPTH,
    ensures
        cell_of(pixel, depth) == cell <==> cell * cell_width(depth) <= pixel < (cell + 1)
            * cell_width(depth),
{
    lemma_cells_tile_the_sky(depth);
    let w = cell_width(depth);
    lemma_fundamental_div_mod(pixel, w);
    assert(pixel / w == cell ==> cell * w <= pixel < (cell + 1) * w) by (nonlinear_arith)
        requires
            pixel == w * (pixel / w) + pixel % w,
            0 <= pixel % w < w,
    ;
    if cell * w <= pixel < (cell + 1) * w {
        assert((cell + 1) * w == cell * w + w) by (nonlinear_arith);
        lemma_fundamental_div_mod_converse(pixel, w, cell, pixel - cell * w);
    }
}

/// Cells nest: the cell of a coarser depth around a pixel is the same for every pixel of a finer
/// cell, and is the quotient of the finer cell by the number of cells in between.
pub proof fn law_cells_nest(pixel: int, fine: u8, coarse: u8)
    requires
        coarse <= fine <= MAX_DEPTH,
        0 <= pixel < FULL_SKY,
    ensures
        cell_of(pixel, coarse) == cell_of(pixel, fine) / (pow2((2 * (fine - coarse)) as nat) as int),
{
    let between = (2 * (fine - coarse)) as nat;
    let rest = (2 * (MAX_DEPTH - fine)) as nat;
    lemma_pow2_adds(rest, between);
    lemma_pow2_pos(rest);
    lemma_pow2_pos(between);
    assert(rest + between == 2 * (MAX_DEPTH - coarse));
    lemma_div_denominator(pixel, pow2(rest) as int, pow2(between) as int);
}

/// The number of pixels inside one cell of depth `depth`.
pub(crate) fn pixels_per_cell(depth: u8) -> (res: u64)
    requires
        depth <= MAX_DEPTH,
    ensures
        res == cell_width(depth),
        res > 0,
{
    let shift: u64 = 2 * (MAX_DEPTH - depth) as u64;
    proof {
        lemma_cells_tile_the_sky(depth);
        assert(pow2(shift as nat) <= FULL_SKY) by (nonlinear_arith)
            requires
                cells_at(depth) > 0,
                cells_at(depth) * pow2(shift as nat) == FULL_SKY,
        ;
        lemma_u64_shl_is_mul(1, shift);
    }
    1u64 << shift
}

/// Every cell is divided into four of the next depth, down to single pixels, and the sky into
/// twelve.
pub proof fn law_cells_divide_into_four(depth: u8)
    requires
        depth <= MAX_DEPTH,
    ensures
        cell_width(29) == 1,
        cells_at(0) == 12,
        depth < 29 ==> cell_width(depth) == 4 * cell_width((depth + 1) as u8),
        depth < 29 ==> cells_at((depth + 1) as u8) == 4 * cells_at(depth),
        cells_at(depth) * cell_width(depth) == 12 * pow2(58),
{
    lemma2_to64();
    lemma2_to64_rest();
    lemma_cells_tile_the_sky(depth);
    if depth < 29 {
        lemma_pow2_adds(2, (2 * (28 - depth)) as nat);
        lemma_pow2_adds(2, (2 * depth) as nat);
    }
}

/// The cells of a depth are runs of equally many pixels, counted from the first one on: with as many
/// pixels as a cell has, one comes to the next cell, and the first pixel is in the first cell.
pub proof fn law_cells_are_counted_in_pixels(pixel: int, depth: u8)
    requires
        depth <= MAX_DEPTH,
    ensures
        cell_of(pixel + cell_width(depth), depth) == cell_of(pixel, depth) + 1,
        0 <= pixel < cell_width(depth) ==> cell_of(pixel, depth) == 0,
        cell_of(pixel, 29) == pixel,
{
    lemma_cells_tile_the_sky(depth);
    let w = cell_width(depth);
    lemma_fundamental_div_mod(pixel, w);
    lemma_mod_bound(pixel, w);
    assert(pixel + w == (pixel / w + 1) * w + pixel % w) by (nonlinear_arith)
        requires
            pixel == w * (pixel / w) + pixel % w,
    ;
    lemma_fundamental_div_mod_converse(pixel + w, w, pixel / w + 1, pixel % w);
    if 0 <= pixel < w {
        lemma_basic_div(pixel, w);
    }
    lemma2_to64();
    assert(cell_width(29) == 1);
}

} // verus!
