//! Pixel grids and the scan-line walk of the view generator.
use vstd::prelude::*;

verus! {

/// Why a pixel grid cannot be used by the view generator.
#[derive(Clone, Copy, Debug, PartialEq, Eq, Structural)]
pub enum ViewError {
    /// Fewer than two columns: the horizontal angular step is undefined.
    TooNarrow,
    /// Fewer than two rows: the vertical angular step is undefined.
    TooShort,
    /// The number of pixels does not fit in memory indices.
    TooLarge,
}

/// The grid is usable: at least two columns and two rows, and its pixel
/// count fits in a `usize`.
pub open spec fn grid_ok(width: u32, height: u32) -> bool {
    &&& width >= 2
    &&& height >= 2
    &&& width * height <= usize::MAX
}

/// The error that `pixel_count` reports for an unusable grid.
pub open spec fn grid_error(width: u32, height: u32) -> ViewError {
    if width < 2 {
        ViewError::TooNarrow
    } else if height < 2 {
        ViewError::TooShort
    } else {
        ViewError::TooLarge
    }
}

/// Column of the `i`-th pixel in row-major order.
pub open spec fn column_of(i: int, width: u32) -> int {
    i % (width as int)
}

/// Row of the `i`-th pixel in row-major order (row 0 is the top scan line).
pub open spec fn row_of(i: int, width: u32) -> int {
    i / (width as int)
}

/// Checks the grid and returns its number of pixels.
pub fn pixel_count(width: u32, height: u32) -> (r: Result<usize, ViewError>)
    ensures
        grid_ok(width, height) ==> r == Ok::<usize, ViewError>((width * height) as usize),
        !grid_ok(width, height) ==> r == Err::<usize, ViewError>(grid_error(width, height)),
{
    if width < 2 {
        return Err(ViewError::TooNarrow);
    }
    if height < 2 {
        return Err(ViewError::TooShort);
    }
    proof {
        assert((width as int) * (height as int) <= 0xffff_ffffint * 0xffff_ffffint)
            by (nonlinear_arith)
            requires
                width <= 0xffff_ffffint,
                height <= 0xffff_ffffint,
        ;
    }
    let n: u64 = (width as u64) * (height as u64);
    if n > usize::MAX as u64 {
        return Err(ViewError::TooLarge);
    }
    Ok(n as usize)
}

/// The view generator's walk over a `width` x `height` grid: the top-left
/// pixel gets `start`; each pixel further along a row gets `next_col` applied
/// to its left neighbour; the first pixel of each later row gets `next_row`
/// applied to the first pixel of the row above. Pixels come out row-major,
/// tagged with their column and row.
pub fn scan_grid<D: Copy, H: Fn(D) -> D, V: Fn(D) -> D>(
    start: D,
    width: u32,
    height: u32,
    next_col: &H,
    next_row: &V,
) -> (r: Result<Vec<(u32, u32, D)>, ViewError>)
    requires
        forall|d: D| #[trigger] next_col.requires((d,)),
        forall|d: D| #[trigger] next_row.requires((d,)),
    ensures
        !grid_ok(width, height) ==> r == Err::<Vec<(u32, u32, D)>, ViewError>(
            grid_error(width, height),
        ),
        grid_ok(width, height) ==> r is Ok,
        r matches Ok(v) ==> {
            &&& v@.len() == width * height
            &&& forall|i: int|
                0 <= i < v@.len() ==> (#[trigger] v@[i]).0 == column_of(i, width) && v@[i].1
                    == row_of(i, width)
            &&& v@[0].2 == start
            &&& forall|i: int|
                0 < i < v@.len() && column_of(i, width) > 0 ==> next_col.ensures(
                    (v@[i - 1].2,),
                    #[trigger] v@[i].2,
                )
            &&& forall|i: int|
                0 < i < v@.len() && column_of(i, width) == 0 ==> next_row.ensures(
                    (v@[i - width].2,),
                    #[trigger] v@[i].2,
                )
        },
{
    let count = match pixel_count(width, height) {
        Ok(n) => n,
        Err(e) => {
            return Err(e);
        },
    };
    let mut out: Vec<(u32, u32, D)> = Vec::with_capacity(count);
    let mut row_start = start;
    let mut y: u32 = 0;
    while y < height
        invariant
            grid_ok(width, height),
            y <= height,
            out@.len() == y * width,
            forall|d: D| #[trigger] next_col.requires((d,)),
            forall|d: D| #[trigger] next_row.requires((d,)),
            forall|i: int|
                0 <= i < out@.len() ==> (#[trigger] out@[i]).0 == column_of(i, width) && out@[i].1
                    == row_of(i, width),
            y == 0 ==> row_start == start,
            y > 0 ==> out@[0].2 == start,
            y > 0 ==> next_row.ensures((out@[(y - 1) * width].2,), row_start),
            forall|i: int|
                0 < i < out@.len() && column_of(i, width) > 0 ==> next_col.ensures(
                    (out@[i - 1].2,),
                    #[trigger] out@[i].2,
                ),
            forall|i: int|
                0 < i < out@.len() && column_of(i, width) == 0 ==> next_row.ensures(
                    (out@[i - width].2,),
                    #[trigger] out@[i].2,
                ),
        decreases height - y,
    {
        let ghost base: int = out@.len() as int;
        let mut scan = row_start;
        let mut x: u32 = 0;
        while x < width
            invariant
                grid_ok(width, height),
                y < height,
                x <= width,
                base == y * width,
                out@.len() == base + x,
                forall|d: D| #[trigger] next_col.requires((d,)),
                forall|d: D| #[trigger] next_row.requires((d,)),
                forall|i: int|
                    0 <= i < out@.len() ==> (#[trigger] out@[i]).0 == column_of(i, width)
                        && out@[i].1 == row_of(i, width),
                x == 0 ==> scan == row_start,
                x > 0 ==> out@[base].2 == row_start,
                x > 0 ==> next_col.ensures((out@[base + x - 1].2,), scan),
                y == 0 ==> row_start == start,
                y > 0 && out@.len() > 0 ==> out@[0].2 == start,
                y > 0 ==> next_row.ensures((out@[(y - 1) * width].2,), row_start),
                forall|i: int|
                    0 < i < out@.len() && column_of(i, width) > 0 ==> next_col.ensures(
                        (out@[i - 1].2,),
                        #[trigger] out@[i].2,
                    ),
                forall|i: int|
                    0 < i < out@.len() && column_of(i, width) == 0 ==> next_row.ensures(
                        (out@[i - width].2,),
                        #[trigger] out@[i].2,
                    ),
            decreases width - x,
        {
            proof {
                lemma_grid_position(y as int, x as int, width);
                if y > 0 {
                    assert(base - width == (y - 1) * width) by (nonlinear_arith)
                        requires
                            base == y * width,
                    ;
                }
            }
            let ghost old_out = out@;
            out.push((x, y, scan));
            proof {
                let k = base + x;
                assert(out@[k].2 == scan);
                if y > 0 && x == 0 {
                    assert(out@[k - width] == out@[(y - 1) * width]);
                }
                if x > 0 {
                    assert(out@[k - 1] == out@[base + x - 1]);
                }
                assert forall|i: int|
                    0 < i < out@.len() && column_of(i, width) == 0 implies next_row.ensures(
                    (out@[i - width].2,),
                    #[trigger] out@[i].2,
                ) by {
                    if i < k {
                        lemma_row_start_index(i, width);
                        assert(old_out[i] == out@[i]);
                        assert(old_out[i - width] == out@[i - width]);
                    }
                }
            }
            scan = next_col(scan);
            x = x + 1;
        }
        proof {
            assert(out@[base].2 == row_start);
        }
        row_start = next_row(row_start);
        y = y + 1;
        proof {
            assert((y - 1) * width == base) by (nonlinear_arith)
                requires
                    base == (y - 1) * width,
            ;
            assert(out@.len() == y * width) by (nonlinear_arith)
                requires
                    out@.len() == base + width,
                    base == (y - 1) * width,
            ;
        }
    }
    proof {
        assert(out@.len() == width * height) by (nonlinear_arith)
            requires
                out@.len() == height * width,
        ;
    }
    Ok(out)
}

/// A pixel after the first that starts a row has a full row above it.
proof fn lemma_row_start_index(i: int, width: u32)
    requires
        0 < i,
        width > 0,
        column_of(i, width) == 0,
    ensures
        i >= width,
{
    vstd::arithmetic::div_mod::lemma_fundamental_div_mod(i, width as int);
    let q = i / (width as int);
    assert(i == (width as int) * q);
    assert(i >= width) by (nonlinear_arith)
        requires
            i == (width as int) * q,
            i > 0,
            width > 0,
    ;
}

/// Pixel `y * width + x` lies in column `x` and row `y`.
proof fn lemma_grid_position(y: int, x: int, width: u32)
    requires
        0 <= y,
        0 <= x < width,
    ensures
        column_of(y * width + x, width) == x,
        row_of(y * width + x, width) == y,
{
    vstd::arithmetic::div_mod::lemma_fundamental_div_mod_converse(
        y * width + x,
        width as int,
        y,
        x,
    );
}

} // verus!
