//! Flipping a glyph bitmap upside down.
use vstd::prelude::*;

verus! {

/// The row-`y`, column-`x` byte of a bitmap `width` bytes wide.
pub open spec fn pixel(y: int, x: int, width: int) -> int {
    y * width + x
}

/// Pixels of rows below `height` that are in different places are different
/// bytes, and lie before `height * width`.
proof fn lemma_pixel(y1: int, x1: int, y2: int, x2: int, width: int, height: int)
    requires
        0 <= y1 < height,
        0 <= y2 < height,
        0 <= x1 < width,
        0 <= x2 < width,
    ensures
        0 <= pixel(y1, x1, width) < height * width,
        (y1 != y2 || x1 != x2) ==> pixel(y1, x1, width) != pixel(y2, x2, width),
{
    assert(0 <= y1 * width) by (nonlinear_arith)
        requires
            0 <= y1,
            0 <= width,
    ;
    assert(y1 * width + x1 < height * width) by (nonlinear_arith)
        requires
            0 <= y1 < height,
            0 <= x1 < width,
    ;
    if y1 < y2 {
        assert(y1 * width + x1 < y2 * width + x2) by (nonlinear_arith)
            requires
                y1 < y2,
                0 <= x1 < width,
                0 <= x2,
        ;
    } else if y2 < y1 {
        assert(y2 * width + x2 < y1 * width + x1) by (nonlinear_arith)
            requires
                y2 < y1,
                0 <= x2 < width,
                0 <= x1,
        ;
    }
}

/// Row `y` of `height` rows `width` bytes wide ends within the whole rows.
proof fn lemma_row_end(y: int, width: int, height: int)
    requires
        0 <= y < height,
        width > 0,
    ensures
        0 <= y * width,
        y * width + width <= height * width,
{
    assert(0 <= y * width) by (nonlinear_arith)
        requires
            0 <= y,
            width > 0,
    ;
    assert(y * width + width <= height * width) by (nonlinear_arith)
        requires
            y + 1 <= height,
            width > 0,
    ;
}

/// Where row `y` of a bitmap of `height` rows is after `rows_done` rows from
/// each end have been swapped (and, in the row being swapped, `cols_done`
/// columns).
pub open spec fn source_row(y: int, x: int, height: int, rows_done: int, cols_done: int) -> int {
    if y < rows_done || y >= height - rows_done {
        height - 1 - y
    } else if (y == rows_done || y == height - 1 - rows_done) && x < cols_done {
        height - 1 - y
    } else {
        y
    }
}

/// `d1` is `d0`, a bitmap `w` bytes wide, with its whole rows in reverse
/// order; the bytes after the last whole row are the same.
pub open spec fn rows_flipped(d0: Seq<u8>, d1: Seq<u8>, w: int) -> bool {
    let h = d0.len() as int / w;
    &&& d1.len() == d0.len()
    &&& forall|y: int, x: int| 0 <= y < h && 0 <= x < w ==> #[trigger] d1[pixel(y, x, w)] == d0[pixel(h - 1 - y, x, w)]
    &&& forall|i: int| h * w <= i < d0.len() ==> #[trigger] d1[i] == d0[i]
}

/// Flipping a bitmap's rows twice gives the bitmap back.
pub proof fn law_flip_twice(d0: Seq<u8>, d1: Seq<u8>, d2: Seq<u8>, w: int)
    requires
        w > 0,
        rows_flipped(d0, d1, w),
        rows_flipped(d1, d2, w),
    ensures
        d2 == d0,
{
    let h = d0.len() as int / w;
    assert(h * w <= d0.len()) by (nonlinear_arith)
        requires
            h == d0.len() as int / w,
            w > 0,
    ;
    assert forall|i: int| 0 <= i < d0.len() implies d2[i] == d0[i] by {
        if i < h * w {
            let y = i / w;
            let x = i % w;
            vstd::arithmetic::div_mod::lemma_fundamental_div_mod(i, w);
            assert(0 <= x < w);
            assert(0 <= y < h) by (nonlinear_arith)
                requires
                    i == w * y + x,
                    0 <= x < w,
                    0 <= i < h * w,
                    w > 0,
            ;
            assert(i == pixel(y, x, w)) by (nonlinear_arith)
                requires
                    i == w * y + x,
            ;
            assert(d2[pixel(y, x, w)] == d1[pixel(h - 1 - y, x, w)]);
            assert(d1[pixel(h - 1 - y, x, w)] == d0[pixel(h - 1 - (h - 1 - y), x, w)]);
        } else {
            assert(d2[i] == d1[i]);
        }
    }
    assert(d2 =~= d0);
}

/// Flips the rows of a bitmap `width` bytes wide upside down. Only whole rows
/// move: bytes after the last whole row stay where they are.
pub fn invert_bitmap(data: &mut [u8], width: usize)
    requires
        width > 0,
    ensures
        rows_flipped(old(data)@, final(data)@, width as int),
{
    let ghost d0 = data@;
    let ghost w = width as int;
    let len = data.len();
    let height = len / width;
    let ghost h = height as int;
    proof {
        assert(h * w <= d0.len()) by (nonlinear_arith)
            requires
                h == d0.len() as int / w,
                w > 0,
        ;
    }
    let mut y: usize = 0;
    while y < height / 2
        invariant
            w == width as int,
            w > 0,
            h == height as int,
            h == d0.len() as int / w,
            h * w <= d0.len(),
            data@.len() == d0.len(),
            len == d0.len(),
            0 <= y <= height / 2,
            forall|yy: int, xx: int|
                0 <= yy < h && 0 <= xx < w ==> #[trigger] data@[pixel(yy, xx, w)] == d0[pixel(
                    source_row(yy, xx, h, y as int, 0),
                    xx,
                    w,
                )],
            forall|i: int| h * w <= i < d0.len() ==> #[trigger] data@[i] == d0[i],
        decreases height / 2 - y,
    {
        let inv_y = height - y - 1;
        proof {
            assert(y < inv_y);
            lemma_row_end(y as int, w, h);
            lemma_row_end(inv_y as int, w, h);
            assert(h * w <= len);
        }
        let line_idx0 = y * width;
        let line_idx1 = inv_y * width;
        let mut x: usize = 0;
        while x < width
            invariant
                w == width as int,
                w > 0,
                h == height as int,
                h * w <= d0.len(),
                data@.len() == d0.len(),
                len == d0.len(),
                y < inv_y < h,
                inv_y == h - 1 - y,
                y < height / 2,
                line_idx0 == pixel(y as int, 0, w),
                line_idx1 == pixel(inv_y as int, 0, w),
                line_idx1 + w <= h * w,
                line_idx0 + w <= h * w,
                0 <= x <= width,
                forall|yy: int, xx: int|
                    0 <= yy < h && 0 <= xx < w ==> #[trigger] data@[pixel(yy, xx, w)] == d0[pixel(
                        source_row(yy, xx, h, y as int, x as int),
                        xx,
                        w,
                    )],
                forall|i: int| h * w <= i < d0.len() ==> #[trigger] data@[i] == d0[i],
            decreases width - x,
        {
            let i0 = line_idx0 + x;
            let i1 = line_idx1 + x;
            let ghost before = data@;
            proof {
                assert(before[pixel(inv_y as int, x as int, w)] == d0[pixel(
                    source_row(inv_y as int, x as int, h, y as int, x as int),
                    x as int,
                    w,
                )]);
                assert(before[pixel(y as int, x as int, w)] == d0[pixel(
                    source_row(y as int, x as int, h, y as int, x as int),
                    x as int,
                    w,
                )]);
            }
            let a = data[i0];
            let b = data[i1];
            data[i0] = b;
            data[i1] = a;
            proof {
                assert(i0 == pixel(y as int, x as int, w));
                assert(i1 == pixel(inv_y as int, x as int, w));
                assert forall|yy: int, xx: int| 0 <= yy < h && 0 <= xx < w implies #[trigger] data@[pixel(yy, xx, w)]
                    == d0[pixel(source_row(yy, xx, h, y as int, x as int + 1), xx, w)] by {
                    lemma_pixel(yy, xx, y as int, x as int, w, h);
                    lemma_pixel(yy, xx, inv_y as int, x as int, w, h);
                    lemma_pixel(y as int, x as int, inv_y as int, x as int, w, h);
                    if yy == y as int && xx == x as int {
                        assert(before[pixel(inv_y as int, x as int, w)] == d0[pixel(inv_y as int, x as int, w)]);
                    } else if yy == inv_y as int && xx == x as int {
                        assert(before[pixel(y as int, x as int, w)] == d0[pixel(y as int, x as int, w)]);
                    } else {
                        assert(data@[pixel(yy, xx, w)] == before[pixel(yy, xx, w)]);
                    }
                }
                assert forall|i: int| h * w <= i < d0.len() implies #[trigger] data@[i] == d0[i] by {
                    lemma_pixel(y as int, x as int, inv_y as int, x as int, w, h);
                    assert(data@[i] == before[i]);
                }
            }
            x = x + 1;
        }
        proof {
            assert forall|yy: int, xx: int| 0 <= yy < h && 0 <= xx < w implies #[trigger] data@[pixel(yy, xx, w)]
                == d0[pixel(source_row(yy, xx, h, y as int + 1, 0), xx, w)] by {
                assert(source_row(yy, xx, h, y as int, w) == source_row(yy, xx, h, y as int + 1, 0));
            }
        }
        y = y + 1;
    }
    proof {
        assert forall|yy: int, xx: int| 0 <= yy < h && 0 <= xx < w implies #[trigger] data@[pixel(yy, xx, w)]
            == d0[pixel(h - 1 - yy, xx, w)] by {
            assert(y == h / 2);
            if !(yy < y || yy >= h - y) {
                assert(yy == h - 1 - yy);
            }
        }
    }
}

} // verus!
