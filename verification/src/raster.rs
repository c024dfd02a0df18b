//! The line rasterizer: an integer-error Bresenham march with octant
//! folding. A segment is folded so that iteration always advances along the
//! axis with the larger coordinate delta; the march paints the closed-open
//! segment from the first endpoint toward the second, so the pixel at the
//! destination is never plotted. Writes that would fall outside the image
//! are silently dropped.

use vstd::prelude::*;
use vstd::arithmetic::div_mod::lemma_fundamental_div_mod_converse;
use vstd::arithmetic::div_mod::lemma_div_pos_is_pos;
use vstd::arithmetic::div_mod::lemma_div_is_ordered;
use vstd::arithmetic::div_mod::lemma_div_plus_one;

use crate::canvas::Color;
use crate::canvas::Image;

verus! {

/// Absolute difference.
pub open spec fn diff(a: int, b: int) -> int {
    if a >= b {
        a - b
    } else {
        b - a
    }
}

/// The smaller of two integers.
pub open spec fn min_i(a: int, b: int) -> int {
    if a <= b {
        a
    } else {
        b
    }
}

/// How many steps along the minor axis the error accumulator has forced
/// after `k` steps along the major axis, for a shallow march with major
/// delta `dx >= 1` and minor delta `0 <= dy <= dx`.
///
/// The marcher adds `2*dy` to an error counter at each major step and
/// subtracts `2*dx` (stepping the minor axis once) whenever the counter
/// exceeds `dx`; this closed form counts those subtractions.
pub open spec fn steps_at(dy: int, dx: int, k: int) -> int {
    (2 * dy * k + dx - 1) / (2 * dx)
}

/// The pixel `k` major steps along the left-to-right shallow march from
/// `(x0, y0)` to `(x1, y1)`; meaningful for `x0 <= x1`,
/// `diff(y0, y1) <= x1 - x0` and `0 <= k <= x1 - x0`.
pub open spec fn core_pixel(x0: int, y0: int, x1: int, y1: int, k: int) -> (int, int) {
    let m = steps_at(diff(y0, y1), x1 - x0, k);
    (x0 + k, if y1 >= y0 {
        y0 + m
    } else {
        y0 - m
    })
}

/// The `k`-th pixel of the shallow march from the source `(x0, y0)` toward
/// the target `(x1, y1)`, counted from the source; either endpoint order.
pub open spec fn shallow_pixel(x0: int, y0: int, x1: int, y1: int, k: int) -> (int, int) {
    if x0 <= x1 {
        core_pixel(x0, y0, x1, y1, k)
    } else {
        core_pixel(x1, y1, x0, y0, (x0 - x1) - k)
    }
}

/// A segment is steep when its `y` extent exceeds its `x` extent; a steep
/// segment is marched with the two coordinates exchanged.
pub open spec fn is_steep(x0: int, y0: int, x1: int, y1: int) -> bool {
    diff(x0, x1) < diff(y0, y1)
}

/// How many pixels the rasterizer plots for the segment: its extent along
/// the major axis. The march is half-open: it starts at the source pixel
/// and stops one short of the destination pixel.
pub open spec fn march_len(x0: int, y0: int, x1: int, y1: int) -> int {
    if is_steep(x0, y0, x1, y1) {
        diff(y0, y1)
    } else {
        diff(x0, x1)
    }
}

/// The `k`-th pixel the rasterizer plots for the segment from `(x0, y0)`
/// toward `(x1, y1)`, in march order from the source; meaningful for
/// `0 <= k < march_len(x0, y0, x1, y1)`.
pub open spec fn pixel_on_line(x0: int, y0: int, x1: int, y1: int, k: int) -> (int, int) {
    if is_steep(x0, y0, x1, y1) {
        let p = shallow_pixel(y0, x0, y1, x1, k);
        (p.1, p.0)
    } else {
        shallow_pixel(x0, y0, x1, y1, k)
    }
}

/// Whether the folded shallow march from `(x0, y0)` toward `(x1, y1)` (in
/// major-axis-first coordinates, transposed back on writing when `steep`)
/// plots the pixel `(px, py)`.
pub open spec fn shallow_hit(
    x0: int,
    y0: int,
    x1: int,
    y1: int,
    steep: bool,
    px: int,
    py: int,
) -> bool {
    let mx = if steep {
        py
    } else {
        px
    };
    let my = if steep {
        px
    } else {
        py
    };
    let k = diff(mx, x0);
    0 <= k < diff(x0, x1) && (mx, my) == shallow_pixel(x0, y0, x1, y1, k)
}

/// Whether the rasterized segment from `(x0, y0)` toward `(x1, y1)` plots
/// the pixel `(px, py)`. The plotted set is the graph of a function over
/// the major axis, so membership is decided at the major offset of the
/// candidate pixel from the source.
pub open spec fn line_contains(x0: int, y0: int, x1: int, y1: int, px: int, py: int) -> bool {
    let k = if is_steep(x0, y0, x1, y1) {
        diff(py, y0)
    } else {
        diff(px, x0)
    };
    0 <= k < march_len(x0, y0, x1, y1) && (px, py) == pixel_on_line(x0, y0, x1, y1, k)
}

/// Whether the left-to-right core march from `(x0, y0)` to `(x1, y1)` plots
/// `(px, py)` at a major offset in `[lo, hi)`, transposed when `steep`.
pub open spec fn core_hit(
    x0: int,
    y0: int,
    x1: int,
    y1: int,
    steep: bool,
    px: int,
    py: int,
    lo: int,
    hi: int,
) -> bool {
    let mx = if steep {
        py
    } else {
        px
    };
    let my = if steep {
        px
    } else {
        py
    };
    lo <= mx - x0 < hi && (mx, my) == core_pixel(x0, y0, x1, y1, mx - x0)
}

/// Recover the closed-form step count from the error accumulator's
/// invariant: after `k` major steps and `m` minor steps the error is
/// `2*dy*k - 2*dx*m` and lies in `(-dx, dx]`.
proof fn lemma_steps_from_error(dy: int, dx: int, k: int, m: int, e: int)
    requires
        0 <= dy <= dx,
        1 <= dx,
        e == 2 * dy * k - 2 * dx * m,
        -dx < e <= dx,
    ensures
        m == steps_at(dy, dx, k),
{
    assert(2 * dy * k + dx - 1 == m * (2 * dx) + (e + dx - 1)) by (nonlinear_arith)
        requires
            e == 2 * dy * k - 2 * dx * m,
    ;
    lemma_fundamental_div_mod_converse(2 * dy * k + dx - 1, 2 * dx, m, e + dx - 1);
}

/// The step count stays between zero and the minor delta: a shallow march
/// never leaves the band spanned by its endpoint rows.
pub proof fn lemma_steps_bounds(dy: int, dx: int, k: int)
    requires
        0 <= dy <= dx,
        1 <= dx,
        0 <= k <= dx,
    ensures
        0 <= steps_at(dy, dx, k) <= dy,
{
    let n = 2 * dy * k + dx - 1;
    let top = dy * (2 * dx) + (dx - 1);
    assert(0 <= n && n <= top) by (nonlinear_arith)
        requires
            0 <= dy,
            0 <= k <= dx,
            1 <= dx,
            n == 2 * dy * k + dx - 1,
            top == dy * (2 * dx) + (dx - 1),
    ;
    lemma_div_pos_is_pos(n, 2 * dx);
    lemma_div_is_ordered(n, top, 2 * dx);
    lemma_fundamental_div_mod_converse(top, 2 * dx, dy, dx - 1);
}

/// Each major step advances the step count by zero or one: consecutive
/// plotted pixels differ by at most one along the minor axis.
pub proof fn lemma_steps_step(dy: int, dx: int, k: int)
    requires
        0 <= dy <= dx,
        1 <= dx,
        0 <= k,
    ensures
        steps_at(dy, dx, k) <= steps_at(dy, dx, k + 1) <= steps_at(dy, dx, k) + 1,
{
    let n = 2 * dy * k + dx - 1;
    let n1 = 2 * dy * (k + 1) + dx - 1;
    assert(n1 == n + 2 * dy) by (nonlinear_arith)
        requires
            n == 2 * dy * k + dx - 1,
            n1 == 2 * dy * (k + 1) + dx - 1,
    ;
    lemma_div_is_ordered(n, n1, 2 * dx);
    lemma_div_is_ordered(n1, n + 2 * dx, 2 * dx);
    lemma_div_plus_one(n, 2 * dx);
}

/// With no minor delta the step count is zero: the march follows its row.
pub proof fn lemma_steps_flat(dx: int, k: int)
    requires
        1 <= dx,
    ensures
        steps_at(0, dx, k) == 0,
{
    assert(2 * 0 * k + dx - 1 == 0 * (2 * dx) + (dx - 1)) by (nonlinear_arith);
    lemma_fundamental_div_mod_converse(2 * 0 * k + dx - 1, 2 * dx, 0, dx - 1);
}

/// On an exact diagonal the step count equals the major offset.
pub proof fn lemma_steps_diagonal(dx: int, k: int)
    requires
        1 <= dx,
    ensures
        steps_at(dx, dx, k) == k,
{
    assert(2 * dx * k + dx - 1 == k * (2 * dx) + (dx - 1)) by (nonlinear_arith);
    lemma_fundamental_div_mod_converse(2 * dx * k + dx - 1, 2 * dx, k, dx - 1);
}

/// The full march reaches the far row: at the last major position the step
/// count equals the whole minor delta.
pub proof fn lemma_steps_full(dy: int, dx: int)
    requires
        0 <= dy <= dx,
        1 <= dx,
    ensures
        steps_at(dy, dx, dx) == dy,
{
    assert(2 * dy * dx + dx - 1 == dy * (2 * dx) + (dx - 1)) by (nonlinear_arith);
    lemma_fundamental_div_mod_converse(2 * dy * dx + dx - 1, 2 * dx, dy, dx - 1);
}

/// The march is half-open at the destination: whenever anything is plotted,
/// the first plotted pixel is the source `(x0, y0)` itself.
pub proof fn lemma_march_starts_at_source(x0: u32, y0: u32, x1: u32, y1: u32)
    requires
        march_len(x0 as int, y0 as int, x1 as int, y1 as int) > 0,
    ensures
        pixel_on_line(x0 as int, y0 as int, x1 as int, y1 as int, 0) == (x0 as int, y0 as int),
        line_contains(x0 as int, y0 as int, x1 as int, y1 as int, x0 as int, y0 as int),
{
    let steep = is_steep(x0 as int, y0 as int, x1 as int, y1 as int);
    if steep {
        if y0 <= y1 {
            lemma_fundamental_div_mod_converse(
                (y1 - y0) - 1,
                2 * (y1 - y0),
                0,
                (y1 - y0) - 1,
            );
        } else {
            lemma_steps_full(diff(x0 as int, x1 as int), y0 - y1);
        }
    } else {
        if x0 <= x1 {
            lemma_fundamental_div_mod_converse(
                (x1 - x0) - 1,
                2 * (x1 - x0),
                0,
                (x1 - x0) - 1,
            );
        } else {
            lemma_steps_full(diff(y0 as int, y1 as int), x0 - x1);
        }
    }
}

/// Every pixel of the left-to-right core march lies in the bounding box of
/// its endpoints.
pub proof fn lemma_core_in_box(x0: int, y0: int, x1: int, y1: int, k: int)
    requires
        x0 <= x1,
        diff(y0, y1) <= x1 - x0,
        0 <= k <= x1 - x0,
        x0 < x1,
    ensures
        core_pixel(x0, y0, x1, y1, k).0 == x0 + k,
        x0 <= core_pixel(x0, y0, x1, y1, k).0 <= x1,
        min_i(y0, y1) <= core_pixel(x0, y0, x1, y1, k).1 <= min_i(y0, y1) + diff(y0, y1),
{
    lemma_steps_bounds(diff(y0, y1), x1 - x0, k);
}

/// Line containment: with both endpoints inside a `w` by `h` image, every
/// plotted pixel of the segment lies inside that image.
pub proof fn lemma_line_containment(
    x0: u32,
    y0: u32,
    x1: u32,
    y1: u32,
    w: int,
    h: int,
    px: int,
    py: int,
)
    requires
        x0 < w,
        x1 < w,
        y0 < h,
        y1 < h,
        line_contains(x0 as int, y0 as int, x1 as int, y1 as int, px, py),
    ensures
        0 <= px < w,
        0 <= py < h,
{
    if is_steep(x0 as int, y0 as int, x1 as int, y1 as int) {
        let k = diff(py, y0 as int);
        if y0 <= y1 {
            lemma_core_in_box(y0 as int, x0 as int, y1 as int, x1 as int, k);
        } else {
            lemma_core_in_box(y1 as int, x1 as int, y0 as int, x0 as int, (y0 - y1) - k);
        }
    } else {
        let k = diff(px, x0 as int);
        if x0 <= x1 {
            if x0 < x1 {
                lemma_core_in_box(x0 as int, y0 as int, x1 as int, y1 as int, k);
            }
        } else {
            lemma_core_in_box(x1 as int, y1 as int, x0 as int, y0 as int, (x0 - x1) - k);
        }
    }
}

/// Consecutive pixels of the shallow march: the major coordinate moves by
/// one and the minor coordinate moves by at most one.
proof fn lemma_shallow_adjacent(x0: int, y0: int, x1: int, y1: int, k: int)
    requires
        diff(y0, y1) <= diff(x0, x1),
        0 <= k,
        k + 1 < diff(x0, x1),
    ensures
        diff(shallow_pixel(x0, y0, x1, y1, k + 1).0, shallow_pixel(x0, y0, x1, y1, k).0) == 1,
        diff(shallow_pixel(x0, y0, x1, y1, k + 1).1, shallow_pixel(x0, y0, x1, y1, k).1) <= 1,
{
    if x0 <= x1 {
        lemma_steps_step(diff(y0, y1), x1 - x0, k);
        lemma_steps_bounds(diff(y0, y1), x1 - x0, k);
    } else {
        lemma_steps_step(diff(y0, y1), x0 - x1, (x0 - x1) - k - 1);
        lemma_steps_bounds(diff(y0, y1), x0 - x1, (x0 - x1) - k);
    }
}

/// Line connectivity: every plotted pixel other than the two ends of the
/// march has another plotted pixel among its eight neighbors, so the plotted
/// set is 8-connected.
pub proof fn lemma_line_connectivity(x0: u32, y0: u32, x1: u32, y1: u32, px: int, py: int)
    requires
        line_contains(x0 as int, y0 as int, x1 as int, y1 as int, px, py),
        (px, py) != pixel_on_line(x0 as int, y0 as int, x1 as int, y1 as int, 0),
        (px, py) != pixel_on_line(
            x0 as int,
            y0 as int,
            x1 as int,
            y1 as int,
            march_len(x0 as int, y0 as int, x1 as int, y1 as int) - 1,
        ),
    ensures
        exists|qx: int, qy: int|
            line_contains(x0 as int, y0 as int, x1 as int, y1 as int, qx, qy) && (qx, qy) != (
            px,
            py,
            ) && diff(qx, px) <= 1 && diff(qy, py) <= 1,
{
    let steep = is_steep(x0 as int, y0 as int, x1 as int, y1 as int);
    let k = if steep {
        diff(py, y0 as int)
    } else {
        diff(px, x0 as int)
    };
    let q = pixel_on_line(x0 as int, y0 as int, x1 as int, y1 as int, k + 1);
    if steep {
        lemma_shallow_adjacent(y0 as int, x0 as int, y1 as int, x1 as int, k);
    } else {
        lemma_shallow_adjacent(x0 as int, y0 as int, x1 as int, y1 as int, k);
    }
    assert(line_contains(x0 as int, y0 as int, x1 as int, y1 as int, q.0, q.1));
    assert(diff(q.0, px) <= 1 && diff(q.1, py) <= 1);
    assert((q.0, q.1) != (px, py));
}

/// Axis-aligned exactness, flat case: with `y0 == y1` the plotted pixels are
/// exactly the half-open row from the source toward the target; left to
/// right that is `{(x, y0) : x0 <= x < x1}`.
pub proof fn lemma_horizontal_exact(x0: u32, y0: u32, x1: u32, y1: u32, px: int, py: int)
    requires
        y0 == y1,
    ensures
        line_contains(x0 as int, y0 as int, x1 as int, y1 as int, px, py) <==> (py == y0 && (if x0
            <= x1 {
            x0 <= px < x1
        } else {
            x1 < px <= x0
        })),
{
    if x0 != x1 {
        if x0 <= x1 {
            lemma_steps_flat(x1 - x0, diff(px, x0 as int));
        } else {
            lemma_steps_flat(x0 - x1, (x0 - x1) - diff(px, x0 as int));
        }
    }
}

/// Axis-aligned exactness, steep case: with `x0 == x1` the plotted pixels
/// are exactly the half-open column from the source toward the target.
pub proof fn lemma_vertical_exact(x0: u32, y0: u32, x1: u32, y1: u32, px: int, py: int)
    requires
        x0 == x1,
    ensures
        line_contains(x0 as int, y0 as int, x1 as int, y1 as int, px, py) <==> (px == x0 && (if y0
            <= y1 {
            y0 <= py < y1
        } else {
            y1 < py <= y0
        })),
{
    if y0 != y1 {
        if y0 <= y1 {
            lemma_steps_flat(y1 - y0, diff(py, y0 as int));
        } else {
            lemma_steps_flat(y0 - y1, (y0 - y1) - diff(py, y0 as int));
        }
    }
}

/// Octant symmetry: exchanging the two coordinates of both endpoints
/// reflects the plotted set across the diagonal `y == x`.
pub proof fn lemma_octant_symmetry(a: u32, b: u32, c: u32, d: u32, px: int, py: int)
    ensures
        line_contains(a as int, b as int, c as int, d as int, px, py) <==> line_contains(
            b as int,
            a as int,
            d as int,
            c as int,
            py,
            px,
        ),
{
    let ai = a as int;
    let bi = b as int;
    let ci = c as int;
    let di = d as int;
    if diff(ai, ci) == diff(bi, di) && ai != ci {
        let dx = diff(ai, ci);
        lemma_steps_diagonal(dx, diff(px, ai));
        lemma_steps_diagonal(dx, diff(px, ci));
        lemma_steps_diagonal(dx, diff(py, bi));
        lemma_steps_diagonal(dx, diff(py, di));
        lemma_steps_diagonal(dx, dx - diff(px, ai));
        lemma_steps_diagonal(dx, dx - diff(py, bi));
    }
}

/// Absolute difference of two pixel coordinates.
pub fn diff_u32(a: u32, b: u32) -> (r: u32)
    ensures
        r == diff(a as int, b as int),
{
    if a >= b {
        a - b
    } else {
        b - a
    }
}

/// The folded shallow march: the segment is not steep, either endpoint
/// order. Plots the closed-open run of major positions from the source
/// toward the target, transposed to `(y, x)` when `steep` is set, skipping
/// positions outside the image.
fn draw_shallow(x0: u32, y0: u32, x1: u32, y1: u32, steep: bool, img: &mut Image, color: Color)
    requires
        old(img).wf(),
        diff(y0 as int, y1 as int) <= diff(x0 as int, x1 as int),
    ensures
        final(img).wf(),
        final(img).spec_width() == old(img).spec_width(),
        final(img).spec_height() == old(img).spec_height(),
        forall|px: int, py: int|
            final(img).in_bounds(px, py) ==> final(img).at(px, py) == (if shallow_hit(
                x0 as int,
                y0 as int,
                x1 as int,
                y1 as int,
                steep,
                px,
                py,
            ) {
                color
            } else {
                old(img).at(px, py)
            }),
{
    let backward = x0 > x1;
    let bx0: u32 = if backward {
        x1
    } else {
        x0
    };
    let by0: u32 = if backward {
        y1
    } else {
        y0
    };
    let bx1: u32 = if backward {
        x0
    } else {
        x1
    };
    let by1: u32 = if backward {
        y0
    } else {
        y1
    };
    let ghost lo: int = if backward {
        1
    } else {
        0
    };
    let dx: i64 = bx1 as i64 - bx0 as i64;
    let dy: i64 = if by1 >= by0 {
        by1 as i64 - by0 as i64
    } else {
        by0 as i64 - by1 as i64
    };
    let derror2: i64 = dy * 2;
    let mut error2: i64 = 0;
    let mut y: u32 = by0;
    let mut x: u32 = bx0;
    let ghost mut m: int = 0;
    while x < bx1
        invariant
            img.wf(),
            img.spec_width() == old(img).spec_width(),
            img.spec_height() == old(img).spec_height(),
            bx0 <= x <= bx1,
            dx == bx1 - bx0,
            dy == diff(by0 as int, by1 as int),
            dy <= dx,
            derror2 == 2 * dy,
            0 <= m <= dy,
            y == (if by1 >= by0 {
                by0 + m
            } else {
                by0 - m
            }),
            error2 == 2 * dy * (x - bx0) - 2 * dx * m,
            (x == bx0 && error2 == 0) || (-dx < error2 <= dx),
            lo == (if backward {
                1int
            } else {
                0
            }),
            forall|px: int, py: int|
                img.in_bounds(px, py) ==> img.at(px, py) == (if core_hit(
                    bx0 as int,
                    by0 as int,
                    bx1 as int,
                    by1 as int,
                    steep,
                    px,
                    py,
                    lo,
                    lo + (x - bx0),
                ) {
                    color
                } else {
                    old(img).at(px, py)
                }),
        decreases bx1 - x,
    {
        proof {
            lemma_steps_from_error(dy as int, dx as int, x - bx0, m, error2 as int);
            assert(2 * dy * (x + 1 - bx0) == 2 * dy * (x - bx0) + 2 * dy) by (nonlinear_arith);
            assert(2 * dx * (m + 1) == 2 * dx * m + 2 * dx) by (nonlinear_arith);
        }
        let pjx: u32 = x;
        let pjy: u32 = y;
        if !backward {
            let tx: u32 = if steep {
                pjy
            } else {
                pjx
            };
            let ty: u32 = if steep {
                pjx
            } else {
                pjy
            };
            if tx < img.width() && ty < img.height() {
                img.put_pixel(tx, ty, color);
            }
            proof {
                assert(core_pixel(bx0 as int, by0 as int, bx1 as int, by1 as int, x - bx0) == (
                x as int,
                y as int,
                ));
            }
        }
        error2 = error2 + derror2;
        if error2 > dx {
            proof {
                assert(m + 1 <= dy) by (nonlinear_arith)
                    requires
                        2 * dy * (x - bx0) + 2 * dy - 2 * dx * m - 2 * dx > -dx,
                        x - bx0 + 1 <= dx,
                        0 <= dy,
                        1 <= dx,
                        m >= 0,
                ;
            }
            if by1 > by0 {
                y = y + 1;
            } else {
                y = y - 1;
            }
            error2 = error2 - dx * 2;
            proof {
                m = m + 1;
            }
        }
        if backward {
            proof {
                lemma_steps_from_error(dy as int, dx as int, x + 1 - bx0, m, error2 as int);
            }
            let tx: u32 = if steep {
                y
            } else {
                x + 1
            };
            let ty: u32 = if steep {
                x + 1
            } else {
                y
            };
            if tx < img.width() && ty < img.height() {
                img.put_pixel(tx, ty, color);
            }
            proof {
                assert(core_pixel(bx0 as int, by0 as int, bx1 as int, by1 as int, x + 1 - bx0) == (
                x + 1,
                y as int,
                ));
            }
        }
        x = x + 1;
    }
    proof {
        assert forall|px: int, py: int|
            core_hit(
                bx0 as int,
                by0 as int,
                bx1 as int,
                by1 as int,
                steep,
                px,
                py,
                lo,
                lo + dx,
            ) == shallow_hit(x0 as int, y0 as int, x1 as int, y1 as int, steep, px, py) by {
        }
    }
}

/// Draw a one-pixel-wide straight line of the given color from `(x0, y0)`
/// toward `(x1, y1)`: exactly the pixels of the Bresenham march
/// (`line_contains`) that lie inside the image are overwritten, and every
/// other pixel keeps its value. The march is half-open, so the pixel at the
/// destination is not plotted; endpoints on or beyond the image edge are
/// allowed and simply clipped.
pub fn draw_line(x0: u32, y0: u32, x1: u32, y1: u32, img: &mut Image, color: Color)
    requires
        old(img).wf(),
    ensures
        final(img).wf(),
        final(img).spec_width() == old(img).spec_width(),
        final(img).spec_height() == old(img).spec_height(),
        forall|px: int, py: int|
            final(img).in_bounds(px, py) ==> final(img).at(px, py) == (if line_contains(
                x0 as int,
                y0 as int,
                x1 as int,
                y1 as int,
                px,
                py,
            ) {
                color
            } else {
                old(img).at(px, py)
            }),
{
    let steep = diff_u32(x0, x1) < diff_u32(y0, y1);
    let ax0: u32 = if steep {
        y0
    } else {
        x0
    };
    let ay0: u32 = if steep {
        x0
    } else {
        y0
    };
    let ax1: u32 = if steep {
        y1
    } else {
        x1
    };
    let ay1: u32 = if steep {
        x1
    } else {
        y1
    };
    draw_shallow(ax0, ay0, ax1, ay1, steep, img, color);
    proof {
        assert forall|px: int, py: int|
            shallow_hit(ax0 as int, ay0 as int, ax1 as int, ay1 as int, steep, px, py)
                == line_contains(x0 as int, y0 as int, x1 as int, y1 as int, px, py) by {
        }
    }
}

} // verus!
