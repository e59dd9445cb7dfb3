//! Escape time of the Mandelbrot iteration in 8.24 fixed point `i32`
//! arithmetic: a value `v` stands for `v / 2^24`.
use vstd::prelude::*;
use crate::calculator::fits_i32;

verus! {

/// One in 8.24 fixed point.
pub open spec fn unit() -> int {
    0x100_0000
}

/// The fixed point product as the iteration computes it: `a` times the
/// integer part of `b` (rounded down), truncated to 32 bits.
pub open spec fn fixed_product(a: i32, b: i32) -> i32 {
    (a * (b as int / unit())) as i32
}

/// Most iterations before giving up on escaping.
pub open spec fn max_iterations() -> nat {
    4096
}

/// Iterations counted from state `z = zr + i zi` after `k` iterations for
/// the point `c = cr + i ci`: the number of iterations done once
/// `|z|^2 > 4` or the limit is reached; `None` where an `i32` operation of
/// the iteration overflows.
pub open spec fn escape_from(cr: i32, ci: i32, zr: i32, zi: i32, k: nat) -> Option<u32>
    decreases max_iterations() - k,
{
    if k >= max_iterations() {
        Some(k as u32)
    } else {
        let zr2 = fixed_product(zr, zr);
        let zi2 = fixed_product(zi, zi);
        if !fits_i32(zr2 + zi2) {
            None
        } else if zr2 + zi2 > 4 * unit() {
            Some(k as u32)
        } else {
            let a = zr2 - zi2;
            let m = fixed_product(zr, zi);
            if !fits_i32(a) || !fits_i32(a + cr) || !fits_i32(2 * m) || !fits_i32(2 * m + ci) {
                None
            } else {
                escape_from(cr, ci, (a + cr) as i32, (2 * m + ci) as i32, k + 1)
            }
        }
    }
}

/// The untruncated fixed point square `x * (x >> 24)`.
pub open spec fn sq(x: int) -> int {
    x * (x / unit())
}

/// Bounds kept by every state the iteration reaches from `z = 0` for a
/// point with `|cr|, |ci| <= 2`: `|zr| <= 6`, `|zi| <= 10` and
/// `|zr| + |zi| <= 12`.
pub open spec fn reachable_bounds(zr: int, zi: int) -> bool {
    let x = if zr < 0 {
        -zr
    } else {
        zr
    };
    let y = if zi < 0 {
        -zi
    } else {
        zi
    };
    &&& x <= 6 * unit()
    &&& y <= 10 * unit()
    &&& x + y <= 12 * unit()
}

/// `u * sq(x) <= |x| * (|x| + u)`, and `sq(x)` is not negative.
proof fn lemma_sq_bounds(x: int)
    ensures
        0 <= sq(x),
        unit() * sq(x) <= (if x < 0 {
            -x
        } else {
            x
        }) * ((if x < 0 {
            -x
        } else {
            x
        }) + unit()),
{
    let u = unit();
    let p = x / u;
    let r = x % u;
    vstd::arithmetic::div_mod::lemma_fundamental_div_mod(x, u);
    vstd::arithmetic::div_mod::lemma_mod_bound(x, u);
    if x >= 0 {
        assert(p >= 0) by (nonlinear_arith)
            requires
                x == u * p + r,
                0 <= r < u,
                x >= 0,
        ;
        assert(0 <= x * p) by (nonlinear_arith)
            requires
                x >= 0,
                p >= 0,
        ;
        assert(u * (x * p) <= x * (x + u)) by (nonlinear_arith)
            requires
                x == u * p + r,
                0 <= r < u,
                x >= 0,
                p >= 0,
        ;
    } else {
        assert(p < 0) by (nonlinear_arith)
            requires
                x == u * p + r,
                0 <= r < u,
                x < 0,
        ;
        assert(0 <= x * p) by (nonlinear_arith)
            requires
                x < 0,
                p < 0,
        ;
        assert(u * (x * p) <= (-x) * ((-x) + u)) by (nonlinear_arith)
            requires
                x == u * p + r,
                0 <= r < u,
                x < 0,
                p < 0,
        ;
    }
}

/// Within the bounds, both squares and their sum fit in an `i32`.
proof fn lemma_check_fits(zr: int, zi: int)
    requires
        reachable_bounds(zr, zi),
    ensures
        0 <= sq(zr),
        0 <= sq(zi),
        sq(zr) + sq(zi) <= 116 * unit(),
{
    let u = unit();
    lemma_sq_bounds(zr);
    lemma_sq_bounds(zi);
    let x = if zr < 0 {
        -zr
    } else {
        zr
    };
    let y = if zi < 0 {
        -zi
    } else {
        zi
    };
    if y <= 6 * u {
        assert(x * (x + u) + y * (y + u) <= 84 * u * u) by (nonlinear_arith)
            requires
                0 <= x <= 6 * u,
                0 <= y <= 6 * u,
                u > 0,
        ;
    } else {
        assert(x * (x + u) <= (12 * u - y) * (13 * u - y)) by (nonlinear_arith)
            requires
                0 <= x <= 12 * u - y,
                u > 0,
        ;
        assert((y - 2 * u) * (y - 10 * u) <= 0) by (nonlinear_arith)
            requires
                2 * u <= y <= 10 * u,
        ;
        assert((12 * u - y) * (13 * u - y) + y * (y + u) == 2 * ((y - 2 * u) * (y - 10 * u)) + 116
            * u * u) by (nonlinear_arith);
    }
    assert(u * (sq(zr) + sq(zi)) <= u * (116 * u)) by (nonlinear_arith)
        requires
            u * sq(zr) <= x * (x + u),
            u * sq(zi) <= y * (y + u),
            x * (x + u) + y * (y + u) <= 116 * u * u,
    ;
    assert(sq(zr) + sq(zi) <= 116 * u) by (nonlinear_arith)
        requires
            u * (sq(zr) + sq(zi)) <= u * (116 * u),
            u > 0,
    ;
}

/// A square of at most 4 (in fixed point) comes from `|x| <= 2`.
proof fn lemma_small_square(x: int)
    requires
        0 <= sq(x) <= 4 * unit(),
    ensures
        -2 * unit() <= x <= 2 * unit(),
        -2 <= x / unit() <= 2,
{
    let u = unit();
    let p = x / u;
    let r = x % u;
    vstd::arithmetic::div_mod::lemma_fundamental_div_mod(x, u);
    vstd::arithmetic::div_mod::lemma_mod_bound(x, u);
    if x > 2 * u {
        assert(p >= 2) by (nonlinear_arith)
            requires
                x == u * p + r,
                0 <= r < u,
                x > 2 * u,
        ;
        assert(x * p > 4 * u) by (nonlinear_arith)
            requires
                x > 2 * u,
                p >= 2,
                u > 0,
        ;
    }
    if x < -2 * u {
        assert(p <= -3) by (nonlinear_arith)
            requires
                x == u * p + r,
                0 <= r < u,
                x < -2 * u,
        ;
        assert(x * p > 4 * u) by (nonlinear_arith)
            requires
                x < -2 * u,
                p <= -3,
                u > 0,
        ;
    }
    assert(-2 <= p <= 2) by (nonlinear_arith)
        requires
            x == u * p + r,
            0 <= r < u,
            -2 * u <= x <= 2 * u,
    ;
}

/// One step of the iteration from a state that has not escaped keeps the
/// bounds, and none of its operations overflows.
proof fn lemma_step(zr: int, zi: int, cr: int, ci: int)
    requires
        reachable_bounds(zr, zi),
        sq(zr) + sq(zi) <= 4 * unit(),
        -2 * unit() <= cr <= 2 * unit(),
        -2 * unit() <= ci <= 2 * unit(),
    ensures
        -4 * unit() <= sq(zr) - sq(zi) <= 4 * unit(),
        -4 * unit() <= zr * (zi / unit()) <= 4 * unit(),
        reachable_bounds(sq(zr) - sq(zi) + cr, 2 * (zr * (zi / unit())) + ci),
{
    let u = unit();
    lemma_sq_bounds(zr);
    lemma_sq_bounds(zi);
    lemma_small_square(zr);
    lemma_small_square(zi);
    let p = zr / u;
    let q = zi / u;
    vstd::arithmetic::div_mod::lemma_fundamental_div_mod(zr, u);
    vstd::arithmetic::div_mod::lemma_mod_bound(zr, u);
    vstd::arithmetic::div_mod::lemma_fundamental_div_mod(zi, u);
    vstd::arithmetic::div_mod::lemma_mod_bound(zi, u);
    let pr = zr * p;
    let qi = zi * q;
    let m = zr * q;
    let a = pr - qi;
    let x = if zr < 0 {
        -zr
    } else {
        zr
    };
    let am = if a < 0 {
        -a
    } else {
        a
    };
    let mm = if m < 0 {
        -m
    } else {
        m
    };
    assert(am + 2 * mm <= 8 * u) by {
        if -1 <= q <= 1 {
            assert(mm <= x) by (nonlinear_arith)
                requires
                    -1 <= q <= 1,
                    m == zr * q,
                    mm == (if m < 0 {
                        -m
                    } else {
                        m
                    }),
                    x == (if zr < 0 {
                        -zr
                    } else {
                        zr
                    }),
            ;
        } else {
            assert(q == 2 || q == -2);
            assert(qi >= 2 * u) by (nonlinear_arith)
                requires
                    q == 2 || q == -2,
                    zi == u * q + zi % u,
                    0 <= zi % u < u,
                    qi == zi * q,
                    -2 * u <= zi <= 2 * u,
            ;
            assert(mm == 2 * x) by (nonlinear_arith)
                requires
                    q == 2 || q == -2,
                    m == zr * q,
                    mm == (if m < 0 {
                        -m
                    } else {
                        m
                    }),
                    x == (if zr < 0 {
                        -zr
                    } else {
                        zr
                    }),
            ;
            if p == 0 {
                assert(0 <= zr < u);
                assert(pr == 0) by (nonlinear_arith)
                    requires
                        pr == zr * p,
                        p == 0,
                ;
            } else {
                assert(pr >= x) by (nonlinear_arith)
                    requires
                        p != 0,
                        -2 <= p <= 2,
                        zr == u * p + zr % u,
                        0 <= zr % u < u,
                        pr == zr * p,
                        x == (if zr < 0 {
                            -zr
                        } else {
                            zr
                        }),
                ;
            }
        }
    }
    assert(mm <= 4 * u) by (nonlinear_arith)
        requires
            -2 <= q <= 2,
            -2 * u <= zr <= 2 * u,
            m == zr * q,
            mm == (if m < 0 {
                -m
            } else {
                m
            }),
    ;
}

/// Every state reached from a bounded state, for a point with
/// `|cr|, |ci| <= 2`, stays within `i32`.
proof fn lemma_escape_defined(cr: i32, ci: i32, zr: i32, zi: i32, k: nat)
    requires
        -2 * unit() <= cr <= 2 * unit(),
        -2 * unit() <= ci <= 2 * unit(),
        reachable_bounds(zr as int, zi as int),
    ensures
        escape_from(cr, ci, zr, zi, k) is Some,
    decreases max_iterations() - k,
{
    if k < max_iterations() {
        lemma_check_fits(zr as int, zi as int);
        assert(fixed_product(zr, zr) == sq(zr as int));
        assert(fixed_product(zi, zi) == sq(zi as int));
        if sq(zr as int) + sq(zi as int) <= 4 * unit() {
            lemma_step(zr as int, zi as int, cr as int, ci as int);
            assert(fixed_product(zr, zi) == zr * (zi as int / unit()));
            let a = sq(zr as int) - sq(zi as int);
            let m = zr * (zi as int / unit());
            lemma_escape_defined(cr, ci, (a + cr) as i32, (2 * m + ci) as i32, k + 1);
        }
    }
}

/// The iteration of a point `c` with `|cr| <= 2` and `|ci| <= 2` never
/// overflows `i32`: it always has an escape time.
pub proof fn law_bounded_points_have_escape_time(cr: i32, ci: i32)
    requires
        -2 * unit() <= cr <= 2 * unit(),
        -2 * unit() <= ci <= 2 * unit(),
    ensures
        escape_time(cr, ci) is Some,
{
    lemma_escape_defined(cr, ci, 0, 0, 0);
}

/// Fixed point multiplication by the integer `n` (the fixed point value
/// `n * 2^24`) multiplies by `n`; the fraction of the second factor is
/// dropped before multiplying.
pub proof fn law_fixed_product(a: i32, b: i32, n: int)
    ensures
        b as int == n * unit() && fits_i32(a * n) ==> fixed_product(a, b) == a * n,
        fixed_product(a, b) == fixed_product(a, (b as int - b as int % unit()) as i32),
{
    let u = unit();
    vstd::arithmetic::div_mod::lemma_fundamental_div_mod(b as int, u);
    vstd::arithmetic::div_mod::lemma_mod_bound(b as int, u);
    let fl = b as int - b as int % u;
    assert(fl == u * (b as int / u));
    assert(fits_i32(fl)) by (nonlinear_arith)
        requires
            fl == u * (b as int / u),
            b as int == u * (b as int / u) + b as int % u,
            0 <= b as int % u < u,
            -0x8000_0000 <= b <= 0x7fff_ffff,
            u == 0x100_0000,
    ;
    vstd::arithmetic::div_mod::lemma_mod_multiples_basic(b as int / u, u);
    vstd::arithmetic::div_mod::lemma_div_multiples_vanish(b as int / u, u);
    assert((fl as i32) as int / u == b as int / u);
    if b as int == n * u {
        vstd::arithmetic::div_mod::lemma_div_multiples_vanish(n, u);
        assert(b as int / u == n);
    }
}

/// Each step of the iteration is `z <- z^2 + c` in fixed point: a state
/// that has not escaped (its squared magnitude `zr*zr + zi*zi` is at most
/// 4) moves to `(zr*zr - zi*zi + cr, zr*zi + zr*zi + ci)`, one iteration
/// later, where every operation stays within `i32`.
pub proof fn law_escape_step(cr: i32, ci: i32, zr: i32, zi: i32, k: nat)
    requires
        k < max_iterations(),
        fits_i32(fixed_product(zr, zr) + fixed_product(zi, zi)),
        fixed_product(zr, zr) + fixed_product(zi, zi) <= 4 * unit(),
        fits_i32(fixed_product(zr, zr) - fixed_product(zi, zi)),
        fits_i32(fixed_product(zr, zr) - fixed_product(zi, zi) + cr),
        fits_i32(fixed_product(zr, zi) + fixed_product(zr, zi)),
        fits_i32(fixed_product(zr, zi) + fixed_product(zr, zi) + ci),
    ensures
        escape_from(cr, ci, zr, zi, k) == escape_from(
            cr,
            ci,
            (fixed_product(zr, zr) - fixed_product(zi, zi) + cr) as i32,
            (fixed_product(zr, zi) + fixed_product(zr, zi) + ci) as i32,
            k + 1,
        ),
{
}

/// The iteration stops, counting the iterations done, once the squared
/// magnitude exceeds 4 or the limit of 4096 iterations is reached; from
/// `z = 0` it starts with none done.
pub proof fn law_escape_stop(cr: i32, ci: i32, zr: i32, zi: i32, k: nat)
    ensures
        k >= max_iterations() ==> escape_from(cr, ci, zr, zi, k) == Some(k as u32),
        k < max_iterations() && fits_i32(fixed_product(zr, zr) + fixed_product(zi, zi))
            && fixed_product(zr, zr) + fixed_product(zi, zi) > 4 * unit() ==> escape_from(
            cr,
            ci,
            zr,
            zi,
            k,
        ) == Some(k as u32),
        max_iterations() == 4096,
        escape_time(cr, ci) == escape_from(cr, ci, 0, 0, 0),
{
}

/// Escape time of `c = cr + i ci`, starting from `z = 0`.
pub open spec fn escape_time(cr: i32, ci: i32) -> Option<u32> {
    escape_from(cr, ci, 0, 0, 0)
}

/// The fixed point product `a * (b >> 24)`, truncated to 32 bits.
pub fn fixed_mul(a: i32, b: i32) -> (r: i32)
    ensures
        r == fixed_product(a, b),
{
    let shifted = (b as i64) >> 24u64;
    assert(shifted == b / 0x100_0000) by (bit_vector)
        requires
            shifted == (b as i64) >> 24u64,
    ;
    assert(-0x8000_0000 * 0x80 <= (a as int) * (shifted as int) <= 0x8000_0000 * 0x80)
        by (nonlinear_arith)
        requires
            -0x8000_0000 <= a <= 0x7fff_ffff,
            -0x80 <= shifted <= 0x7f,
    ;
    ((a as i64) * shifted) as i32
}

/// Escape time of `c = cr + i ci`, or `None` where the iteration
/// overflows `i32`.
pub fn try_escape_iterations(cr: i32, ci: i32) -> (r: Option<u32>)
    ensures
        r == escape_time(cr, ci),
{
    let mut zr: i32 = 0;
    let mut zi: i32 = 0;
    let mut k: u32 = 0;
    let max_k: u32 = 4096;
    while k < max_k
        invariant
            k <= max_k,
            max_k == max_iterations(),
            escape_time(cr, ci) == escape_from(cr, ci, zr, zi, k as nat),
        decreases max_k - k,
    {
        let zr2 = fixed_mul(zr, zr);
        let zi2 = fixed_mul(zi, zi);
        let sum = zr2 as i64 + zi2 as i64;
        if sum < i32::MIN as i64 || sum > i32::MAX as i64 {
            return None;
        }
        if sum > (4i64 << 24u64) {
            assert((4i64 << 24u64) == 4 * 0x100_0000) by (bit_vector);
            return Some(k);
        }
        assert((4i64 << 24u64) == 4 * 0x100_0000) by (bit_vector);
        k = k + 1;
        let tmp = zr;
        let a = zr2 as i64 - zi2 as i64;
        let m = fixed_mul(tmp, zi) as i64;
        let lo = i32::MIN as i64;
        let hi = i32::MAX as i64;
        let new_r = a + cr as i64;
        let twice = 2 * m;
        let new_i = twice + ci as i64;
        if a < lo || a > hi || new_r < lo || new_r > hi || twice < lo || twice > hi || new_i < lo
            || new_i > hi {
            return None;
        }
        zr = new_r as i32;
        zi = new_i as i32;
    }
    Some(k)
}

/// Escape time of `c = cr + i ci`, for a point whose iteration stays
/// within `i32`.
pub fn escape_iterations(cr: i32, ci: i32) -> (r: u32)
    requires
        escape_time(cr, ci) is Some,
    ensures
        escape_time(cr, ci) == Some(r),
{
    match try_escape_iterations(cr, ci) {
        Some(k) => k,
        None => 0,
    }
}

/// The point `c` that pixel `(x, y)` of the picture stands for: the grid
/// starts at `-2 - 1.25i` and steps by `2^-9`, each pixel sampled at its
/// centre.
pub open spec fn grid_point(x: int, y: int) -> (int, int) {
    (-2 * unit() + 0x8000 * x + 0x4000, -(5 * unit()) / 4 + 0x8000 * y + 0x4000)
}

/// Whether computing `grid_point(x, y)` stays within `i32`.
pub open spec fn grid_point_fits(x: i32, y: i32) -> bool {
    &&& fits_i32(0x8000 * x)
    &&& fits_i32(-2 * unit() + 0x8000 * x)
    &&& fits_i32(grid_point(x as int, y as int).0)
    &&& fits_i32(0x8000 * y)
    &&& fits_i32(-(5 * unit()) / 4 + 0x8000 * y)
    &&& fits_i32(grid_point(x as int, y as int).1)
}

/// The point that pixel `(x, y)` stands for.
pub fn pixel_point(x: i32, y: i32) -> (r: (i32, i32))
    requires
        grid_point_fits(x, y),
    ensures
        r.0 as int == grid_point(x as int, y as int).0,
        r.1 as int == grid_point(x as int, y as int).1,
{
    assert(2i32 << 24u32 == 0x200_0000) by (bit_vector);
    assert(5i32 << 22u32 == 0x140_0000) by (bit_vector);
    let cr = -(2i32 << 24u32) + 0x8000 * x + 0x4000;
    let ci = -(5i32 << 22u32) + 0x8000 * y + 0x4000;
    (cr, ci)
}

/// Every pixel of a picture up to 2048 by 1664 pixels (the one drawn is
/// 120 by 30) stands for a point within `i32`, and that point has an escape
/// time: drawing it never overflows.
pub proof fn law_picture_has_escape_times(x: i32, y: i32)
    requires
        0 <= x < 2048,
        0 <= y < 1664,
    ensures
        grid_point_fits(x, y),
        escape_time(grid_point(x as int, y as int).0 as i32, grid_point(x as int, y as int).1 as i32)
            is Some,
{
    let (cr, ci) = grid_point(x as int, y as int);
    law_bounded_points_have_escape_time(cr as i32, ci as i32);
}

} // verus!
