//! Fixed-point arithmetic in thousandths.
//!
//! A coordinate or scale factor is stored as an `i64` counting thousandths:
//! `1000` stands for one pixel (or a scale factor of one). Multiplication
//! rounds the exact product back to thousandths, half away from zero, and
//! saturates at the `i64` range; the same rounding turns a fixed-point
//! coordinate into a whole pixel.

use vstd::prelude::*;

verus! {

/// Number of fixed-point units in one pixel (or in a scale factor of 1).
pub const FX_ONE: i64 = 1000;

/// Largest width or height, in pixels, of any raster buffer the library
/// will produce; keeps `4 * width * height` within `u32` range.
pub const MAX_DIM: u32 = 32767;

/// `n / 1000` rounded half away from zero, over the unbounded integers.
pub open spec fn rdiv_one(n: int) -> int {
    if n >= 0 {
        (n + 500) / 1000
    } else {
        -(((-n) + 500) / 1000)
    }
}

/// Clamp an unbounded integer into the `i64` range.
pub open spec fn sat_i64(n: int) -> int {
    if n > i64::MAX {
        i64::MAX as int
    } else if n < i64::MIN {
        i64::MIN as int
    } else {
        n
    }
}

/// Clamp an unbounded integer into `lo ..= hi`.
pub open spec fn clamp(n: int, lo: int, hi: int) -> int {
    if n < lo {
        lo
    } else if n > hi {
        hi
    } else {
        n
    }
}

/// Fixed-point product: the exact product scaled back to thousandths,
/// rounded half away from zero and saturated at the `i64` range.
pub open spec fn fx_mul(a: int, b: int) -> int {
    sat_i64(rdiv_one(a * b))
}

/// Fixed-point sum, saturated at the `i64` range.
pub open spec fn fx_add(a: int, b: int) -> int {
    sat_i64(a + b)
}

/// The whole pixel nearest to fixed-point coordinate `n` (half away from zero).
pub open spec fn px_round(n: int) -> int {
    rdiv_one(n)
}

/// Size, in pixels, of a source extent of `w` pixels drawn at fixed-point
/// scale `s`: rounded to the nearest whole pixel and clamped to
/// `0 ..= MAX_DIM`.
pub open spec fn scaled_dim(w: int, s: int) -> int {
    clamp(rdiv_one(w * s), 0, MAX_DIM as int)
}

/// `n / 1000` rounded half away from zero, for intermediate `i128` values.
fn rdiv_one_i128(n: i128) -> (r: i128)
    requires
        i128::MIN < n,
        n <= i128::MAX - 500,
    ensures
        r == rdiv_one(n as int),
{
    if n >= 0 {
        let q: u128 = ((n as u128) + 500) / 1000;
        q as i128
    } else {
        let q: u128 = (((-n) as u128) + 500) / 1000;
        -(q as i128)
    }
}

/// Clamp an `i128` into the `i64` range.
fn sat_i64_exec(n: i128) -> (r: i64)
    ensures
        r == sat_i64(n as int),
{
    if n > i64::MAX as i128 {
        i64::MAX
    } else if n < i64::MIN as i128 {
        i64::MIN
    } else {
        n as i64
    }
}

/// Fixed-point multiplication: `fx_mul` made executable.
pub fn mul_fx(a: i64, b: i64) -> (r: i64)
    ensures
        r == fx_mul(a as int, b as int),
{
    proof {
        assert((a as int) * (b as int) <= 0x8000_0000_0000_0000 * 0x8000_0000_0000_0000
            && (a as int) * (b as int) >= -(0x8000_0000_0000_0000 * 0x8000_0000_0000_0000))
            by (nonlinear_arith)
            requires
                -0x8000_0000_0000_0000 <= (a as int),
                (a as int) <= 0x7fff_ffff_ffff_ffff,
                -0x8000_0000_0000_0000 <= (b as int),
                (b as int) <= 0x7fff_ffff_ffff_ffff,
        ;
    }
    let p: i128 = (a as i128) * (b as i128);
    let q: i128 = rdiv_one_i128(p);
    sat_i64_exec(q)
}

/// Fixed-point saturating addition: `fx_add` made executable.
pub fn add_fx(a: i64, b: i64) -> (r: i64)
    ensures
        r == fx_add(a as int, b as int),
{
    let s: i128 = (a as i128) + (b as i128);
    sat_i64_exec(s)
}

/// Nearest whole pixel of a fixed-point coordinate: `px_round` made executable.
pub fn round_px(n: i64) -> (r: i64)
    ensures
        r == px_round(n as int),
{
    let q: i128 = rdiv_one_i128(n as i128);
    proof {
        assert(i64::MIN <= rdiv_one(n as int) <= i64::MAX);
    }
    q as i64
}

/// A coordinate snapped to the nearest whole pixel, still in
/// thousandths: `round(n / 1000) · 1000`, saturated at the `i64` range.
pub open spec fn snap_coord(n: int) -> int {
    sat_i64(px_round(n) * 1000)
}

/// Snap a fixed-point coordinate to the nearest whole pixel:
/// `snap_coord` made executable.
pub fn snap_fx(n: i64) -> (r: i64)
    ensures
        r == snap_coord(n as int),
{
    let q: i128 = rdiv_one_i128(n as i128);
    proof {
        assert(-0x8000_0000_0000_0000 <= rdiv_one(n as int) <= 0x7fff_ffff_ffff_ffff);
        assert(rdiv_one(n as int) * 1000 <= 0x7fff_ffff_ffff_ffff * 1000
            && rdiv_one(n as int) * 1000 >= -0x8000_0000_0000_0000 * 1000) by (nonlinear_arith)
            requires
                -0x8000_0000_0000_0000 <= rdiv_one(n as int),
                rdiv_one(n as int) <= 0x7fff_ffff_ffff_ffff,
        ;
    }
    let m: i128 = q * 1000;
    sat_i64_exec(m)
}

/// A rounded pixel coordinate keeps well clear of the `i64` range ends.
pub proof fn lemma_px_round_bound(n: int)
    requires
        i64::MIN <= n <= i64::MAX,
    ensures
        -0x4000_0000_0000_0000 <= px_round(n) <= 0x4000_0000_0000_0000,
{
    if n >= 0 {
        assert((n + 500) / 1000 <= n) by (nonlinear_arith)
            requires
                n >= 0,
        ;
    } else {
        assert(((-n) + 500) / 1000 <= -n) by (nonlinear_arith)
            requires
                -n > 0,
        ;
    }
}

/// Scaled raster extent: `scaled_dim` made executable.
pub fn dim_px(w: u32, s: i64) -> (r: u32)
    ensures
        r == scaled_dim(w as int, s as int),
{
    proof {
        assert((w as int) * (s as int) <= 0x1_0000_0000 * 0x8000_0000_0000_0000
            && (w as int) * (s as int) >= -(0x1_0000_0000 * 0x8000_0000_0000_0000))
            by (nonlinear_arith)
            requires
                0 <= (w as int),
                (w as int) < 0x1_0000_0000,
                -0x8000_0000_0000_0000 <= (s as int),
                (s as int) <= 0x7fff_ffff_ffff_ffff,
        ;
    }
    let p: i128 = (w as i128) * (s as i128);
    let q: i128 = rdiv_one_i128(p);
    if q < 0 {
        0
    } else if q > MAX_DIM as i128 {
        MAX_DIM
    } else {
        q as u32
    }
}

} // verus!
