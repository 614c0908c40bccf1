//! Three-component fixed-point vectors and rays.
//!
//! `Vec3` doubles as a point and as a linear color, as the aliases say.
//! Every operation is pinned to a spec-level mirror over the saturating
//! fixed-point arithmetic of `fixed`.

use vstd::prelude::*;

use crate::fixed::{
    fx_add, fx_clip, fx_diff, fx_div, fx_div_int, fx_minus, fx_mul, fx_neg, fx_prod, fx_quot,
    fx_quot_int, fx_sqrt, fx_sqrt_spec, fx_sub, fx_sum, is_fx_sqrt, lemma_clip_mag, s_abs, tdiv,
    FX_MAX, SCALE,
};

verus! {

/// Components whose magnitude stays below this are treated as zero:
/// their fixed-point square already truncates to nothing.
pub const NEAR_EPS: i64 = 256;

/// Largest component magnitude (2^37) a direction may have before it is
/// scaled to unit length; far beyond any value the scattering code builds.
pub const DIR_MAX: i64 = 137438953472;

#[derive(Clone, Copy, Debug, PartialEq, Eq, Structural)]
pub struct Vec3 {
    pub x: i64,
    pub y: i64,
    pub z: i64,
}

pub type Point3 = Vec3;

pub type Color = Vec3;

pub open spec fn vsum3(a: Vec3, b: Vec3) -> Vec3 {
    Vec3 { x: fx_sum(a.x as int, b.x as int) as i64,
           y: fx_sum(a.y as int, b.y as int) as i64,
           z: fx_sum(a.z as int, b.z as int) as i64 }
}

pub open spec fn vdiff3(a: Vec3, b: Vec3) -> Vec3 {
    Vec3 { x: fx_diff(a.x as int, b.x as int) as i64,
           y: fx_diff(a.y as int, b.y as int) as i64,
           z: fx_diff(a.z as int, b.z as int) as i64 }
}

pub open spec fn vneg3(a: Vec3) -> Vec3 {
    Vec3 { x: fx_minus(a.x as int) as i64,
           y: fx_minus(a.y as int) as i64,
           z: fx_minus(a.z as int) as i64 }
}

/// Componentwise (Hadamard) product, as colors multiply.
pub open spec fn vprod3(a: Vec3, b: Vec3) -> Vec3 {
    Vec3 { x: fx_prod(a.x as int, b.x as int) as i64,
           y: fx_prod(a.y as int, b.y as int) as i64,
           z: fx_prod(a.z as int, b.z as int) as i64 }
}

pub open spec fn vscale3(a: Vec3, s: int) -> Vec3 {
    Vec3 { x: fx_prod(a.x as int, s) as i64,
           y: fx_prod(a.y as int, s) as i64,
           z: fx_prod(a.z as int, s) as i64 }
}

pub open spec fn vdivs3(a: Vec3, s: int) -> Vec3 {
    Vec3 { x: fx_quot(a.x as int, s) as i64,
           y: fx_quot(a.y as int, s) as i64,
           z: fx_quot(a.z as int, s) as i64 }
}

/// Componentwise division by a plain integer count.
pub open spec fn vdivi3(a: Vec3, n: int) -> Vec3 {
    Vec3 { x: fx_quot_int(a.x as int, n) as i64,
           y: fx_quot_int(a.y as int, n) as i64,
           z: fx_quot_int(a.z as int, n) as i64 }
}

pub open spec fn dot3(a: Vec3, b: Vec3) -> int {
    fx_sum(fx_sum(fx_prod(a.x as int, b.x as int), fx_prod(a.y as int, b.y as int)),
           fx_prod(a.z as int, b.z as int))
}

pub open spec fn cross3(a: Vec3, b: Vec3) -> Vec3 {
    Vec3 { x: fx_diff(fx_prod(a.y as int, b.z as int), fx_prod(a.z as int, b.y as int)) as i64,
           y: fx_diff(fx_prod(a.z as int, b.x as int), fx_prod(a.x as int, b.z as int)) as i64,
           z: fx_diff(fx_prod(a.x as int, b.y as int), fx_prod(a.y as int, b.x as int)) as i64 }
}

pub open spec fn near_zero3(a: Vec3) -> bool {
    -NEAR_EPS < a.x < NEAR_EPS && -NEAR_EPS < a.y < NEAR_EPS && -NEAR_EPS < a.z < NEAR_EPS
}

/// Every component within `[-m, m]`.
pub open spec fn modest3(v: Vec3, m: int) -> bool {
    -m <= v.x <= m && -m <= v.y <= m && -m <= v.z <= m
}

/// What holds of the direction of every constructed ray: components no
/// larger than two units, and a squared length within twenty fixed-point
/// units of one.
pub open spec fn ray_ok(r: Ray) -> bool {
    modest3(r.dir, 2 * SCALE as int)
        && (SCALE as int) - 20 <= dot3(r.dir, r.dir) <= (SCALE as int) + 16
}

/// A unit-length direction sample: the shape every drawn scatter sample
/// has, and the bound the scatter contracts quantify over.
pub open spec fn unit_sample(u: Vec3) -> bool {
    modest3(u, 2 * SCALE as int)
        && (SCALE as int) - 20 <= dot3(u, u) <= (SCALE as int) + 16
}

/// A direction whose squared length truncates below one unit is scaled
/// up by 2^8 before normalization -- the direction is unchanged, and the
/// longer vector normalizes to full precision.
pub open spec fn boost3(d: Vec3) -> Vec3 {
    if dot3(d, d) < SCALE as int {
        vscale3(d, 16777216)
    } else {
        d
    }
}

/// The vector scaled to unit length: each component divided by the
/// fixed-point length. Meaningful only when `dot3(v, v) > 0`.
pub open spec fn unitize3(v: Vec3) -> Vec3 {
    vdivs3(v, fx_sqrt_spec(dot3(v, v)))
}

/// Mirror reflection of `v` about `n`: v - 2 (v . n) n.
pub open spec fn reflect3(v: Vec3, n: Vec3) -> Vec3 {
    vdiff3(v, vscale3(n, fx_sum(dot3(v, n), dot3(v, n))))
}

/// Snell refraction of unit `v` at unit normal `n` with the given index
/// ratio, built exactly as the executable code builds it.
pub open spec fn refract3(v: Vec3, n: Vec3, ratio: int) -> Vec3 {
    let cos_theta = if dot3(vneg3(v), n) >= SCALE as int { SCALE as int } else { dot3(vneg3(v), n) };
    let r_out_perp = vscale3(vsum3(v, vscale3(n, cos_theta)), ratio);
    let k = fx_diff(SCALE as int, dot3(r_out_perp, r_out_perp));
    let ka = if k >= 0 { k } else { fx_minus(k) };
    let r_out_parallel = vscale3(n, fx_minus(fx_sqrt_spec(ka)));
    vsum3(r_out_perp, r_out_parallel)
}

proof fn lemma_square_nonneg(a: int) by (nonlinear_arith)
    ensures a * a >= 0,
{
}

pub proof fn lemma_prod_self_nonneg(a: int)
    ensures fx_prod(a, a) >= 0,
{
    lemma_square_nonneg(a);
}

pub proof fn lemma_dot_self_nonneg(v: Vec3)
    ensures dot3(v, v) >= 0,
{
    lemma_prod_self_nonneg(v.x as int);
    lemma_prod_self_nonneg(v.y as int);
    lemma_prod_self_nonneg(v.z as int);
}

impl Vec3 {
    pub fn new(e0: i64, e1: i64, e2: i64) -> (r: Vec3)
        ensures
            r == (Vec3 { x: e0, y: e1, z: e2 }),
    {
        Vec3 { x: e0, y: e1, z: e2 }
    }

    pub fn x(&self) -> (r: i64)
        ensures r == self.x,
    {
        self.x
    }

    pub fn y(&self) -> (r: i64)
        ensures r == self.y,
    {
        self.y
    }

    pub fn z(&self) -> (r: i64)
        ensures r == self.z,
    {
        self.z
    }

    pub fn vadd(&self, v: &Vec3) -> (r: Vec3)
        ensures r == vsum3(*self, *v),
    {
        Vec3 { x: fx_add(self.x, v.x), y: fx_add(self.y, v.y), z: fx_add(self.z, v.z) }
    }

    pub fn vsub(&self, v: &Vec3) -> (r: Vec3)
        ensures r == vdiff3(*self, *v),
    {
        Vec3 { x: fx_sub(self.x, v.x), y: fx_sub(self.y, v.y), z: fx_sub(self.z, v.z) }
    }

    pub fn vneg(&self) -> (r: Vec3)
        ensures r == vneg3(*self),
    {
        Vec3 { x: fx_neg(self.x), y: fx_neg(self.y), z: fx_neg(self.z) }
    }

    /// Componentwise product, the attenuation product on colors.
    pub fn vmul(&self, v: &Vec3) -> (r: Vec3)
        ensures r == vprod3(*self, *v),
    {
        Vec3 { x: fx_mul(self.x, v.x), y: fx_mul(self.y, v.y), z: fx_mul(self.z, v.z) }
    }

    pub fn scale(&self, s: i64) -> (r: Vec3)
        ensures r == vscale3(*self, s as int),
    {
        Vec3 { x: fx_mul(self.x, s), y: fx_mul(self.y, s), z: fx_mul(self.z, s) }
    }

    pub fn div_scalar(&self, s: i64) -> (r: Vec3)
        requires s != 0,
        ensures r == vdivs3(*self, s as int),
    {
        Vec3 { x: fx_div(self.x, s), y: fx_div(self.y, s), z: fx_div(self.z, s) }
    }

    pub fn div_int(&self, n: i64) -> (r: Vec3)
        requires n > 0,
        ensures r == vdivi3(*self, n as int),
    {
        Vec3 { x: fx_div_int(self.x, n), y: fx_div_int(self.y, n), z: fx_div_int(self.z, n) }
    }

    pub fn dot(&self, v: &Vec3) -> (r: i64)
        ensures r as int == dot3(*self, *v),
    {
        fx_add(fx_add(fx_mul(self.x, v.x), fx_mul(self.y, v.y)), fx_mul(self.z, v.z))
    }

    pub fn cross(&self, v: &Vec3) -> (r: Vec3)
        ensures r == cross3(*self, *v),
    {
        Vec3 {
            x: fx_sub(fx_mul(self.y, v.z), fx_mul(self.z, v.y)),
            y: fx_sub(fx_mul(self.z, v.x), fx_mul(self.x, v.z)),
            z: fx_sub(fx_mul(self.x, v.y), fx_mul(self.y, v.x)),
        }
    }

    pub fn length_squared(&self) -> (r: i64)
        ensures r as int == dot3(*self, *self), r >= 0,
    {
        proof { lemma_dot_self_nonneg(*self); }
        self.dot(self)
    }

    pub fn length(&self) -> (r: i64)
        ensures r as int == fx_sqrt_spec(dot3(*self, *self)), r >= 0,
    {
        let lsq = self.length_squared();
        fx_sqrt(lsq)
    }

    /// The vector scaled to unit length. For inputs of at least unit
    /// length the result's squared length stays within twenty units of
    /// one; a shorter input loses precision to the truncated squared
    /// length, which is why ray construction pre-scales such inputs.
    pub fn as_unit_vector(&self) -> (r: Vec3)
        requires dot3(*self, *self) > 0,
        ensures
            r == unitize3(*self),
            is_fx_sqrt(dot3(*self, *self), fx_sqrt_spec(dot3(*self, *self))),
            (modest3(*self, DIR_MAX as int) && SCALE as int <= dot3(*self, *self))
                ==> (SCALE as int) - 20 <= dot3(r, r) <= (SCALE as int) + 16,
    {
        let lsq = self.length_squared();
        let len = fx_sqrt(lsq);
        proof {
            assert(lsq as int * (SCALE as int) >= SCALE as int) by (nonlinear_arith)
                requires lsq >= 1;
            assert(len >= 1);
            if modest3(*self, DIR_MAX as int) && SCALE as int <= dot3(*self, *self) {
                lemma_unit_length_tolerance(*self, len as int);
            }
        }
        self.div_scalar(len)
    }

    pub fn normalize(&mut self)
        requires dot3(*old(self), *old(self)) > 0,
        ensures
            *final(self) == unitize3(*old(self)),
            (modest3(*old(self), DIR_MAX as int) && SCALE as int <= dot3(*old(self), *old(self)))
                ==> (SCALE as int) - 20 <= dot3(*final(self), *final(self)) <= (SCALE as int) + 16,
    {
        *self = self.as_unit_vector();
    }

    pub fn is_near_zero(&self) -> (r: bool)
        ensures r == near_zero3(*self),
    {
        -NEAR_EPS < self.x && self.x < NEAR_EPS && -NEAR_EPS < self.y && self.y < NEAR_EPS
            && -NEAR_EPS < self.z && self.z < NEAR_EPS
    }

    /// One display channel: the accumulated value divided by the sample
    /// count, clamped into [0, 1], gamma-corrected by a square root, and
    /// spread over the 8-bit range.
    pub fn as_u8_color(&self, samples: u32) -> (rgb: (u8, u8, u8))
        requires samples >= 1,
        ensures
            rgb.0 as int == channel8(self.x as int, samples as int),
            rgb.1 as int == channel8(self.y as int, samples as int),
            rgb.2 as int == channel8(self.z as int, samples as int),
    {
        (channel_byte(self.x, samples), channel_byte(self.y, samples), channel_byte(self.z, samples))
    }

    pub fn reflect(&self, normal: &Vec3) -> (r: Vec3)
        ensures r == reflect3(*self, *normal),
    {
        let d = self.dot(normal);
        self.vsub(&normal.scale(fx_add(d, d)))
    }

    pub fn refract(&self, normal: &Vec3, refraction_ratio: i64) -> (r: Vec3)
        ensures r == refract3(*self, *normal, refraction_ratio as int),
    {
        let mut cos_theta = self.vneg().dot(normal);
        if cos_theta >= SCALE {
            cos_theta = SCALE;
        }
        let r_out_perp = self.vadd(&normal.scale(cos_theta)).scale(refraction_ratio);
        let k = fx_sub(SCALE, r_out_perp.dot(&r_out_perp));
        let ka = if k >= 0 { k } else { fx_neg(k) };
        let r_out_parallel = normal.scale(fx_neg(fx_sqrt(ka)));
        r_out_perp.vadd(&r_out_parallel)
    }

    /// One component drawn in `[min, max)` for each axis.
    pub fn rand(min: i64, max: i64) -> (r: Vec3)
        requires min < max,
        ensures
            min <= r.x < max,
            min <= r.y < max,
            min <= r.z < max,
    {
        Vec3 { x: rand_range(min, max), y: rand_range(min, max), z: rand_range(min, max) }
    }

    /// A point strictly inside the unit disk in the z = 0 plane, by
    /// rejection sampling with a bounded number of draws; the center
    /// serves as the fallback when every draw lands outside.
    pub fn rand_in_unit_disk() -> (r: Vec3)
        ensures
            0 <= dot3(r, r) < SCALE as int,
            r.z == 0,
            -SCALE <= r.x <= SCALE,
            -SCALE <= r.y <= SCALE,
    {
        let mut i: u32 = 0;
        while i < 64
            invariant i <= 64,
            decreases 64 - i,
        {
            let p = Vec3 { x: rand_range(-SCALE, SCALE), y: rand_range(-SCALE, SCALE), z: 0 };
            let lsq = p.length_squared();
            if lsq < SCALE {
                return p;
            }
            i = i + 1;
        }
        Vec3 { x: 0, y: 0, z: 0 }
    }

    /// A point strictly inside the unit sphere, never so small that its
    /// fixed-point squared length truncates to zero, by bounded rejection
    /// sampling with a fixed in-sphere fallback.
    pub fn rand_in_unit_sphere() -> (r: Vec3)
        ensures
            1 <= dot3(r, r) < SCALE as int,
            -SCALE <= r.x <= SCALE,
            -SCALE <= r.y <= SCALE,
            -SCALE <= r.z <= SCALE,
    {
        let mut i: u32 = 0;
        while i < 64
            invariant i <= 64,
            decreases 64 - i,
        {
            let p = Vec3::rand(-SCALE, SCALE);
            let lsq = p.length_squared();
            if 1 <= lsq && lsq < SCALE {
                return p;
            }
            i = i + 1;
        }
        proof {
            assert(32768int * 32768 == 1073741824) by (nonlinear_arith);
            assert(1073741824int / 65536 == 16384) by (nonlinear_arith);
        }
        Vec3 { x: 32768, y: 0, z: 0 }
    }

    /// A unit-length direction: a sphere sample, scaled up to full
    /// precision and then to unit length.
    pub fn rand_unit_vector() -> (r: Vec3)
        ensures
            !near_zero3(r),
            unit_sample(r),
            exists|p: Vec3|
                1 <= dot3(p, p) < SCALE as int && r == unitize3(#[trigger] vscale3(p, 16777216)),
    {
        let p = Vec3::rand_in_unit_sphere();
        let b = p.scale(16777216);
        proof {
            lemma_boost_dot(p);
        }
        let r = b.as_unit_vector();
        proof {
            lemma_unitize_props(b, fx_sqrt_spec(dot3(b, b)));
            lemma_unit_length_tolerance(b, fx_sqrt_spec(dot3(b, b)));
            assert(1 <= dot3(p, p) < SCALE as int && r == unitize3(vscale3(p, 16777216)));
        }
        r
    }
}

/// Relies on rand::random::<u64>: one word from the thread-local
/// generator. Nothing can be promised of the value, so nothing is;
/// callers state what holds of every outcome.
#[verifier::external_body]
fn rand_word() -> u64 {
    rand::random::<u64>()
}

fn rand_range(min: i64, max: i64) -> (r: i64)
    requires min < max,
    ensures min <= r < max,
{
    let span: u64 = ((max as i128) - (min as i128)) as u64;
    let w: u64 = rand_word() % span;
    ((min as i128) + (w as i128)) as i64
}

/// The 8-bit value of one accumulated color channel: average, clamp,
/// square root, and scale to 255.
pub open spec fn channel8(c: int, samples: int) -> int {
    let avg = fx_quot_int(c, samples);
    let cl = if avg < 0 { 0 } else if avg > SCALE as int { SCALE as int } else { avg };
    tdiv(fx_sqrt_spec(cl) * 255, SCALE as int)
}

fn channel_byte(c: i64, samples: u32) -> (r: u8)
    requires samples >= 1,
    ensures r as int == channel8(c as int, samples as int),
{
    let avg = fx_div_int(c, samples as i64);
    let cl: i64 = if avg < 0 { 0 } else if avg > SCALE { SCALE } else { avg };
    let s = fx_sqrt(cl);
    proof {
        assert(s <= 65536) by (nonlinear_arith)
            requires (s as int) * (s as int) <= (cl as int) * 65536, cl <= 65536, s >= 0;
        vstd::arithmetic::div_mod::lemma_div_is_ordered(s as int * 255, 65536int * 255, 65536);
        vstd::arithmetic::div_mod::lemma_div_pos_is_pos(s as int * 255, 65536);
        assert(65536int * 255 / 65536 == 255) by (nonlinear_arith);
    }
    let b = ((s as u64) * 255u64) / 65536u64;
    b as u8
}

/// A fraction drawn in [0, 1).
pub fn rand_fraction() -> (r: i64)
    ensures 0 <= r < SCALE,
{
    rand_range(0, SCALE)
}

/// Negating the right argument negates a fixed-point dot product, under
/// the same range condition.
pub proof fn lemma_dot_neg_right(a: Vec3, b: Vec3)
    requires modest3(b, FX_MAX as int),
    ensures dot3(a, vneg3(b)) == -dot3(a, b),
{
    lemma_neg_flip_r(a.x as int, b.x as int);
    lemma_neg_flip_r(a.y as int, b.y as int);
    lemma_neg_flip_r(a.z as int, b.z as int);
}

proof fn lemma_neg_flip_r(x: int, y: int)
    requires -(FX_MAX as int) <= y <= FX_MAX as int,
    ensures fx_prod(x, fx_minus(y)) == -fx_prod(x, y),
{
    assert(x * (-y) == -(x * y)) by (nonlinear_arith);
    let p = x * y;
    assert(tdiv(-p, SCALE as int) == -tdiv(p, SCALE as int));
}

/// A dot product of componentwise-bounded vectors is bounded by three
/// times the bound on one term.
pub proof fn lemma_dot_bound(a: Vec3, b: Vec3, m: int, n: int)
    requires
        modest3(a, m),
        modest3(b, n),
        0 <= m,
        0 <= n,
    ensures
        s_abs(dot3(a, b)) <= 3 * ((m * n) / (SCALE as int)),
{
    crate::fixed::lemma_fx_prod_le(a.x as int, b.x as int, m, n);
    crate::fixed::lemma_fx_prod_le(a.y as int, b.y as int, m, n);
    crate::fixed::lemma_fx_prod_le(a.z as int, b.z as int, m, n);
    crate::fixed::lemma_fx_sum_le(fx_prod(a.x as int, b.x as int), fx_prod(a.y as int, b.y as int));
    crate::fixed::lemma_fx_sum_le(
        fx_sum(fx_prod(a.x as int, b.x as int), fx_prod(a.y as int, b.y as int)),
        fx_prod(a.z as int, b.z as int),
    );
    vstd::arithmetic::div_mod::lemma_div_pos_is_pos(m * n, SCALE as int);
}

/// Multiplying by one is exact.
pub proof fn lemma_prod_by_one(a: int)
    requires -(FX_MAX as int) <= a <= FX_MAX as int,
    ensures fx_prod(a, SCALE as int) == a,
{
    vstd::arithmetic::div_mod::lemma_div_multiples_vanish(s_abs(a), 65536);
    assert(s_abs(a * 65536) == s_abs(a) * 65536);
    assert(s_abs(a) * 65536 == 65536 * s_abs(a)) by (nonlinear_arith);
}

/// A unit refraction ratio bends nothing: a ray striking the surface
/// head on leaves the interface with its direction unchanged.
pub proof fn lemma_unit_ratio_head_on(n: Vec3)
    requires
        modest3(n, FX_MAX as int),
        SCALE as int <= dot3(n, n),
    ensures
        refract3(vneg3(n), n, SCALE as int) == vneg3(n),
{
    let v = vneg3(n);
    assert(vneg3(v) == n);
    assert(dot3(vneg3(v), n) >= SCALE as int);
    lemma_prod_by_one(n.x as int);
    lemma_prod_by_one(n.y as int);
    lemma_prod_by_one(n.z as int);
    assert(vscale3(n, SCALE as int) == n);
    let mid = vsum3(v, n);
    assert(mid == (Vec3 { x: 0i64, y: 0i64, z: 0i64 }));
    lemma_prod_by_one(0);
    assert(vscale3(mid, SCALE as int) == mid);
    assert(dot3(mid, mid) == 0);
    assert(fx_diff(SCALE as int, 0) == SCALE as int);
    assert(is_fx_sqrt(SCALE as int, SCALE as int)) by {
        assert(65536int * 65536 <= 65536 * 65536) by (nonlinear_arith);
        assert(65536int * 65536 < 65537 * 65537) by (nonlinear_arith);
    }
    crate::fixed::lemma_fx_sqrt_spec_is(SCALE as int, SCALE as int);
    lemma_neg_flip_r(n.x as int, SCALE as int);
    lemma_neg_flip_r(n.y as int, SCALE as int);
    lemma_neg_flip_r(n.z as int, SCALE as int);
    assert(vscale3(n, fx_minus(SCALE as int)) == v);
    assert(vsum3(mid, v) == v);
}

proof fn lemma_big_comp_term(a: int)
    requires a >= 256 || a <= -256,
    ensures fx_prod(a, a) >= 1,
{
    assert(65536 <= a * a) by (nonlinear_arith)
        requires a >= 256 || a <= -256;
    vstd::arithmetic::div_mod::lemma_div_is_ordered(65536, a * a, 65536);
    assert(65536int / 65536 == 1) by (nonlinear_arith);
}

/// A vector that is not near zero has a positive fixed-point squared
/// length, so it can be scaled to unit length.
pub proof fn lemma_not_near_zero_dot_pos(v: Vec3)
    requires !near_zero3(v),
    ensures dot3(v, v) >= 1,
{
    lemma_prod_self_nonneg(v.x as int);
    lemma_prod_self_nonneg(v.y as int);
    lemma_prod_self_nonneg(v.z as int);
    if v.x >= NEAR_EPS || v.x <= -NEAR_EPS {
        lemma_big_comp_term(v.x as int);
    } else if v.y >= NEAR_EPS || v.y <= -NEAR_EPS {
        lemma_big_comp_term(v.y as int);
    } else {
        lemma_big_comp_term(v.z as int);
    }
}

/// Negating the left argument negates a fixed-point dot product, as long
/// as no component sits outside the representable range.
pub proof fn lemma_dot_neg_left(a: Vec3, b: Vec3)
    requires modest3(a, FX_MAX as int),
    ensures dot3(vneg3(a), b) == -dot3(a, b),
{
    lemma_neg_flip(a.x as int, b.x as int);
    lemma_neg_flip(a.y as int, b.y as int);
    lemma_neg_flip(a.z as int, b.z as int);
}

proof fn lemma_neg_flip(x: int, y: int)
    requires -(FX_MAX as int) <= x <= FX_MAX as int,
    ensures fx_prod(fx_minus(x), y) == -fx_prod(x, y),
{
    assert((-x) * y == -(x * y)) by (nonlinear_arith);
    let p = x * y;
    assert(tdiv(-p, SCALE as int) == -tdiv(p, SCALE as int));
}

proof fn lemma_sq_term(a: int)
    requires -137438953472 <= a <= 137438953472,
    ensures
        0 <= fx_prod(a, a) <= 288230376151711744,
        fx_prod(a, a) == (a * a) / 65536,
        fx_prod(a, a) * 65536 <= a * a,
        a * a < (fx_prod(a, a) + 1) * 65536,
{
    lemma_square_nonneg(a);
    crate::fixed::lemma_mul_range(a, a, 137438953472, 137438953472);
    assert(137438953472int * 137438953472 == 18889465931478580854784) by (nonlinear_arith);
    let p = a * a;
    vstd::arithmetic::div_mod::lemma_div_is_ordered(p, 18889465931478580854784, 65536);
    vstd::arithmetic::div_mod::lemma_div_pos_is_pos(p, 65536);
    assert(18889465931478580854784int / 65536 == 288230376151711744) by (nonlinear_arith);
    vstd::arithmetic::div_mod::lemma_fundamental_div_mod(p, 65536);
}

/// For a vector of modest components the squared length is the plain sum
/// of the component squares: nothing saturates.
proof fn lemma_dot_modest_terms(v: Vec3)
    requires modest3(v, 137438953472),
    ensures
        dot3(v, v) == fx_prod(v.x as int, v.x as int) + fx_prod(v.y as int, v.y as int)
            + fx_prod(v.z as int, v.z as int),
{
    lemma_sq_term(v.x as int);
    lemma_sq_term(v.y as int);
    lemma_sq_term(v.z as int);
}

proof fn lemma_div_comp_small(a: int, len: int, ll: int)
    requires
        -137438953472 <= a <= 137438953472,
        1 <= ll,
        fx_prod(a, a) <= ll,
        len * len <= ll * 65536,
        ll * 65536 < (len + 1) * (len + 1),
        256 <= len,
    ensures
        -131072 <= fx_quot(a, len) <= 131072,
{
    lemma_sq_term(a);
    assert(a * a < 2 * (ll * 65536));
    assert(2 * ((len + 1) * (len + 1)) <= 3 * (len * len)) by (nonlinear_arith)
        requires len >= 256;
    assert(a * a < 4 * (len * len));
    let m = s_abs(a);
    if a >= 0 {
        assert(m * m == a * a);
    } else {
        assert((-a) * (-a) == a * a) by (nonlinear_arith);
    }
    assert(m < 2 * len) by (nonlinear_arith)
        requires m * m < 4 * (len * len), 0 <= m, 0 <= len;
    assert(m * 65536 <= 131072 * len);
    vstd::arithmetic::div_mod::lemma_div_is_ordered(m * 65536, 131072 * len, len);
    vstd::arithmetic::div_mod::lemma_div_multiples_vanish(131072, len);
    vstd::arithmetic::div_mod::lemma_div_pos_is_pos(m * 65536, len);
    assert(s_abs(a * 65536) == m * 65536);
    lemma_clip_mag(tdiv(a * 65536, len));
}

proof fn lemma_div_comp_big(a: int, len: int, ll: int)
    requires
        -137438953472 <= a <= 137438953472,
        1 <= fx_prod(a, a),
        ll <= 3 * fx_prod(a, a),
        len * len <= ll * 65536,
        256 <= len,
    ensures
        fx_quot(a, len) >= 32768 || fx_quot(a, len) <= -32768,
{
    lemma_sq_term(a);
    assert(len * len < 4 * (a * a));
    let m = s_abs(a);
    if a >= 0 {
        assert(m * m == a * a);
    } else {
        assert((-a) * (-a) == a * a) by (nonlinear_arith);
    }
    assert(len < 2 * m) by (nonlinear_arith)
        requires len * len < 4 * (m * m), 0 <= len, 0 <= m;
    assert(32768 * len < m * 65536);
    vstd::arithmetic::div_mod::lemma_div_multiples_vanish(32768, len);
    vstd::arithmetic::div_mod::lemma_div_is_ordered(32768 * len, m * 65536, len);
    assert(s_abs(a * 65536) == m * 65536);
    assert((m * 65536) / len >= 32768);
}

/// Scaling a vector of modest components and positive squared length to
/// unit length gives a direction whose components stay within two units
/// and whose squared length does not truncate away.
pub proof fn lemma_unitize_props(v: Vec3, len: int)
    requires
        modest3(v, 137438953472),
        1 <= dot3(v, v),
        is_fx_sqrt(dot3(v, v), len),
    ensures
        unitize3(v) == vdivs3(v, len),
        modest3(unitize3(v), 2 * SCALE as int),
        !near_zero3(unitize3(v)),
        1 <= dot3(unitize3(v), unitize3(v)),
{
    crate::fixed::lemma_fx_sqrt_spec_is(dot3(v, v), len);
    let ll = dot3(v, v);
    lemma_dot_modest_terms(v);
    lemma_sq_term(v.x as int);
    lemma_sq_term(v.y as int);
    lemma_sq_term(v.z as int);
    assert(ll * 65536 >= 65536) by (nonlinear_arith)
        requires ll >= 1;
    assert(len >= 256) by {
        if len < 256 {
            assert((len + 1) * (len + 1) <= 65536) by (nonlinear_arith)
                requires 0 <= len <= 255;
        }
    }
    lemma_div_comp_small(v.x as int, len, ll);
    lemma_div_comp_small(v.y as int, len, ll);
    lemma_div_comp_small(v.z as int, len, ll);
    let tx = fx_prod(v.x as int, v.x as int);
    let ty = fx_prod(v.y as int, v.y as int);
    let tz = fx_prod(v.z as int, v.z as int);
    if tx >= ty && tx >= tz {
        lemma_div_comp_big(v.x as int, len, ll);
    } else if ty >= tz {
        lemma_div_comp_big(v.y as int, len, ll);
    } else {
        lemma_div_comp_big(v.z as int, len, ll);
    }
    lemma_not_near_zero_dot_pos(vdivs3(v, len));
}


proof fn lemma_sq_le(x: int, y: int) by (nonlinear_arith)
    requires 0 <= x <= y,
    ensures x * x <= y * y,
{
}

proof fn lemma_sq_lt(x: int, y: int) by (nonlinear_arith)
    requires 0 <= x < y,
    ensures x * x < y * y,
{
}

proof fn lemma_abs_sq(a: int)
    ensures s_abs(a) * s_abs(a) == a * a,
{
    if a < 0 {
        assert((-a) * (-a) == a * a) by (nonlinear_arith);
    }
}

proof fn lemma_abs_lt_twice(a: int, len: int)
    requires
        a * a < 4 * (len * len),
        0 <= len,
    ensures
        s_abs(a) < 2 * len,
{
    assert(-(2 * len) < a < 2 * len) by (nonlinear_arith)
        requires a * a < 4 * (len * len), 0 <= len;
}

/// One component of a unit-scaled vector: the truncated quotient with
/// its division remainder facts and its bound of two units.
proof fn lemma_comp_quot(a: int, len: int)
    requires
        1 <= len,
        s_abs(a) < 2 * len,
    ensures
        s_abs(fx_quot(a, len)) * len <= s_abs(a) * 65536,
        s_abs(a) * 65536 < (s_abs(fx_quot(a, len)) + 1) * len,
        0 <= s_abs(fx_quot(a, len)) <= 131072,
        fx_quot(a, len) * fx_quot(a, len) == s_abs(fx_quot(a, len)) * s_abs(fx_quot(a, len)),
{
    let m = s_abs(a);
    let q = (m * 65536) / len;
    let r = (m * 65536) % len;
    vstd::arithmetic::div_mod::lemma_fundamental_div_mod(m * 65536, len);
    vstd::arithmetic::div_mod::lemma_div_pos_is_pos(m * 65536, len);
    assert(m * 65536 == len * q + r && 0 <= r < len);
    assert(len * q == q * len) by (nonlinear_arith);
    assert(len * q + len == (q + 1) * len) by (nonlinear_arith);
    assert(q * len <= m * 65536 < (q + 1) * len);
    assert(m * 65536 <= 131072 * len - 65536);
    vstd::arithmetic::div_mod::lemma_div_is_ordered(m * 65536, 131072 * len, len);
    vstd::arithmetic::div_mod::lemma_div_multiples_vanish(131072, len);
    assert(q <= 131072);
    assert(s_abs(a * 65536) == m * 65536);
    assert(tdiv(a * 65536, len) == if a >= 0 { q } else { -q });
    assert(fx_quot(a, len) == if a >= 0 { q } else { -q });
    assert((-q) * (-q) == q * q) by (nonlinear_arith);
}

/// The unit-length guarantee behind ray construction: scaling a vector
/// of at least unit length by its own fixed-point length leaves a
/// squared length within twenty units of one.
pub proof fn lemma_unit_length_tolerance(v: Vec3, len: int)
    requires
        modest3(v, DIR_MAX as int),
        SCALE as int <= dot3(v, v),
        is_fx_sqrt(dot3(v, v), len),
    ensures
        (SCALE as int) - 20 <= dot3(unitize3(v), unitize3(v)),
        dot3(unitize3(v), unitize3(v)) <= (SCALE as int) + 16,
{
    crate::fixed::lemma_fx_sqrt_spec_is(dot3(v, v), len);
    let ll = dot3(v, v);
    lemma_dot_modest_terms(v);
    lemma_sq_term(v.x as int);
    lemma_sq_term(v.y as int);
    lemma_sq_term(v.z as int);
    let sv = v.x as int * v.x + v.y as int * v.y + v.z as int * v.z;
    assert(ll * 65536 <= sv <= (ll + 3) * 65536);
    // len is at least one unit and len^2 brackets ll * 65536
    assert(ll * 65536 >= 65536 * 65536) by (nonlinear_arith)
        requires ll >= 65536;
    assert(len >= 65536) by {
        if len < 65536 {
            lemma_sq_le(len + 1, 65536);
        }
    }
    assert(len * len <= ll * 65536);
    assert((len + 1) * (len + 1) == len * len + 2 * len + 1) by (nonlinear_arith);
    assert(len * len >= ll * 65536 - 2 * len);
    // each component is shorter than twice the length
    assert(2 * ((len + 1) * (len + 1)) <= 4 * (len * len)) by (nonlinear_arith)
        requires len >= 3;
    assert(v.x as int * v.x < 4 * (len * len) && v.y as int * v.y < 4 * (len * len)
        && v.z as int * v.z < 4 * (len * len));
    lemma_abs_lt_twice(v.x as int, len);
    lemma_abs_lt_twice(v.y as int, len);
    lemma_abs_lt_twice(v.z as int, len);
    lemma_comp_quot(v.x as int, len);
    lemma_comp_quot(v.y as int, len);
    lemma_comp_quot(v.z as int, len);
    let q1 = s_abs(fx_quot(v.x as int, len));
    let q2 = s_abs(fx_quot(v.y as int, len));
    let q3 = s_abs(fx_quot(v.z as int, len));
    let m1 = s_abs(v.x as int);
    let m2 = s_abs(v.y as int);
    let m3 = s_abs(v.z as int);
    lemma_abs_sq(v.x as int);
    lemma_abs_sq(v.y as int);
    lemma_abs_sq(v.z as int);
    // squared division facts, per component
    lemma_sq_le(q1 * len, m1 * 65536);
    lemma_sq_le(q2 * len, m2 * 65536);
    lemma_sq_le(q3 * len, m3 * 65536);
    lemma_sq_lt(m1 * 65536, (q1 + 1) * len);
    lemma_sq_lt(m2 * 65536, (q2 + 1) * len);
    lemma_sq_lt(m3 * 65536, (q3 + 1) * len);
    let sq = q1 * q1 + q2 * q2 + q3 * q3;
    // rearrange the squared products into comparable shapes
    assert((q1 * len) * (q1 * len) == (q1 * q1) * (len * len)
        && (q2 * len) * (q2 * len) == (q2 * q2) * (len * len)
        && (q3 * len) * (q3 * len) == (q3 * q3) * (len * len)) by (nonlinear_arith);
    assert((m1 * 65536) * (m1 * 65536) == (m1 * m1) * (65536 * 65536)
        && (m2 * 65536) * (m2 * 65536) == (m2 * m2) * (65536 * 65536)
        && (m3 * 65536) * (m3 * 65536) == (m3 * m3) * (65536 * 65536)) by (nonlinear_arith);
    assert(((q1 + 1) * len) * ((q1 + 1) * len) == (q1 * q1 + 2 * q1 + 1) * (len * len)
        && ((q2 + 1) * len) * ((q2 + 1) * len) == (q2 * q2 + 2 * q2 + 1) * (len * len)
        && ((q3 + 1) * len) * ((q3 + 1) * len) == (q3 * q3 + 2 * q3 + 1) * (len * len))
        by (nonlinear_arith);
    assert(sq * (len * len) <= sv * (65536 * 65536)) by (nonlinear_arith)
        requires
            (q1 * q1) * (len * len) <= (m1 * m1) * (65536 * 65536),
            (q2 * q2) * (len * len) <= (m2 * m2) * (65536 * 65536),
            (q3 * q3) * (len * len) <= (m3 * m3) * (65536 * 65536),
            sq == q1 * q1 + q2 * q2 + q3 * q3,
            sv == m1 * m1 + m2 * m2 + m3 * m3;
    assert((sq + 2 * (q1 + q2 + q3) + 3) * (len * len) > sv * (65536 * 65536)) by (nonlinear_arith)
        requires
            (q1 * q1 + 2 * q1 + 1) * (len * len) > (m1 * m1) * (65536 * 65536),
            (q2 * q2 + 2 * q2 + 1) * (len * len) > (m2 * m2) * (65536 * 65536),
            (q3 * q3 + 2 * q3 + 1) * (len * len) > (m3 * m3) * (65536 * 65536),
            sq == q1 * q1 + q2 * q2 + q3 * q3,
            sv == m1 * m1 + m2 * m2 + m3 * m3;
    // upper bound: (S + 16) len^2 dominates (ll + 3) S^2
    assert(16 * (len * len) - 2 * 65536 * len >= 3 * (65536 * 65536)) by (nonlinear_arith)
        requires len >= 65536;
    assert(65536 * (len * len) >= 65536 * (ll * 65536) - 65536 * (2 * len)) by (nonlinear_arith)
        requires len * len >= ll * 65536 - 2 * len;
    assert(65536 * (ll * 65536) == ll * (65536 * 65536)) by (nonlinear_arith);
    assert((65536 + 16) * (len * len) == 65536 * (len * len) + 16 * (len * len))
        by (nonlinear_arith);
    assert((65536 + 16) * (len * len) >= (ll + 3) * (65536 * 65536)) by (nonlinear_arith)
        requires
            65536 * (len * len) >= ll * (65536 * 65536) - 65536 * (2 * len),
            16 * (len * len) - 2 * 65536 * len >= 3 * (65536 * 65536),
            (65536 + 16) * (len * len) == 65536 * (len * len) + 16 * (len * len);
    assert(sv * (65536 * 65536) <= ((ll + 3) * 65536) * (65536 * 65536)) by (nonlinear_arith)
        requires sv <= (ll + 3) * 65536;
    assert(((ll + 3) * 65536) * (65536 * 65536) == ((ll + 3) * (65536 * 65536)) * 65536)
        by (nonlinear_arith);
    assert(((ll + 3) * (65536 * 65536)) * 65536 <= ((65536 + 16) * (len * len)) * 65536)
        by (nonlinear_arith)
        requires (ll + 3) * (65536 * 65536) <= (65536 + 16) * (len * len);
    assert(((65536 + 16) * (len * len)) * 65536 == ((65536 + 16) * 65536) * (len * len))
        by (nonlinear_arith);
    assert(sq * (len * len) <= ((65536 + 16) * 65536) * (len * len));
    assert(sq <= (65536 + 16) * 65536) by (nonlinear_arith)
        requires
            sq * (len * len) <= ((65536 + 16) * 65536) * (len * len),
            len * len > 0;
    // lower bound: ((S - 16) S + 2 Q + 3) len^2 stays under ll S^3
    let qq = 2 * (q1 + q2 + q3) + 3;
    assert(qq <= 6 * 131072 + 3);
    assert(((65536 - 16) * 65536 + qq) * (len * len) <= (65536 * 65536) * (len * len))
        by (nonlinear_arith)
        requires qq <= 6 * 131072 + 3, len * len >= 0;
    assert((65536 * 65536) * (len * len) <= (65536 * 65536) * (ll * 65536)) by (nonlinear_arith)
        requires len * len <= ll * 65536;
    assert((65536 * 65536) * (ll * 65536) == (ll * 65536) * (65536 * 65536)) by (nonlinear_arith);
    assert((ll * 65536) * (65536 * 65536) <= sv * (65536 * 65536)) by (nonlinear_arith)
        requires ll * 65536 <= sv;
    assert((sq + qq) * (len * len) == sq * (len * len) + qq * (len * len)) by (nonlinear_arith);
    assert(((65536 - 16) * 65536 + qq) * (len * len)
        == ((65536 - 16) * 65536) * (len * len) + qq * (len * len)) by (nonlinear_arith);
    assert(sq * (len * len) > ((65536 - 16) * 65536) * (len * len));
    assert(sq > (65536 - 16) * 65536) by (nonlinear_arith)
        requires
            sq * (len * len) > ((65536 - 16) * 65536) * (len * len),
            len * len > 0;
    // fold the quotient squares back into the fixed-point dot product
    let u = vdivs3(v, len);
    lemma_unitize_props(v, len);
    lemma_sq_term(u.x as int);
    lemma_sq_term(u.y as int);
    lemma_sq_term(u.z as int);
    lemma_dot_modest_terms(u);
    let t1 = fx_prod(u.x as int, u.x as int);
    let t2 = fx_prod(u.y as int, u.y as int);
    let t3 = fx_prod(u.z as int, u.z as int);
    assert(t1 == (q1 * q1) / 65536 && t2 == (q2 * q2) / 65536 && t3 == (q3 * q3) / 65536);
    assert(t1 * 65536 <= q1 * q1 && t2 * 65536 <= q2 * q2 && t3 * 65536 <= q3 * q3);
    assert(q1 * q1 < (t1 + 1) * 65536 && q2 * q2 < (t2 + 1) * 65536 && q3 * q3 < (t3 + 1) * 65536);
    assert(dot3(u, u) == t1 + t2 + t3);
    assert((t1 + t2 + t3) * 65536 <= sq);
    assert(sq < (t1 + t2 + t3 + 3) * 65536);
    assert(t1 + t2 + t3 <= 65536 + 16);
    assert(t1 + t2 + t3 > 65536 - 20);
}

/// Scaling a short direction by 2^8 is exact and lifts its squared
/// length to at least one unit.
proof fn lemma_boost_dot(v: Vec3)
    requires
        modest3(v, DIR_MAX as int),
        1 <= dot3(v, v) < SCALE as int,
    ensures
        modest3(vscale3(v, 16777216), DIR_MAX as int),
        SCALE as int <= dot3(vscale3(v, 16777216), vscale3(v, 16777216)),
{
    lemma_dot_modest_terms(v);
    lemma_sq_term(v.x as int);
    lemma_sq_term(v.y as int);
    lemma_sq_term(v.z as int);
    lemma_boost_comp(v.x as int, dot3(v, v));
    lemma_boost_comp(v.y as int, dot3(v, v));
    lemma_boost_comp(v.z as int, dot3(v, v));
    let b = vscale3(v, 16777216);
    lemma_dot_modest_terms(b);
    lemma_sq_term(b.x as int);
    lemma_sq_term(b.y as int);
    lemma_sq_term(b.z as int);
    assert(dot3(b, b) >= dot3(v, v) * 65536);
    assert(dot3(v, v) * 65536 >= 65536) by (nonlinear_arith)
        requires dot3(v, v) >= 1;
}

proof fn lemma_boost_comp(a: int, ll: int)
    requires
        fx_prod(a, a) <= ll,
        0 <= ll < 65536,
        fx_prod(a, a) == (a * a) / 65536,
        a * a < (fx_prod(a, a) + 1) * 65536,
        fx_prod(a, a) * 65536 <= a * a,
    ensures
        fx_prod(a, 16777216) == a * 256,
        -16777216 <= a * 256 <= 16777216,
        fx_prod(a * 256, a * 256) == a * a,
        fx_prod(a, a) * 65536 <= fx_prod(a * 256, a * 256),
{
    assert(a * a < 65536 * 65536 + 65536);
    assert(-65536 <= a <= 65536) by (nonlinear_arith)
        requires a * a < 65536 * 65536 + 65536;
    let m = s_abs(a);
    assert(m * 16777216 == 65536 * (m * 256)) by (nonlinear_arith);
    vstd::arithmetic::div_mod::lemma_div_multiples_vanish(m * 256, 65536);
    assert(s_abs(a * 16777216) == m * 16777216);
    assert(tdiv(a * 16777216, 65536) == if a >= 0 { m * 256 } else { -(m * 256) });
    assert((a * 256) * (a * 256) == 65536 * (a * a)) by (nonlinear_arith);
    vstd::arithmetic::div_mod::lemma_div_multiples_vanish(a * a, 65536);
    lemma_square_nonneg(a);
    assert(s_abs((a * 256) * (a * 256)) == 65536 * (a * a));
    assert(tdiv((a * 256) * (a * 256), 65536) == a * a);
}

#[derive(Clone, Copy, Debug, PartialEq, Eq, Structural)]
pub struct Ray {
    pub orig: Point3,
    pub dir: Vec3,
}

/// The ray a constructor call yields: the direction is scaled to unit
/// length, the origin kept as given. A degenerate direction -- one that
/// is near zero, or so outsized that scaling it is meaningless -- is a
/// contract violation of the scene author and collapses to a fixed unit
/// direction instead of yielding an unusable ray.
pub open spec fn ray_new_spec(origin: Point3, direction: Vec3) -> Ray {
    if modest3(direction, DIR_MAX as int) && !near_zero3(direction) {
        Ray { orig: origin, dir: unitize3(boost3(direction)) }
    } else {
        Ray { orig: origin, dir: Vec3 { x: 0, y: 0, z: -65536i64 } }
    }
}

/// The point the ray reaches at parameter `t`: origin + t * direction.
pub open spec fn ray_at3(r: Ray, t: int) -> Point3 {
    vsum3(r.orig, vscale3(r.dir, t))
}

impl Ray {
    pub fn new(origin: Point3, direction: Vec3) -> (r: Ray)
        ensures
            r == ray_new_spec(origin, direction),
            r.orig == origin,
            ray_ok(r),
    {
        let modest = -DIR_MAX <= direction.x && direction.x <= DIR_MAX
            && -DIR_MAX <= direction.y && direction.y <= DIR_MAX
            && -DIR_MAX <= direction.z && direction.z <= DIR_MAX;
        if modest && !direction.is_near_zero() {
            proof {
                lemma_not_near_zero_dot_pos(direction);
            }
            let lsq = direction.length_squared();
            let d2 = if lsq < SCALE { direction.scale(16777216) } else { direction };
            proof {
                if lsq < SCALE {
                    lemma_boost_dot(direction);
                }
                assert(d2 == boost3(direction));
            }
            let dir = d2.as_unit_vector();
            proof {
                lemma_unitize_props(d2, fx_sqrt_spec(dot3(d2, d2)));
                lemma_unit_length_tolerance(d2, fx_sqrt_spec(dot3(d2, d2)));
            }
            Ray { orig: origin, dir }
        } else {
            proof {
                assert((-65536int) * (-65536) == 4294967296) by (nonlinear_arith);
                assert(4294967296int / 65536 == 65536) by (nonlinear_arith);
            }
            Ray { orig: origin, dir: Vec3 { x: 0, y: 0, z: -SCALE } }
        }
    }

    pub fn origin(&self) -> (r: Point3)
        ensures r == self.orig,
    {
        self.orig
    }

    pub fn direction(&self) -> (r: Vec3)
        ensures r == self.dir,
    {
        self.dir
    }

    pub fn at(&self, t: i64) -> (p: Point3)
        ensures p == ray_at3(*self, t as int),
    {
        self.orig.vadd(&self.dir.scale(t))
    }
}

} // verus!
