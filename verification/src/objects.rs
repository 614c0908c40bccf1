//! Scene primitives, hit records, and materials.
//!
//! The primitive and material sets are closed, so both are tagged
//! variants dispatched by a match, as the hot intersection loop likes.

use vstd::prelude::*;

use crate::fixed::{
    fx_add, fx_diff, fx_div, fx_minus, fx_mul, fx_neg, fx_prod, fx_quot, fx_sqrt, fx_sqrt_spec,
    fx_sub, fx_sum, is_fx_sqrt, lemma_clip_mag, lemma_fx_sum_le, s_abs, tdiv, FX_MAX, SCALE,
};
use crate::la::{
    dot3, lemma_dot_bound, lemma_dot_neg_left, lemma_dot_neg_right, modest3, near_zero3, ray_at3,
    ray_new_spec, ray_ok, rand_fraction, reflect3, refract3, unit_sample, vdiff3, vdivs3, vneg3,
    vscale3, vsum3, Color, Point3, Ray, Vec3,
};

verus! {

#[derive(Clone, Copy, Debug, PartialEq, Eq, Structural)]
pub struct Lambertian {
    pub albedo: Color,
}

#[derive(Clone, Copy, Debug, PartialEq, Eq, Structural)]
pub struct Metal {
    pub albedo: Color,
    pub roughness: i64,
}

#[derive(Clone, Copy, Debug, PartialEq, Eq, Structural)]
pub struct Dielectric {
    pub ior: i64,
}

#[derive(Clone, Copy, Debug, PartialEq, Eq, Structural)]
pub enum Material {
    Lambertian(Lambertian),
    Metal(Metal),
    Dielectric(Dielectric),
}

/// A color inside the unit cube.
pub open spec fn color01(c: Color) -> bool {
    0 <= c.x <= SCALE && 0 <= c.y <= SCALE && 0 <= c.z <= SCALE
}

/// Albedos inside the unit cube: under these every attenuation a
/// scatter returns lies in the unit cube too.
pub open spec fn mat_colors_ok(m: Material) -> bool {
    match m {
        Material::Lambertian(l) => color01(l.albedo),
        Material::Metal(mm) => color01(mm.albedo),
        Material::Dielectric(_) => true,
    }
}

/// What every scatter call needs of its material: a clamped roughness
/// and a positive refractive index.
pub open spec fn mat_wf(m: Material) -> bool {
    match m {
        Material::Lambertian(_) => true,
        Material::Metal(mm) => 0 <= mm.roughness <= SCALE as int,
        Material::Dielectric(d) => d.ior > 0,
    }
}

/// Schlick's approximation of the Fresnel reflectance:
/// r0 + (1 - r0) (1 - cos)^5 with r0 = ((1 - ior) / (1 + ior))^2.
pub open spec fn schlick(cosine: int, ior: int) -> int {
    let r0x = fx_quot(fx_diff(SCALE as int, ior), fx_sum(SCALE as int, ior));
    let r0 = fx_prod(r0x, r0x);
    let omc = fx_diff(SCALE as int, cosine);
    let p2 = fx_prod(omc, omc);
    let p5 = fx_prod(fx_prod(p2, p2), omc);
    fx_sum(r0, fx_prod(fx_diff(SCALE as int, r0), p5))
}

impl Lambertian {
    pub fn new(albedo: Color) -> (r: Lambertian)
        ensures r.albedo == albedo,
    {
        Lambertian { albedo }
    }
}

impl Metal {
    /// Roughness is clamped into [0, 1] rather than rejected.
    pub fn new(albedo: Color, roughness: i64) -> (r: Metal)
        ensures
            r.albedo == albedo,
            r.roughness == (if roughness < 0 { 0i64 } else if roughness > SCALE { SCALE } else { roughness }),
            0 <= r.roughness <= SCALE,
    {
        let rf: i64 = if roughness < 0 { 0 } else if roughness > SCALE { SCALE } else { roughness };
        Metal { albedo, roughness: rf }
    }
}

impl Dielectric {
    pub fn new(ior: i64) -> (r: Dielectric)
        ensures r.ior == ior,
    {
        Dielectric { ior }
    }

    pub fn reflectance(cosine: i64, ior: i64) -> (r: i64)
        requires ior >= 0,
        ensures r as int == schlick(cosine as int, ior as int),
    {
        let denom = fx_add(SCALE, ior);
        let r0x = fx_div(fx_sub(SCALE, ior), denom);
        let r0 = fx_mul(r0x, r0x);
        let omc = fx_sub(SCALE, cosine);
        let p2 = fx_mul(omc, omc);
        let p5 = fx_mul(fx_mul(p2, p2), omc);
        fx_add(r0, fx_mul(fx_sub(SCALE, r0), p5))
    }
}

#[derive(Clone, Copy, Debug, PartialEq, Eq, Structural)]
pub struct HitRecord {
    pub t: i64,
    pub p: Point3,
    pub normal: Vec3,
    pub mat: Material,
    pub front_face: bool,
}

/// The record the constructor builds: the stored normal opposes the
/// incoming ray, and `front_face` records which side was struck.
pub open spec fn hit_record_spec(r: Ray, t: int, p: Point3, mat: Material, outward_normal: Vec3) -> HitRecord {
    let front = dot3(r.dir, outward_normal) < 0;
    HitRecord {
        t: t as i64,
        p,
        normal: if front { outward_normal } else { vneg3(outward_normal) },
        mat,
        front_face: front,
    }
}

impl HitRecord {
    pub fn new(r: &Ray, t: i64, p: Point3, mat: Material, outward_normal: Vec3) -> (rec: HitRecord)
        ensures
            rec == hit_record_spec(*r, t as int, p, mat, outward_normal),
            (modest3(r.dir, FX_MAX as int) && modest3(outward_normal, FX_MAX as int))
                ==> dot3(vneg3(r.dir), rec.normal) >= 0,
    {
        let front_face = r.direction().dot(&outward_normal) < 0;
        let normal = if front_face { outward_normal } else { outward_normal.vneg() };
        proof {
            if modest3(r.dir, FX_MAX as int) && modest3(outward_normal, FX_MAX as int) {
                if front_face {
                    lemma_dot_neg_left(r.dir, outward_normal);
                } else {
                    lemma_dot_neg_left(r.dir, vneg3(outward_normal));
                    lemma_dot_neg_right(r.dir, outward_normal);
                }
            }
        }
        HitRecord { t, p, normal, mat, front_face }
    }
}

#[derive(Clone, Copy, Debug, PartialEq, Eq, Structural)]
pub struct Sphere {
    pub center: Point3,
    pub radius: i64,
    pub mat: Material,
}

pub open spec fn sph_oc(s: Sphere, r: Ray) -> Vec3 {
    vdiff3(r.orig, s.center)
}

pub open spec fn sph_a(r: Ray) -> int {
    dot3(r.dir, r.dir)
}

pub open spec fn sph_hb(s: Sphere, r: Ray) -> int {
    dot3(sph_oc(s, r), r.dir)
}

pub open spec fn sph_c(s: Sphere, r: Ray) -> int {
    fx_diff(dot3(sph_oc(s, r), sph_oc(s, r)), fx_prod(s.radius as int, s.radius as int))
}

/// The quadratic discriminant of the ray-sphere intersection, over the
/// fixed-point operations the executable code performs.
pub open spec fn sph_disc(s: Sphere, r: Ray) -> int {
    fx_diff(fx_prod(sph_hb(s, r), sph_hb(s, r)), fx_prod(sph_a(r), sph_c(s, r)))
}

pub open spec fn sph_root_near(s: Sphere, r: Ray) -> int {
    fx_quot(fx_diff(fx_minus(sph_hb(s, r)), fx_sqrt_spec(sph_disc(s, r))), sph_a(r))
}

pub open spec fn sph_root_far(s: Sphere, r: Ray) -> int {
    fx_quot(fx_sum(fx_minus(sph_hb(s, r)), fx_sqrt_spec(sph_disc(s, r))), sph_a(r))
}

pub open spec fn in_interval(t: int, t_min: int, t_max: int) -> bool {
    t_min < t < t_max
}

pub open spec fn sph_record(s: Sphere, r: Ray, t: int) -> HitRecord {
    let p = ray_at3(r, t);
    hit_record_spec(r, t, p, s.mat, vdivs3(vdiff3(p, s.center), s.radius as int))
}

/// What a sphere intersection returns: nothing when the discriminant is
/// negative, else the record of the nearer root if it lies inside the
/// open interval, else of the farther root, else nothing.
pub open spec fn sphere_hit_spec(s: Sphere, r: Ray, t_min: int, t_max: int) -> Option<HitRecord> {
    if sph_disc(s, r) < 0 {
        Option::None
    } else if in_interval(sph_root_near(s, r), t_min, t_max) {
        Option::Some(sph_record(s, r, sph_root_near(s, r)))
    } else if in_interval(sph_root_far(s, r), t_min, t_max) {
        Option::Some(sph_record(s, r, sph_root_far(s, r)))
    } else {
        Option::None
    }
}

/// A scene whose coordinates stay within ordinary bounds: points and
/// radius within 2^16 units, a unit-scaled ray direction. Within these,
/// no intermediate of the intersection arithmetic saturates.
pub open spec fn sphere_tame(s: Sphere, r: Ray) -> bool {
    modest3(r.orig, 4294967296) && modest3(s.center, 4294967296)
        && 0 < s.radius <= 4294967296
        && modest3(r.dir, 2 * SCALE as int)
        && 1 <= sph_a(r) <= 4 * SCALE as int
}

/// A ray that starts outside a sphere and points away from it hits
/// nothing: both fixed-point roots of the quadratic are nonpositive.
proof fn lemma_away_roots_nonpositive(s: Sphere, r: Ray, sq: int)
    requires
        sphere_tame(s, r),
        sph_hb(s, r) > 0,
        sph_c(s, r) > 0,
        sph_disc(s, r) >= 0,
        is_fx_sqrt(sph_disc(s, r), sq),
    ensures
        sph_root_near(s, r) <= 0,
        sph_root_far(s, r) <= 0,
{
    crate::fixed::lemma_fx_sqrt_spec_is(sph_disc(s, r), sq);
    let oc = sph_oc(s, r);
    let hb = sph_hb(s, r);
    let a = sph_a(r);
    let c = sph_c(s, r);
    let d = sph_disc(s, r);
    // components of oc stay below 2^33
    lemma_fx_sum_le(r.orig.x as int, s.center.x as int);
    lemma_fx_sum_le(r.orig.y as int, s.center.y as int);
    lemma_fx_sum_le(r.orig.z as int, s.center.z as int);
    assert(modest3(oc, 8589934592));
    // |hb| <= 3 * (2^33 * 2^17) / 2^16 = 3 * 2^34
    lemma_dot_bound(oc, r.dir, 8589934592, 131072);
    assert(8589934592int * 131072 / 65536 == 17179869184) by (nonlinear_arith);
    assert(-51539607552 <= hb <= 51539607552);
    // the square of hb does not saturate
    assert(hb * hb <= 51539607552int * 51539607552) by (nonlinear_arith)
        requires -51539607552 <= hb <= 51539607552;
    vstd::arithmetic::div_mod::lemma_div_is_ordered(hb * hb, 51539607552int * 51539607552, 65536);
    assert(51539607552int * 51539607552 / 65536 == 40532396646334464) by (nonlinear_arith);
    vstd::arithmetic::div_mod::lemma_div_pos_is_pos(hb * hb, 65536);
    assert(hb * hb >= 0) by (nonlinear_arith);
    let ph = fx_prod(hb, hb);
    assert(ph == (hb * hb) / 65536);
    vstd::arithmetic::div_mod::lemma_fundamental_div_mod(hb * hb, 65536);
    // a * c is nonnegative, so the discriminant is at most ph
    assert(a * c > 0) by (nonlinear_arith)
        requires a >= 1, c >= 1;
    vstd::arithmetic::div_mod::lemma_div_pos_is_pos(a * c, 65536);
    let pac = fx_prod(a, c);
    assert(pac >= 0);
    lemma_clip_mag(fx_prod(a, c));
    assert(d == ph - pac);
    assert(d <= ph);
    // sq <= hb
    assert(sq * sq <= d * 65536);
    assert(d * 65536 <= ph * 65536);
    assert(ph * 65536 <= hb * hb);
    assert(sq <= hb) by (nonlinear_arith)
        requires sq * sq <= hb * hb, sq >= 0, hb > 0;
    // both numerators are nonpositive, and division by a > 0 keeps that
    let mh = fx_minus(hb);
    assert(mh == -hb);
    let num1 = fx_diff(mh, sq);
    let num2 = fx_sum(mh, sq);
    assert(num1 <= 0);
    assert(num2 <= 0);
    lemma_quot_nonpos(num1, a);
    lemma_quot_nonpos(num2, a);
}

proof fn lemma_quot_nonpos(num: int, den: int)
    requires num <= 0, den > 0,
    ensures fx_quot(num, den) <= 0,
{
    let p = num * (SCALE as int);
    assert(num * 65536 <= 0);
    vstd::arithmetic::div_mod::lemma_div_pos_is_pos(s_abs(p), den);
    assert(tdiv(p, den) <= 0);
}

proof fn lemma_quot_by_one_unit(x: int)
    requires -2199023255552 <= x <= 2199023255552,
    ensures fx_quot(x, SCALE as int) == x,
{
    vstd::arithmetic::div_mod::lemma_div_multiples_vanish(s_abs(x), 65536);
    assert(s_abs(x * 65536) == s_abs(x) * 65536);
}

/// For a ray through the sphere's center -- a unit-scaled direction and
/// an offset aligned with it, so that a = 1 and half-b = -k exactly --
/// the two roots are k - sq and k + sq: symmetric around the distance k
/// to the center, the nearer one first.
pub proof fn lemma_centered_roots_symmetric(s: Sphere, r: Ray, k: int, sq: int)
    requires
        sph_a(r) == SCALE as int,
        sph_hb(s, r) == -k,
        -1099511627776 <= k <= 1099511627776,
        0 <= sq <= 1099511627776,
        is_fx_sqrt(sph_disc(s, r), sq),
    ensures
        sph_root_near(s, r) == k - sq,
        sph_root_far(s, r) == k + sq,
        sph_root_near(s, r) + sph_root_far(s, r) == 2 * k,
        sph_root_near(s, r) <= sph_root_far(s, r),
{
    crate::fixed::lemma_fx_sqrt_spec_is(sph_disc(s, r), sq);
    assert(fx_minus(sph_hb(s, r)) == k);
    assert(fx_diff(k, sq) == k - sq);
    assert(fx_sum(k, sq) == k + sq);
    lemma_quot_by_one_unit(k - sq);
    lemma_quot_by_one_unit(k + sq);
}

/// At full incidence against a unit-index interface nothing reflects:
/// r0 is zero and the fifth-power term has no base.
pub proof fn lemma_schlick_full_incidence()
    ensures schlick(SCALE as int, SCALE as int) == 0,
{
    assert(fx_diff(SCALE as int, SCALE as int) == 0);
    assert(s_abs(0int * 65536) == 0);
    assert(fx_quot(0, fx_sum(SCALE as int, SCALE as int)) == 0);
    assert(s_abs(0int * 0) == 0);
    assert(fx_prod(0, 0) == 0);
    assert(s_abs(65536int * 0) == 0) by (nonlinear_arith);
    assert(fx_prod(fx_diff(SCALE as int, 0), 0) == 0);
}

/// A refractive index of one leaves the refraction ratio at one on both
/// sides of the surface: the interface bends nothing.
pub proof fn lemma_unit_ior_ratio(front_face: bool)
    ensures refraction_ratio(front_face, SCALE as int) == SCALE as int,
{
    vstd::arithmetic::div_mod::lemma_div_multiples_vanish(65536, 65536);
}

impl Sphere {
    pub fn new(center: Point3, radius: i64, mat: Material) -> (s: Sphere)
        ensures s.center == center, s.radius == radius, s.mat == mat,
    {
        Sphere { center, radius, mat }
    }

    pub fn hit(&self, r: &Ray, t_min: i64, t_max: i64) -> (res: Option<HitRecord>)
        requires
            self.radius != 0,
            1 <= dot3(r.dir, r.dir),
        ensures
            res == sphere_hit_spec(*self, *r, t_min as int, t_max as int),
            (sphere_tame(*self, *r) && t_min >= 0 && sph_hb(*self, *r) > 0 && sph_c(*self, *r) > 0)
                ==> res is None,
            (match res {
                Option::Some(rec) => rec.mat == self.mat,
                Option::None => true,
            }),
    {
        let oc = r.origin().vsub(&self.center);
        let a = r.direction().dot(&r.direction());
        let hb = oc.dot(&r.direction());
        let c = fx_sub(oc.dot(&oc), fx_mul(self.radius, self.radius));
        let discriminant = fx_sub(fx_mul(hb, hb), fx_mul(a, c));
        if discriminant < 0 {
            return None;
        }

        let sqrtd = fx_sqrt(discriminant);
        proof {
            if sphere_tame(*self, *r) && t_min >= 0 && sph_hb(*self, *r) > 0 && sph_c(*self, *r) > 0 {
                lemma_away_roots_nonpositive(*self, *r, sqrtd as int);
            }
        }
        let t1 = fx_div(fx_sub(fx_neg(hb), sqrtd), a);
        if t_min < t1 && t1 < t_max {
            let p = r.at(t1);
            let outward_normal = p.vsub(&self.center).div_scalar(self.radius);
            return Some(HitRecord::new(r, t1, p, self.mat, outward_normal));
        }
        let t2 = fx_div(fx_add(fx_neg(hb), sqrtd), a);
        if t_min < t2 && t2 < t_max {
            let p = r.at(t2);
            let outward_normal = p.vsub(&self.center).div_scalar(self.radius);
            return Some(HitRecord::new(r, t2, p, self.mat, outward_normal));
        }
        None
    }
}

/// The diffuse scatter direction: normal plus a unit sample; a direction
/// that cancels to near zero falls back to the normal, or to the sample
/// itself when even the normal is degenerate.
pub open spec fn lambertian_dir(n: Vec3, u: Vec3) -> Vec3 {
    let sd = vsum3(n, u);
    if !near_zero3(sd) {
        sd
    } else if !near_zero3(n) {
        n
    } else {
        u
    }
}

impl Lambertian {
    /// Diffuse reflection: always continues, with the albedo as the
    /// attenuation and the hit point as the new origin.
    pub fn scatter(&self, _r: &Ray, rec: &HitRecord) -> (res: Option<(Ray, Color)>)
        ensures
            (match res {
                Option::Some(pair) => pair.1 == self.albedo && pair.0.orig == rec.p && ray_ok(pair.0)
                    && exists|u: Vec3|
                        unit_sample(u) && !near_zero3(u) && pair.0 == ray_new_spec(
                            rec.p,
                            #[trigger] lambertian_dir(rec.normal, u),
                        ),
                Option::None => false,
            }),
    {
        let u = Vec3::rand_unit_vector();
        let mut scatter_dir = rec.normal.vadd(&u);
        if scatter_dir.is_near_zero() {
            scatter_dir = if rec.normal.is_near_zero() { u } else { rec.normal };
        }
        let r_scattered = Ray::new(rec.p, scatter_dir);
        proof {
            assert(scatter_dir == lambertian_dir(rec.normal, u));
            assert(r_scattered == ray_new_spec(rec.p, lambertian_dir(rec.normal, u)));
        }
        Some((r_scattered, self.albedo))
    }
}

/// The fuzzed specular direction: the mirror reflection perturbed by a
/// unit sample scaled by the roughness.
pub open spec fn metal_dir(d: Vec3, n: Vec3, roughness: int, u: Vec3) -> Vec3 {
    vsum3(reflect3(d, n), vscale3(u, roughness))
}

impl Metal {
    /// Specular reflection with fuzz: continues only while the scattered
    /// direction still points away from the surface -- in either case the
    /// outcome is that of some drawn unit sample. With zero roughness the
    /// scattered direction is exactly the mirror reflection.
    pub fn scatter(&self, r: &Ray, rec: &HitRecord) -> (res: Option<(Ray, Color)>)
        ensures
            (match res {
                Option::Some(pair) => pair.1 == self.albedo && pair.0.orig == rec.p && ray_ok(pair.0)
                    && dot3(pair.0.dir, rec.normal) > 0
                    && exists|u: Vec3|
                        unit_sample(u) && pair.0 == ray_new_spec(
                            rec.p,
                            #[trigger] metal_dir(r.dir, rec.normal, self.roughness as int, u),
                        ),
                Option::None => exists|u: Vec3|
                    unit_sample(u) && dot3(
                        ray_new_spec(
                            rec.p,
                            #[trigger] metal_dir(r.dir, rec.normal, self.roughness as int, u),
                        ).dir,
                        rec.normal,
                    ) <= 0,
            }),
            self.roughness == 0 ==> (match res {
                Option::Some(pair) => pair.0 == ray_new_spec(rec.p, reflect3(r.dir, rec.normal)),
                Option::None => dot3(
                    ray_new_spec(rec.p, reflect3(r.dir, rec.normal)).dir,
                    rec.normal,
                ) <= 0,
            }),
    {
        let reflected = r.direction().reflect(&rec.normal);
        let u = Vec3::rand_unit_vector();
        let dir = reflected.vadd(&u.scale(self.roughness));
        proof {
            assert(dir == metal_dir(r.dir, rec.normal, self.roughness as int, u));
            if self.roughness == 0 {
                assert(vscale3(u, 0) == (Vec3 { x: 0i64, y: 0i64, z: 0i64 }));
                lemma_clip_mag(reflected.x as int + 0);
                lemma_clip_mag(reflected.y as int + 0);
                lemma_clip_mag(reflected.z as int + 0);
                assert(dir == reflect3(r.dir, rec.normal));
            }
        }
        let r_scattered = Ray::new(rec.p, dir);
        if r_scattered.direction().dot(&rec.normal) > 0 {
            Some((r_scattered, self.albedo))
        } else {
            None
        }
    }
}

/// The ratio of refractive indices across the struck face: entering uses
/// 1 / ior, leaving uses ior.
pub open spec fn refraction_ratio(front_face: bool, ior: int) -> int {
    if front_face {
        fx_quot(SCALE as int, ior)
    } else {
        ior
    }
}

/// The incidence cosine, capped at one.
pub open spec fn diel_cos(v: Vec3, n: Vec3) -> int {
    if dot3(vneg3(v), n) >= SCALE as int {
        SCALE as int
    } else {
        dot3(vneg3(v), n)
    }
}

/// The incidence sine, from cos^2 + sin^2 = 1.
pub open spec fn diel_sin(v: Vec3, n: Vec3) -> int {
    let k = fx_diff(SCALE as int, fx_prod(diel_cos(v, n), diel_cos(v, n)));
    fx_sqrt_spec(if k >= 0 { k } else { fx_minus(k) })
}

/// Total internal reflection: Snell's law has no real solution.
pub open spec fn diel_tir(v: Vec3, n: Vec3, ratio: int) -> bool {
    fx_prod(ratio, diel_sin(v, n)) > SCALE as int
}

impl Dielectric {
    /// Refraction or reflection by Snell's law, with Schlick's
    /// approximation deciding the reflection probability; glass absorbs
    /// nothing, so the ray always continues with a white attenuation.
    pub fn scatter(&self, r: &Ray, rec: &HitRecord) -> (res: Option<(Ray, Color)>)
        requires
            self.ior > 0,
        ensures
            (match res {
                Option::Some(pair) => pair.1 == (Vec3 { x: SCALE, y: SCALE, z: SCALE })
                    && pair.0.orig == rec.p && ray_ok(pair.0)
                    && (pair.0 == ray_new_spec(rec.p, reflect3(r.dir, rec.normal))
                        || pair.0 == ray_new_spec(
                            rec.p,
                            refract3(r.dir, rec.normal, refraction_ratio(rec.front_face, self.ior as int)),
                        )),
                Option::None => false,
            }),
            diel_tir(r.dir, rec.normal, refraction_ratio(rec.front_face, self.ior as int))
                ==> (match res {
                    Option::Some(pair) => pair.0 == ray_new_spec(rec.p, reflect3(r.dir, rec.normal)),
                    Option::None => false,
                }),
    {
        let attenuation = Vec3 { x: SCALE, y: SCALE, z: SCALE };
        let ratio = if rec.front_face { fx_div(SCALE, self.ior) } else { self.ior };
        proof {
            if rec.front_face {
                vstd::arithmetic::div_mod::lemma_div_pos_is_pos(4294967296, self.ior as int);
            }
            assert(ratio as int == refraction_ratio(rec.front_face, self.ior as int));
            assert(ratio >= 0);
        }
        let mut cos_theta = r.direction().vneg().dot(&rec.normal);
        if cos_theta >= SCALE {
            cos_theta = SCALE;
        }
        let k = fx_sub(SCALE, fx_mul(cos_theta, cos_theta));
        let ka = if k >= 0 { k } else { fx_neg(k) };
        let sin_theta = fx_sqrt(ka);
        let tir = fx_mul(ratio, sin_theta) > SCALE;
        let direction = if tir || Dielectric::reflectance(cos_theta, ratio) > rand_fraction() {
            r.direction().reflect(&rec.normal)
        } else {
            r.direction().refract(&rec.normal, ratio)
        };
        let r_scattered = Ray::new(rec.p, direction);
        Some((r_scattered, attenuation))
    }
}

/// An admissible continuation: what one scatter call may return for
/// each material, existentially over the unit sample it drew.
#[verifier::opaque]
pub open spec fn scatter_step(m: Material, r: Ray, rec: HitRecord, sr: Ray, att: Color) -> bool {
    sr.orig == rec.p && ray_ok(sr) && match m {
        Material::Lambertian(l) => att == l.albedo
            && exists|u: Vec3|
                unit_sample(u) && !near_zero3(u) && sr == ray_new_spec(
                    rec.p,
                    #[trigger] lambertian_dir(rec.normal, u),
                ),
        Material::Metal(mm) => att == mm.albedo && dot3(sr.dir, rec.normal) > 0
            && exists|u: Vec3|
                unit_sample(u) && sr == ray_new_spec(
                    rec.p,
                    #[trigger] metal_dir(r.dir, rec.normal, mm.roughness as int, u),
                ),
        Material::Dielectric(dd) => att == (Vec3 { x: SCALE, y: SCALE, z: SCALE })
            && (sr == ray_new_spec(rec.p, reflect3(r.dir, rec.normal))
                || sr == ray_new_spec(
                    rec.p,
                    refract3(r.dir, rec.normal, refraction_ratio(rec.front_face, dd.ior as int)),
                )),
    }
}

/// An admissible absorption: only a fuzzed metal reflection can be
/// absorbed, and only when some unit sample turns it into the surface.
#[verifier::opaque]
pub open spec fn scatter_absorbs(m: Material, r: Ray, rec: HitRecord) -> bool {
    match m {
        Material::Lambertian(_) => false,
        Material::Metal(mm) => exists|u: Vec3|
            unit_sample(u) && dot3(
                ray_new_spec(
                    rec.p,
                    #[trigger] metal_dir(r.dir, rec.normal, mm.roughness as int, u),
                ).dir,
                rec.normal,
            ) <= 0,
        Material::Dielectric(_) => false,
    }
}

impl Material {
    /// One scatter decision, dispatched over the closed material set:
    /// every continuation is an admissible step of the variant, every
    /// absorption an admissible absorption.
    pub fn scatter(&self, r: &Ray, rec: &HitRecord) -> (res: Option<(Ray, Color)>)
        requires
            mat_wf(*self),
        ensures
            (match res {
                Option::Some(pair) => pair.0.orig == rec.p && ray_ok(pair.0),
                Option::None => true,
            }),
            mat_colors_ok(*self) ==> (match res {
                Option::Some(pair) => color01(pair.1),
                Option::None => true,
            }),
            (match res {
                Option::Some(pair) => scatter_step(*self, *r, *rec, pair.0, pair.1),
                Option::None => scatter_absorbs(*self, *r, *rec),
            }),
            (match *self {
                Material::Metal(mm) => mm.roughness == 0 ==> (match res {
                    Option::Some(pair) => pair.0 == ray_new_spec(rec.p, reflect3(r.dir, rec.normal)),
                    Option::None => dot3(
                        ray_new_spec(rec.p, reflect3(r.dir, rec.normal)).dir,
                        rec.normal,
                    ) <= 0,
                }),
                _ => true,
            }),
            (match *self {
                Material::Dielectric(dd) => diel_tir(
                    r.dir,
                    rec.normal,
                    refraction_ratio(rec.front_face, dd.ior as int),
                ) ==> (match res {
                    Option::Some(pair) => pair.0 == ray_new_spec(rec.p, reflect3(r.dir, rec.normal)),
                    Option::None => false,
                }),
                _ => true,
            }),
    {
        proof {
            reveal(scatter_step);
            reveal(scatter_absorbs);
        }
        match self {
            Material::Lambertian(m) => m.scatter(r, rec),
            Material::Metal(m) => m.scatter(r, rec),
            Material::Dielectric(m) => m.scatter(r, rec),
        }
    }
}

/// One well-formed primitive: a nonzero radius (the intersection divides
/// by it) and a material the scatter code accepts.
pub open spec fn sphere_wf(s: Sphere) -> bool {
    s.radius != 0 && mat_wf(s.mat)
}

#[derive(Clone, Debug)]
pub struct HittableList {
    pub objects: Vec<Sphere>,
}

/// The closest-hit fold from index `i` on, carrying the best record so
/// far and the shrunken upper bound of the search interval.
pub open spec fn list_hit_from(
    objs: Seq<Sphere>,
    i: int,
    r: Ray,
    t_min: int,
    closest: int,
    best: Option<HitRecord>,
) -> Option<HitRecord>
    decreases objs.len() - i,
{
    if i < 0 || i >= objs.len() {
        best
    } else {
        match sphere_hit_spec(objs[i], r, t_min, closest) {
            Option::Some(rec) => list_hit_from(objs, i + 1, r, t_min, rec.t as int, Option::Some(rec)),
            Option::None => list_hit_from(objs, i + 1, r, t_min, closest, best),
        }
    }
}

/// The nearest intersection over the whole list within (t_min, t_max):
/// each primitive is tested against the interval shrunk to the best hit
/// so far, so an earlier hit survives unless strictly beaten.
pub open spec fn list_hit_spec(objs: Seq<Sphere>, r: Ray, t_min: int, t_max: int) -> Option<HitRecord> {
    list_hit_from(objs, 0, r, t_min, t_max, Option::None)
}

proof fn lemma_list_from_some(objs: Seq<Sphere>, i: int, r: Ray, t_min: int, closest: int, rec: HitRecord)
    ensures list_hit_from(objs, i, r, t_min, closest, Option::Some(rec)) is Some,
    decreases objs.len() - i,
{
    if 0 <= i < objs.len() {
        match sphere_hit_spec(objs[i], r, t_min, closest) {
            Option::Some(rec2) => lemma_list_from_some(objs, i + 1, r, t_min, rec2.t as int, rec2),
            Option::None => lemma_list_from_some(objs, i + 1, r, t_min, closest, rec),
        }
    }
}

proof fn lemma_miss_from(objs: Seq<Sphere>, i: int, r: Ray, t_min: int, t_max: int)
    requires
        0 <= i,
        list_hit_from(objs, i, r, t_min, t_max, Option::None) is None,
    ensures
        forall|j: int| i <= j < objs.len()
            ==> #[trigger] sphere_hit_spec(objs[j], r, t_min, t_max) is None,
    decreases objs.len() - i,
{
    if i < objs.len() {
        match sphere_hit_spec(objs[i], r, t_min, t_max) {
            Option::Some(rec) => {
                lemma_list_from_some(objs, i + 1, r, t_min, rec.t as int, rec);
                assert(false);
            }
            Option::None => {
                lemma_miss_from(objs, i + 1, r, t_min, t_max);
            }
        }
    }
}

proof fn lemma_hit_from_is_real(
    objs: Seq<Sphere>,
    i: int,
    r: Ray,
    t_min: int,
    closest: int,
    best: Option<HitRecord>,
)
    requires
        0 <= i,
    ensures
        (match list_hit_from(objs, i, r, t_min, closest, best) {
            Option::Some(rec) => best == Option::Some(rec)
                || exists|j: int, c: int|
                    i <= j < objs.len() && c <= closest
                        && #[trigger] sphere_hit_spec(objs[j], r, t_min, c) == Option::Some(rec),
            Option::None => true,
        }),
    decreases objs.len() - i,
{
    if i < objs.len() {
        match sphere_hit_spec(objs[i], r, t_min, closest) {
            Option::Some(rec2) => {
                lemma_hit_from_is_real(objs, i + 1, r, t_min, rec2.t as int, Option::Some(rec2));
                match list_hit_from(objs, i, r, t_min, closest, best) {
                    Option::Some(rec) => {
                        if rec == rec2 {
                            assert(sphere_hit_spec(objs[i], r, t_min, closest)
                                == Option::Some(rec));
                        } else {
                            let (j, c) = choose|j: int, c: int|
                                i + 1 <= j < objs.len() && c <= rec2.t as int
                                    && #[trigger] sphere_hit_spec(objs[j], r, t_min, c)
                                        == Option::Some(rec);
                            assert(in_interval(rec2.t as int, t_min, closest));
                            assert(sphere_hit_spec(objs[j], r, t_min, c) == Option::Some(rec));
                        }
                    }
                    Option::None => {}
                }
            }
            Option::None => {
                lemma_hit_from_is_real(objs, i + 1, r, t_min, closest, best);
            }
        }
    }
}

/// What a reported hit means: some primitive produced it, under an
/// interval upper bound no wider than the given one, and its distance
/// lies strictly inside the requested interval.
pub proof fn lemma_hit_comes_from_a_sphere(
    objs: Seq<Sphere>,
    r: Ray,
    t_min: int,
    t_max: int,
    rec: HitRecord,
)
    requires
        list_hit_spec(objs, r, t_min, t_max) == Option::Some(rec),
    ensures
        t_min < rec.t < t_max,
        exists|j: int, c: int|
            0 <= j < objs.len() && c <= t_max
                && #[trigger] sphere_hit_spec(objs[j], r, t_min, c) == Option::Some(rec),
{
    lemma_hit_from_is_real(objs, 0, r, t_min, t_max, Option::None);
    let (j, c) = choose|j: int, c: int|
        0 <= j < objs.len() && c <= t_max
            && #[trigger] sphere_hit_spec(objs[j], r, t_min, c) == Option::Some(rec);
    assert(in_interval(rec.t as int, t_min, c));
}

/// The closest-hit scan misses only when every primitive, tested alone
/// against the whole interval, misses too: nothing is overlooked.
pub proof fn lemma_miss_means_every_sphere_misses(objs: Seq<Sphere>, r: Ray, t_min: int, t_max: int)
    requires
        list_hit_spec(objs, r, t_min, t_max) is None,
    ensures
        forall|j: int| 0 <= j < objs.len()
            ==> #[trigger] sphere_hit_spec(objs[j], r, t_min, t_max) is None,
{
    lemma_miss_from(objs, 0, r, t_min, t_max);
}

impl HittableList {
    pub open spec fn wf(&self) -> bool {
        forall|i: int| 0 <= i < self.objects.len() ==> sphere_wf(#[trigger] self.objects[i])
    }

    /// Every material's albedo lies in the unit cube.
    pub open spec fn colors_ok(&self) -> bool {
        forall|i: int| 0 <= i < self.objects.len()
            ==> mat_colors_ok((#[trigger] self.objects[i]).mat)
    }

    pub fn new() -> (r: HittableList)
        ensures
            r.objects@ == Seq::<Sphere>::empty(),
            r.wf(),
    {
        HittableList { objects: Vec::new() }
    }

    pub fn add(&mut self, object: Sphere)
        ensures
            final(self).objects@ == old(self).objects@.push(object),
            old(self).wf() && sphere_wf(object) ==> final(self).wf(),
    {
        self.objects.push(object);
    }

    pub fn clear(&mut self)
        ensures
            final(self).objects@ == Seq::<Sphere>::empty(),
            final(self).wf(),
    {
        self.objects.clear();
    }

    pub fn hit(&self, r: &Ray, t_min: i64, t_max: i64) -> (res: Option<HitRecord>)
        requires
            self.wf(),
            1 <= dot3(r.dir, r.dir),
        ensures
            res == list_hit_spec(self.objects@, *r, t_min as int, t_max as int),
            (match res {
                Option::Some(rec) => mat_wf(rec.mat),
                Option::None => true,
            }),
            self.colors_ok() ==> (match res {
                Option::Some(rec) => mat_colors_ok(rec.mat),
                Option::None => true,
            }),
    {
        let mut closest: i64 = t_max;
        let mut best: Option<HitRecord> = None;
        let n = self.objects.len();
        let mut idx: usize = 0;
        while idx < n
            invariant
                idx <= n,
                n == self.objects.len(),
                self.wf(),
                1 <= dot3(r.dir, r.dir),
                list_hit_from(self.objects@, idx as int, *r, t_min as int, closest as int, best)
                    == list_hit_spec(self.objects@, *r, t_min as int, t_max as int),
                (match best {
                    Option::Some(rec) => mat_wf(rec.mat),
                    Option::None => true,
                }),
                self.colors_ok() ==> (match best {
                    Option::Some(rec) => mat_colors_ok(rec.mat),
                    Option::None => true,
                }),
            decreases n - idx,
        {
            let sph = self.objects[idx];
            match sph.hit(r, t_min, closest) {
                Some(rec) => {
                    closest = rec.t;
                    best = Some(rec);
                }
                None => {}
            }
            idx = idx + 1;
        }
        best
    }
}

} // verus!
