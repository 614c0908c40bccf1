//! The recursive path-tracing integrator: one ray in, one radiance
//! estimate out.

use vstd::prelude::*;

use crate::fixed::{
    fx_add, fx_diff, fx_mul, fx_prod, fx_sub, fx_sum, lemma_fx_prod_le, s_abs, tdiv, SCALE,
};
use crate::la::{
    dot3, lemma_prod_by_one, lemma_prod_self_nonneg, modest3, ray_ok, vprod3, vscale3, vsum3,
    Color, Ray, Vec3,
};
use crate::objects::{
    color01, list_hit_spec, mat_colors_ok, scatter_absorbs, scatter_step, HitRecord, HittableList,
    Sphere,
};

verus! {

/// Lower bound of the search interval: about a thousandth of a unit,
/// which keeps a scattered ray from striking its own origin again.
pub const T_EPS: i64 = 66;

pub open spec fn black() -> Color {
    Vec3 { x: 0i64, y: 0i64, z: 0i64 }
}

/// The sky: a vertical blend from white at the bottom to light blue at
/// the top, driven by the y component of the ray direction.
pub open spec fn background3(dir: Vec3) -> Color {
    let t = fx_prod(32768, fx_sum(dir.y as int, SCALE as int));
    vsum3(
        vscale3(Vec3 { x: 65536i64, y: 65536i64, z: 65536i64 }, fx_diff(SCALE as int, t)),
        vscale3(Vec3 { x: 32768i64, y: 45875i64, z: 65536i64 }, t),
    )
}

/// The radiance a given sequence of scatter outcomes yields: each path
/// entry is one bounce's scattered ray and attenuation; a path that ends
/// while the ray still hits something stands for absorption.
pub open spec fn path_radiance(objs: Seq<Sphere>, r: Ray, depth: int, path: Seq<(Ray, Color)>) -> Color
    decreases depth,
{
    if depth <= 0 {
        black()
    } else {
        match list_hit_spec(objs, r, T_EPS as int, i64::MAX as int) {
            Option::None => background3(r.dir),
            Option::Some(rec) => if path.len() == 0 {
                black()
            } else {
                vprod3(path[0].1, path_radiance(objs, path[0].0, depth - 1, path.skip(1)))
            },
        }
    }
}

/// Whether a sequence of scatter outcomes is admissible for this ray:
/// every bounce is a scatter step its material allows, and a path that
/// stops early does so only at an admissible absorption.
pub open spec fn path_ok(objs: Seq<Sphere>, r: Ray, depth: int, path: Seq<(Ray, Color)>) -> bool
    decreases depth,
{
    if depth <= 0 {
        true
    } else {
        match list_hit_spec(objs, r, T_EPS as int, i64::MAX as int) {
            Option::None => true,
            Option::Some(rec) => if path.len() == 0 {
                scatter_absorbs(rec.mat, r, rec)
            } else {
                scatter_step(rec.mat, r, rec, path[0].0, path[0].1)
                    && path_ok(objs, path[0].0, depth - 1, path.skip(1))
            },
        }
    }
}

/// What a radiance estimate for a ray may be, at a given depth: the
/// value of some admissible sequence of scatter outcomes -- black once
/// the budget is spent, the sky on a miss, black at an absorption, and
/// otherwise an attenuation-weighted estimate one level down. The
/// existential ranges over the random scatter outcomes.
pub open spec fn radiance_of(objs: Seq<Sphere>, r: Ray, depth: int, c: Color) -> bool {
    exists|path: Seq<(Ray, Color)>|
        #[trigger] path_ok(objs, r, depth, path) && c == path_radiance(objs, r, depth, path)
}

/// A radiance estimate stays within 64 fixed-point units of the unit
/// color cube: the small negative slack exists because a ray direction's
/// vertical component can exceed one unit by a rounding margin.
pub open spec fn color_in_tol(c: Color) -> bool {
    -64 <= c.x <= SCALE + 64 && -64 <= c.y <= SCALE + 64 && -64 <= c.z <= SCALE + 64
}

proof fn lemma_prod_tol(a: int, b: int)
    requires
        0 <= a <= 65536,
        -64 <= b <= 65600,
    ensures
        -64 <= fx_prod(a, b) <= 65600,
{
    if b >= 0 {
        crate::fixed::lemma_mul_range(a, b, 65536, 65600);
        assert(a * b <= 65536 * b) by (nonlinear_arith)
            requires 0 <= a <= 65536, b >= 0;
        vstd::arithmetic::div_mod::lemma_div_is_ordered(a * b, 65536int * b, 65536);
        vstd::arithmetic::div_mod::lemma_div_multiples_vanish(b, 65536);
        vstd::arithmetic::div_mod::lemma_div_pos_is_pos(a * b, 65536);
        assert(a * b >= 0) by (nonlinear_arith)
            requires a >= 0, b >= 0;
    } else {
        assert(-(64 * 65536) <= a * b <= 0) by (nonlinear_arith)
            requires 0 <= a <= 65536, -64 <= b <= 0;
        assert(s_abs(a * b) <= 64 * 65536);
        vstd::arithmetic::div_mod::lemma_div_is_ordered(s_abs(a * b), 64int * 65536, 65536);
        vstd::arithmetic::div_mod::lemma_div_pos_is_pos(s_abs(a * b), 65536);
        assert((64 * 65536) / 65536 == 64) by (nonlinear_arith);
    }
}

proof fn lemma_sky_comp(c0: int, t: int)
    requires
        0 <= c0 <= 65536,
        -5 <= t <= 65541,
    ensures
        t >= 0 ==> 0 <= fx_prod(c0, t) <= t,
        t < 0 ==> -5 <= fx_prod(c0, t) <= 0,
{
    if t >= 0 {
        assert(c0 * t <= 65536 * t) by (nonlinear_arith)
            requires 0 <= c0 <= 65536, t >= 0;
        vstd::arithmetic::div_mod::lemma_div_is_ordered(c0 * t, 65536int * t, 65536);
        vstd::arithmetic::div_mod::lemma_div_multiples_vanish(t, 65536);
        vstd::arithmetic::div_mod::lemma_div_pos_is_pos(c0 * t, 65536);
        assert(c0 * t >= 0) by (nonlinear_arith)
            requires c0 >= 0, t >= 0;
    } else {
        assert(-(5 * 65536) <= c0 * t <= 0) by (nonlinear_arith)
            requires 0 <= c0 <= 65536, -5 <= t <= 0;
        assert(s_abs(c0 * t) <= 5 * 65536);
        vstd::arithmetic::div_mod::lemma_div_is_ordered(s_abs(c0 * t), 5int * 65536, 65536);
        vstd::arithmetic::div_mod::lemma_div_pos_is_pos(s_abs(c0 * t), 65536);
        assert((5 * 65536) / 65536 == 5) by (nonlinear_arith);
    }
}

/// The sky gradient of any constructed ray direction stays within five
/// units of the unit cube.
proof fn lemma_background_in_tol(dir: Vec3)
    requires
        modest3(dir, 2 * SCALE as int),
        dot3(dir, dir) <= (SCALE as int) + 16,
    ensures
        color_in_tol(background3(dir)),
{
    let y = dir.y as int;
    lemma_prod_self_nonneg(dir.x as int);
    lemma_prod_self_nonneg(dir.y as int);
    lemma_prod_self_nonneg(dir.z as int);
    lemma_fx_prod_le(dir.x as int, dir.x as int, 131072, 131072);
    lemma_fx_prod_le(dir.y as int, dir.y as int, 131072, 131072);
    lemma_fx_prod_le(dir.z as int, dir.z as int, 131072, 131072);
    assert(131072int * 131072 / 65536 == 262144) by (nonlinear_arith);
    assert(fx_prod(y, y) <= (SCALE as int) + 16);
    assert(y * y >= 0) by (nonlinear_arith);
    crate::fixed::lemma_mul_range(y, y, 131072, 131072);
    vstd::arithmetic::div_mod::lemma_div_is_ordered(y * y, 131072int * 131072, 65536);
    vstd::arithmetic::div_mod::lemma_div_pos_is_pos(y * y, 65536);
    assert(fx_prod(y, y) == (y * y) / 65536);
    vstd::arithmetic::div_mod::lemma_fundamental_div_mod(y * y, 65536);
    assert(y * y < 4296343552);
    assert(-65546 <= y <= 65546) by (nonlinear_arith)
        requires y * y < 4296343552;
    let s1 = fx_sum(y, SCALE as int);
    assert(s1 == y + 65536);
    let t = fx_prod(32768, s1);
    assert(t == tdiv(32768 * s1, 65536));
    if s1 >= 0 {
        assert(32768 * s1 <= 32768 * 131082) by (nonlinear_arith)
            requires s1 <= 131082;
        vstd::arithmetic::div_mod::lemma_div_is_ordered(32768 * s1, 32768int * 131082, 65536);
        assert(32768int * 131082 / 65536 == 65541) by (nonlinear_arith);
        vstd::arithmetic::div_mod::lemma_div_pos_is_pos(32768 * s1, 65536);
        assert(0 <= t <= 65541);
    } else {
        assert(-(10 * 32768) <= 32768 * s1 <= 0) by (nonlinear_arith)
            requires -10 <= s1 <= 0;
        assert(s_abs(32768 * s1) <= 327680);
        vstd::arithmetic::div_mod::lemma_div_is_ordered(s_abs(32768 * s1), 327680int, 65536);
        vstd::arithmetic::div_mod::lemma_div_pos_is_pos(s_abs(32768 * s1), 65536);
        assert(327680int / 65536 == 5) by (nonlinear_arith);
        assert(-5 <= t <= 0);
    }
    let w0 = fx_diff(SCALE as int, t);
    assert(w0 == 65536 - t);
    lemma_prod_by_one(w0);
    assert(fx_prod(65536, w0) == fx_prod(w0, 65536)) by {
        assert(65536 * w0 == w0 * 65536) by (nonlinear_arith);
    }
    lemma_sky_comp(32768, t);
    lemma_sky_comp(45875, t);
    lemma_sky_comp(65536, t);
}

proof fn lemma_radiance_leaf(objs: Seq<Sphere>, r: Ray, dd: int, c: Color)
    requires
        dd <= 0 ==> c == black(),
        (match list_hit_spec(objs, r, T_EPS as int, i64::MAX as int) {
            Option::None => dd >= 1 ==> c == background3(r.dir),
            Option::Some(rec) => dd >= 1 ==> scatter_absorbs(rec.mat, r, rec) && c == black(),
        }),
    ensures
        radiance_of(objs, r, dd, c),
{
    let e = Seq::<(Ray, Color)>::empty();
    assert(path_ok(objs, r, dd, e) && c == path_radiance(objs, r, dd, e));
}

proof fn lemma_radiance_hit(
    objs: Seq<Sphere>,
    r: Ray,
    dd: int,
    rec: HitRecord,
    sr: Ray,
    att: Color,
    rest: Color,
    c: Color,
)
    requires
        dd >= 1,
        list_hit_spec(objs, r, T_EPS as int, i64::MAX as int) == Option::Some(rec),
        scatter_step(rec.mat, r, rec, sr, att),
        radiance_of(objs, sr, dd - 1, rest),
        c == vprod3(att, rest),
    ensures
        radiance_of(objs, r, dd, c),
{
    let p2 = choose|p: Seq<(Ray, Color)>|
        #[trigger] path_ok(objs, sr, dd - 1, p) && rest == path_radiance(objs, sr, dd - 1, p);
    let path = seq![(sr, att)] + p2;
    assert(path[0] == (sr, att));
    assert(path.skip(1) =~= p2);
    assert(path_ok(objs, r, dd, path) && c == path_radiance(objs, r, dd, path));
}

/// The radiance carried back along one ray: black once the depth budget
/// is spent, the sky on a miss, and on a hit the scattered radiance
/// scaled by the material's attenuation -- or black when absorbed.
#[verifier::rlimit(80)]
pub fn ray_color(r: &Ray, world: &HittableList, depth: u32) -> (c: Color)
    requires
        world.wf(),
        ray_ok(*r),
    ensures
        radiance_of(world.objects@, *r, depth as int, c),
        world.colors_ok() ==> color_in_tol(c),
        depth == 0 ==> c == black(),
        (depth > 0 && list_hit_spec(world.objects@, *r, T_EPS as int, i64::MAX as int) is None)
            ==> c == background3(r.dir),
    decreases depth,
{
    if depth == 0 {
        proof {
            lemma_radiance_leaf(world.objects@, *r, 0, black());
        }
        return Vec3 { x: 0, y: 0, z: 0 };
    }

    let ghost objs = world.objects@;
    let ghost dd = depth as int;
    match world.hit(r, T_EPS, i64::MAX) {
        Some(rec) => {
            match rec.mat.scatter(r, &rec) {
                Some((r_scattered, attenuation)) => {
                    let rest = ray_color(&r_scattered, world, depth - 1);
                    let c = attenuation.vmul(&rest);
                    proof {
                        lemma_radiance_hit(objs, *r, dd, rec, r_scattered, attenuation, rest, c);
                        if world.colors_ok() {
                            lemma_prod_tol(attenuation.x as int, rest.x as int);
                            lemma_prod_tol(attenuation.y as int, rest.y as int);
                            lemma_prod_tol(attenuation.z as int, rest.z as int);
                        }
                    }
                    c
                }
                None => {
                    proof {
                        lemma_radiance_leaf(objs, *r, dd, black());
                    }
                    Vec3 { x: 0, y: 0, z: 0 }
                }
            }
        }
        None => {
            let t = fx_mul(32768, fx_add(r.direction().y(), SCALE));
            let white = Vec3 { x: SCALE, y: SCALE, z: SCALE };
            let sky = Vec3 { x: 32768, y: 45875, z: SCALE };
            let c = white.scale(fx_sub(SCALE, t)).vadd(&sky.scale(t));
            proof {
                assert(c == background3(r.dir));
                lemma_radiance_leaf(objs, *r, dd, c);
                lemma_background_in_tol(r.dir);
            }
            c
        }
    }
}

} // verus!
