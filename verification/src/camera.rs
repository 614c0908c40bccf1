//! The thin-lens camera: an orthonormal basis derived once from the
//! look-at parameters, and a ray generator that jitters the ray origin
//! across the lens aperture for depth of field.

use vstd::prelude::*;

use crate::fixed::{
    fx_add, fx_diff, fx_div, fx_div_int, fx_mul, fx_prod, fx_quot, fx_quot_int, fx_sub, fx_sum,
    FX_MAX, SCALE,
};
use crate::la::{
    cross3, dot3, lemma_not_near_zero_dot_pos, modest3, near_zero3, ray_new_spec, ray_ok,
    unitize3, vdiff3, vdivi3, vscale3, vsum3, Point3, Ray, Vec3, DIR_MAX,
};

verus! {

/// Pi in fixed-point units.
pub const PI_FX: i64 = 205887;

/// The Taylor polynomial of the sine, good on (0, pi/2), over the
/// fixed-point operations: x - x^3/6 + x^5/120 - x^7/5040.
pub open spec fn sin_poly(x: int) -> int {
    let x2 = fx_prod(x, x);
    let x3 = fx_prod(x2, x);
    let x5 = fx_prod(x3, x2);
    let x7 = fx_prod(x5, x2);
    fx_diff(fx_sum(fx_diff(x, fx_quot_int(x3, 6)), fx_quot_int(x5, 120)), fx_quot_int(x7, 5040))
}

/// The Taylor polynomial of the cosine: 1 - x^2/2 + x^4/24 - x^6/720.
pub open spec fn cos_poly(x: int) -> int {
    let x2 = fx_prod(x, x);
    let x4 = fx_prod(x2, x2);
    let x6 = fx_prod(x4, x2);
    fx_diff(fx_sum(fx_diff(SCALE as int, fx_quot_int(x2, 2)), fx_quot_int(x4, 24)), fx_quot_int(x6, 720))
}

/// The tangent as the quotient of the two polynomials; where the
/// polynomial cosine has died (at or beyond a right angle) the viewport
/// is capped at the edge of the representable range.
pub open spec fn tan_poly(x: int) -> int {
    if cos_poly(x) <= 0 {
        FX_MAX as int
    } else {
        fx_quot(sin_poly(x), cos_poly(x))
    }
}

/// Half of a fixed-point angle in degrees, as radians.
pub open spec fn half_radians(v_fov_deg: int) -> int {
    fx_quot_int(fx_prod(v_fov_deg, PI_FX as int), 360)
}

fn tan_half_fov(v_fov: i64) -> (r: i64)
    ensures r as int == tan_poly(half_radians(v_fov as int)),
{
    let x = fx_div_int(fx_mul(v_fov, PI_FX), 360);
    let x2 = fx_mul(x, x);
    let sin_x = {
        let x3 = fx_mul(x2, x);
        let x5 = fx_mul(x3, x2);
        let x7 = fx_mul(x5, x2);
        fx_sub(fx_add(fx_sub(x, fx_div_int(x3, 6)), fx_div_int(x5, 120)), fx_div_int(x7, 5040))
    };
    let cos_x = {
        let x4 = fx_mul(x2, x2);
        let x6 = fx_mul(x4, x2);
        fx_sub(fx_add(fx_sub(SCALE, fx_div_int(x2, 2)), fx_div_int(x4, 24)), fx_div_int(x6, 720))
    };
    if cos_x <= 0 {
        FX_MAX
    } else {
        fx_div(sin_x, cos_x)
    }
}

#[derive(Clone, Copy, Debug, PartialEq, Eq, Structural)]
pub struct Camera {
    pub origin: Point3,
    pub horizontal: Vec3,
    pub vertical: Vec3,
    pub lower_left_corner: Point3,
    pub lens_radius: i64,
    pub u: Vec3,
    pub v: Vec3,
    pub w: Vec3,
}

/// The camera a constructor call yields: the orthonormal-ish basis from
/// the look-at frame, viewport extents from the field of view and focus
/// distance, and half the aperture as the lens radius.
pub open spec fn camera_spec(
    look_from: Point3,
    look_at: Point3,
    up: Vec3,
    v_fov: int,
    aspect_ratio: int,
    aperture: int,
    focus_dist: int,
) -> Camera {
    let w = unitize3(vdiff3(look_from, look_at));
    let u = unitize3(cross3(up, w));
    let v = cross3(w, u);
    let h = tan_poly(half_radians(v_fov));
    let viewport_height = fx_sum(h, h);
    let viewport_width = fx_prod(aspect_ratio, viewport_height);
    let horizontal = vscale3(u, fx_prod(focus_dist, viewport_width));
    let vertical = vscale3(v, fx_prod(focus_dist, viewport_height));
    let lower_left_corner = vdiff3(
        vdiff3(vdiff3(look_from, vdivi3(horizontal, 2)), vdivi3(vertical, 2)),
        vscale3(w, focus_dist),
    );
    Camera {
        origin: look_from,
        horizontal,
        vertical,
        lower_left_corner,
        lens_radius: fx_quot_int(aperture, 2) as i64,
        u,
        v,
        w,
    }
}

/// The ray for viewport coordinates (s, t) and a given lens-disk sample:
/// the sample, scaled by the lens radius and laid onto the u/v basis,
/// offsets the origin; the direction aims at the image-plane point.
pub open spec fn cam_ray_spec(c: Camera, s: int, t: int, rd: Vec3) -> Ray {
    let scaled = vscale3(rd, c.lens_radius as int);
    let offset = vsum3(vscale3(c.u, scaled.x as int), vscale3(c.v, scaled.y as int));
    ray_new_spec(
        vsum3(c.origin, offset),
        vdiff3(
            vdiff3(
                vsum3(vsum3(c.lower_left_corner, vscale3(c.horizontal, s)), vscale3(c.vertical, t)),
                c.origin,
            ),
            offset,
        ),
    )
}

impl Camera {
    pub fn new(
        look_from: &Point3,
        look_at: &Point3,
        up: &Vec3,
        v_fov: i64,
        aspect_ratio: i64,
        aperture: i64,
        focus_dist: i64,
    ) -> (c: Camera)
        requires
            modest3(vdiff3(*look_from, *look_at), DIR_MAX as int),
            !near_zero3(vdiff3(*look_from, *look_at)),
            modest3(cross3(*up, unitize3(vdiff3(*look_from, *look_at))), DIR_MAX as int),
            !near_zero3(cross3(*up, unitize3(vdiff3(*look_from, *look_at)))),
            aperture >= 0,
        ensures
            c == camera_spec(
                *look_from, *look_at, *up, v_fov as int, aspect_ratio as int, aperture as int,
                focus_dist as int,
            ),
    {
        let diff = look_from.vsub(look_at);
        proof {
            lemma_not_near_zero_dot_pos(diff);
        }
        let w = diff.as_unit_vector();
        let cr = up.cross(&w);
        proof {
            lemma_not_near_zero_dot_pos(cr);
        }
        let u = cr.as_unit_vector();
        let v = w.cross(&u);

        let h = tan_half_fov(v_fov);
        let viewport_height = fx_add(h, h);
        let viewport_width = fx_mul(aspect_ratio, viewport_height);

        let horizontal = u.scale(fx_mul(focus_dist, viewport_width));
        let vertical = v.scale(fx_mul(focus_dist, viewport_height));
        let lower_left_corner = look_from
            .vsub(&horizontal.div_int(2))
            .vsub(&vertical.div_int(2))
            .vsub(&w.scale(focus_dist));
        let lens_radius = fx_div_int(aperture, 2);

        Camera {
            origin: *look_from,
            horizontal,
            vertical,
            lower_left_corner,
            lens_radius,
            u,
            v,
            w,
        }
    }

    pub fn get_ray(&self, s: i64, t: i64) -> (r: Ray)
        ensures
            exists|rd: Vec3|
                0 <= dot3(rd, rd) < SCALE as int && rd.z == 0 && r == #[trigger] cam_ray_spec(
                    *self, s as int, t as int, rd,
                ),
            self.lens_radius == 0 ==> r == cam_ray_spec(
                *self, s as int, t as int, Vec3 { x: 0i64, y: 0i64, z: 0i64 },
            ),
            ray_ok(r),
    {
        let rd = Vec3::rand_in_unit_disk();
        let scaled = rd.scale(self.lens_radius);
        let offset = self.u.scale(scaled.x).vadd(&self.v.scale(scaled.y));
        let origin = self.origin.vadd(&offset);
        let dir = self
            .lower_left_corner
            .vadd(&self.horizontal.scale(s))
            .vadd(&self.vertical.scale(t))
            .vsub(&self.origin)
            .vsub(&offset);
        let r = Ray::new(origin, dir);
        proof {
            assert(r == cam_ray_spec(*self, s as int, t as int, rd));
            if self.lens_radius == 0 {
                lemma_pinhole_deterministic(*self, s as int, t as int, rd, Vec3 { x: 0i64, y: 0i64, z: 0i64 });
            }
        }
        r
    }
}

/// With a zero lens radius the same viewport coordinates give the same
/// ray whatever the lens sampling drew: a pinhole camera is
/// deterministic.
pub proof fn lemma_pinhole_deterministic(c: Camera, s: int, t: int, rd1: Vec3, rd2: Vec3)
    requires
        c.lens_radius == 0,
    ensures
        cam_ray_spec(c, s, t, rd1) == cam_ray_spec(c, s, t, rd2),
{
    assert(vscale3(rd1, 0) == (Vec3 { x: 0i64, y: 0i64, z: 0i64 }));
    assert(vscale3(rd2, 0) == (Vec3 { x: 0i64, y: 0i64, z: 0i64 }));
}

} // verus!
