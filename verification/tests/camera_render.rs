use raytrace::camera::Camera;
use raytrace::fixed::SCALE;
use raytrace::la::{rand_fraction, Ray, Vec3};
use raytrace::objects::{HittableList, Lambertian, Material, Sphere};
use raytrace::tracer::ray_color;

fn straight_camera(aperture: i64) -> Camera {
    Camera::new(
        &Vec3::new(0, 0, 0),
        &Vec3::new(0, 0, -SCALE),
        &Vec3::new(0, SCALE, 0),
        90 * SCALE,
        SCALE,
        aperture,
        2 * SCALE,
    )
}

#[test]
fn zero_aperture_rays_are_deterministic() {
    let cam = straight_camera(0);
    for _ in 0..100 {
        let a = cam.get_ray(SCALE / 2, SCALE / 2);
        let b = cam.get_ray(SCALE / 2, SCALE / 2);
        assert_eq!(a.origin(), b.origin());
        assert_eq!(a.direction(), b.direction());
        let c = cam.get_ray(SCALE / 4, 3 * SCALE / 4);
        let d = cam.get_ray(SCALE / 4, 3 * SCALE / 4);
        assert_eq!(c.origin(), d.origin());
        assert_eq!(c.direction(), d.direction());
    }
}

#[test]
fn zero_aperture_origin_is_the_camera_origin() {
    let cam = straight_camera(0);
    let r = cam.get_ray(SCALE / 2, SCALE / 2);
    assert_eq!((r.origin().x(), r.origin().y(), r.origin().z()), (0, 0, 0));
}

#[test]
fn lens_radius_is_half_the_aperture() {
    let cam = straight_camera(3 * SCALE);
    assert_eq!(cam.lens_radius, 3 * SCALE / 2);
    assert_eq!(straight_camera(0).lens_radius, 0);
}

#[test]
fn center_ray_aims_down_the_view_axis() {
    let cam = straight_camera(0);
    let r = cam.get_ray(SCALE / 2, SCALE / 2);
    let d = r.direction();
    // the viewport center sits straight ahead: -z, within rounding
    assert!(d.z() < -SCALE * 9 / 10, "z component {}", d.z());
    assert!(d.x().abs() < SCALE / 50 && d.y().abs() < SCALE / 50);
}

#[test]
fn sampled_directions_stay_unit_length() {
    let cam = straight_camera(SCALE / 4);
    for i in 0..50 {
        let s = (i * SCALE) / 50;
        let r = cam.get_ray(s, SCALE - s);
        let ls = r.direction().length_squared();
        assert!(SCALE - 20 <= ls && ls <= SCALE + 16, "length squared {}", ls);
    }
}

#[test]
fn random_samples_stay_in_their_domains() {
    for _ in 0..500 {
        let f = rand_fraction();
        assert!(0 <= f && f < SCALE);
        let d = Vec3::rand_in_unit_disk();
        assert_eq!(d.z(), 0);
        assert!(d.length_squared() < SCALE);
        let p = Vec3::rand_in_unit_sphere();
        let lp = p.length_squared();
        assert!(1 <= lp && lp < SCALE);
        let u = Vec3::rand_unit_vector();
        let lu = u.length_squared();
        assert!(SCALE - 20 <= lu && lu <= SCALE + 16, "unit sample length squared {}", lu);
        let r = Vec3::rand(-3 * SCALE, 5 * SCALE);
        assert!(-3 * SCALE <= r.x() && r.x() < 5 * SCALE);
        assert!(-3 * SCALE <= r.y() && r.y() < 5 * SCALE);
        assert!(-3 * SCALE <= r.z() && r.z() < 5 * SCALE);
    }
}

#[test]
fn diffuse_sphere_renders_a_midtone_center_pixel() {
    // one dark gray diffuse sphere straight ahead, pinhole camera:
    // the center pixel must come out neither black nor sky-bright
    let albedo = Vec3::new(SCALE / 4, SCALE / 4, SCALE / 4);
    let mut world = HittableList::new();
    world.add(Sphere::new(
        Vec3::new(0, 0, -2 * SCALE),
        SCALE,
        Material::Lambertian(Lambertian::new(albedo)),
    ));
    let cam = straight_camera(0);
    let samples: u32 = 100;
    let mut sum = Vec3::new(0, 0, 0);
    for _ in 0..samples {
        let r = cam.get_ray(SCALE / 2, SCALE / 2);
        sum = sum.vadd(&ray_color(&r, &world, 8));
    }
    let (red, green, blue) = sum.as_u8_color(samples);
    assert!(red > 40, "too dark: {}", red);
    assert!(red < 200, "too bright: {}", red);
    assert!(green > 40 && green < 200);
    assert!(blue > 40 && blue < 210);
    // the sky behind is brighter than the shaded sphere
    let mut sky_sum = Vec3::new(0, 0, 0);
    for _ in 0..samples {
        sky_sum = sky_sum.vadd(&ray_color(&cam.get_ray(0, 0), &world, 8));
    }
    let (sr, _, _) = sky_sum.as_u8_color(samples);
    assert!(sr > red, "sky {} should outshine the sphere {}", sr, red);
}

#[test]
fn degenerate_ray_directions_collapse_to_the_fallback() {
    // a zero direction cannot be normalized; construction yields the
    // fixed unit fallback instead of an unusable ray
    let r = Ray::new(Vec3::new(0, 0, 0), Vec3::new(0, 0, 0));
    assert_eq!((r.direction().x(), r.direction().y(), r.direction().z()), (0, 0, -SCALE));
}
