use raytrace::fixed::SCALE;
use raytrace::la::{Ray, Vec3};
use raytrace::objects::{
    Dielectric, HitRecord, HittableList, Lambertian, Material, Metal, Sphere,
};
use raytrace::tracer::{ray_color, T_EPS};

fn gray() -> Material {
    Material::Lambertian(Lambertian::new(Vec3::new(SCALE / 2, SCALE / 2, SCALE / 2)))
}

#[test]
fn ray_construction_normalizes_the_direction() {
    let r = Ray::new(Vec3::new(SCALE, 0, 0), Vec3::new(0, -7 * SCALE, 0));
    assert_eq!((r.origin().x(), r.origin().y(), r.origin().z()), (SCALE, 0, 0));
    assert_eq!((r.direction().x(), r.direction().y(), r.direction().z()), (0, -SCALE, 0));
    let ls = r.direction().length_squared();
    assert!((ls - SCALE).abs() <= 16);
}

#[test]
fn ray_at_walks_the_direction() {
    let r = Ray::new(Vec3::new(0, 0, SCALE), Vec3::new(0, 0, -SCALE));
    let p = r.at(3 * SCALE);
    assert_eq!((p.x(), p.y(), p.z()), (0, 0, -2 * SCALE));
}

#[test]
fn ray_pointing_away_from_sphere_misses() {
    // sphere behind the ray; direction points directly away
    let s = Sphere::new(Vec3::new(0, 0, -10 * SCALE), SCALE, gray());
    let r = Ray::new(Vec3::new(0, 0, 0), Vec3::new(0, 0, SCALE));
    assert!(s.hit(&r, T_EPS, i64::MAX).is_none());
    assert!(s.hit(&r, 0, 100 * SCALE).is_none());
}

#[test]
fn ray_through_center_hits_at_symmetric_roots() {
    // center at distance 5, radius 1: roots 4 and 6, the nearer reported
    let s = Sphere::new(Vec3::new(0, 0, -5 * SCALE), SCALE, gray());
    let r = Ray::new(Vec3::new(0, 0, 0), Vec3::new(0, 0, -SCALE));
    let rec = s.hit(&r, T_EPS, i64::MAX).expect("must hit");
    assert_eq!(rec.t, 4 * SCALE);
    assert_eq!((rec.p.x(), rec.p.y(), rec.p.z()), (0, 0, -4 * SCALE));
    assert_eq!((rec.normal.x(), rec.normal.y(), rec.normal.z()), (0, 0, SCALE));
    assert!(rec.front_face);
    // the far root is reported once the interval excludes the near one
    let rec2 = s.hit(&r, 5 * SCALE, i64::MAX).expect("must hit far root");
    assert_eq!(rec2.t, 6 * SCALE);
    assert!(!rec2.front_face);
}

#[test]
fn hit_record_normal_opposes_the_ray() {
    let s = Sphere::new(Vec3::new(0, 0, -5 * SCALE), SCALE, gray());
    let r = Ray::new(Vec3::new(0, 0, 0), Vec3::new(0, 0, -SCALE));
    let rec = s.hit(&r, T_EPS, i64::MAX).unwrap();
    assert!(r.direction().vneg().dot(&rec.normal) >= 0);
    // from inside the sphere the normal is flipped and still opposes
    let inside = Ray::new(Vec3::new(0, 0, -5 * SCALE), Vec3::new(0, 0, -SCALE));
    let rec_in = s.hit(&inside, T_EPS, i64::MAX).expect("must hit");
    assert!(inside.direction().vneg().dot(&rec_in.normal) >= 0);
    assert!(!rec_in.front_face);
}

#[test]
fn list_reports_the_globally_nearest_hit() {
    let near = Sphere::new(Vec3::new(0, 0, -5 * SCALE), SCALE, gray());
    let far = Sphere::new(Vec3::new(0, 0, -10 * SCALE), SCALE, gray());
    let r = Ray::new(Vec3::new(0, 0, 0), Vec3::new(0, 0, -SCALE));

    let mut world = HittableList::new();
    world.add(far);
    world.add(near);
    assert_eq!(world.hit(&r, T_EPS, i64::MAX).unwrap().t, 4 * SCALE);

    let mut world2 = HittableList::new();
    world2.add(near);
    world2.add(far);
    assert_eq!(world2.hit(&r, T_EPS, i64::MAX).unwrap().t, 4 * SCALE);
}

#[test]
fn equal_distances_keep_the_first_found_hit() {
    // two coincident spheres: the later one would need a strictly
    // nearer hit to replace the first, so the first material wins
    let geom = Vec3::new(0, 0, -5 * SCALE);
    let first = Sphere::new(geom, SCALE, Material::Metal(Metal::new(Vec3::new(0, 0, 0), 0)));
    let second = Sphere::new(geom, SCALE, gray());
    let r = Ray::new(Vec3::new(0, 0, 0), Vec3::new(0, 0, -SCALE));
    let mut world = HittableList::new();
    world.add(first);
    world.add(second);
    let rec = world.hit(&r, T_EPS, i64::MAX).unwrap();
    assert!(matches!(rec.mat, Material::Metal(_)));
}

#[test]
fn empty_or_cleared_list_misses() {
    let r = Ray::new(Vec3::new(0, 0, 0), Vec3::new(0, 0, -SCALE));
    let mut world = HittableList::new();
    assert!(world.hit(&r, T_EPS, i64::MAX).is_none());
    world.add(Sphere::new(Vec3::new(0, 0, -5 * SCALE), SCALE, gray()));
    assert!(world.hit(&r, T_EPS, i64::MAX).is_some());
    world.clear();
    assert!(world.hit(&r, T_EPS, i64::MAX).is_none());
}

fn head_on_record(mat: Material) -> (Ray, HitRecord) {
    let s = Sphere::new(Vec3::new(0, 0, -5 * SCALE), SCALE, mat);
    let r = Ray::new(Vec3::new(0, 0, 0), Vec3::new(0, 0, -SCALE));
    let rec = s.hit(&r, T_EPS, i64::MAX).expect("must hit");
    (r, rec)
}

#[test]
fn lambertian_always_scatters_with_its_albedo() {
    let albedo = Vec3::new(3000, 40000, 65536);
    let lam = Lambertian::new(albedo);
    let (r, rec) = head_on_record(Material::Lambertian(lam));
    for _ in 0..200 {
        let (scattered, attenuation) = lam.scatter(&r, &rec).expect("never absorbs");
        assert_eq!((attenuation.x(), attenuation.y(), attenuation.z()), (3000, 40000, 65536));
        assert_eq!(
            (scattered.origin().x(), scattered.origin().y(), scattered.origin().z()),
            (rec.p.x(), rec.p.y(), rec.p.z()),
        );
    }
}

#[test]
fn smooth_metal_reflects_exactly() {
    let albedo = Vec3::new(SCALE, SCALE / 2, 0);
    let met = Metal::new(albedo, 0);
    let (r, rec) = head_on_record(Material::Metal(met));
    for _ in 0..50 {
        let (scattered, attenuation) = met.scatter(&r, &rec).expect("head-on reflects");
        assert_eq!((attenuation.x(), attenuation.y(), attenuation.z()), (SCALE, SCALE / 2, 0));
        // head-on mirror reflection: straight back along the normal
        assert_eq!(
            (scattered.direction().x(), scattered.direction().y(), scattered.direction().z()),
            (0, 0, SCALE),
        );
    }
}

#[test]
fn rough_metal_scatters_away_from_the_surface_or_absorbs() {
    let albedo = Vec3::new(SCALE / 2, SCALE / 2, SCALE);
    let met = Metal::new(albedo, SCALE / 2);
    let (r, rec) = head_on_record(Material::Metal(met));
    let mut continued = 0;
    for _ in 0..300 {
        if let Some((scattered, attenuation)) = met.scatter(&r, &rec) {
            continued += 1;
            assert!(scattered.direction().dot(&rec.normal) > 0);
            assert_eq!(
                (attenuation.x(), attenuation.y(), attenuation.z()),
                (SCALE / 2, SCALE / 2, SCALE),
            );
            assert_eq!(
                (scattered.origin().x(), scattered.origin().y(), scattered.origin().z()),
                (rec.p.x(), rec.p.y(), rec.p.z()),
            );
        }
    }
    // head-on with half-unit fuzz, the mirror direction dominates:
    // nearly every sample keeps the ray above the surface
    assert!(continued > 250, "only {} of 300 continued", continued);
}

#[test]
fn metal_roughness_is_clamped() {
    assert_eq!(Metal::new(Vec3::new(0, 0, 0), -5).roughness, 0);
    assert_eq!(Metal::new(Vec3::new(0, 0, 0), 3 * SCALE).roughness, SCALE);
    assert_eq!(Metal::new(Vec3::new(0, 0, 0), 1234).roughness, 1234);
}

#[test]
fn metal_absorbs_a_reflection_into_the_surface() {
    let met = Metal::new(Vec3::new(SCALE, SCALE, SCALE), 0);
    let r = Ray::new(Vec3::new(0, 0, 0), Vec3::new(0, 0, -SCALE));
    // a record whose normal agrees with the ray: the mirror direction
    // lands behind the surface and the ray is absorbed
    let rec = HitRecord {
        t: SCALE,
        p: Vec3::new(0, 0, -SCALE),
        normal: Vec3::new(0, 0, -SCALE),
        mat: Material::Metal(met),
        front_face: false,
    };
    assert!(met.scatter(&r, &rec).is_none());
}

#[test]
fn schlick_reflectance_matches_hand_values() {
    // cos = 1 kills the fifth-power term: r0 = ((1 - 1.5) / 2.5)^2
    assert_eq!(Dielectric::reflectance(SCALE, 98304), 2621);
    // ior = 1 gives r0 = 0, so reflectance is (1 - cos)^5
    assert_eq!(Dielectric::reflectance(SCALE, SCALE), 0);
    assert_eq!(Dielectric::reflectance(0, SCALE), SCALE);
}

#[test]
fn dielectric_always_continues_with_white_attenuation() {
    let glass = Dielectric::new(3 * SCALE / 2);
    let (r, rec) = head_on_record(Material::Dielectric(glass));
    for _ in 0..200 {
        let (scattered, attenuation) = glass.scatter(&r, &rec).expect("glass never absorbs");
        assert_eq!((attenuation.x(), attenuation.y(), attenuation.z()), (SCALE, SCALE, SCALE));
        assert_eq!(
            (scattered.origin().x(), scattered.origin().y(), scattered.origin().z()),
            (0, 0, -4 * SCALE),
        );
    }
}

#[test]
fn unit_index_glass_does_not_bend_head_on_rays() {
    let glass = Dielectric::new(SCALE);
    let (r, rec) = head_on_record(Material::Dielectric(glass));
    for _ in 0..200 {
        let (scattered, _) = glass.scatter(&r, &rec).expect("always continues");
        // reflectance is zero at cos = 1, so transmission is always
        // chosen, and a unit ratio bends nothing
        assert_eq!(
            (scattered.direction().x(), scattered.direction().y(), scattered.direction().z()),
            (0, 0, -SCALE),
        );
    }
}

#[test]
fn depth_zero_is_black() {
    let mut world = HittableList::new();
    world.add(Sphere::new(Vec3::new(0, 0, -5 * SCALE), SCALE, gray()));
    let r = Ray::new(Vec3::new(0, 0, 0), Vec3::new(0, 0, -SCALE));
    let c = ray_color(&r, &world, 0);
    assert_eq!((c.x(), c.y(), c.z()), (0, 0, 0));
}

#[test]
fn miss_returns_the_vertical_gradient() {
    let world = HittableList::new();
    let up = Ray::new(Vec3::new(0, 0, 0), Vec3::new(0, SCALE, 0));
    let c = ray_color(&up, &world, 10);
    assert_eq!((c.x(), c.y(), c.z()), (SCALE / 2, 45875, SCALE));
    let down = Ray::new(Vec3::new(0, 0, 0), Vec3::new(0, -SCALE, 0));
    let c2 = ray_color(&down, &world, 10);
    assert_eq!((c2.x(), c2.y(), c2.z()), (SCALE, SCALE, SCALE));
    // halfway: an even blend of white and sky
    let level = Ray::new(Vec3::new(0, 0, 0), Vec3::new(SCALE, 0, 0));
    let c3 = ray_color(&level, &world, 10);
    assert_eq!((c3.x(), c3.y(), c3.z()), (49152, 55705, SCALE));
}

#[test]
fn mirror_bounce_carries_the_sky_home() {
    // a head-on ray reflects straight back off smooth white metal,
    // escapes to the level-horizon sky, and arrives unattenuated
    let met = Metal::new(Vec3::new(SCALE, SCALE, SCALE), 0);
    let mut world = HittableList::new();
    world.add(Sphere::new(Vec3::new(0, 0, -5 * SCALE), SCALE, Material::Metal(met)));
    let r = Ray::new(Vec3::new(0, 0, 0), Vec3::new(0, 0, -SCALE));
    let c = ray_color(&r, &world, 3);
    assert_eq!((c.x(), c.y(), c.z()), (49152, 55705, SCALE));
}
