use rtrcrs::aabb::Aabb;
use rtrcrs::camera::Camera;
use rtrcrs::color::{anti_aliased, channel_to_byte, gamma_correct};
use rtrcrs::definitions::{
    degrees_to_radians, near_zero, random_double, random_in_hemisphere, reflect, refract,
};
use rtrcrs::hittable::{HitRecord, Primitive};
use rtrcrs::hittable_list::HittableList;
use rtrcrs::material::{Dielectric, Lambertian, Material, Metal};
use rtrcrs::moving::MovingSphere;
use rtrcrs::num::{isqrt, SCALE, T_BOUND, T_EPS};
use rtrcrs::ray::{Point3, Ray};
use rtrcrs::sphere::Sphere;
use rtrcrs::vector::Vec3;

const S: i64 = SCALE;

fn gray() -> Material {
    Material::Lambertian(Lambertian::new(Vec3::new(S / 2, S / 2, S / 2)))
}

#[test]
fn ray_test() {
    let origin = Point3::new(3 * S, 2 * S, S);
    let dir = Vec3::new(2 * S, 3 * S, 5 * S);
    let ray = Ray::new(origin, dir, 0);

    assert_eq!(ray.origin(), origin);
    assert_eq!(ray.direction(), dir);
    assert_eq!(ray.at(3 * S), origin.plus(dir.scale_fixed(3 * S)));
    assert_eq!(ray.at(3 * S), Vec3::new(9 * S, 11 * S, 16 * S));
}

#[test]
fn vec3_ops_test() {
    let a = Vec3::new(1, 2, 3);
    let b = Vec3::new(4, 5, 6);
    assert_eq!(a.plus(b), Vec3::new(5, 7, 9));
    assert_eq!(a.minus(b), Vec3::new(-3, -3, -3));
    assert_eq!(a.neg(), Vec3::new(-1, -2, -3));
    assert_eq!(a.dot(b), 32);
    assert_eq!(a.cross(b), Vec3::new(-3, 6, -3));
    assert_eq!(a.length_squared(), 14);
}

#[test]
fn vec3_length_345_test() {
    let v = Vec3::new(3 * S, 4 * S, 0);
    assert_eq!(v.length(), 5 * S);
}

#[test]
fn vec3_unit_vector_test_exact() {
    let v = Vec3::new(0, 0, -2 * S);
    assert_eq!(Vec3::unit_vector(v), Vec3::new(0, 0, -S));
    let w = Vec3::unit_vector(Vec3::new(3 * S, 4 * S, 0));
    assert_eq!(w, Vec3::new(3 * S / 5, 4 * S / 5, 0));
}

#[test]
fn isqrt_test() {
    assert_eq!(isqrt(0), 0);
    assert_eq!(isqrt(1), 1);
    assert_eq!(isqrt(24), 4);
    assert_eq!(isqrt(25), 5);
    assert_eq!(isqrt((1u128 << 30) as u128), 32768);
}

#[test]
fn near_zero_test() {
    assert!(near_zero(Vec3::new(0, 0, 0)));
    assert!(!near_zero(Vec3::new(0, 1, 0)));
}

#[test]
fn surrounding_box_test() {
    let a = Aabb::new(Vec3::new(0, -S, 2 * S), Vec3::new(3 * S, 4 * S, 5 * S));
    let b = Aabb::new(Vec3::new(-2 * S, 5 * S, S), Vec3::new(S, 9 * S, 4 * S));
    let r = Aabb::surrounding_box(&a, &b);
    assert_eq!(r.min, Vec3::new(-2 * S, -S, S));
    assert_eq!(r.max, Vec3::new(3 * S, 9 * S, 5 * S));
}

#[test]
fn aabb_slab_test() {
    let b = Aabb::new(Vec3::new(-S, -S, -3 * S), Vec3::new(S, S, -S));
    let through = Ray::new(Point3::new(0, 0, 0), Vec3::new(0, 0, -S), 0);
    assert!(b.hit(&through, 0, T_BOUND));
    let away = Ray::new(Point3::new(0, 0, 0), Vec3::new(0, 0, S), 0);
    assert!(!b.hit(&away, 0, T_BOUND));
    let aside = Ray::new(Point3::new(4 * S, 0, 0), Vec3::new(0, 0, -S), 0);
    assert!(!b.hit(&aside, 0, T_BOUND));
}

#[test]
fn sphere_hit_from_center_test() {
    let sphere = Sphere::new(Point3::new(0, 0, 0), S / 2, gray());
    let ray = Ray::new(Point3::new(0, 0, 0), Vec3::new(0, 0, -S), 0);
    let rec = sphere.hit(&ray, 0, T_BOUND).expect("the sphere must be struck");
    assert_eq!(rec.t, S / 2);
    assert_eq!(rec.point, Vec3::new(0, 0, -S / 2));
    assert_eq!(rec.normal, Vec3::new(0, 0, S));
    assert!(!rec.front_face);
}

#[test]
fn sphere_hit_front_test() {
    let sphere = Sphere::new(Point3::new(0, 0, -2 * S), S / 2, gray());
    let ray = Ray::new(Point3::new(0, 0, 0), Vec3::new(0, 0, -S), 0);
    let rec = sphere.hit(&ray, 0, T_BOUND).expect("the sphere must be struck");
    assert_eq!(rec.t, 3 * S / 2);
    assert_eq!(rec.point, Vec3::new(0, 0, -3 * S / 2));
    assert_eq!(rec.normal, Vec3::new(0, 0, S));
    assert!(rec.front_face);
}

#[test]
fn sphere_tangent_test() {
    let sphere = Sphere::new(Point3::new(0, S, -2 * S), S, gray());
    let ray = Ray::new(Point3::new(0, 0, 0), Vec3::new(0, 0, -S), 0);
    let rec = sphere.hit(&ray, 0, T_BOUND).expect("a tangent ray still strikes once");
    assert_eq!(rec.t, 2 * S);
    assert_eq!(rec.point, Vec3::new(0, 0, -2 * S));
    assert!(!rec.front_face);
    assert_eq!(rec.normal, Vec3::new(0, S, 0));
    let offset_ray = Ray::new(Point3::new(0, -1, 0), Vec3::new(0, 0, -S), 0);
    assert!(sphere.hit(&offset_ray, 0, T_BOUND).is_none());
}

#[test]
fn sphere_miss_test() {
    let sphere = Sphere::new(Point3::new(0, 3 * S, -2 * S), S / 2, gray());
    let ray = Ray::new(Point3::new(0, 0, 0), Vec3::new(0, 0, -S), 0);
    assert!(sphere.hit(&ray, 0, T_BOUND).is_none());
}

#[test]
fn sphere_window_test() {
    let sphere = Sphere::new(Point3::new(0, 0, -2 * S), S / 2, gray());
    let ray = Ray::new(Point3::new(0, 0, 0), Vec3::new(0, 0, -S), 0);
    assert!(sphere.hit(&ray, 0, S).is_none());
    assert!(sphere.hit(&ray, 3 * S, 4 * S).is_none());
    assert!(sphere.hit(&ray, 0, 2 * S).is_some());
    let exit = sphere.hit(&ray, 2 * S, 3 * S).expect("the exit root lies in this window");
    assert_eq!(exit.t, 5 * S / 2);
    assert!(exit.front_face == false);
}

#[test]
fn moving_sphere_center_test() {
    let ms = MovingSphere::new(
        Point3::new(0, 0, 0),
        Point3::new(S, 0, 0),
        0,
        S,
        S / 2,
        gray(),
    );
    assert_eq!(ms.center(0), Vec3::new(0, 0, 0));
    assert_eq!(ms.center(S / 2), Vec3::new(S / 2, 0, 0));
    assert_eq!(ms.center(S), Vec3::new(S, 0, 0));
}

#[test]
fn moving_sphere_hit_test() {
    let ms = MovingSphere::new(
        Point3::new(-4 * S, 0, -2 * S),
        Point3::new(4 * S, 0, -2 * S),
        0,
        S,
        S / 2,
        gray(),
    );
    let ray_start = Ray::new(Point3::new(-4 * S, 0, 0), Vec3::new(0, 0, -S), 0);
    assert!(ms.hit(&ray_start, 0, T_BOUND).is_some());
    let ray_wrong_time = Ray::new(Point3::new(-4 * S, 0, 0), Vec3::new(0, 0, -S), S);
    assert!(ms.hit(&ray_wrong_time, 0, T_BOUND).is_none());
}

#[test]
fn hittable_list_nearest_test() {
    let mut world = HittableList::default();
    world.add(Primitive::Sphere(Sphere::new(Point3::new(0, 0, -4 * S), S / 2, gray())));
    world.add(Primitive::Sphere(Sphere::new(Point3::new(0, 0, -2 * S), S / 2, gray())));
    let ray = Ray::new(Point3::new(0, 0, 0), Vec3::new(0, 0, -S), 0);
    let rec = world.hit(&ray, T_EPS, T_BOUND).expect("both spheres lie ahead");
    assert_eq!(rec.t, 3 * S / 2);
    world.clear();
    assert!(world.hit(&ray, T_EPS, T_BOUND).is_none());
}

#[test]
fn bvh_matches_linear_scan_test() {
    let mut world = HittableList::default();
    world.add(Primitive::Sphere(Sphere::new(Point3::new(0, -6 * S, -4 * S), 5 * S, gray())));
    world.add(Primitive::Sphere(Sphere::new(Point3::new(0, 0, -2 * S), S / 2, gray())));
    world.add(Primitive::Sphere(Sphere::new(Point3::new(S, S, -3 * S), S / 2, gray())));
    world.add(Primitive::Sphere(Sphere::new(Point3::new(-2 * S, 0, -5 * S), S, gray())));
    world.add(Primitive::MovingSphere(MovingSphere::new(
        Point3::new(2 * S, 0, -3 * S),
        Point3::new(2 * S, S / 2, -3 * S),
        0,
        S,
        S / 2,
        gray(),
    )));
    let bvh = rtrcrs::bvh::BvhNode::new(&mut world, 0, S);
    assert_eq!(world.objects().len(), 5);
    let dirs = [
        Vec3::new(0, 0, -S),
        Vec3::new(S / 4, S / 8, -S),
        Vec3::new(-S / 3, -S / 5, -S),
        Vec3::new(0, S, 0),
        Vec3::new(S, S, S),
    ];
    for (i, d) in dirs.iter().enumerate() {
        let time = (i as i64) * (S / 8);
        let ray = Ray::new(Point3::new(0, S / 4, S), *d, time);
        let from_tree = bvh.hit(&ray, T_EPS, T_BOUND);
        let from_scan = world.hit(&ray, T_EPS, T_BOUND);
        assert_eq!(from_tree, from_scan);
    }
}

#[test]
fn trace_depth_zero_test() {
    let mut world = HittableList::default();
    world.add(Primitive::Sphere(Sphere::new(Point3::new(0, 0, -2 * S), S / 2, gray())));
    let ray = Ray::new(Point3::new(0, 0, 0), Vec3::new(0, 0, -S), 0);
    assert_eq!(ray.color(&world, 0), Vec3::new(0, 0, 0));
}

#[test]
fn trace_background_test() {
    let world = HittableList::default();
    let up = Ray::new(Point3::new(0, 0, 0), Vec3::new(0, S, 0), 0);
    assert_eq!(up.color(&world, 10), Vec3::new(S / 2, 45875, S));
    let down = Ray::new(Point3::new(0, 0, 0), Vec3::new(0, -S, 0), 0);
    assert_eq!(down.color(&world, 10), Vec3::new(S, S, S));
    let slanted = Ray::new(Point3::new(3 * S, 2 * S, S), Vec3::new(2 * S, 3 * S, 5 * S), 0);
    let c = slanted.color(&world, 10);
    assert!(S / 2 <= c.x && c.x <= S);
    assert!(45875 <= c.y && c.y <= S);
    assert_eq!(c.z, S);
}

#[test]
fn trace_bounded_test() {
    let mut world = HittableList::default();
    world.add(Primitive::Sphere(Sphere::new(Point3::new(0, 0, -2 * S), S / 2, gray())));
    world.add(Primitive::Sphere(Sphere::new(
        Point3::new(0, -100 * S, 0),
        99 * S,
        Material::Metal(Metal::new(Vec3::new(S / 2, S / 2, S / 2), S / 4)),
    )));
    let ray = Ray::new(Point3::new(0, 0, 0), Vec3::new(0, 0, -S), 0);
    for depth in [1, 2, 10, 50] {
        let c = ray.color(&world, depth);
        assert!(0 <= c.x && c.x <= S);
        assert!(0 <= c.y && c.y <= S);
        assert!(0 <= c.z && c.z <= S);
    }
}

fn sample_hit() -> HitRecord {
    let sphere = Sphere::new(Point3::new(0, 0, -2 * S), S / 2, gray());
    let ray = Ray::new(Point3::new(0, 0, 0), Vec3::new(0, 0, -S), 0);
    sphere.hit(&ray, 0, T_BOUND).expect("the sphere must be struck")
}

#[test]
fn lambertian_scatter_test() {
    let albedo = Vec3::new(S / 4, S / 2, 3 * S / 4);
    let mat = Lambertian::new(albedo);
    let ray = Ray::new(Point3::new(0, 0, 0), Vec3::new(0, 0, -S), 0);
    let rec = sample_hit();
    for _ in 0..16 {
        let (attenuation, scattered) = mat.scatter(&ray, &rec).expect("diffuse always scatters");
        assert_eq!(attenuation, albedo);
        assert_eq!(scattered.origin(), rec.point);
        assert_eq!(scattered.time(), 0);
    }
}

#[test]
fn metal_scatter_test() {
    let albedo = Vec3::new(S, 3 * S / 4, S / 2);
    let mat = Metal::new(albedo, 0);
    let ray = Ray::new(Point3::new(0, 0, 0), Vec3::new(0, 0, -S), 0);
    let rec = sample_hit();
    let (attenuation, scattered) = mat.scatter(&ray, &rec).expect("head-on reflection scatters");
    assert_eq!(attenuation, albedo);
    assert_eq!(scattered.direction(), Vec3::new(0, 0, S));
    assert!(0 <= attenuation.x && attenuation.x <= S);
    assert!(0 <= attenuation.y && attenuation.y <= S);
    assert!(0 <= attenuation.z && attenuation.z <= S);
}

#[test]
fn dielectric_scatter_test() {
    let mat = Dielectric::new(3 * S / 2);
    let ray = Ray::new(Point3::new(0, 0, 0), Vec3::new(0, 0, -S), 0);
    let rec = sample_hit();
    for u in [0, S / 2, S - 1] {
        let (attenuation, scattered) = mat.scatter_with(&ray, &rec, u);
        assert_eq!(attenuation, Vec3::new(S, S, S));
        assert_eq!(scattered.origin(), rec.point);
    }
}

#[test]
fn reflect_test() {
    let r = reflect(&Vec3::new(0, 0, -S), &Vec3::new(0, 0, S));
    assert_eq!(r, Vec3::new(0, 0, S));
    let slanted = reflect(&Vec3::new(S, 0, -S), &Vec3::new(0, 0, S));
    assert_eq!(slanted, Vec3::new(S, 0, S));
}

#[test]
fn refract_straight_test() {
    let r = refract(&Vec3::new(0, 0, -S), &Vec3::new(0, 0, S), S);
    assert_eq!(r, Vec3::new(0, 0, -S));
}

#[test]
fn anti_aliased_test() {
    let c = anti_aliased(Vec3::new(25 * S, 0, 100 * S), 100);
    assert_eq!(c.x, S / 2);
    assert_eq!(c.y, 0);
    assert_eq!(c.z, 65470);
    let negative = anti_aliased(Vec3::new(-S, -S, -S), 4);
    assert_eq!(negative, Vec3::new(0, 0, 0));
}

#[test]
fn random_unit_vector_norm_test() {
    for _ in 0..32 {
        let v = rtrcrs::definitions::random_unit_vector();
        let d = v.dot(v);
        let s2 = (S as i128) * (S as i128);
        assert!(s2 - 6 * (S as i128) <= d && d <= s2 + 15 * (S as i128));
    }
}

#[test]
fn random_in_hemisphere_test() {
    let normal = Vec3::new(0, S, 0);
    for _ in 0..16 {
        let v = random_in_hemisphere(&normal);
        assert!(v.dot(v) < (S as i128) * (S as i128));
        assert!(v != Vec3::new(0, 0, 0));
    }
}

#[test]
fn gamma_correct_test() {
    // A quarter-intensity average gamma-corrects to half intensity: 128.
    let bytes = gamma_correct(Vec3::new(25 * S, 0, 100 * S), 100);
    assert_eq!(bytes.0, 128);
    assert_eq!(bytes.1, 0);
    assert_eq!(bytes.2, 255);
    assert_eq!(channel_to_byte(0), 0);
    assert_eq!(channel_to_byte(S / 2), 128);
    assert_eq!(channel_to_byte(65470), 255);
}

#[test]
fn degrees_to_radians_test() {
    assert_eq!(degrees_to_radians(180 * S), 205887);
    assert_eq!(degrees_to_radians(90 * S), 205887 / 2);
}

#[test]
fn random_double_range_test() {
    for _ in 0..64 {
        let r = random_double(5, 7);
        assert!(5 <= r && r < 7);
        let s = random_double(-3 * S, -2 * S);
        assert!(-3 * S <= s && s < -2 * S);
    }
}

#[test]
fn camera_get_ray_test() {
    let camera = Camera::new(
        &Point3::new(0, 0, 0),
        &Point3::new(0, 0, -4 * S),
        &Vec3::new(0, S, 0),
        S / 4,
        3 * S / 2,
        0,
        4 * S,
        0,
        S,
    );
    let ray = camera.get_ray_with(S / 2, S / 2, Vec3::new(0, 0, 0), 0);
    assert_eq!(ray.origin(), Vec3::new(0, 0, 0));
    assert_eq!(ray.time(), 0);
    assert!(ray.direction().z < 0);
    for _ in 0..8 {
        let sampled = camera.get_ray(S / 2, S / 2);
        assert!(0 <= sampled.time() && sampled.time() <= S);
    }
}
