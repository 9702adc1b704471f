use pathtracer::model::triangles;
use pathtracer::render::{paint, pixel_at};
use pathtracer::sort::{merge, sort_range};
use pathtracer::sphere::select_root;
use pathtracer::{
    ray_path, Corners, HitRecord, Hittable, HittableList, Material, MeshError, Model, PathEnd, Ray, Scatter,
    Vec3, AABB,
};

fn key(x: f64) -> i64 {
    let b = (x + 0.0).to_bits() as i64;
    if b < 0 {
        b ^ i64::MAX
    } else {
        b
    }
}

fn val(k: i64) -> f64 {
    f64::from_bits((if k < 0 { k ^ i64::MAX } else { k }) as u64)
}

fn point(v: [f64; 3]) -> Vec3 {
    Vec3::from_keys(key(v[0]), key(v[1]), key(v[2]))
}

fn coords(v: Vec3) -> [f64; 3] {
    [val(v.x()), val(v.y()), val(v.z())]
}

fn dot(a: [f64; 3], b: [f64; 3]) -> f64 {
    a[0] * b[0] + a[1] * b[1] + a[2] * b[2]
}

fn unit(a: [f64; 3]) -> [f64; 3] {
    let l = dot(a, a).sqrt();
    [a[0] / l, a[1] / l, a[2] / l]
}

/// What a surface does with a ray in these tests.
#[derive(Clone, Copy, PartialEq, Debug)]
enum Surface {
    /// Sends the ray on along the normal and keeps `albedo` of the light.
    Matte { albedo: [f64; 3] },
    /// Sends the ray on as a mirror does, and keeps `albedo` of the light.
    Mirror { albedo: [f64; 3] },
    /// Absorbs every ray.
    Black,
}

impl Material for Surface {
    fn scatter(&self, ray: &Ray, rec: &HitRecord<Surface>) -> Option<Scatter> {
        match self {
            Surface::Matte { albedo } => {
                Some(Scatter { attenuation: point(*albedo), scattered: Ray::new(&rec.p, &rec.normal) })
            }
            Surface::Mirror { albedo } => {
                let (v, n) = (unit(coords(ray.direction())), coords(rec.normal));
                let k = 2.0 * dot(v, n);
                let out = [v[0] - k * n[0], v[1] - k * n[1], v[2] - k * n[2]];
                Some(Scatter { attenuation: point(*albedo), scattered: Ray::new(&rec.p, &point(out)) })
            }
            Surface::Black => None,
        }
    }
}

#[derive(Clone, Copy)]
struct Sphere {
    center: [f64; 3],
    radius: f64,
    surface: Surface,
}

impl Hittable for Sphere {
    type Mat = Surface;

    fn hit(&self, ray: &Ray, min: i64, max: i64) -> Option<HitRecord<Surface>> {
        let (o, d) = (coords(ray.origin()), coords(ray.direction()));
        let oc = [o[0] - self.center[0], o[1] - self.center[1], o[2] - self.center[2]];
        let a = dot(d, d);
        let b = 2.0 * dot(d, oc);
        let c = dot(oc, oc) - self.radius * self.radius;
        let disc = b * b - 4.0 * a * c;
        if disc < 0.0 {
            return None;
        }
        let s = disc.sqrt();
        let t = val(select_root(key((-b - s) / (2.0 * a)), key((-b + s) / (2.0 * a)), min, max)?);
        let p = [o[0] + t * d[0], o[1] + t * d[1], o[2] + t * d[2]];
        let n = [
            (p[0] - self.center[0]) / self.radius,
            (p[1] - self.center[1]) / self.radius,
            (p[2] - self.center[2]) / self.radius,
        ];
        let front_face = dot(d, n) < 0.0;
        let normal = if front_face { n } else { [-n[0], -n[1], -n[2]] };
        Some(HitRecord { p: point(p), normal: point(normal), t: key(t), front_face, material: self.surface })
    }

    fn bounding_box(&self) -> Option<AABB> {
        let (c, r) = (self.center, self.radius);
        Some(AABB::new(point([c[0] - r, c[1] - r, c[2] - r]), point([c[0] + r, c[1] + r, c[2] + r])))
    }
}

/// A camera at the origin that looks down -z at a viewport two units high, one
/// unit away.
fn camera_ray(u: f64, v: f64) -> Ray {
    let aspect = 16.0 / 9.0;
    let (h, w) = (2.0, aspect * 2.0);
    let lower_left = [-w / 2.0, -h / 2.0, -1.0];
    Ray::new(&point([0.0, 0.0, 0.0]), &point([lower_left[0] + u * w, lower_left[1] + v * h, lower_left[2]]))
}

fn sky(ray: &Ray) -> [f64; 3] {
    let t = 0.5 * (unit(coords(ray.direction()))[1] + 1.0);
    [(1.0 - t) + t * 0.5, (1.0 - t) + t * 0.7, (1.0 - t) + t]
}

/// The light that a path carries: the light at its end, times what every
/// bounce kept, the last bounce first.
fn colour(path: &pathtracer::Path) -> [f64; 3] {
    let mut c = match path.end {
        PathEnd::Escaped => sky(&path.last),
        PathEnd::Absorbed | PathEnd::Exhausted => [0.0, 0.0, 0.0],
    };
    for kept in &path.attenuation {
        let k = coords(*kept);
        c = [k[0] * c[0], k[1] * c[1], k[2] * c[2]];
    }
    c
}

fn world_of(spheres: &[Sphere]) -> HittableList<Sphere> {
    let mut world = HittableList::new();
    for s in spheres {
        world.add(*s);
    }
    world
}

const NEAR: f64 = 0.001;

#[test]
fn a_single_sphere_from_end_to_end() {
    let world = world_of(&[Sphere {
        center: [0.0, 0.0, -1.0],
        radius: 0.5,
        surface: Surface::Matte { albedo: [0.5, 0.5, 0.5] },
    }]);
    // the centre pixel strikes the sphere, and its one bounce is used up
    let centre = camera_ray(0.5, 0.5);
    let path = ray_path(&centre, &world, 1, key(NEAR), key(f64::INFINITY));
    assert_eq!(path.end, PathEnd::Exhausted);
    assert_eq!(path.attenuation, vec![point([0.5, 0.5, 0.5])]);
    assert_eq!(coords(path.last.origin()), [0.0, 0.0, -0.5]);
    assert_eq!(colour(&path), [0.0, 0.0, 0.0]);
    assert!(colour(&path) != sky(&centre));
    // the top row sees the sky
    for column in 0..5 {
        let top = camera_ray(column as f64 / 4.0, 1.0);
        let path = ray_path(&top, &world, 1, key(NEAR), key(f64::INFINITY));
        assert_eq!(path.end, PathEnd::Escaped);
        assert!(path.attenuation.is_empty());
        assert_eq!(path.last, top);
        assert_eq!(colour(&path), sky(&top));
    }
}

#[test]
fn no_bounce_allowed_no_light() {
    let world = world_of(&[Sphere { center: [0.0, 0.0, -1.0], radius: 0.5, surface: Surface::Black }]);
    for ray in [camera_ray(0.5, 0.5), camera_ray(0.0, 1.0)] {
        let path = ray_path(&ray, &world, 0, key(NEAR), key(f64::INFINITY));
        assert_eq!(path.end, PathEnd::Exhausted);
        assert!(path.attenuation.is_empty());
        assert_eq!(path.last, ray);
        assert_eq!(colour(&path), [0.0, 0.0, 0.0]);
    }
}

#[test]
fn an_absorbed_ray_ends_the_path() {
    let world = world_of(&[Sphere { center: [0.0, 0.0, -1.0], radius: 0.5, surface: Surface::Black }]);
    let ray = camera_ray(0.5, 0.5);
    let path = ray_path(&ray, &world, 5, key(NEAR), key(f64::INFINITY));
    assert_eq!(path.end, PathEnd::Absorbed);
    assert!(path.attenuation.is_empty());
    assert_eq!(path.last, ray);
    assert_eq!(colour(&path), [0.0, 0.0, 0.0]);
}

#[test]
fn a_scattered_ray_goes_on() {
    let world = world_of(&[Sphere {
        center: [0.0, 0.0, -1.0],
        radius: 0.5,
        surface: Surface::Matte { albedo: [0.5, 0.25, 1.0] },
    }]);
    let ray = camera_ray(0.5, 0.5);
    let path = ray_path(&ray, &world, 5, key(NEAR), key(f64::INFINITY));
    // struck at (0, 0, -0.5), sent back along +z, into the sky at the horizon
    assert_eq!(path.end, PathEnd::Escaped);
    assert_eq!(path.attenuation, vec![point([0.5, 0.25, 1.0])]);
    assert_eq!(coords(path.last.origin()), [0.0, 0.0, -0.5]);
    assert_eq!(coords(path.last.direction()), [0.0, 0.0, 1.0]);
    assert_eq!(colour(&path), [0.5 * 0.75, 0.25 * 0.85, 1.0]);
}

#[test]
fn bounces_are_listed_from_the_last_to_the_first() {
    // two mirrors that face each other along z, a dark one and a bright one
    let dark = Surface::Mirror { albedo: [0.5, 0.5, 0.5] };
    let bright = Surface::Mirror { albedo: [0.75, 1.0, 0.25] };
    let world = world_of(&[
        Sphere { center: [0.0, 0.0, -3.0], radius: 1.0, surface: dark },
        Sphere { center: [0.0, 0.0, 3.0], radius: 1.0, surface: bright },
    ]);
    let ray = Ray::new(&point([0.0, 0.0, 0.0]), &point([0.0, 0.0, -1.0]));
    let path = ray_path(&ray, &world, 3, key(NEAR), key(f64::INFINITY));
    assert_eq!(path.end, PathEnd::Exhausted);
    let kept: Vec<[f64; 3]> = path.attenuation.iter().map(|c| coords(*c)).collect();
    assert_eq!(kept, vec![[0.5, 0.5, 0.5], [0.75, 1.0, 0.25], [0.5, 0.5, 0.5]]);
    let path = ray_path(&ray, &world, 4, key(NEAR), key(f64::INFINITY));
    let kept: Vec<[f64; 3]> = path.attenuation.iter().map(|c| coords(*c)).collect();
    assert_eq!(kept, vec![[0.75, 1.0, 0.25], [0.5, 0.5, 0.5], [0.75, 1.0, 0.25], [0.5, 0.5, 0.5]]);
    assert_eq!(coords(path.last.origin()), [0.0, 0.0, 2.0]);
    assert_eq!(coords(path.last.direction()), [0.0, 0.0, -1.0]);
}

#[test]
fn a_path_looks_no_farther_than_asked() {
    let world = world_of(&[Sphere { center: [0.0, 0.0, -1.0], radius: 0.5, surface: Surface::Black }]);
    let ray = camera_ray(0.5, 0.5);
    assert_eq!(ray_path(&ray, &world, 2, key(NEAR), key(0.25)).end, PathEnd::Escaped);
    assert_eq!(ray_path(&ray, &world, 2, key(NEAR), key(0.5)).end, PathEnd::Absorbed);
    assert_eq!(ray_path(&ray, &world, 2, key(1.0), key(2.0)).end, PathEnd::Absorbed);
    assert_eq!(ray_path(&ray, &world, 2, key(1.75), key(2.0)).end, PathEnd::Escaped);
}

#[test]
fn the_nearer_root_counts_first() {
    assert_eq!(select_root(2, 5, 0, 10), Some(2));
    assert_eq!(select_root(2, 5, 2, 2), Some(2));
    assert_eq!(select_root(2, 5, 3, 10), Some(5));
    assert_eq!(select_root(2, 5, 0, 1), None);
    assert_eq!(select_root(2, 5, 3, 4), None);
    assert_eq!(select_root(2, 5, 6, 10), None);
    assert_eq!(select_root(-7, -3, -5, 0), Some(-3));
    assert_eq!(select_root(key(1.5), key(2.5), key(0.001), key(f64::INFINITY)), Some(key(1.5)));
    assert_eq!(select_root(key(-0.5), key(0.5), key(0.001), key(f64::INFINITY)), Some(key(0.5)));
}

#[test]
fn sorting_a_range_is_stable_and_leaves_the_rest() {
    let keys: Vec<i64> = vec![50, 10, 40, 10, 30, 10, 20, 0];
    let mut order: Vec<usize> = vec![7, 0, 1, 2, 3, 4, 5, 6];
    sort_range(&mut order, &keys, 1, 7);
    // of the items with key 10 the order 1, 3, 5 is kept
    assert_eq!(order, vec![7, 1, 3, 5, 4, 2, 0, 6]);
    sort_range(&mut order, &keys, 0, 8);
    assert_eq!(order, vec![7, 1, 3, 5, 6, 4, 2, 0]);
    let mut order: Vec<usize> = vec![5, 3, 1, 0];
    sort_range(&mut order, &keys, 0, 3);
    assert_eq!(order, vec![5, 3, 1, 0]);
    sort_range(&mut order, &keys, 2, 2);
    sort_range(&mut order, &keys, 4, 4);
    sort_range(&mut order, &keys, 3, 4);
    assert_eq!(order, vec![5, 3, 1, 0]);
    let mut order: Vec<usize> = vec![0, 2, 4, 6, 7];
    sort_range(&mut order, &keys, 0, 5);
    assert_eq!(order, vec![7, 6, 4, 2, 0]);
}

#[test]
fn merging_two_runs_takes_the_left_one_first() {
    let keys: Vec<i64> = vec![10, 20, 20, 30, 10, 20, 40, 0];
    // the runs 0, 1, 2, 3 and 4, 5, 6, between two items that stay
    let mut order: Vec<usize> = vec![7, 0, 1, 2, 3, 4, 5, 6, 7];
    merge(&mut order, &keys, 1, 5, 8);
    assert_eq!(order, vec![7, 0, 4, 1, 2, 5, 3, 6, 7]);
    let mut order: Vec<usize> = vec![0, 1, 2, 3];
    merge(&mut order, &keys, 0, 0, 4);
    assert_eq!(order, vec![0, 1, 2, 3]);
    merge(&mut order, &keys, 0, 4, 4);
    assert_eq!(order, vec![0, 1, 2, 3]);
    let mut order: Vec<usize> = vec![6, 7];
    merge(&mut order, &keys, 0, 1, 2);
    assert_eq!(order, vec![7, 6]);
}

#[test]
fn sorting_many_items() {
    let mut state: u64 = 99;
    let keys: Vec<i64> = (0..500)
        .map(|_| {
            state = state.wrapping_mul(6364136223846793005).wrapping_add(1442695040888963407);
            ((state >> 33) % 50) as i64 - 25
        })
        .collect();
    let mut order: Vec<usize> = (0..500).collect();
    sort_range(&mut order, &keys, 0, 500);
    let mut expected: Vec<usize> = (0..500).collect();
    expected.sort_by_key(|i| keys[*i]);
    assert_eq!(order, expected);
}

#[test]
fn triangles_are_read_off_the_buffers() {
    let positions: Vec<i64> = [0.0, 0.0, 0.0, 1.0, 0.0, 0.0, 1.0, 1.0, 0.0, 0.0, 1.0, 0.5]
        .iter()
        .map(|x| key(*x))
        .collect();
    let indices: Vec<u32> = vec![0, 1, 2, 0, 2, 3];
    let tris = triangles(&positions, &indices).unwrap();
    assert_eq!(
        tris,
        vec![
            Corners { v0: point([0.0, 0.0, 0.0]), v1: point([1.0, 0.0, 0.0]), v2: point([1.0, 1.0, 0.0]) },
            Corners { v0: point([0.0, 0.0, 0.0]), v1: point([1.0, 1.0, 0.0]), v2: point([0.0, 1.0, 0.5]) },
        ]
    );
    assert_eq!(triangles(&positions, &vec![]), Ok(vec![]));
    assert_eq!(triangles(&vec![], &vec![]), Ok(vec![]));
}

#[test]
fn buffers_that_are_no_mesh() {
    let positions: Vec<i64> = (0..12).collect();
    assert_eq!(triangles(&positions[..11].to_vec(), &vec![0, 1, 2]), Err(MeshError::Positions));
    assert_eq!(triangles(&positions[..10].to_vec(), &vec![0, 1]), Err(MeshError::Positions));
    assert_eq!(triangles(&positions, &vec![0, 1]), Err(MeshError::NotTriangulated));
    assert_eq!(triangles(&positions, &vec![0, 1, 2, 3]), Err(MeshError::NotTriangulated));
    assert_eq!(triangles(&positions, &vec![0, 1, 4]), Err(MeshError::NoSuchVertex { at: 2 }));
    assert_eq!(triangles(&positions, &vec![0, 1, 3, 9, 2, 7]), Err(MeshError::NoSuchVertex { at: 3 }));
    assert_eq!(triangles(&vec![], &vec![0, 0, 0]), Err(MeshError::NoSuchVertex { at: 0 }));
    assert!(triangles(&positions, &vec![3, 3, 3]).is_ok());
}

#[test]
fn a_mesh_is_searched_like_a_list() {
    let parts = vec![
        Sphere { center: [0.0, 0.0, -5.0], radius: 1.0, surface: Surface::Black },
        Sphere { center: [0.0, 0.0, -2.0], radius: 0.5, surface: Surface::Matte { albedo: [1.0, 1.0, 1.0] } },
    ];
    let mesh = Model::new(parts.clone());
    assert_eq!(mesh.len(), 2);
    let ray = Ray::new(&point([0.0, 0.0, 0.0]), &point([0.0, 0.0, -1.0]));
    let h = mesh.hit(&ray, key(NEAR), key(f64::INFINITY)).unwrap();
    assert_eq!(val(h.t), 1.5);
    assert_eq!(h.material, Surface::Matte { albedo: [1.0, 1.0, 1.0] });
    assert!(mesh.hit(&ray, key(NEAR), key(1.0)).is_none());
    let bb = mesh.bounding_box().unwrap();
    assert_eq!(coords(bb.min()), [-1.0, -1.0, -6.0]);
    assert_eq!(coords(bb.max()), [1.0, 1.0, -1.5]);
    assert_eq!(Model::<Sphere>::new(vec![]).bounding_box(), None);
    // a mesh is a shape like any other
    let mut world = HittableList::new();
    world.add(mesh);
    let h = world.hit(&ray, key(NEAR), key(f64::INFINITY)).unwrap();
    assert_eq!(val(h.t), 1.5);
}

#[test]
fn samples_fill_the_image_from_the_bottom_row_up() {
    let (w, h) = (400, 225);
    let first = pixel_at(0, w, h);
    assert_eq!((first.x, first.y), (0, 224));
    let p = pixel_at(399, w, h);
    assert_eq!((p.x, p.y), (399, 224));
    let p = pixel_at(400, w, h);
    assert_eq!((p.x, p.y), (0, 223));
    let p = pixel_at(45_200, w, h);
    assert_eq!((p.x, p.y), (0, 111));
    let last = pixel_at(w * h - 1, w, h);
    assert_eq!((last.x, last.y), (399, 0));
    let only = pixel_at(0, 1, 1);
    assert_eq!((only.x, only.y), (0, 0));
}

#[test]
fn a_rendering_is_painted_from_the_bottom_row_up() {
    // two columns, three rows; sample 0 is at the bottom left
    let colors: Vec<[u8; 3]> = (0..6u8).map(|i| [10 * i, 10 * i + 1, 10 * i + 2]).collect();
    let bytes = paint(&colors, 2, 3);
    assert_eq!(
        bytes,
        vec![
            40, 41, 42, 50, 51, 52, // the top row holds samples 4 and 5
            20, 21, 22, 30, 31, 32, //
            0, 1, 2, 10, 11, 12, // the bottom row holds samples 0 and 1
        ]
    );
    assert_eq!(paint(&vec![[7, 8, 9]], 1, 1), vec![7, 8, 9]);
    assert_eq!(paint(&vec![], 0, 5), Vec::<u8>::new());
    assert_eq!(paint(&vec![], 5, 0), Vec::<u8>::new());
}

#[test]
fn a_painting_is_the_image_that_put_pixel_makes() {
    let (w, h) = (7u32, 5u32);
    let colors: Vec<[u8; 3]> =
        (0..w * h).map(|i| [(3 * i % 251) as u8, (5 * i % 241) as u8, (7 * i % 239) as u8]).collect();
    let mut expected = image::RgbImage::new(w, h);
    for i in 0..w * h {
        expected.put_pixel(i % w, h - 1 - i / w, image::Rgb(colors[i as usize]));
    }
    let painted = image::RgbImage::from_raw(w, h, paint(&colors, w, h)).unwrap();
    assert_eq!(painted, expected);
    for i in 0..w * h {
        let at = pixel_at(i, w, h);
        assert_eq!(painted.get_pixel(at.x, at.y).0, colors[i as usize]);
    }
}
