use pathtracer::{Aabb, BvhBuilder, Cosine, ObjectBounds, Strategy, ToLight, Uniform, MIS};

fn lights(n: u32) -> pathtracer::Bvh<u32> {
    let objects: Vec<(u32, ObjectBounds)> = (0..n)
        .map(|i| {
            let min = [i as i32, 0, 0];
            let max = [i as i32 + 1, 1, 1];
            (i, ObjectBounds { aabb: Aabb { min, max }, center2: [2 * i as i32 + 1, 1, 1], unbounded: false })
        })
        .collect();
    let mut b = BvhBuilder::new(objects);
    while b.next_task().is_some() {
        b.process(None);
    }
    b.finish()
}

#[test]
fn no_lights_no_pick() {
    let bvh = lights(0);
    let to_light = ToLight { lights: &bvh };
    let mut rng = rand::thread_rng();
    assert_eq!(to_light.n_lights(), 0);
    assert_eq!(to_light.pick_light(&mut rng), None);
}

#[test]
fn picks_every_light() {
    let bvh = lights(3);
    let to_light = ToLight { lights: &bvh };
    let mut rng = rand::thread_rng();
    let mut seen = [0u32; 3];
    for _ in 0..3000 {
        let i = to_light.pick_light(&mut rng).expect("there are lights");
        assert!(i < 3);
        seen[i] += 1;
    }
    assert!(seen.iter().all(|&c| c > 700 && c < 1300));
}

#[test]
fn cosine_only_without_lights() {
    let bvh = lights(0);
    let mis = MIS { to_light: ToLight { lights: &bvh } };
    assert_eq!(mis.cosine_probability(), (1, 1));
    let mut rng = rand::thread_rng();
    for _ in 0..100 {
        assert_eq!(mis.pick_strategy(&mut rng), Strategy::Cosine);
    }
}

#[test]
fn even_mixture_with_lights() {
    let bvh = lights(2);
    let mis = MIS { to_light: ToLight { lights: &bvh } };
    assert_eq!(mis.cosine_probability(), (1, 2));
    let mut rng = rand::thread_rng();
    let cosine = (0..4000).filter(|_| mis.pick_strategy(&mut rng) == Strategy::Cosine).count();
    assert!(cosine > 1700 && cosine < 2300);
}

#[test]
fn strategy_markers_exist() {
    let _u = Uniform;
    let _c = Cosine;
}
