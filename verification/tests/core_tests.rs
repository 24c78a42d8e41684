use wasm_particles::control::{clamp_count, resize_needed, stats_shape, Mode};
use wasm_particles::hash::{hash24, HASH_SCALE};
use wasm_particles::lattice::dam_lattice;
use wasm_particles::params::Param;
use wasm_particles::shapes::{next_shape_index, shape_index, shape_kind, ShapeKind, SHAPE_COUNT};
use wasm_particles::upload::interleave;

#[test]
fn hash_values_are_fixed() {
    assert_eq!(hash24(0), 0);
    assert_eq!(hash24(1), 11021880);
    assert_eq!(hash24(2), 14885305);
    assert_eq!(hash24(7), 13470432);
    assert_eq!(hash24(12345), 678338);
    assert_eq!(hash24(u32::MAX), 269768);
}

#[test]
fn hash_maps_into_unit_interval() {
    for i in (0..200_000u32).step_by(97) {
        let h = hash24(i);
        assert!(h < HASH_SCALE);
        let u = h as f32 / HASH_SCALE as f32;
        assert!((0.0..1.0).contains(&u));
    }
}

#[test]
fn dam_lattice_fills_layers() {
    let s = dam_lattice(10, 2, 3);
    assert_eq!(s.len(), 10);
    assert_eq!(s[0], (0, 0, 0));
    assert_eq!(s[2], (0, 0, 2));
    assert_eq!(s[3], (0, 1, 0));
    assert_eq!(s[6], (1, 0, 0));
    assert_eq!(s[9], (1, 1, 0));
    let one = dam_lattice(3, 0, 0);
    assert_eq!(one, vec![(0, 0, 0), (1, 0, 0), (2, 0, 0)]);
    assert!(dam_lattice(0, 4, 4).is_empty());
}

#[test]
fn dam_lattice_sites_are_distinct() {
    let s = dam_lattice(500, 7, 5);
    let nx = (500 + 35 - 1) / 35;
    for i in 0..s.len() {
        assert!(s[i].0 < nx && s[i].1 < 7 && s[i].2 < 5);
        for j in 0..i {
            assert_ne!(s[i], s[j]);
        }
    }
}

#[test]
fn interleave_lays_out_seven_values_per_particle() {
    let pos = vec![1, 2, 3, 4, 5, 6];
    let vel = vec![-1, -2, -3, -4, -5, -6];
    let extra = vec![100, 200];
    let mut up = vec![0; 14];
    interleave(&mut up, &pos, &vel, &extra, 2);
    assert_eq!(up, vec![1, 2, 3, -1, -2, -3, 100, 4, 5, 6, -4, -5, -6, 200]);
}

#[test]
fn shapes_cycle() {
    assert_eq!(SHAPE_COUNT, 5);
    assert_eq!(shape_index(7), 2);
    assert_eq!(shape_kind(0), ShapeKind::Sphere);
    assert_eq!(shape_kind(1), ShapeKind::TorusKnot);
    assert_eq!(shape_kind(2), ShapeKind::Galaxy);
    assert_eq!(shape_kind(3), ShapeKind::Helix);
    assert_eq!(shape_kind(4), ShapeKind::Lorenz);
    assert_eq!(shape_kind(9), ShapeKind::Lorenz);
    let mut s = 3;
    let mut seen = vec![];
    for _ in 0..SHAPE_COUNT {
        s = next_shape_index(s);
        seen.push(s);
    }
    assert_eq!(seen, vec![4, 0, 1, 2, 3]);
}

#[test]
fn modes_and_codes() {
    assert_eq!(Mode::from_code(0), Mode::Sph);
    assert_eq!(Mode::from_code(1), Mode::Morph);
    assert_eq!(Mode::from_code(2), Mode::Text);
    assert_eq!(Mode::from_code(77), Mode::Text);
    for m in [Mode::Sph, Mode::Morph, Mode::Text] {
        assert_eq!(Mode::from_code(m.code()), m);
    }
}

#[test]
fn particle_count_is_clamped() {
    assert_eq!(clamp_count(0), 500);
    assert_eq!(clamp_count(499), 500);
    assert_eq!(clamp_count(12000), 12000);
    assert_eq!(clamp_count(200_000), 200_000);
    assert_eq!(clamp_count(usize::MAX), 200_000);
}

#[test]
fn stats_shape_numbers() {
    assert_eq!(stats_shape(Mode::Sph, 3, true), 0);
    assert_eq!(stats_shape(Mode::Morph, 3, false), 3);
    assert_eq!(stats_shape(Mode::Text, 2, true), 102);
}

#[test]
fn framebuffer_resize_rules() {
    assert!(!resize_needed(800, 600, 800, 600));
    assert!(resize_needed(800, 600, 801, 600));
    assert!(resize_needed(0, 0, 1, 1));
    assert!(!resize_needed(800, 600, 0, 600));
    assert!(!resize_needed(800, 600, 640, -1));
}

#[test]
fn parameter_names() {
    assert_eq!(Param::from_name("size"), Some(Param::Size));
    assert_eq!(Param::from_name("intensity"), Some(Param::Intensity));
    assert_eq!(Param::from_name("exposure"), Some(Param::Exposure));
    assert_eq!(Param::from_name("trail"), Some(Param::Trail));
    assert_eq!(Param::from_name("speed_glow"), Some(Param::SpeedGlow));
    assert_eq!(Param::from_name("gravity"), Some(Param::Gravity));
    assert_eq!(Param::from_name("viscosity"), Some(Param::Viscosity));
    assert_eq!(Param::from_name("beta"), Some(Param::Beta));
    assert_eq!(Param::from_name("stiffness"), Some(Param::Stiffness));
    assert_eq!(Param::from_name("stiffness_near"), Some(Param::StiffnessNear));
    assert_eq!(Param::from_name("mouse"), Some(Param::Mouse));
    assert_eq!(Param::from_name("spring"), Some(Param::Spring));
    assert_eq!(Param::from_name("damp"), Some(Param::Damp));
    assert_eq!(Param::from_name("turb"), Some(Param::Turb));
    assert_eq!(Param::from_name("Size"), None);
    assert_eq!(Param::from_name("stiff"), None);
    assert_eq!(Param::from_name(""), None);
}
