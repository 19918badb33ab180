use ray_cast::geom::{RatPoint, Vec2i};
use ray_cast::network::{EdgeState, Segment};
use ray_cast::solver::{
    cos_ppm, fresnel_ppm, refract, split_colors, Color, FresnelReflectAmount, Laser, Ray,
};

fn full_red() -> Color {
    Color { r: 1_000_000, g: 0, b: 0, a: 1_000_000 }
}

fn laser_with_ray(origin: Vec2i, direction: Vec2i) -> Laser {
    Laser {
        position: origin,
        direction,
        ray: Ray { origin, direction, color: full_red() },
    }
}

#[test]
fn mirror_wall_scenario() {
    // One reflective vertical wall at x = 10 spanning y in [0, 100]; the ray
    // starts at (0, 50) aiming right.  It must hit (10, 50), reflect to
    // (-1, 0), and then leave the scene at (10 - 20000, 50).
    let laser = laser_with_ray(Vec2i { x: 0, y: 50 }, Vec2i { x: 1, y: 0 });
    let wall = Segment(
        Vec2i { x: 10, y: 0 },
        Vec2i { x: 10, y: 100 },
        EdgeState::Reflective,
    );
    let lines = laser.solve_collisions(&[wall], 1000, 20_000);
    assert_eq!(lines.len(), 2);
    assert_eq!(lines[0].0, Vec2i { x: 0, y: 50 });
    assert_eq!(lines[0].1, Vec2i { x: 10, y: 50 });
    assert_eq!(lines[0].2, full_red());
    assert_eq!(lines[1].0, Vec2i { x: 10, y: 50 });
    assert_eq!(lines[1].1, Vec2i { x: 10 - 20_000, y: 50 });
    assert_eq!(lines[1].2, full_red());
}

#[test]
fn empty_scene_exits_at_max_distance() {
    let laser = laser_with_ray(Vec2i { x: 0, y: 50 }, Vec2i { x: 1, y: 0 });
    let lines = laser.solve_collisions(&[], 1000, 20_000);
    assert_eq!(lines.len(), 1);
    assert_eq!(lines[0].0, Vec2i { x: 0, y: 50 });
    assert_eq!(lines[0].1, Vec2i { x: 20_000, y: 50 });
    assert_eq!(lines[0].2, full_red());
}

#[test]
fn parallel_mirrors_respect_ray_cap() {
    // Two facing mirrors: the ray bounces forever; the emitted-segment cap
    // cuts the solve off.
    let laser = laser_with_ray(Vec2i { x: 0, y: 50 }, Vec2i { x: 1, y: 0 });
    let left = Segment(
        Vec2i { x: -10, y: 0 },
        Vec2i { x: -10, y: 100 },
        EdgeState::Reflective,
    );
    let right = Segment(
        Vec2i { x: 10, y: 0 },
        Vec2i { x: 10, y: 100 },
        EdgeState::Reflective,
    );
    let lines = laser.solve_collisions(&[left, right], 7, 20_000);
    assert_eq!(lines.len(), 7);
    let none = laser.solve_collisions(&[left, right], 0, 20_000);
    assert_eq!(none.len(), 0);
}

#[test]
fn absorptive_segment_terminates_branch() {
    let laser = laser_with_ray(Vec2i { x: 0, y: 50 }, Vec2i { x: 1, y: 0 });
    let sink = Segment(
        Vec2i { x: 10, y: 0 },
        Vec2i { x: 10, y: 100 },
        EdgeState::Absorptive,
    );
    let lines = laser.solve_collisions(&[sink], 1000, 20_000);
    assert_eq!(lines.len(), 1);
    assert_eq!(lines[0].0, Vec2i { x: 0, y: 50 });
    assert_eq!(lines[0].1, Vec2i { x: 10, y: 50 });
}

#[test]
fn transparent_split_conserves_energy() {
    // Hit a transparent wall at cos = 4/5: the split weight is
    // 0.97 * 0.8^6 in millionths, and the two continuations carry colours
    // that add up exactly to the incoming colour.
    let laser = laser_with_ray(Vec2i { x: 0, y: 50 }, Vec2i { x: 4, y: 3 });
    let pane = Segment(
        Vec2i { x: 10, y: 0 },
        Vec2i { x: 10, y: 100 },
        EdgeState::Transparent,
    );
    let lines = laser.solve_collisions(&[pane], 1000, 20_000);
    // incoming line, reflected continuation, transmitted continuation
    assert_eq!(lines.len(), 3);
    assert_eq!(lines[0].0, Vec2i { x: 0, y: 50 });
    // hit at (10, 57.5), rounded up
    assert_eq!(lines[0].1, Vec2i { x: 10, y: 58 });
    let refl = lines[1].2;
    let trans = lines[2].2;
    assert_eq!(trans.a, 254_279);
    assert_eq!(refl.a, 745_721);
    assert_eq!(refl.r + trans.r, 1_000_000);
    assert_eq!(refl.g + trans.g, 0);
    assert_eq!(refl.b + trans.b, 0);
    assert_eq!(refl.a + trans.a, 1_000_000);
    // the reflected ray leaves to the upper left, the transmitted one keeps
    // the incoming direction
    assert_eq!(lines[1].0, Vec2i { x: 10, y: 58 });
    assert_eq!(lines[1].1, Vec2i { x: 10 - 16_000, y: 58 + 12_000 });
    assert_eq!(lines[2].1, Vec2i { x: 10 + 16_000, y: 58 + 12_000 });
}

#[test]
fn departing_segment_is_excluded_by_value() {
    // The same wall listed twice: a reflected ray excludes every segment
    // equal in value to the one it departed from, so it does not get stuck
    // on the duplicate either.
    let laser = laser_with_ray(Vec2i { x: 0, y: 50 }, Vec2i { x: 1, y: 0 });
    let wall = Segment(
        Vec2i { x: 10, y: 0 },
        Vec2i { x: 10, y: 100 },
        EdgeState::Reflective,
    );
    let lines = laser.solve_collisions(&[wall, wall], 1000, 20_000);
    assert_eq!(lines.len(), 2);
    assert_eq!(lines[1].1, Vec2i { x: 10 - 20_000, y: 50 });
}

#[test]
fn collision_info_carries_a_hit() {
    let ray = Ray {
        origin: Vec2i { x: 0, y: 50 },
        direction: Vec2i { x: 1, y: 0 },
        color: full_red(),
    };
    let (position, normal) = ray
        .collides_with((Vec2i { x: 10, y: 0 }, Vec2i { x: 10, y: 100 }))
        .unwrap();
    let info = ray_cast::solver::CollisionInfo { position, normal };
    assert_eq!(info.position.xn, 10);
    assert_eq!(info.normal, Vec2i { x: -1, y: 0 });
}

#[test]
fn max_distance_constant() {
    assert_eq!(Laser::MAX_DISTANCE, 20_000);
}

#[test]
fn hit_beyond_max_distance_is_no_hit() {
    // A wall farther away than the maximum travel distance is not hit: the
    // ray is drawn to its exit point and the branch ends, exactly as on an
    // empty scene.
    let laser = laser_with_ray(Vec2i { x: 0, y: 50 }, Vec2i { x: 1, y: 0 });
    let far_wall = Segment(
        Vec2i { x: 25_000, y: 0 },
        Vec2i { x: 25_000, y: 100 },
        EdgeState::Reflective,
    );
    let lines = laser.solve_collisions(&[far_wall], 1000, 20_000);
    assert_eq!(lines.len(), 1);
    assert_eq!(lines[0].0, Vec2i { x: 0, y: 50 });
    assert_eq!(lines[0].1, Vec2i { x: 20_000, y: 50 });
    // the comparison is strict: a wall at exactly the maximum distance is
    // out of reach too
    let boundary_wall = Segment(
        Vec2i { x: 20_000, y: 0 },
        Vec2i { x: 20_000, y: 100 },
        EdgeState::Reflective,
    );
    let lines = laser.solve_collisions(&[boundary_wall], 1000, 20_000);
    assert_eq!(lines.len(), 1);
    assert_eq!(lines[0].1, Vec2i { x: 20_000, y: 50 });
    // one unit nearer, the wall is hit and the ray reflects
    let near_wall = Segment(
        Vec2i { x: 19_999, y: 0 },
        Vec2i { x: 19_999, y: 100 },
        EdgeState::Reflective,
    );
    let lines = laser.solve_collisions(&[near_wall], 1000, 20_000);
    assert_eq!(lines.len(), 2);
    assert_eq!(lines[0].1, Vec2i { x: 19_999, y: 50 });
    assert_eq!(lines[1].1, Vec2i { x: 19_999 - 20_000, y: 50 });
}

#[test]
fn exhausted_ray_is_discarded() {
    let mut laser = laser_with_ray(Vec2i { x: 0, y: 50 }, Vec2i { x: 1, y: 0 });
    laser.ray.color.a = 100_000;
    let lines = laser.solve_collisions(&[], 1000, 20_000);
    assert_eq!(lines.len(), 0);
}

#[test]
fn collides_with_hits_midpoint_exactly() {
    let ray = Ray {
        origin: Vec2i { x: 0, y: 50 },
        direction: Vec2i { x: 1, y: 0 },
        color: full_red(),
    };
    let hit = ray
        .collides_with((Vec2i { x: 10, y: 0 }, Vec2i { x: 10, y: 100 }))
        .unwrap();
    assert_eq!(hit.0, RatPoint { xn: 10, yn: 50, den: 1 });
    assert_eq!(hit.1, Vec2i { x: -1, y: 0 });
}

#[test]
fn collides_with_exact_rational_hit() {
    // A slanted segment: the hit point is a true fraction.
    let ray = Ray {
        origin: Vec2i { x: 0, y: 0 },
        direction: Vec2i { x: 3, y: 1 },
        color: full_red(),
    };
    // segment from (10, 0) to (0, 10): the line x + y = 10
    let hit = ray
        .collides_with((Vec2i { x: 10, y: 0 }, Vec2i { x: 0, y: 10 }))
        .unwrap();
    // 3t + t = 10  =>  t = 5/2, hit (15/2, 5/2)
    assert_eq!(hit.0, RatPoint { xn: 15, yn: 5, den: 2 });
}

#[test]
fn parallel_ray_never_hits() {
    let ray = Ray {
        origin: Vec2i { x: 0, y: 0 },
        direction: Vec2i { x: 0, y: 1 },
        color: full_red(),
    };
    // vertical segment, parallel to the ray, at several offsets
    for offset in [1i64, 10, -5] {
        let r = ray.collides_with((
            Vec2i { x: offset, y: 0 },
            Vec2i { x: offset, y: 100 },
        ));
        assert!(r.is_none());
    }
}

#[test]
fn behind_the_origin_is_no_hit() {
    let ray = Ray {
        origin: Vec2i { x: 0, y: 50 },
        direction: Vec2i { x: 1, y: 0 },
        color: full_red(),
    };
    let r = ray.collides_with((Vec2i { x: -10, y: 0 }, Vec2i { x: -10, y: 100 }));
    assert!(r.is_none());
}

#[test]
fn degenerate_segment_never_hits() {
    let ray = Ray {
        origin: Vec2i { x: 0, y: 0 },
        direction: Vec2i { x: 1, y: 0 },
        color: full_red(),
    };
    let r = ray.collides_with((Vec2i { x: 5, y: 0 }, Vec2i { x: 5, y: 0 }));
    assert!(r.is_none());
}

#[test]
fn reflection_is_an_involution_and_keeps_length() {
    let d = Vec2i { x: 3, y: 4 };
    let n = Vec2i { x: 1, y: 1 };
    let r = ray_cast::geom::reflect(d, n).unwrap();
    assert_eq!(r, Vec2i { x: -4, y: -3 });
    // same squared length as the input
    assert_eq!(r.x * r.x + r.y * r.y, d.x * d.x + d.y * d.y);
    // reflecting again gives the original direction back
    let rr = ray_cast::geom::reflect(r, n).unwrap();
    assert_eq!(rr, d);
}

#[test]
fn reflect_rejects_zero_normal() {
    let r = ray_cast::geom::reflect(Vec2i { x: 1, y: 0 }, Vec2i { x: 0, y: 0 });
    assert!(r.is_none());
}

#[test]
fn quantized_cosine_and_split_weight() {
    let d = Vec2i { x: 4, y: 3 };
    let n = Vec2i { x: -1, y: 0 };
    assert_eq!(cos_ppm(d, n), 800_000);
    assert_eq!(fresnel_ppm(d, n), 254_279);
    let (refl, trans) = split_colors(full_red(), 254_279);
    assert_eq!(trans, Color { r: 254_279, g: 0, b: 0, a: 254_279 });
    assert_eq!(refl, Color { r: 745_721, g: 0, b: 0, a: 745_721 });
}

#[test]
fn refraction_straight_through_and_total_internal() {
    // Straight-on incidence passes straight through.
    let out = refract(Vec2i { x: 0, y: 1 }, Vec2i { x: 0, y: -1 }, 1_500_000).unwrap();
    assert_eq!(out, Vec2i { x: 0, y: 1_000_000 });
    // A steep angle at a dense-to-light boundary reflects totally.
    let tir = refract(Vec2i { x: 4, y: 3 }, Vec2i { x: -1, y: 0 }, 2_000_000);
    assert!(tir.is_none());
}

#[test]
fn schlick_reflectance_at_normal_incidence() {
    // Air to glass head-on: r0 = ((1 - 1.33) / 2.33)^2, about two percent.
    let r = FresnelReflectAmount(
        1_000_000,
        1_330_000,
        Vec2i { x: 0, y: -1 },
        Vec2i { x: 0, y: -1 },
        0,
    );
    assert_eq!(r, 20_059);
    // The object-reflectivity setting blends the result towards one.
    let blended = FresnelReflectAmount(
        1_000_000,
        1_330_000,
        Vec2i { x: 0, y: -1 },
        Vec2i { x: 0, y: -1 },
        500_000,
    );
    assert_eq!(blended, 510_029);
}

#[test]
fn laser_new_offsets_the_ray() {
    let laser = Laser::new(Vec2i { x: 0, y: 0 }, Vec2i { x: 1, y: 0 });
    assert_eq!(laser.ray.origin, Vec2i { x: 35, y: 0 });
    assert_eq!(laser.ray.direction, Vec2i { x: 1, y: 0 });
    assert_eq!(laser.ray.color, full_red());
}

#[test]
fn look_at_normalizes_the_direction() {
    let mut laser = Laser::new(Vec2i { x: 0, y: 0 }, Vec2i { x: 1, y: 0 });
    laser.look_at(Vec2i { x: 10, y: 10 });
    assert_eq!(laser.direction, Vec2i { x: 10, y: 10 });
    assert_eq!(laser.ray.direction, Vec2i { x: 1, y: 1 });
    // aiming at the laser itself leaves the zero direction in place
    laser.look_at(Vec2i { x: 0, y: 0 });
    assert_eq!(laser.ray.direction, Vec2i { x: 0, y: 0 });
}
