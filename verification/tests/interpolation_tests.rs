use netsync::fixed::{clamp_i64, lerp, Vec2i, COORD_LIMIT, SCALE};
use netsync::messages::RemotePlayerState;
use netsync::render::{interpolate_transform, transform_of_state, Transform2};

#[test]
fn lerp_halfway() {
    assert_eq!(lerp(0, 1000, 500), 500);
    assert_eq!(lerp(0, 10, 500), 5);
}

#[test]
fn lerp_full_factor_reaches_target_exactly() {
    assert_eq!(lerp(3, 77, SCALE), 77);
    assert_eq!(lerp(77, 3, SCALE), 3);
    assert_eq!(lerp(-40, 40, SCALE), 40);
}

#[test]
fn lerp_zero_factor_stays_put() {
    assert_eq!(lerp(123, 456, 0), 123);
    assert_eq!(lerp(456, 123, 0), 456);
}

#[test]
fn lerp_descending_direction() {
    assert_eq!(lerp(100, -100, 250), 50);
}

#[test]
fn lerp_stays_between_endpoints() {
    for f in [0, 1, 250, 333, 999, 1000] {
        let r = lerp(-5000, 20000, f);
        assert!(-5000 <= r && r <= 20000);
        let r = lerp(20000, -5000, f);
        assert!(-5000 <= r && r <= 20000);
    }
}

#[test]
fn lerp_truncates_toward_start() {
    assert_eq!(lerp(0, 1, 999), 0);
    assert_eq!(lerp(0, 3, 500), 1);
}

#[test]
fn clamp_bounds() {
    assert_eq!(clamp_i64(5, -3, 3), 3);
    assert_eq!(clamp_i64(-5, -3, 3), -3);
    assert_eq!(clamp_i64(2, -3, 3), 2);
    assert_eq!(clamp_i64(COORD_LIMIT + 7, -COORD_LIMIT, COORD_LIMIT), COORD_LIMIT);
}

#[test]
fn interpolate_full_factor_is_exact() {
    let mut original = Transform2::identity();
    let target = Transform2 {
        position: Vec2i { x: 9000, y: -4000 },
        angle: 1570,
        scale: Vec2i { x: 2000, y: 500 },
    };
    interpolate_transform(&mut original, &target, SCALE);
    assert_eq!(original, target);
}

#[test]
fn interpolate_zero_factor_is_identity() {
    let mut original = Transform2 {
        position: Vec2i { x: 11, y: 22 },
        angle: 33,
        scale: Vec2i { x: 44, y: 55 },
    };
    let before = original;
    let target = Transform2::identity();
    interpolate_transform(&mut original, &target, 0);
    assert_eq!(original, before);
}

#[test]
fn interpolate_lies_on_path() {
    let start = Transform2 {
        position: Vec2i { x: 0, y: 10000 },
        angle: -2000,
        scale: Vec2i { x: 1000, y: 1000 },
    };
    let target = Transform2 {
        position: Vec2i { x: 8000, y: 2000 },
        angle: 2000,
        scale: Vec2i { x: 3000, y: 1000 },
    };
    for f in [1, 100, 500, 900, 1000] {
        let mut moved = start;
        interpolate_transform(&mut moved, &target, f);
        assert!(start.position.x <= moved.position.x && moved.position.x <= target.position.x);
        assert!(target.position.y <= moved.position.y && moved.position.y <= start.position.y);
        assert!(start.angle <= moved.angle && moved.angle <= target.angle);
        assert!(start.scale.x <= moved.scale.x && moved.scale.x <= target.scale.x);
        assert_eq!(moved.scale.y, 1000);
    }
}

#[test]
fn interpolate_halfway_position() {
    let mut original = Transform2::identity();
    let target = Transform2 {
        position: Vec2i { x: 1000, y: -1000 },
        angle: 500,
        scale: Vec2i { x: 1000, y: 1000 },
    };
    interpolate_transform(&mut original, &target, 500);
    assert_eq!(original.position.x, 500);
    assert_eq!(original.position.y, -500);
    assert_eq!(original.angle, 250);
}

#[test]
fn state_transform_has_unit_scale() {
    let state = RemotePlayerState {
        position: Vec2i { x: 700, y: -300 },
        angle: 90,
    };
    let t = transform_of_state(&state);
    assert_eq!(t.position, Vec2i { x: 700, y: -300 });
    assert_eq!(t.angle, 90);
    assert_eq!(t.scale, Vec2i { x: SCALE, y: SCALE });
}
