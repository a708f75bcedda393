use rps_arena::entity::{collide_entities, distance_with, pursue, thing_forces, Entity};
use rps_arena::fixed::{floor_sqrt, length, mul_div, normalize, saturate, Vec2, COORD_MAX};
use rps_arena::kind::Kind;

fn at(kind: Kind, x: i64, y: i64) -> Entity {
    Entity::new(kind, Vec2::new(x, y), Vec2::zero())
}

fn moving(kind: Kind, x: i64, y: i64, vx: i64, vy: i64) -> Entity {
    Entity::new(kind, Vec2::new(x, y), Vec2::new(vx, vy))
}

#[test]
fn vec2_new_saturates_each_component() {
    assert_eq!(Vec2::new(5, -7), Vec2 { x: 5, y: -7 });
    assert_eq!(Vec2::new(i64::MAX, i64::MIN), Vec2 { x: COORD_MAX, y: -COORD_MAX });
    assert_eq!(Vec2::zero(), Vec2 { x: 0, y: 0 });
    assert_eq!(Vec2::new(3, -4).reversed(), Vec2 { x: -3, y: 4 });
}

#[test]
fn saturate_clamps_to_the_coordinate_range() {
    assert_eq!(saturate(12), 12);
    assert_eq!(saturate(i128::MAX), COORD_MAX);
    assert_eq!(saturate(i128::MIN), -COORD_MAX);
    assert_eq!(saturate(COORD_MAX as i128 + 1), COORD_MAX);
}

#[test]
fn mul_div_rounds_toward_zero() {
    assert_eq!(mul_div(7, 3, 2), 10);
    assert_eq!(mul_div(-7, 3, 2), -10);
    assert_eq!(mul_div(7, -3, 2), -10);
    assert_eq!(mul_div(-1, 1, 1_000_000), 0);
    assert_eq!(mul_div(0, 5, 3), 0);
}

#[test]
fn floor_sqrt_rounds_down() {
    assert_eq!(floor_sqrt(0), 0);
    assert_eq!(floor_sqrt(1), 1);
    assert_eq!(floor_sqrt(24), 4);
    assert_eq!(floor_sqrt(25), 5);
    assert_eq!(floor_sqrt(26), 5);
    assert_eq!(floor_sqrt(1_000_000_000_000_000_000_000_000), 1_000_000_000_000);
}

#[test]
fn length_rounds_up() {
    assert_eq!(length(0, 0), 0);
    assert_eq!(length(3, 4), 5);
    assert_eq!(length(-3, -4), 5);
    assert_eq!(length(1, 1), 2);
    assert_eq!(length(0, -9), 9);
    assert_eq!(length(3_000_000, 4_000_000), 5_000_000);
}

#[test]
fn collision_needs_less_than_one_footprint_side() {
    let a = at(Kind::Rock, 0, 0);
    assert!(a.collides_with(&at(Kind::Paper, 999_999, 0)));
    assert!(!a.collides_with(&at(Kind::Paper, 1_000_000, 0)));
    assert!(a.collides_with(&at(Kind::Paper, 600_000, 799_999)));
    assert!(!a.collides_with(&at(Kind::Paper, 600_000, 800_000)));
    assert!(!a.collides_with(&at(Kind::Paper, 1_500_000, 0)));
    assert!(a.collides_with(&a));
}

#[test]
fn collision_is_decided_at_the_ends_of_the_range() {
    let a = at(Kind::Rock, -COORD_MAX, -COORD_MAX);
    let b = at(Kind::Rock, COORD_MAX, COORD_MAX);
    assert!(!a.collides_with(&b));
    let far = Entity { kind: Kind::Rock, position: Vec2 { x: i64::MIN, y: 0 }, velocity: Vec2::zero() };
    let near = Entity { kind: Kind::Rock, position: Vec2 { x: i64::MAX, y: 0 }, velocity: Vec2::zero() };
    assert!(!far.collides_with(&near));
}

#[test]
fn encounter_converts_the_loser() {
    let mut a = at(Kind::Rock, 0, 0);
    let mut b = at(Kind::Scissors, 500_000, 0);
    assert!(collide_entities(&mut a, &mut b));
    assert_eq!(a, at(Kind::Rock, 0, 0));
    assert_eq!(b, at(Kind::Rock, 500_000, 0));

    let mut a = at(Kind::Rock, 0, 0);
    let mut b = at(Kind::Paper, 500_000, 0);
    assert!(collide_entities(&mut a, &mut b));
    assert_eq!(a.kind, Kind::Paper);
    assert_eq!(b.kind, Kind::Paper);
}

#[test]
fn encounter_out_of_reach_changes_nothing() {
    let mut a = at(Kind::Rock, 0, 0);
    let mut b = at(Kind::Scissors, 1_000_000, 0);
    assert!(!collide_entities(&mut a, &mut b));
    assert_eq!(a, at(Kind::Rock, 0, 0));
    assert_eq!(b, at(Kind::Scissors, 1_000_000, 0));
}

#[test]
fn encounter_of_equal_kinds_converts_nobody() {
    let mut a = at(Kind::Paper, 0, 0);
    let mut b = at(Kind::Paper, 100, 100);
    assert!(!collide_entities(&mut a, &mut b));
    assert_eq!(a.kind, Kind::Paper);
    assert_eq!(b.kind, Kind::Paper);
}

#[test]
fn advance_moves_by_velocity_times_time() {
    let e = moving(Kind::Rock, 1_000_000, -2_000_000, 1_500_000, -500_000);
    let moved = e.advance(500_000);
    assert_eq!(moved.position, Vec2 { x: 1_750_000, y: -2_250_000 });
    assert_eq!(moved.velocity, e.velocity);
    assert_eq!(moved.kind, Kind::Rock);
    assert_eq!(e.advance(0), e);
}

#[test]
fn advance_rounds_toward_zero_and_saturates() {
    let e = moving(Kind::Rock, 0, 0, -1, 1);
    assert_eq!(e.advance(999_999).position, Vec2 { x: 0, y: 0 });
    assert_eq!(e.advance(1_000_000).position, Vec2 { x: -1, y: 1 });
    let fast = moving(Kind::Rock, 0, 0, COORD_MAX, -COORD_MAX);
    assert_eq!(fast.advance(u64::MAX).position, Vec2 { x: COORD_MAX, y: -COORD_MAX });
}

#[test]
fn nudge_shifts_the_position_only() {
    let e = moving(Kind::Paper, 10, 20, 3, 4);
    let n = e.nudge(-25_000, 25_000);
    assert_eq!(n.position, Vec2 { x: -24_990, y: 25_020 });
    assert_eq!(n.velocity, Vec2 { x: 3, y: 4 });
    assert_eq!(e.nudge(i64::MAX, i64::MIN).position, Vec2 { x: COORD_MAX, y: -COORD_MAX });
}

#[test]
fn reflect_puts_back_and_turns_round() {
    let walls = Vec2::new(10_000_000, 8_000_000);
    let e = moving(Kind::Rock, 9_600_000, -7_700_000, 1_000_000, -200_000);
    let r = e.reflect(walls);
    assert_eq!(r.position, Vec2 { x: 9_500_000, y: -7_500_000 });
    assert_eq!(r.velocity, Vec2 { x: -1_000_000, y: 200_000 });

    let e = moving(Kind::Rock, -12_000_000, 30_000_000, 5, 6);
    let r = e.reflect(walls);
    assert_eq!(r.position, Vec2 { x: -9_500_000, y: 7_500_000 });
    assert_eq!(r.velocity, Vec2 { x: -5, y: -6 });
}

#[test]
fn reflect_leaves_an_entity_between_the_walls() {
    let walls = Vec2::new(10_000_000, 8_000_000);
    let e = moving(Kind::Rock, 9_500_000, -7_500_000, 1, 2);
    assert_eq!(e.reflect(walls), e);
    let e = moving(Kind::Rock, 0, 0, 1, 2);
    assert_eq!(e.reflect(walls), e);
}

#[test]
fn turn_reverses_the_velocity() {
    let e = moving(Kind::Rock, 1, 2, 3, -4);
    assert_eq!(e.turn(), moving(Kind::Rock, 1, 2, -3, 4));
}

#[test]
fn on_screen_ends_half_a_footprint_beyond_the_walls() {
    let walls = Vec2::new(10_000_000, 10_000_000);
    assert!(at(Kind::Rock, 10_499_999, 0).is_on_screen(walls));
    assert!(at(Kind::Rock, 10_500_000, 0).is_on_screen(walls));
    assert!(!at(Kind::Rock, 10_500_001, 0).is_on_screen(walls));
    assert!(at(Kind::Rock, -10_500_000, 10_500_000).is_on_screen(walls));
    assert!(at(Kind::Rock, 0, -10_500_000).is_on_screen(walls));
    assert!(!at(Kind::Rock, 0, -10_500_001).is_on_screen(walls));
    assert!(!at(Kind::Rock, -10_500_001, 0).is_on_screen(walls));
    assert!(!at(Kind::Rock, 0, 10_500_001).is_on_screen(walls));
}

#[test]
fn force_pulls_toward_prey() {
    let mut us = at(Kind::Rock, 0, 0);
    thing_forces(&mut us, &vec![at(Kind::Scissors, 3_000_000, 4_000_000)], &Vec::new());
    assert_eq!(us.velocity, Vec2 { x: 300_000, y: 400_000 });
    assert_eq!(us.position, Vec2 { x: 0, y: 0 });
    assert_eq!(us.kind, Kind::Rock);
}

#[test]
fn force_pushes_away_from_a_predator() {
    let mut us = at(Kind::Scissors, 0, 0);
    thing_forces(&mut us, &Vec::new(), &vec![at(Kind::Rock, 3_000_000, 4_000_000)]);
    assert_eq!(us.velocity, Vec2 { x: -300_000, y: -400_000 });
}

#[test]
fn force_pushes_mildly_away_from_the_own_kind() {
    let mut us = at(Kind::Paper, 0, 0);
    thing_forces(&mut us, &vec![at(Kind::Paper, -3_000_000, -4_000_000)], &Vec::new());
    assert_eq!(us.velocity, Vec2 { x: 300_000, y: 400_000 });
}

#[test]
fn force_of_prey_outweighs_the_own_kind() {
    let mut us = at(Kind::Rock, 0, 0);
    let near = vec![at(Kind::Scissors, 2_000_000, 0)];
    let seen = vec![at(Kind::Rock, 2_000_000, 0)];
    thing_forces(&mut us, &near, &seen);
    assert_eq!(us.velocity, Vec2 { x: 500_000, y: 0 });
}

#[test]
fn no_force_leaves_the_velocity() {
    let mut us = moving(Kind::Rock, 5, 5, 300_000, -400_000);
    thing_forces(&mut us, &Vec::new(), &Vec::new());
    assert_eq!(us, moving(Kind::Rock, 5, 5, 300_000, -400_000));
    let mut us = moving(Kind::Rock, 5, 5, 300_000, -400_000);
    thing_forces(&mut us, &vec![at(Kind::Paper, 5, 5)], &Vec::new());
    assert_eq!(us.velocity, Vec2 { x: 300_000, y: -400_000 });
}

#[test]
fn velocity_is_capped() {
    let mut us = moving(Kind::Rock, 0, 0, 3_000_000, -4_000_000);
    thing_forces(&mut us, &Vec::new(), &Vec::new());
    assert_eq!(us.velocity, Vec2 { x: 900_000, y: -1_200_000 });

    let mut us = moving(Kind::Rock, 0, 0, 1_500_000, 0);
    thing_forces(&mut us, &Vec::new(), &Vec::new());
    assert_eq!(us.velocity, Vec2 { x: 1_500_000, y: 0 });
}

#[test]
fn velocity_stays_under_the_cap_whatever_pulls() {
    let others = vec![
        at(Kind::Scissors, 7_000_000, -1_234_567),
        at(Kind::Paper, -2_000_001, 3_000_003),
        at(Kind::Rock, 11, -13),
        at(Kind::Scissors, COORD_MAX, COORD_MAX),
    ];
    let mut us = moving(Kind::Rock, 100, -100, 1_000_000, 1_000_000);
    for _ in 0..20 {
        thing_forces(&mut us, &others, &others);
        let vx = us.velocity.x as i128;
        let vy = us.velocity.y as i128;
        assert!(vx * vx + vy * vy <= 1_500_000i128 * 1_500_000i128);
    }
}

#[test]
fn distance_with_is_the_squared_distance() {
    assert_eq!(distance_with(Vec2::new(0, 0), Vec2::new(3, 4)), 25);
    assert_eq!(distance_with(Vec2::new(-1, -1), Vec2::new(-1, -1)), 0);
    assert_eq!(
        distance_with(Vec2::new(-COORD_MAX, 0), Vec2::new(COORD_MAX, 0)),
        4_000_000_000_000_000_000_000_000
    );
}

#[test]
fn pursuit_heads_away_from_the_nearest_prey() {
    let mut us = moving(Kind::Rock, 0, 0, 7, 7);
    let near = vec![at(Kind::Scissors, 30_000_000, 40_000_000), at(Kind::Paper, 1, 1)];
    let seen = vec![at(Kind::Rock, 2, 2), at(Kind::Scissors, -3_000_000, 4_000_000)];
    pursue(&mut us, &near, &seen);
    assert_eq!(us.velocity, Vec2 { x: 600_000, y: -800_000 });
    assert_eq!(us.position, Vec2 { x: 0, y: 0 });
    assert_eq!(us.kind, Kind::Rock);
}

#[test]
fn pursuit_goes_by_the_first_of_equally_near_prey() {
    let mut us = at(Kind::Paper, 0, 0);
    let near = vec![at(Kind::Rock, 0, 5_000_000), at(Kind::Rock, 5_000_000, 0)];
    pursue(&mut us, &near, &Vec::new());
    assert_eq!(us.velocity, Vec2 { x: 0, y: -1_000_000 });
}

#[test]
fn pursuit_without_prey_keeps_the_heading() {
    let mut us = moving(Kind::Rock, 0, 0, 600_000, 800_000);
    let others = vec![at(Kind::Rock, 1_000_000, 0), at(Kind::Paper, 0, 1_000_000)];
    pursue(&mut us, &others, &others);
    assert_eq!(us, moving(Kind::Rock, 0, 0, 600_000, 800_000));
    pursue(&mut us, &Vec::new(), &Vec::new());
    assert_eq!(us, moving(Kind::Rock, 0, 0, 600_000, 800_000));
}

#[test]
fn pursuit_of_prey_at_the_same_place_keeps_the_heading() {
    let mut us = moving(Kind::Rock, 5, 5, 600_000, 800_000);
    pursue(&mut us, &vec![at(Kind::Scissors, 5, 5)], &Vec::new());
    assert_eq!(us.velocity, Vec2 { x: 600_000, y: 800_000 });
}

#[test]
fn step_along_a_small_force_is_half_a_unit_long() {
    let mut us = at(Kind::Rock, 0, 0);
    thing_forces(&mut us, &vec![at(Kind::Rock, 3_000, 3_000)], &Vec::new());
    assert_eq!(us.velocity, Vec2 { x: -353_553, y: -353_553 });

    let mut us = at(Kind::Rock, 0, 0);
    thing_forces(&mut us, &vec![at(Kind::Rock, 1, 0)], &Vec::new());
    assert_eq!(us.velocity, Vec2 { x: -500_000, y: 0 });

    let mut us = at(Kind::Rock, 0, 0);
    thing_forces(&mut us, &Vec::new(), &vec![at(Kind::Scissors, -1, 1)]);
    assert_eq!(us.velocity, Vec2 { x: -353_553, y: 353_553 });
}

#[test]
fn step_is_half_a_unit_long_whatever_pulls() {
    let low = (500_000i128 - 3) * (500_000i128 - 3);
    let high = 500_000i128 * 500_000i128;
    let places = [1i64, 2, 7, 999, 3_000, 123_457, 1_000_000, 17_000_003, COORD_MAX];
    let kinds = [Kind::Rock, Kind::Paper, Kind::Scissors];
    for (i, x) in places.iter().enumerate() {
        for (j, y) in places.iter().enumerate() {
            let other = at(kinds[(i + j) % 3], *x, -*y);
            let more = at(kinds[j % 3], -*y, 5);
            let mut us = moving(Kind::Rock, 0, 0, 600_000, -800_000);
            thing_forces(&mut us, &vec![other], &vec![more]);
            let sx = (us.velocity.x - 600_000) as i128;
            let sy = (us.velocity.y + 800_000) as i128;
            let len = sx * sx + sy * sy;
            assert!(low <= len && len <= high);
        }
    }
}

#[test]
fn heading_by_a_prey_one_millionth_away_is_one_unit_long() {
    let mut us = at(Kind::Rock, 0, 0);
    pursue(&mut us, &vec![at(Kind::Scissors, -1, -1)], &Vec::new());
    assert_eq!(us.velocity, Vec2 { x: 707_106, y: 707_106 });

    let mut us = at(Kind::Rock, 0, 0);
    pursue(&mut us, &vec![at(Kind::Scissors, 0, 1)], &Vec::new());
    assert_eq!(us.velocity, Vec2 { x: 0, y: -1_000_000 });

    let mut us = at(Kind::Rock, -COORD_MAX, -COORD_MAX);
    pursue(&mut us, &vec![at(Kind::Scissors, COORD_MAX, COORD_MAX)], &Vec::new());
    assert_eq!(us.velocity, Vec2 { x: -707_106, y: -707_106 });
}

#[test]
fn normalize_gives_the_asked_length() {
    assert_eq!(normalize(0, 0, 1_000_000), (0, 0));
    assert_eq!(normalize(1, 0, 1_000_000), (1_000_000, 0));
    assert_eq!(normalize(0, -7, 500_000), (0, -500_000));
    assert_eq!(normalize(3, 4, 1_000_000), (600_000, 800_000));
    assert_eq!(normalize(-1, 1, 1_000_000), (-707_106, 707_106));
    let big = 10_000_000_000_000_000_000_000_000_000_000_000_000i128;
    assert_eq!(normalize(big, 0, 1_500_000), (1_500_000, 0));
    assert_eq!(normalize(big, -big, 1_000_000), (707_106, -707_106));
    assert_eq!(normalize(5, 5, 0), (0, 0));
}
