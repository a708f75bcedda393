use rps_arena::kind::{convert, Kind, DRIFT_FORCE, FLEE_FORCE, HUNT_FORCE};

const ALL: [Kind; 3] = [Kind::Rock, Kind::Paper, Kind::Scissors];

#[test]
fn beats_follows_the_cycle() {
    assert_eq!(Kind::Rock.beats(), Kind::Scissors);
    assert_eq!(Kind::Paper.beats(), Kind::Rock);
    assert_eq!(Kind::Scissors.beats(), Kind::Paper);
}

#[test]
fn beaten_by_follows_the_cycle() {
    assert_eq!(Kind::Rock.beaten_by(), Kind::Paper);
    assert_eq!(Kind::Paper.beaten_by(), Kind::Scissors);
    assert_eq!(Kind::Scissors.beaten_by(), Kind::Rock);
}

#[test]
fn beats_and_beaten_by_are_inverse() {
    for k in ALL {
        assert_eq!(k.beats().beaten_by(), k);
        assert_eq!(k.beaten_by().beats(), k);
        assert_ne!(k.beats(), k);
        assert_eq!(k.beats().beats().beats(), k);
    }
}

#[test]
fn force_from_prey_predator_and_own_kind() {
    assert_eq!(Kind::Rock.force_from(Kind::Scissors), 10_000_000);
    assert_eq!(Kind::Rock.force_from(Kind::Paper), -10_000_000);
    assert_eq!(Kind::Rock.force_from(Kind::Rock), -100_000);
    assert_eq!(Kind::Paper.force_from(Kind::Rock), HUNT_FORCE);
    assert_eq!(Kind::Paper.force_from(Kind::Scissors), FLEE_FORCE);
    assert_eq!(Kind::Paper.force_from(Kind::Paper), DRIFT_FORCE);
    assert_eq!(Kind::Scissors.force_from(Kind::Paper), HUNT_FORCE);
    assert_eq!(Kind::Scissors.force_from(Kind::Rock), FLEE_FORCE);
    assert_eq!(Kind::Scissors.force_from(Kind::Scissors), DRIFT_FORCE);
}

#[test]
fn from_index_orders_rock_paper_scissors() {
    assert_eq!(Kind::from_index(0), Kind::Rock);
    assert_eq!(Kind::from_index(1), Kind::Paper);
    assert_eq!(Kind::from_index(2), Kind::Scissors);
}

#[test]
fn conversion_table_row_by_row() {
    assert_eq!(convert(Kind::Rock, Kind::Paper), (Kind::Paper, Kind::Paper));
    assert_eq!(convert(Kind::Rock, Kind::Scissors), (Kind::Rock, Kind::Rock));
    assert_eq!(convert(Kind::Paper, Kind::Rock), (Kind::Paper, Kind::Paper));
    assert_eq!(convert(Kind::Paper, Kind::Scissors), (Kind::Scissors, Kind::Scissors));
    assert_eq!(convert(Kind::Scissors, Kind::Rock), (Kind::Rock, Kind::Rock));
    assert_eq!(convert(Kind::Scissors, Kind::Paper), (Kind::Scissors, Kind::Scissors));
}

#[test]
fn conversion_leaves_equal_kinds_alone() {
    for k in ALL {
        assert_eq!(convert(k, k), (k, k));
    }
}

#[test]
fn conversion_settles_after_one_encounter() {
    for a in ALL {
        for b in ALL {
            let once = convert(a, b);
            assert_eq!(once.0, once.1);
            assert_eq!(convert(once.0, once.1), once);
            if a != b {
                assert_ne!(once, (a, b));
                assert!(once.0 == a || once.0 == b);
            }
        }
    }
}
