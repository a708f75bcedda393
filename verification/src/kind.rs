//! The three cyclic kinds and their dominance rule.

use vstd::prelude::*;

use crate::fixed::UNIT;

verus! {

/// The pull that a kind feels toward its prey: 10.0.
pub const HUNT_FORCE: i64 = 10_000_000;

/// The push that a kind feels away from its predator: -10.0.
pub const FLEE_FORCE: i64 = -10_000_000;

/// The mild push between entities of one kind: -0.1.
pub const DRIFT_FORCE: i64 = -100_000;

/// One of the three kinds. Rock beats Scissors, Scissors beats Paper and
/// Paper beats Rock.
#[derive(Copy, Clone, Debug, PartialEq, Eq, Structural)]
pub enum Kind {
    Rock,
    Paper,
    Scissors,
}

impl Kind {
    /// The kind that `self` beats.
    pub open spec fn spec_beats(&self) -> Kind {
        match self {
            Kind::Rock => Kind::Scissors,
            Kind::Paper => Kind::Rock,
            Kind::Scissors => Kind::Paper,
        }
    }

    /// The kind that beats `self`.
    pub open spec fn spec_beaten_by(&self) -> Kind {
        match self {
            Kind::Rock => Kind::Paper,
            Kind::Paper => Kind::Scissors,
            Kind::Scissors => Kind::Rock,
        }
    }

    /// The signed force that `self` feels from `other`.
    pub open spec fn spec_force_from(self, other: Kind) -> int {
        if self.spec_beats() == other {
            HUNT_FORCE as int
        } else if self.spec_beaten_by() == other {
            FLEE_FORCE as int
        } else {
            DRIFT_FORCE as int
        }
    }

    /// The kind with the given ordinal: Rock, Paper, Scissors.
    pub open spec fn spec_from_index(i: int) -> Kind {
        if i == 0 {
            Kind::Rock
        } else if i == 1 {
            Kind::Paper
        } else {
            Kind::Scissors
        }
    }

    /// The kind that `self` beats.
    #[verifier::when_used_as_spec(spec_beats)]
    pub fn beats(&self) -> (r: Kind)
        ensures
            r == self.spec_beats(),
    {
        match self {
            Kind::Rock => Kind::Scissors,
            Kind::Paper => Kind::Rock,
            Kind::Scissors => Kind::Paper,
        }
    }

    /// The kind that beats `self`.
    #[verifier::when_used_as_spec(spec_beaten_by)]
    pub fn beaten_by(&self) -> (r: Kind)
        ensures
            r == self.spec_beaten_by(),
    {
        match self {
            Kind::Rock => Kind::Paper,
            Kind::Paper => Kind::Scissors,
            Kind::Scissors => Kind::Rock,
        }
    }

    /// The signed force that `self` feels from `other`: strongly positive
    /// toward prey, strongly negative from a predator, mildly negative from
    /// its own kind.
    pub fn force_from(&self, other: Kind) -> (f: i64)
        ensures
            f as int == self.spec_force_from(other),
            f == 10 * UNIT || f == -10 * UNIT || f == -(UNIT / 10),
    {
        if self.beats() == other {
            HUNT_FORCE
        } else if self.beaten_by() == other {
            FLEE_FORCE
        } else {
            DRIFT_FORCE
        }
    }

    /// The kind with the given ordinal: 0 is Rock, 1 is Paper, 2 is Scissors.
    pub fn from_index(i: u32) -> (k: Kind)
        requires
            i < 3,
        ensures
            k == Kind::spec_from_index(i as int),
    {
        if i == 0 {
            Kind::Rock
        } else if i == 1 {
            Kind::Paper
        } else {
            Kind::Scissors
        }
    }
}

/// The kinds of two colliding entities after the encounter: where one beats
/// the other, both end as the winner; equal kinds stay as they are.
pub open spec fn converted(a: Kind, b: Kind) -> (Kind, Kind) {
    if a.spec_beats() == b {
        (a, a)
    } else if b.spec_beats() == a {
        (b, b)
    } else {
        (a, b)
    }
}

/// Applies the conversion rule to the kinds of two colliding entities, `a`
/// being the one under scrutiny and `b` the one it ran into.
pub fn convert(a: Kind, b: Kind) -> (r: (Kind, Kind))
    ensures
        r == converted(a, b),
{
    match a {
        Kind::Rock => match b {
            Kind::Rock => (a, b),
            Kind::Paper => (Kind::Paper, b),
            Kind::Scissors => (a, Kind::Rock),
        },
        Kind::Paper => match b {
            Kind::Rock => (a, Kind::Paper),
            Kind::Paper => (a, b),
            Kind::Scissors => (Kind::Scissors, b),
        },
        Kind::Scissors => match b {
            Kind::Rock => (Kind::Rock, b),
            Kind::Paper => (a, Kind::Scissors),
            Kind::Scissors => (a, b),
        },
    }
}

/// The conversion rule, row by row.
pub proof fn lemma_conversion_table()
    ensures
        converted(Kind::Rock, Kind::Paper) == (Kind::Paper, Kind::Paper),
        converted(Kind::Rock, Kind::Scissors) == (Kind::Rock, Kind::Rock),
        converted(Kind::Paper, Kind::Rock) == (Kind::Paper, Kind::Paper),
        converted(Kind::Paper, Kind::Scissors) == (Kind::Scissors, Kind::Scissors),
        converted(Kind::Scissors, Kind::Rock) == (Kind::Rock, Kind::Rock),
        converted(Kind::Scissors, Kind::Paper) == (Kind::Scissors, Kind::Scissors),
        forall|k: Kind| #[trigger] converted(k, k) == (k, k),
{
}

/// One encounter settles a pair: afterwards both hold one kind exactly when
/// they differed or were equal before, so a second encounter of the same
/// pair changes nothing.
pub proof fn lemma_conversion_settles(a: Kind, b: Kind)
    ensures
        converted(a, b).0 == converted(a, b).1,
        converted(converted(a, b).0, converted(a, b).1) == converted(a, b),
        a == b ==> converted(a, b) == (a, b),
        a != b ==> (converted(a, b).0 == a || converted(a, b).0 == b),
        a != b ==> converted(a, b) != (a, b),
{
}

/// Beating and being beaten are inverse, and three steps close the cycle.
pub proof fn lemma_dominance_cycle(k: Kind)
    ensures
        k.spec_beats().spec_beaten_by() == k,
        k.spec_beaten_by().spec_beats() == k,
        k.spec_beats() != k,
        k.spec_beats().spec_beats().spec_beats() == k,
{
}

} // verus!
