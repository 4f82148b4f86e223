use vstd::prelude::*;

verus! {

/// A frontier over totally ordered `u64` times: either the antichain holding
/// a single time, or the empty antichain, which lies beyond every time.
#[derive(PartialEq, Eq, Structural, Clone, Copy, Debug)]
pub enum Frontier {
    At(u64),
    Empty,
}

/// Position of a frontier on the number line: the time it holds, or one past
/// the largest time for the empty frontier.
pub open spec fn rank(f: Frontier) -> int {
    match f {
        Frontier::At(t) => t as int,
        Frontier::Empty => u64::MAX as int + 1,
    }
}

/// The frontier reached by stepping past time `t`: `{t + 1}`, or the empty
/// frontier when no time follows `t`.
pub open spec fn step_past(t: u64) -> Frontier {
    if t < u64::MAX {
        Frontier::At((t + 1) as u64)
    } else {
        Frontier::Empty
    }
}

/// A time advanced by a frontier: joined with the frontier's time, unchanged
/// by the empty frontier.
pub open spec fn advanced(t: u64, f: Frontier) -> u64 {
    match f {
        Frontier::At(s) => if t < s { s } else { t },
        Frontier::Empty => t,
    }
}

/// The larger of two frontiers.
pub open spec fn join_of(a: Frontier, b: Frontier) -> Frontier {
    if rank(a) < rank(b) { b } else { a }
}

/// The smaller of two frontiers.
pub open spec fn meet_of(a: Frontier, b: Frontier) -> Frontier {
    if rank(a) < rank(b) { a } else { b }
}

impl Frontier {
    /// The minimum frontier `{0}`: nothing is complete yet.
    pub fn minimum() -> (r: Frontier)
        ensures
            r == Frontier::At(0),
    {
        Frontier::At(0)
    }

    /// Whether every time beyond `other` is beyond `self`.
    pub fn less_equal(&self, other: &Frontier) -> (r: bool)
        ensures
            r == (rank(*self) <= rank(*other)),
    {
        match (self, other) {
            (Frontier::At(a), Frontier::At(b)) => *a <= *b,
            (_, Frontier::Empty) => true,
            (Frontier::Empty, Frontier::At(_)) => false,
        }
    }

    /// Whether `self` is less than or equal to `other` and differs from it.
    pub fn less_than(&self, other: &Frontier) -> (r: bool)
        ensures
            r == (rank(*self) < rank(*other)),
    {
        match (self, other) {
            (Frontier::At(a), Frontier::At(b)) => *a < *b,
            (Frontier::At(_), Frontier::Empty) => true,
            (Frontier::Empty, _) => false,
        }
    }

    /// Whether time `t` is beyond the frontier (the frontier is at or below it).
    pub fn less_equal_time(&self, t: u64) -> (r: bool)
        ensures
            r == (rank(*self) <= t),
    {
        match self {
            Frontier::At(a) => *a <= t,
            Frontier::Empty => false,
        }
    }

    /// The smaller of two frontiers.
    pub fn meet(&self, other: &Frontier) -> (r: Frontier)
        ensures
            r == meet_of(*self, *other),
    {
        if self.less_than(other) {
            *self
        } else {
            *other
        }
    }

    /// The larger of two frontiers.
    pub fn join(&self, other: &Frontier) -> (r: Frontier)
        ensures
            r == join_of(*self, *other),
    {
        if self.less_than(other) {
            *other
        } else {
            *self
        }
    }
}

/// Advances time `t` by frontier `f` (the lattice `advance_by` of totally
/// ordered times).
pub fn advance_time(t: u64, f: &Frontier) -> (r: u64)
    ensures
        r == advanced(t, *f),
{
    match f {
        Frontier::At(s) => if t < *s { *s } else { t },
        Frontier::Empty => t,
    }
}

/// The successor frontier of time `t`.
pub fn step_forward(t: u64) -> (r: Frontier)
    ensures
        r == step_past(t),
        rank(r) == t + 1,
{
    if t < u64::MAX {
        Frontier::At(t + 1)
    } else {
        Frontier::Empty
    }
}

/// A batch description: the half-open time interval `[lower, upper)` that one
/// commit covers.
#[derive(PartialEq, Eq, Structural, Clone, Copy, Debug)]
pub struct Description {
    pub lower: Frontier,
    pub upper: Frontier,
}

/// The descriptions' lowers strictly increase along the sequence.
pub open spec fn sorted_by_lower(s: Seq<Description>) -> bool {
    forall|i: int, j: int| 0 <= i < j < s.len() ==> rank(s[i].lower) < rank(s[j].lower)
}

impl Description {
    /// A description is well formed when its interval is not empty.
    pub open spec fn wf(&self) -> bool {
        rank(self.lower) < rank(self.upper)
    }

    /// Whether time `t` falls in `[lower, upper)`.
    pub open spec fn holds_time(&self, t: u64) -> bool {
        rank(self.lower) <= t < rank(self.upper)
    }

    /// Whether time `t` falls in `[lower, upper)`.
    pub fn contains_time(&self, t: u64) -> (r: bool)
        ensures
            r == self.holds_time(t),
    {
        self.lower.less_equal_time(t) && !self.upper.less_equal_time(t)
    }
}

} // verus!
