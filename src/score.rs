use vstd::prelude::*;

verus! {

/// The accumulated cost figures and tournament points of one layout.
///
/// Costs are fixed-point integers: `costs::COST_UNIT` stands for one unit of effort.
/// Lower costs are better; more points are better.
#[derive(Debug, Clone, Copy)]
pub struct Score {
    pub points: u128,
    pub x1: u128,
    pub x2: u128,
    pub x3: u128,
    pub x4: u128,
    pub x5: u128,
    pub counter_left: u64,
    pub counter_right: u64,
}

/// A cost sum as a `u128` accumulator holds it: sums beyond the largest value stay there.
pub open spec fn sat(v: int) -> int {
    if v > u128::MAX as int {
        u128::MAX as int
    } else {
        v
    }
}

/// A weight sum as a `u64` counter holds it: sums beyond the largest value stay there.
pub open spec fn sat64(v: int) -> int {
    if v > u64::MAX as int {
        u64::MAX as int
    } else {
        v
    }
}

/// How far a score's hand counters are from an even split, as `|left - right|`
/// over `left + right`; compared below without division.
pub open spec fn imbalance_num(s: Score) -> int {
    if s.counter_left >= s.counter_right {
        s.counter_left - s.counter_right
    } else {
        s.counter_right - s.counter_left
    }
}

pub open spec fn imbalance_den(s: Score) -> int {
    s.counter_left + s.counter_right
}

/// `a` is strictly closer to an even split between the hands than `b`; a score
/// with no hand weight at all is never closer nor farther.
pub open spec fn better_balanced(a: Score, b: Score) -> bool {
    &&& imbalance_den(a) > 0
    &&& imbalance_den(b) > 0
    &&& imbalance_num(a) * imbalance_den(b) < imbalance_num(b) * imbalance_den(a)
}

/// The metrics of the tournament, numbered 0 to 5: the five cost sums, then balance.
pub open spec fn beats_on(metric: int, a: Score, b: Score) -> bool {
    if metric == 0 {
        a.x1 < b.x1
    } else if metric == 1 {
        a.x2 < b.x2
    } else if metric == 2 {
        a.x3 < b.x3
    } else if metric == 3 {
        a.x4 < b.x4
    } else if metric == 4 {
        a.x5 < b.x5
    } else if metric == 5 {
        better_balanced(a, b)
    } else {
        false
    }
}

/// 1 if `a` beats `b` on `metric`, else 0.
pub open spec fn win(metric: int, a: Score, b: Score) -> int {
    if beats_on(metric, a, b) {
        1
    } else {
        0
    }
}

/// Number of metrics on which `a` beats `b`.
pub open spec fn wins(a: Score, b: Score) -> int {
    win(0, a, b) + win(1, a, b) + win(2, a, b) + win(3, a, b) + win(4, a, b) + win(5, a, b)
}

/// Tournament scoring is antisymmetric on every metric: when `a` beats `b` on one,
/// `b` does not beat `a` on that same one.
pub proof fn lemma_beats_antisymmetric(metric: int, a: Score, b: Score)
    ensures
        beats_on(metric, a, b) ==> !beats_on(metric, b, a),
{
    if metric == 5 && beats_on(metric, a, b) {
        assert(imbalance_num(a) * imbalance_den(b) < imbalance_num(b) * imbalance_den(a));
    }
}

impl Score {
    pub open spec fn is_zero(&self) -> bool {
        &&& self.points == 0
        &&& self.x1 == 0
        &&& self.x2 == 0
        &&& self.x3 == 0
        &&& self.x4 == 0
        &&& self.x5 == 0
        &&& self.counter_left == 0
        &&& self.counter_right == 0
    }

    /// A score with every figure at zero.
    pub fn new() -> (r: Score)
        ensures
            r.is_zero(),
    {
        Score {
            points: 0,
            x1: 0,
            x2: 0,
            x3: 0,
            x4: 0,
            x5: 0,
            counter_left: 0,
            counter_right: 0,
        }
    }

    /// True iff `self` is strictly closer to an even split between the hands.
    pub fn is_better_balanced(&self, other: &Score) -> (r: bool)
        ensures
            r == better_balanced(*self, *other),
    {
        let (lo_a, hi_a) = if self.counter_left <= self.counter_right {
            (self.counter_left, self.counter_right)
        } else {
            (self.counter_right, self.counter_left)
        };
        let (lo_b, hi_b) = if other.counter_left <= other.counter_right {
            (other.counter_left, other.counter_right)
        } else {
            (other.counter_right, other.counter_left)
        };
        if hi_a == 0 || hi_b == 0 {
            return false;
        }
        proof {
            vstd::arithmetic::mul::lemma_mul_upper_bound(lo_a as int, u64::MAX as int, hi_b as int, u64::MAX as int);
            vstd::arithmetic::mul::lemma_mul_upper_bound(lo_b as int, u64::MAX as int, hi_a as int, u64::MAX as int);
            let (la, ha, lb, hb) = (lo_a as int, hi_a as int, lo_b as int, hi_b as int);
            assert(((ha - la) * (hb + lb) < (hb - lb) * (ha + la)) == (la * hb > lb * ha))
                by (nonlinear_arith);
        }
        (lo_a as u128) * (hi_b as u128) > (lo_b as u128) * (hi_a as u128)
    }

    /// The share of the hand weight that falls on the left hand, in whole percent
    /// rounded down; `None` where there is no hand weight at all.
    pub fn left_percent(&self) -> (r: Option<u64>)
        ensures
            r is None <==> imbalance_den(*self) == 0,
            r matches Some(p) ==> p == self.counter_left * 100 / imbalance_den(*self),
    {
        let total: u128 = self.counter_left as u128 + self.counter_right as u128;
        if total == 0 {
            return None;
        }
        proof {
            vstd::arithmetic::div_mod::lemma_div_is_ordered(
                self.counter_left * 100,
                total as int * 100,
                total as int,
            );
            vstd::arithmetic::div_mod::lemma_div_multiples_vanish(100, total as int);
            assert(self.counter_left * 100 <= total as int * 100);
        }
        Some(((self.counter_left as u128 * 100) / total) as u64)
    }

    /// True when `self` ranks strictly below `other`: ranking is by points alone.
    pub fn ranks_below(&self, other: &Score) -> (r: bool)
        ensures
            r == (self.points < other.points),
    {
        self.points < other.points
    }
}

impl PartialEq for Score {
    fn eq(&self, other: &Score) -> (r: bool) {
        self.points == other.points
    }
}

impl vstd::std_specs::cmp::PartialEqSpecImpl for Score {
    open spec fn obeys_eq_spec() -> bool {
        true
    }

    open spec fn eq_spec(&self, other: &Score) -> bool {
        self.points == other.points
    }
}

impl PartialOrd for Score {
    fn partial_cmp(&self, other: &Score) -> (r: Option<std::cmp::Ordering>) {
        if self.points < other.points {
            Some(std::cmp::Ordering::Less)
        } else if self.points == other.points {
            Some(std::cmp::Ordering::Equal)
        } else {
            Some(std::cmp::Ordering::Greater)
        }
    }
}

impl vstd::std_specs::cmp::PartialOrdSpecImpl for Score {
    open spec fn obeys_partial_cmp_spec() -> bool {
        true
    }

    open spec fn partial_cmp_spec(&self, other: &Score) -> Option<std::cmp::Ordering> {
        if self.points < other.points {
            Some(std::cmp::Ordering::Less)
        } else if self.points == other.points {
            Some(std::cmp::Ordering::Equal)
        } else {
            Some(std::cmp::Ordering::Greater)
        }
    }
}

impl Default for Score {
    fn default() -> (r: Score)
        ensures
            r.is_zero(),
    {
        Score::new()
    }
}

} // verus!
