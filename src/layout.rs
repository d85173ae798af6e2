use vstd::prelude::*;
use vstd::string::*;

use crate::costs::{CostTables, SLOTS, ABSENT_EFFORT};
use crate::score::{Score, sat, sat64, wins};
use crate::xgrams::{Gram, Xgrams};

verus! {

/// True for the slots typed with the left hand: columns 0 to 4 of the three rows,
/// and the first thumb key.
pub open spec fn is_left_slot(s: int) -> bool {
    (0 <= s < 30 && s % 10 < 5) || s == 30
}

/// The slot of the first occurrence of `c` in `line`, if any.
pub open spec fn slot_in(line: Seq<char>, c: char) -> Option<int> {
    if exists|i: int| 0 <= i < line.len() && line[i] == c {
        Some(
            choose|i: int|
                0 <= i < line.len() && line[i] == c && forall|j: int| 0 <= j < i ==> line[j] != c,
        )
    } else {
        None
    }
}

/// `c` is on a slot of the left hand.
pub open spec fn left_in(line: Seq<char>, c: char) -> bool {
    match slot_in(line, c) {
        Some(s) => is_left_slot(s),
        None => false,
    }
}

/// `c` is on a slot of the right hand.
pub open spec fn right_in(line: Seq<char>, c: char) -> bool {
    match slot_in(line, c) {
        Some(s) => !is_left_slot(s),
        None => false,
    }
}

/// `c` is on a slot of the left hand (`left`) or of the right hand; a character
/// the line lacks is on neither.
pub open spec fn on_hand(line: Seq<char>, c: char, left: bool) -> bool {
    if left {
        left_in(line, c)
    } else {
        right_in(line, c)
    }
}

/// Every character a layout holds is on exactly one hand: the left-hand and the
/// right-hand test are never both true and never both false for it.
pub proof fn lemma_hands_complementary(line: Seq<char>, c: char)
    requires
        line.len() == SLOTS,
        slot_in(line, c) is Some,
    ensures
        left_in(line, c) != right_in(line, c),
        left_in(line, c) == is_left_slot(slot_in(line, c)->Some_0),
{
}

/// Two columns are worked by one finger: equal columns, or the inner pairs 3/4
/// and 5/6 that an index finger covers.
pub open spec fn shared_column(a: int, b: int) -> bool {
    a == b || (a == 3 && b == 4) || (a == 4 && b == 3) || (a == 5 && b == 6) || (a == 6 && b
        == 5)
}

/// `a` and `b` both sit on the main grid and are typed with the same finger.
pub open spec fn same_finger_in(line: Seq<char>, a: char, b: char) -> bool {
    match (slot_in(line, a), slot_in(line, b)) {
        (Some(sa), Some(sb)) => sa < 30 && sb < 30 && shared_column(sa % 10, sb % 10),
        _ => false,
    }
}

/// Effort of typing `c`: its slot's effort, or `ABSENT_EFFORT` where the line lacks it.
pub open spec fn char_effort(line: Seq<char>, costs: CostTables, c: char) -> int {
    match slot_in(line, c) {
        Some(s) => costs.effort@[s] as int,
        None => ABSENT_EFFORT as int,
    }
}

/// Weighted effort of a single-character entry; other entries add nothing.
pub open spec fn unigram_effort(line: Seq<char>, costs: CostTables, g: Gram) -> int {
    if g.key@.len() == 1 {
        g.count * char_effort(line, costs, g.key@[0])
    } else {
        0
    }
}

/// Sum of `unigram_effort` over a table.
pub open spec fn effort_total(line: Seq<char>, costs: CostTables, t: Seq<Gram>) -> int
    decreases t.len(),
{
    if t.len() == 0 {
        0
    } else {
        effort_total(line, costs, t.drop_last()) + unigram_effort(line, costs, t.last())
    }
}

/// Weight a single-character entry adds to the left (`left`) or right hand: its
/// count where its character is on that hand.
pub open spec fn unigram_hand(line: Seq<char>, g: Gram, left: bool) -> int {
    if g.key@.len() == 1 && on_hand(line, g.key@[0], left) {
        g.count as int
    } else {
        0
    }
}

/// Weight a two-character entry of distinct characters adds to the left (`left`) or
/// right hand when both are on that hand.
pub open spec fn bigram_hand(line: Seq<char>, g: Gram, left: bool) -> int {
    if g.key@.len() == 2 && g.key@[0] != g.key@[1] && on_hand(line, g.key@[0], left) && on_hand(
        line,
        g.key@[1],
        left,
    ) {
        g.count as int
    } else {
        0
    }
}

/// Sum of the hand weights of the entries of a table: `single` picks single-character
/// entries, otherwise two-character ones.
pub open spec fn hand_total(line: Seq<char>, t: Seq<Gram>, left: bool, single: bool) -> int
    decreases t.len(),
{
    if t.len() == 0 {
        0
    } else {
        hand_total(line, t.drop_last(), left, single) + if single {
            unigram_hand(line, t.last(), left)
        } else {
            bigram_hand(line, t.last(), left)
        }
    }
}

/// The movement cost of a two-character entry of distinct characters, both in the
/// line, whose slot pair has a penalty: the count times that penalty.
pub open spec fn transition(line: Seq<char>, costs: CostTables, g: Gram) -> Option<int> {
    if g.key@.len() == 2 && g.key@[0] != g.key@[1] {
        match (slot_in(line, g.key@[0]), slot_in(line, g.key@[1])) {
            (Some(a), Some(b)) => match costs.penalty(a, b) {
                Some(p) => Some(g.count * p),
                None => None,
            },
            _ => None,
        }
    } else {
        None
    }
}

/// The movement cost of the last entry of a table that has one.
pub open spec fn last_transition(line: Seq<char>, costs: CostTables, t: Seq<Gram>) -> Option<
    int,
>
    decreases t.len(),
{
    if t.len() == 0 {
        None
    } else {
        match transition(line, costs, t.last()) {
            Some(v) => Some(v),
            None => last_transition(line, costs, t.drop_last()),
        }
    }
}

/// The score of `l` after the single-character table `x1` and the two-character
/// table `x2` are scored against it.
pub open spec fn scored(l: Layout, x1: Seq<Gram>, x2: Seq<Gram>, costs: CostTables) -> Score {
    Score {
        x1: sat(l.score.x1 + effort_total(l.line@, costs, x1)) as u128,
        x2: match last_transition(l.line@, costs, x2) {
            Some(v) => v as u128,
            None => l.score.x2,
        },
        counter_left: sat64(
            l.score.counter_left + hand_total(l.line@, x1, true, true) + hand_total(
                l.line@,
                x2,
                true,
                false,
            ),
        ) as u64,
        counter_right: sat64(
            l.score.counter_right + hand_total(l.line@, x1, false, true) + hand_total(
                l.line@,
                x2,
                false,
                false,
            ),
        ) as u64,
        ..l.score
    }
}

/// The same-finger test does not depend on the order of its two characters.
pub proof fn lemma_same_finger_symmetric(line: Seq<char>, a: char, b: char)
    ensures
        same_finger_in(line, a, b) == same_finger_in(line, b, a),
{
}

/// One candidate arrangement of characters on the key slots, with its score.
#[derive(Debug, Clone)]
pub struct Layout {
    pub line: Vec<char>,
    pub score: Score,
}

impl Layout {
    pub open spec fn wf(&self) -> bool {
        self.line@.len() == SLOTS
    }

    /// A layout of the characters of `line`, one per slot in order, with a zero
    /// score; `None` unless `line` holds exactly one character per slot.
    pub fn from_chars(line: Vec<char>) -> (r: Option<Layout>)
        ensures
            r is Some <==> line@.len() == SLOTS,
            r matches Some(l) ==> l.wf() && l.line@ == line@ && l.score.is_zero(),
    {
        if line.len() == SLOTS {
            Some(Layout { line, score: Score::new() })
        } else {
            None
        }
    }

    /// A layout of the characters of `line`; `None` unless it holds exactly one
    /// character per slot.
    pub fn from_line(line: &str) -> (r: Option<Layout>)
        ensures
            r is Some <==> line@.len() == SLOTS,
            r matches Some(l) ==> l.wf() && l.line@ == line@ && l.score.is_zero(),
    {
        let n = line.unicode_len();
        let mut chars: Vec<char> = Vec::new();
        let mut i: usize = 0;
        while i < n
            invariant
                n == line@.len(),
                i <= n,
                chars@ == line@.subrange(0, i as int),
            decreases n - i,
        {
            chars.push(line.get_char(i));
            i = i + 1;
        }
        assert(chars@ =~= line@);
        Layout::from_chars(chars)
    }

    /// The slot of `c`, or `None` where the layout does not hold it.
    pub fn slot_of(&self, c: char) -> (r: Option<usize>)
        ensures
            r matches Some(s) ==> slot_in(self.line@, c) == Some(s as int),
            r is None <==> slot_in(self.line@, c) is None,
    {
        let mut i: usize = 0;
        while i < self.line.len()
            invariant
                i <= self.line@.len(),
                forall|j: int| 0 <= j < i ==> self.line@[j] != c,
            decreases self.line@.len() - i,
        {
            if self.line[i] == c {
                assert(0 <= i < self.line@.len() && self.line@[i as int] == c && forall|j: int|
                    0 <= j < i ==> self.line@[j] != c);
                proof {
                    let k = slot_in(self.line@, c)->Some_0;
                    if k < i {
                    } else if k > i {
                        assert(self.line@[i as int] != c);
                    }
                }
                return Some(i);
            }
            i = i + 1;
        }
        None
    }

    /// True iff `c` is on a slot of the left hand.
    pub fn is_left_hand(&self, c: char) -> (r: bool)
        ensures
            r == left_in(self.line@, c),
    {
        match self.slot_of(c) {
            Some(s) => (s < 30 && s % 10 < 5) || s == 30,
            None => false,
        }
    }

    /// True iff `c` is on a slot of the right hand.
    pub fn is_right_hand(&self, c: char) -> (r: bool)
        ensures
            r == right_in(self.line@, c),
    {
        match self.slot_of(c) {
            Some(s) => !((s < 30 && s % 10 < 5) || s == 30),
            None => false,
        }
    }

    /// True iff `a` and `b` are both in the layout and typed with the same hand.
    pub fn is_same_hand(&self, a: char, b: char) -> (r: bool)
        ensures
            r == ((left_in(self.line@, a) && left_in(self.line@, b)) || (right_in(self.line@, a)
                && right_in(self.line@, b))),
    {
        (self.is_left_hand(a) && self.is_left_hand(b)) || (self.is_right_hand(a)
            && self.is_right_hand(b))
    }

    /// True iff `a` and `b` are both on the main grid and typed with the same finger.
    pub fn is_same_finger(&self, a: char, b: char) -> (r: bool)
        ensures
            r == same_finger_in(self.line@, a, b),
    {
        match (self.slot_of(a), self.slot_of(b)) {
            (Some(sa), Some(sb)) => {
                if sa < 30 && sb < 30 {
                    let ca = sa % 10;
                    let cb = sb % 10;
                    ca == cb || (ca == 3 && cb == 4) || (ca == 4 && cb == 3) || (ca == 5 && cb
                        == 6) || (ca == 6 && cb == 5)
                } else {
                    false
                }
            },
            _ => false,
        }
    }

    /// Adds the costs of the single-character table `x1` and the two-character table
    /// `x2` of `xgrams` to the score.
    ///
    /// `x1` grows by each single character's count times its effort, or times
    /// `ABSENT_EFFORT` where the layout lacks it; the hand counters grow by the
    /// counts of single characters on each hand and of pairs of distinct characters
    /// both on one hand, and a character the layout lacks is on no hand; `x2`
    /// becomes the movement cost of the
    /// last pair in `x2` that has one, and stays as it was where none has. Every sum
    /// stops at its type's largest value.
    pub fn score(&mut self, xgrams: &Xgrams, costs: &CostTables)
        requires
            old(self).wf(),
            costs.wf(),
        ensures
            final(self).line@ == old(self).line@,
            final(self).score == scored(*old(self), xgrams.x1.entries@, xgrams.x2.entries@, *costs),
    {
        let x1 = &xgrams.x1.entries;
        let x2 = &xgrams.x2.entries;
        let ghost line = self.line@;
        let ghost s0 = self.score;
        let mut i: usize = 0;
        while i < x1.len()
            invariant
                self.wf(),
                costs.wf(),
                self.line@ == line,
                i <= x1@.len(),
                self.score.x1 == sat(s0.x1 + effort_total(line, *costs, x1@.subrange(0, i as int))),
                self.score.counter_left == sat64(s0.counter_left + hand_total(line, x1@.subrange(0, i as int), true, true)),
                self.score.counter_right == sat64(s0.counter_right + hand_total(line, x1@.subrange(0, i as int), false, true)),
                self.score.x2 == s0.x2,
                self.score.points == s0.points,
                self.score.x3 == s0.x3,
                self.score.x4 == s0.x4,
                self.score.x5 == s0.x5,
                effort_total(line, *costs, x1@.subrange(0, i as int)) >= 0,
                hand_total(line, x1@.subrange(0, i as int), true, true) >= 0,
                hand_total(line, x1@.subrange(0, i as int), false, true) >= 0,
            decreases x1@.len() - i,
        {
            let g = &x1[i];
            proof {
                assert(x1@.subrange(0, i + 1).drop_last() =~= x1@.subrange(0, i as int));
            }
            if g.key.len() == 1 {
                let c = g.key[0];
                let e: u32 = match self.slot_of(c) {
                    Some(s) => costs.effort_of(s),
                    None => ABSENT_EFFORT,
                };
                assert(e == char_effort(line, *costs, c));
                proof {
                    vstd::arithmetic::mul::lemma_mul_upper_bound(g.count as int, u64::MAX as int, e as int, u32::MAX as int);
                }
                let cost: u128 = (g.count as u128) * (e as u128);
                self.score.x1 = self.score.x1.saturating_add(cost);
                if self.is_left_hand(c) {
                    self.score.counter_left = self.score.counter_left.saturating_add(g.count);
                } else if self.is_right_hand(c) {
                    self.score.counter_right = self.score.counter_right.saturating_add(g.count);
                }
            }
            i = i + 1;
        }
        assert(x1@.subrange(0, x1@.len() as int) =~= x1@);
        let ghost s1 = self.score;
        let mut j: usize = 0;
        while j < x2.len()
            invariant
                self.wf(),
                costs.wf(),
                self.line@ == line,
                j <= x2@.len(),
                self.score.x1 == s1.x1,
                self.score.counter_left == sat64(s1.counter_left + hand_total(line, x2@.subrange(0, j as int), true, false)),
                self.score.counter_right == sat64(s1.counter_right + hand_total(line, x2@.subrange(0, j as int), false, false)),
                self.score.x2 == match last_transition(line, *costs, x2@.subrange(0, j as int)) {
                    Some(v) => v,
                    None => s0.x2 as int,
                },
                self.score.points == s0.points,
                self.score.x3 == s0.x3,
                self.score.x4 == s0.x4,
                self.score.x5 == s0.x5,
                hand_total(line, x2@.subrange(0, j as int), true, false) >= 0,
                hand_total(line, x2@.subrange(0, j as int), false, false) >= 0,
            decreases x2@.len() - j,
        {
            let g = &x2[j];
            proof {
                assert(x2@.subrange(0, j + 1).drop_last() =~= x2@.subrange(0, j as int));
            }
            if g.key.len() == 2 && g.key[0] != g.key[1] {
                let a = g.key[0];
                let b = g.key[1];
                if self.is_left_hand(a) && self.is_left_hand(b) {
                    self.score.counter_left = self.score.counter_left.saturating_add(g.count);
                } else if self.is_right_hand(a) && self.is_right_hand(b) {
                    self.score.counter_right = self.score.counter_right.saturating_add(g.count);
                }
                match (self.slot_of(a), self.slot_of(b)) {
                    (Some(sa), Some(sb)) => {
                        match costs.penalty_of(sa, sb) {
                            Some(p) => {
                                proof {
                                    vstd::arithmetic::mul::lemma_mul_upper_bound(g.count as int, u64::MAX as int, p as int, u32::MAX as int);
                                }
                                self.score.x2 = (g.count as u128) * (p as u128);
                            },
                            None => {},
                        }
                    },
                    _ => {},
                }
            }
            j = j + 1;
        }
        assert(x2@.subrange(0, x2@.len() as int) =~= x2@);
        assert(self.score == scored(*old(self), x1@, x2@, *costs));
    }

    /// Awards `self` one point for each metric on which it beats `hunter`: lower
    /// `x1` to `x5`, and a hand split closer to even. Points stop at their type's
    /// largest value; nothing else changes.
    pub fn defend(&mut self, hunter: &Layout)
        ensures
            final(self).line@ == old(self).line@,
            final(self).score == (Score { points: sat(old(self).score.points + wins(old(self).score, hunter.score)) as u128, ..old(self).score }),
    {
        self.award(hunter.score);
    }

    /// `defend` against a layout whose score is `their`.
    pub(crate) fn award(&mut self, their: Score)
        ensures
            final(self).line@ == old(self).line@,
            final(self).score == (Score { points: sat(old(self).score.points + wins(old(self).score, their)) as u128, ..old(self).score }),
    {
        let my = self.score;
        let mut won: u128 = 0;
        if my.x1 < their.x1 {
            won = won + 1;
        }
        if my.x2 < their.x2 {
            won = won + 1;
        }
        if my.x3 < their.x3 {
            won = won + 1;
        }
        if my.x4 < their.x4 {
            won = won + 1;
        }
        if my.x5 < their.x5 {
            won = won + 1;
        }
        if my.is_better_balanced(&their) {
            won = won + 1;
        }
        assert(won == wins(my, their));
        self.score.points = self.score.points.saturating_add(won);
    }
}

} // verus!
