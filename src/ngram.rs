use vstd::prelude::*;

use crate::costs::CostTables;
use crate::layout::{Layout, slot_in};

verus! {

/// The movement penalty charged when `c` is typed right after `last` on `line`:
/// the penalty from the slot of `c` to the slot of `last`, where both are on the
/// line and the tables have one.
pub open spec fn step_penalty(line: Seq<char>, costs: CostTables, last: Option<char>, c: char) -> Option<u32> {
    match (last, slot_in(line, c)) {
        (Some(l), Some(to)) => match slot_in(line, l) {
            Some(from) => costs.penalty(to, from),
            None => None,
        },
        _ => None,
    }
}

/// Sum of a sequence of penalties.
pub open spec fn total(s: Seq<u32>) -> int
    decreases s.len(),
{
    if s.len() == 0 {
        0
    } else {
        total(s.drop_last()) + s.last() as int
    }
}

/// A window of the last characters typed and the movement penalties collected
/// while typing them.
pub struct Ngrams {
    pub length: usize,
    pub chars: Vec<char>,
    pub penalties: Vec<u32>,
}

impl Ngrams {
    /// An empty window of `length` characters; the penalties start with
    /// `length - 1` zeros.
    pub fn new(length: usize) -> (r: Ngrams)
        requires
            length >= 1,
        ensures
            r.length == length,
            r.chars@.len() == 0,
            r.penalties@ == Seq::new((length - 1) as nat, |i: int| 0u32),
    {
        let mut penalties: Vec<u32> = Vec::new();
        let mut i: usize = 0;
        while i < length - 1
            invariant
                i <= length - 1,
                penalties@ == Seq::new(i as nat, |j: int| 0u32),
            decreases length - 1 - i,
        {
            penalties.push(0);
            i = i + 1;
            assert(penalties@ =~= Seq::new(i as nat, |j: int| 0u32));
        }
        Ngrams { length, chars: Vec::new(), penalties }
    }

    /// True iff the window holds `length` characters or more.
    pub fn is_filled(&self) -> (r: bool)
        ensures
            r == (self.chars@.len() >= self.length),
    {
        self.chars.len() >= self.length
    }

    /// Types `c` on `layout`: a full window drops its oldest character, the penalty
    /// of moving between `c` and the newest remaining character is collected, if
    /// there is one, and `c` joins the window.
    pub fn push(&mut self, c: char, layout: &Layout, costs: &CostTables)
        requires
            layout.wf(),
            costs.wf(),
        ensures
            ({
                let kept = if old(self).chars@.len() >= old(self).length && old(self).chars@.len()
                    > 0 {
                    old(self).chars@.drop_first()
                } else {
                    old(self).chars@
                };
                let last = if kept.len() > 0 {
                    Some(kept.last())
                } else {
                    None
                };
                &&& final(self).length == old(self).length
                &&& final(self).chars@ == kept.push(c)
                &&& final(self).penalties@ == match step_penalty(layout.line@, *costs, last, c) {
                    Some(p) => old(self).penalties@.push(p),
                    None => old(self).penalties@,
                }
            }),
    {
        if self.is_filled() && self.chars.len() > 0 {
            self.chars.remove(0);
        }
        self.push_penalty(c, layout, costs);
        self.chars.push(c);
    }

    /// Collects the penalty of typing `c` after the newest character of the window.
    fn push_penalty(&mut self, c: char, layout: &Layout, costs: &CostTables)
        requires
            layout.wf(),
            costs.wf(),
        ensures
            final(self).length == old(self).length,
            final(self).chars@ == old(self).chars@,
            final(self).penalties@ == match step_penalty(
                layout.line@,
                *costs,
                if old(self).chars@.len() > 0 {
                    Some(old(self).chars@.last())
                } else {
                    None
                },
                c,
            ) {
                Some(p) => old(self).penalties@.push(p),
                None => old(self).penalties@,
            },
    {
        if let Some(to) = layout.slot_of(c) {
            if self.chars.len() > 0 {
                let last = self.chars[self.chars.len() - 1];
                if let Some(from) = layout.slot_of(last) {
                    if let Some(p) = costs.penalty_of(to, from) {
                        self.penalties.push(p);
                    }
                }
            }
        }
    }

    /// The sum of the penalties collected.
    pub fn get_penalties(&self) -> (r: u128)
        ensures
            r == total(self.penalties@),
    {
        let mut sum: u128 = 0;
        let mut i: usize = 0;
        while i < self.penalties.len()
            invariant
                i <= self.penalties@.len(),
                sum == total(self.penalties@.subrange(0, i as int)),
                sum <= i * (u32::MAX as int),
            decreases self.penalties@.len() - i,
        {
            proof {
                assert(self.penalties@.subrange(0, i + 1).drop_last() =~= self.penalties@.subrange(0, i as int));
            }
            sum = sum + self.penalties[i] as u128;
            i = i + 1;
        }
        assert(self.penalties@.subrange(0, self.penalties@.len() as int) =~= self.penalties@);
        sum
    }
}

} // verus!
