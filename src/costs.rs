use vstd::prelude::*;

verus! {

/// Number of key slots on the modelled keyboard: three rows of ten plus two thumb keys.
pub const SLOTS: usize = 32;

/// Fixed-point scale of every cost figure: `COST_UNIT` is one unit of effort.
pub const COST_UNIT: u32 = 1000;

/// Effort charged for a character that the layout does not hold.
pub const ABSENT_EFFORT: u32 = 1000;

/// Per-slot effort and slot-to-slot movement penalties, in `COST_UNIT`s.
///
/// `movement[from * SLOTS + to]` is the penalty of moving from slot `from` to slot
/// `to`, or `None` where the table has no entry for that pair.
pub struct CostTables {
    pub effort: Vec<u32>,
    pub movement: Vec<Option<u32>>,
}

impl CostTables {
    pub open spec fn wf(&self) -> bool {
        &&& self.effort@.len() == SLOTS
        &&& self.movement@.len() == SLOTS * SLOTS
    }

    /// The penalty of moving from slot `from` to slot `to`, if the table has one.
    pub open spec fn penalty(&self, from: int, to: int) -> Option<u32> {
        self.movement@[from * SLOTS + to]
    }

    /// Builds the tables; `None` unless there are exactly one effort per slot and
    /// one movement entry per ordered pair of slots.
    pub fn new(effort: Vec<u32>, movement: Vec<Option<u32>>) -> (r: Option<CostTables>)
        ensures
            r is Some <==> (effort@.len() == SLOTS && movement@.len() == SLOTS * SLOTS),
            r matches Some(t) ==> t.wf() && t.effort@ == effort@ && t.movement@ == movement@,
    {
        if effort.len() == SLOTS && movement.len() == SLOTS * SLOTS {
            Some(CostTables { effort, movement })
        } else {
            None
        }
    }

    /// Effort of slot `slot`.
    pub fn effort_of(&self, slot: usize) -> (r: u32)
        requires
            self.wf(),
            slot < SLOTS,
        ensures
            r == self.effort@[slot as int],
    {
        self.effort[slot]
    }

    /// Movement penalty from slot `from` to slot `to`.
    pub fn penalty_of(&self, from: usize, to: usize) -> (r: Option<u32>)
        requires
            self.wf(),
            from < SLOTS,
            to < SLOTS,
        ensures
            r == self.penalty(from as int, to as int),
    {
        self.movement[from * SLOTS + to]
    }
}

} // verus!
