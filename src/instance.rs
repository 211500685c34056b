//! Problem instances and action sequences.

use vstd::prelude::*;
use crate::grid::{Shape, on_grid};

verus! {

/// Largest number of commuters in an instance.
pub const MAX_COMMUTERS: usize = 1600;

/// Smallest starting budget.
pub const MIN_BUDGET: i64 = 1;

/// Largest starting budget.
pub const MAX_BUDGET: i64 = 1000000;

/// Largest turn limit.
pub const MAX_TURNS: usize = 800;

/// One commuter: the cell (`r0`, `c0`) where the journey starts and the cell
/// (`r1`, `c1`) where it ends.
#[derive(Clone, Copy, Debug, PartialEq, Eq, Structural)]
pub struct Commuter {
    pub r0: usize,
    pub c0: usize,
    pub r1: usize,
    pub c1: usize,
}

/// A problem instance: grid side `n`, commuter count `m`, starting budget
/// `k`, turn limit `t`, and the commuters in order.
#[derive(Clone, Debug)]
pub struct Input {
    pub n: usize,
    pub m: usize,
    pub k: i64,
    pub t: usize,
    pub commuters: Vec<Commuter>,
}

/// One build action.
#[derive(Clone, Copy, Debug, PartialEq, Eq, Structural)]
pub enum Action {
    /// Spend the turn doing nothing.
    Wait,
    /// Build a station at row `r`, column `c`.
    Station { r: usize, c: usize },
    /// Lay a track segment of `shape` at row `r`, column `c`.
    Track { shape: Shape, r: usize, c: usize },
}

/// A parsed action sequence; `notes[i]` is the comment text (UTF-8 bytes)
/// attached to `out[i]`.
#[derive(Clone, Debug)]
pub struct Output {
    pub out: Vec<Action>,
    pub notes: Vec<Vec<u8>>,
}

/// |a - b|.
pub open spec fn abs_diff(a: int, b: int) -> int {
    if a >= b {
        a - b
    } else {
        b - a
    }
}

/// Manhattan distance between a commuter's origin and destination.
pub open spec fn fare(cm: Commuter) -> int {
    abs_diff(cm.r0 as int, cm.r1 as int) + abs_diff(cm.c0 as int, cm.c1 as int)
}

/// Both ends of the commuter lie on the grid.
pub open spec fn commuter_on_grid(cm: Commuter) -> bool {
    on_grid(cm.r0 as int, cm.c0 as int) && on_grid(cm.r1 as int, cm.c1 as int)
}

/// The action's cell, if any, lies on the grid.
pub open spec fn action_on_grid(a: Action) -> bool {
    match a {
        Action::Wait => true,
        Action::Station { r, c } => on_grid(r as int, c as int),
        Action::Track { r, c, .. } => on_grid(r as int, c as int),
    }
}

impl Input {
    /// The instance's invariant: the fixed grid side, counts and budget
    /// within their bounds, and every commuter on the grid.
    pub open spec fn valid(&self) -> bool {
        &&& self.n == 50
        &&& self.commuters@.len() == self.m
        &&& 1 <= self.m <= MAX_COMMUTERS
        &&& MIN_BUDGET <= self.k <= MAX_BUDGET
        &&& 1 <= self.t <= MAX_TURNS
        &&& forall|i: int| 0 <= i < self.m ==> commuter_on_grid(#[trigger] self.commuters@[i])
    }
}

/// Manhattan distance between a commuter's origin and destination.
pub fn commuter_fare(cm: &Commuter) -> (r: i64)
    requires
        commuter_on_grid(*cm),
    ensures
        r == fare(*cm),
        0 <= r <= 98,
{
    let dr = if cm.r0 >= cm.r1 {
        cm.r0 - cm.r1
    } else {
        cm.r1 - cm.r0
    };
    let dc = if cm.c0 >= cm.c1 {
        cm.c0 - cm.c1
    } else {
        cm.c1 - cm.c0
    };
    (dr + dc) as i64
}

} // verus!
