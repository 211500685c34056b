//! Replaying an action sequence: construction, commuter income, and the
//! turn-by-turn state machine of the judge.

use vstd::prelude::*;
use crate::grid::{
    BuildError, GridModel, GridState, build_spec, cell_id, lemma_comp_after_keeps,
    on_grid, shape_code, EMPTY, GRID_SIDE, STATION, STATION_COST, TRACK_COST,
};
use crate::instance::{
    Action, Commuter, Input, abs_diff, action_on_grid, commuter_fare, commuter_on_grid, fare,
    MAX_BUDGET,
};

verus! {

/// A rule broken during a replay.
#[derive(Clone, Copy, Debug, PartialEq, Eq, Structural)]
pub enum Violation {
    /// A construction cost more than the money left.
    InsufficientFunds,
    /// A construction on a cell that already holds something.
    CellOccupied,
    /// An action after the last turn.
    TooManyActions,
    /// The actions ran out before the last turn.
    TooFewActions,
}

/// The first rule broken in a replay, and the index of the turn at fault.
#[derive(Clone, Copy, Debug, PartialEq, Eq, Structural)]
pub struct Failure {
    pub turn: usize,
    pub violation: Violation,
}

/// The violation that a refused construction stands for.
pub open spec fn violation_of(e: BuildError) -> Violation {
    match e {
        BuildError::InsufficientFunds => Violation::InsufficientFunds,
        BuildError::CellOccupied => Violation::CellOccupied,
    }
}

/// (`sr`, `sc`) holds a station within Manhattan distance 2 of (`r`, `c`).
pub open spec fn station_near(cells: Seq<u8>, r: int, c: int, sr: int, sc: int) -> bool {
    &&& on_grid(sr, sc)
    &&& abs_diff(sr, r) + abs_diff(sc, c) <= 2
    &&& cells[cell_id(sr, sc)] == STATION
}

/// Some station near the commuter's origin and some station near its
/// destination belong to one component.
pub open spec fn servable(g: GridModel, cm: Commuter) -> bool {
    exists|ar: int, ac: int, br: int, bc: int|
        #![trigger station_near(g.cells, cm.r0 as int, cm.c0 as int, ar, ac), station_near(g.cells, cm.r1 as int, cm.c1 as int, br, bc)]
        station_near(g.cells, cm.r0 as int, cm.c0 as int, ar, ac) && station_near(
            g.cells,
            cm.r1 as int,
            cm.c1 as int,
            br,
            bc,
        ) && g.comp[cell_id(ar, ac)] == g.comp[cell_id(br, bc)]
}

/// Income from the first `k` commuters that are not yet served and can now be.
pub open spec fn gain(g: GridModel, served: Seq<bool>, cms: Seq<Commuter>, k: nat) -> int
    decreases k,
{
    if k == 0 {
        0
    } else {
        gain(g, served, cms, (k - 1) as nat) + if !served[k - 1] && servable(g, cms[k - 1]) {
            fare(cms[k - 1])
        } else {
            0
        }
    }
}

/// Fares of the served commuters among the first `k`.
pub open spec fn fares(served: Seq<bool>, cms: Seq<Commuter>, k: nat) -> int
    decreases k,
{
    if k == 0 {
        0
    } else {
        fares(served, cms, (k - 1) as nat) + if served[k - 1] {
            fare(cms[k - 1])
        } else {
            0
        }
    }
}

/// Served flags after one accrual on grid `g`.
pub open spec fn accrued(g: GridModel, served: Seq<bool>, cms: Seq<Commuter>) -> Seq<bool> {
    Seq::new(served.len(), |i: int| served[i] || servable(g, cms[i]))
}

/// The state of a replay: the grid, which commuters are served, how many
/// turns were used, and the income of the last turn.
pub struct ReplayModel {
    pub grid: GridModel,
    pub served: Seq<bool>,
    pub turn: nat,
    pub income: int,
}

/// The state before the first turn.
pub open spec fn initial_model(input: Input) -> ReplayModel {
    ReplayModel {
        grid: GridModel {
            cells: Seq::new(2500, |i: int| EMPTY),
            comp: Seq::new(2500, |i: int| i),
            money: input.k as int,
        },
        served: Seq::new(input.m as nat, |i: int| false),
        turn: 0,
        income: 0,
    }
}

/// The grid after the construction that `a` asks for.
pub open spec fn build_of(g: GridModel, a: Action) -> Result<GridModel, BuildError> {
    match a {
        Action::Wait => Ok(g),
        Action::Station { r, c } => build_spec(g, r as int, c as int, STATION, STATION_COST as int),
        Action::Track { shape, r, c } => build_spec(
            g,
            r as int,
            c as int,
            shape_code(shape),
            TRACK_COST as int,
        ),
    }
}

/// One turn: the construction, then the accrual of newly served commuters.
pub open spec fn step_spec(input: Input, s: ReplayModel, a: Action) -> Result<ReplayModel, BuildError> {
    match build_of(s.grid, a) {
        Err(e) => Err(e),
        Ok(g) => {
            let cms = input.commuters@;
            let inc = gain(g, s.served, cms, cms.len());
            Ok(
                ReplayModel {
                    grid: GridModel { money: g.money + inc, ..g },
                    served: accrued(g, s.served, cms),
                    turn: s.turn + 1,
                    income: inc,
                },
            )
        },
    }
}

/// The state after the first `i` actions, or the first failure among them.
pub open spec fn replay_spec(input: Input, acts: Seq<Action>, i: nat) -> Result<ReplayModel, Failure>
    decreases i,
{
    if i == 0 {
        Ok(initial_model(input))
    } else {
        match replay_spec(input, acts, (i - 1) as nat) {
            Err(f) => Err(f),
            Ok(s) => if s.turn >= input.t {
                Err(Failure { turn: (i - 1) as usize, violation: Violation::TooManyActions })
            } else {
                match step_spec(input, s, acts[i - 1]) {
                    Err(e) => Err(Failure { turn: (i - 1) as usize, violation: violation_of(e) }),
                    Ok(s2) => Ok(s2),
                }
            },
        }
    }
}

/// The outcome of judging `acts`: the money left after exactly the turn
/// limit's worth of actions, or the first failure.
pub open spec fn judge_spec(input: Input, acts: Seq<Action>) -> Result<int, Failure> {
    match replay_spec(input, acts, acts.len()) {
        Err(f) => Err(f),
        Ok(s) => if s.turn < input.t {
            Err(Failure { turn: s.turn as usize, violation: Violation::TooFewActions })
        } else {
            Ok(s.grid.money)
        },
    }
}

/// The stations within distance 2 of (`r`, `c`), as (row, column) pairs.
fn stations_near(grid: &GridState, r: usize, c: usize) -> (v: Vec<(usize, usize)>)
    requires
        grid.wf(),
        on_grid(r as int, c as int),
    ensures
        forall|k: int|
            0 <= k < v@.len() ==> station_near(
                grid@.cells,
                r as int,
                c as int,
                #[trigger] v@[k].0 as int,
                v@[k].1 as int,
            ),
        forall|sr: int, sc: int|
            #[trigger] station_near(grid@.cells, r as int, c as int, sr, sc) ==> exists|k: int|
                0 <= k < v@.len() && v@[k].0 == sr && v@[k].1 == sc,
{
    let mut v: Vec<(usize, usize)> = Vec::new();
    let r_lo: usize = if r >= 2 {
        r - 2
    } else {
        0
    };
    let r_hi: usize = if r + 2 < GRID_SIDE {
        r + 2
    } else {
        GRID_SIDE - 1
    };
    let c_lo: usize = if c >= 2 {
        c - 2
    } else {
        0
    };
    let c_hi: usize = if c + 2 < GRID_SIDE {
        c + 2
    } else {
        GRID_SIDE - 1
    };
    let mut sr: usize = r_lo;
    while sr <= r_hi
        invariant
            grid.wf(),
            on_grid(r as int, c as int),
            r_lo <= sr <= r_hi + 1,
            r_hi < GRID_SIDE,
            c_hi < GRID_SIDE,
            r_lo as int == if r >= 2 { r - 2 } else { 0 },
            r_hi as int == if r + 2 < 50 { r + 2 } else { 49 },
            c_lo as int == if c >= 2 { c - 2 } else { 0 },
            c_hi as int == if c + 2 < 50 { c + 2 } else { 49 },
            forall|k: int|
                0 <= k < v@.len() ==> station_near(
                    grid@.cells,
                    r as int,
                    c as int,
                    #[trigger] v@[k].0 as int,
                    v@[k].1 as int,
                ),
            forall|pr: int, pc: int|
                #![trigger station_near(grid@.cells, r as int, c as int, pr, pc)]
                pr < sr && station_near(grid@.cells, r as int, c as int, pr, pc) ==> exists|k: int|
                    0 <= k < v@.len() && v@[k].0 == pr && v@[k].1 == pc,
        decreases r_hi + 1 - sr,
    {
        let mut sc: usize = c_lo;
        while sc <= c_hi
            invariant
                grid.wf(),
                on_grid(r as int, c as int),
                r_lo <= sr <= r_hi,
                c_lo <= sc <= c_hi + 1,
                r_hi < GRID_SIDE,
                c_hi < GRID_SIDE,
                r_lo as int == if r >= 2 { r - 2 } else { 0 },
                r_hi as int == if r + 2 < 50 { r + 2 } else { 49 },
                c_lo as int == if c >= 2 { c - 2 } else { 0 },
                c_hi as int == if c + 2 < 50 { c + 2 } else { 49 },
                forall|k: int|
                    0 <= k < v@.len() ==> station_near(
                        grid@.cells,
                        r as int,
                        c as int,
                        #[trigger] v@[k].0 as int,
                        v@[k].1 as int,
                    ),
                forall|pr: int, pc: int|
                    #![trigger station_near(grid@.cells, r as int, c as int, pr, pc)]
                    (pr < sr || (pr == sr && pc < sc)) && station_near(
                        grid@.cells,
                        r as int,
                        c as int,
                        pr,
                        pc,
                    ) ==> exists|k: int| 0 <= k < v@.len() && v@[k].0 == pr && v@[k].1 == pc,
            decreases c_hi + 1 - sc,
        {
            let dr = if sr >= r {
                sr - r
            } else {
                r - sr
            };
            let dc = if sc >= c {
                sc - c
            } else {
                c - sc
            };
            let ghost before = v@;
            if dr + dc <= 2 && grid.cell(sr, sc) == STATION {
                v.push((sr, sc));
            }
            proof {
                assert forall|pr: int, pc: int|
                    (pr < sr || (pr == sr && pc <= sc)) && #[trigger] station_near(
                        grid@.cells,
                        r as int,
                        c as int,
                        pr,
                        pc,
                    ) implies exists|k: int| 0 <= k < v@.len() && v@[k].0 == pr && v@[k].1 == pc by {
                    if pr == sr && pc == sc {
                        let k = v@.len() - 1;
                        assert(v@[k].0 == pr && v@[k].1 == pc);
                    } else {
                        let k = choose|k: int| 0 <= k < before.len() && before[k].0 == pr && before[k].1 == pc;
                        assert(v@[k] == before[k]);
                    }
                }
            }
            sc = sc + 1;
        }
        sr = sr + 1;
    }
    v
}

/// Whether some station near the commuter's origin and some station near its
/// destination belong to one component.
fn commuter_servable(grid: &mut GridState, cm: &Commuter) -> (r: bool)
    requires
        old(grid).wf(),
        commuter_on_grid(*cm),
    ensures
        final(grid).wf(),
        final(grid)@ == old(grid)@,
        r == servable(old(grid)@, *cm),
{
    let a = stations_near(grid, cm.r0, cm.c0);
    let b = stations_near(grid, cm.r1, cm.c1);
    let ghost g = grid@;
    let ghost cells = g.cells;
    let mut i: usize = 0;
    while i < a.len()
        invariant
            grid.wf(),
            grid@ == g,
            g == old(grid)@,
            cells == g.cells,
            i <= a@.len(),
            forall|k: int|
                0 <= k < a@.len() ==> station_near(
                    cells,
                    cm.r0 as int,
                    cm.c0 as int,
                    #[trigger] a@[k].0 as int,
                    a@[k].1 as int,
                ),
            forall|k: int|
                0 <= k < b@.len() ==> station_near(
                    cells,
                    cm.r1 as int,
                    cm.c1 as int,
                    #[trigger] b@[k].0 as int,
                    b@[k].1 as int,
                ),
            forall|p: int, q: int|
                #![trigger a@[p], b@[q]]
                0 <= p < i && 0 <= q < b@.len() ==> g.comp[cell_id(a@[p].0 as int, a@[p].1 as int)]
                    != g.comp[cell_id(b@[q].0 as int, b@[q].1 as int)],
        decreases a@.len() - i,
    {
        let mut j: usize = 0;
        while j < b.len()
            invariant
                grid.wf(),
                grid@ == g,
                g == old(grid)@,
                cells == g.cells,
                i < a@.len(),
                j <= b@.len(),
                forall|k: int|
                    0 <= k < a@.len() ==> station_near(
                        cells,
                        cm.r0 as int,
                        cm.c0 as int,
                        #[trigger] a@[k].0 as int,
                        a@[k].1 as int,
                    ),
                forall|k: int|
                    0 <= k < b@.len() ==> station_near(
                        cells,
                        cm.r1 as int,
                        cm.c1 as int,
                        #[trigger] b@[k].0 as int,
                        b@[k].1 as int,
                    ),
                forall|p: int, q: int|
                    #![trigger a@[p], b@[q]]
                    0 <= p < i && 0 <= q < b@.len() ==> g.comp[cell_id(
                        a@[p].0 as int,
                        a@[p].1 as int,
                    )] != g.comp[cell_id(b@[q].0 as int, b@[q].1 as int)],
                forall|q: int|
                    0 <= q < j ==> g.comp[cell_id(a@[i as int].0 as int, a@[i as int].1 as int)]
                        != g.comp[cell_id(#[trigger] b@[q].0 as int, b@[q].1 as int)],
            decreases b@.len() - j,
        {
            let (ar, ac) = a[i];
            let (br, bc) = b[j];
            proof {
                assert(station_near(cells, cm.r0 as int, cm.c0 as int, a@[i as int].0 as int, a@[i as int].1 as int));
                assert(station_near(cells, cm.r1 as int, cm.c1 as int, b@[j as int].0 as int, b@[j as int].1 as int));
            }
            if grid.connected(ar * GRID_SIDE + ac, br * GRID_SIDE + bc) {
                proof {
                    assert(station_near(g.cells, cm.r0 as int, cm.c0 as int, ar as int, ac as int));
                    assert(station_near(g.cells, cm.r1 as int, cm.c1 as int, br as int, bc as int));
                }
                return true;
            }
            j = j + 1;
        }
        i = i + 1;
    }
    proof {
        if servable(g, *cm) {
            let (ar, ac, br, bc) = choose|ar: int, ac: int, br: int, bc: int|
                station_near(g.cells, cm.r0 as int, cm.c0 as int, ar, ac) && station_near(
                    g.cells,
                    cm.r1 as int,
                    cm.c1 as int,
                    br,
                    bc,
                ) && g.comp[cell_id(ar, ac)] == g.comp[cell_id(br, bc)];
            let p = choose|k: int| 0 <= k < a@.len() && a@[k].0 == ar && a@[k].1 == ac;
            let q = choose|k: int| 0 <= k < b@.len() && b@[k].0 == br && b@[k].1 == bc;
            assert(g.comp[cell_id(a@[p].0 as int, a@[p].1 as int)] != g.comp[cell_id(
                b@[q].0 as int,
                b@[q].1 as int,
            )]);
        }
    }
    false
}

/// Largest income of one turn: every commuter paying the longest fare.
pub const MAX_TURN_INCOME: i64 = 156800;

/// Where a replay stands.
#[derive(Clone, Copy, Debug, PartialEq, Eq, Structural)]
pub enum Phase {
    /// No turn used yet.
    Ready,
    /// Some turns used, some left.
    InProgress,
    /// Every turn used; a further action is a violation.
    Exhausted,
    /// A rule was broken; the replay accepts nothing more.
    Failed(Failure),
}

/// A replay of one action sequence on one instance.
pub struct Replay {
    grid: GridState,
    served: Vec<bool>,
    turn: usize,
    income: i64,
    limit: usize,
    phase: Phase,
}

impl View for Replay {
    type V = ReplayModel;

    closed spec fn view(&self) -> ReplayModel {
        ReplayModel {
            grid: self.grid@,
            served: self.served@,
            turn: self.turn as nat,
            income: self.income as int,
        }
    }
}

/// The phase of a replay that has used `turn` of `limit` turns without
/// breaking a rule.
pub open spec fn phase_of(turn: nat, limit: nat) -> Phase {
    if turn == 0 {
        Phase::Ready
    } else if turn < limit {
        Phase::InProgress
    } else {
        Phase::Exhausted
    }
}

impl Replay {
    /// The replay's invariant for `input`.
    pub closed spec fn wf(&self, input: Input) -> bool {
        &&& input.valid()
        &&& self.grid.wf()
        &&& self.served@.len() == input.m
        &&& self.limit == input.t
        &&& self.turn <= self.limit
        &&& self.grid@.money <= MAX_BUDGET + self.turn * MAX_TURN_INCOME
        &&& self.income >= 0
        &&& (self.phase matches Phase::Failed(_) || self.phase == phase_of(
            self.turn as nat,
            self.limit as nat,
        ))
    }

    /// Where the replay stands.
    pub closed spec fn phase_spec(&self) -> Phase {
        self.phase
    }

    /// A fresh replay of `input`.
    pub fn new(input: &Input) -> (r: Replay)
        requires
            input.valid(),
        ensures
            r.wf(*input),
            r@ == initial_model(*input),
            r.phase_spec() == Phase::Ready,
    {
        let grid = GridState::new(input.k);
        let mut served: Vec<bool> = Vec::new();
        let mut i: usize = 0;
        while i < input.m
            invariant
                input.valid(),
                i <= input.m,
                served@ == Seq::new(i as nat, |j: int| false),
            decreases input.m - i,
        {
            served.push(false);
            i = i + 1;
            assert(served@ =~= Seq::new(i as nat, |j: int| false));
        }
        Replay { grid, served, turn: 0, income: 0, limit: input.t, phase: Phase::Ready }
    }

    /// Where the replay stands.
    pub fn phase(&self) -> (r: Phase)
        ensures
            r == self.phase_spec(),
    {
        self.phase
    }

    /// Turns used.
    pub fn turn(&self) -> (r: usize)
        ensures
            r == self@.turn,
    {
        self.turn
    }

    /// Money left.
    pub fn money(&self) -> (r: i64)
        ensures
            r == self@.grid.money,
    {
        self.grid.money()
    }

    /// Income of the last turn.
    pub fn income(&self) -> (r: i64)
        ensures
            r == self@.income,
    {
        self.income
    }

    /// The grid.
    pub fn grid(&self) -> (r: &GridState)
        ensures
            r@ == self@.grid,
    {
        &self.grid
    }

    /// Whether the cells with ids `a` and `b` belong to one component.
    pub fn connected(&mut self, input: &Input, a: usize, b: usize) -> (r: bool)
        requires
            old(self).wf(*input),
            a < 2500,
            b < 2500,
        ensures
            final(self).wf(*input),
            final(self)@ == old(self)@,
            final(self).phase_spec() == old(self).phase_spec(),
            r == (old(self)@.grid.comp[a as int] == old(self)@.grid.comp[b as int]),
    {
        self.grid.connected(a, b)
    }

    /// Runs one accrual on the current grid: every commuter not yet served
    /// that can now be is served and pays its fare. Returns the income.
    fn accrue(&mut self, input: &Input) -> (inc: i64)
        requires
            old(self).grid.wf(),
            input.valid(),
            old(self).served@.len() == input.m,
        ensures
            final(self).grid.wf(),
            final(self).grid@ == old(self).grid@,
            final(self).served@ == accrued(old(self).grid@, old(self).served@, input.commuters@),
            inc == gain(old(self).grid@, old(self).served@, input.commuters@, input.m as nat),
            0 <= inc <= MAX_TURN_INCOME,
            final(self).turn == old(self).turn,
            final(self).income == old(self).income,
            final(self).limit == old(self).limit,
            final(self).phase == old(self).phase,
    {
        let ghost g = self.grid@;
        let ghost served0 = self.served@;
        let ghost cms = input.commuters@;
        let mut inc: i64 = 0;
        let mut i: usize = 0;
        while i < input.m
            invariant
                input.valid(),
                cms == input.commuters@,
                self.grid.wf(),
                self.grid@ == g,
                g == old(self).grid@,
                served0 == old(self).served@,
                served0.len() == input.m,
                i <= input.m,
                self.served@ == Seq::new(
                    input.m as nat,
                    |j: int| if j < i { served0[j] || servable(g, cms[j]) } else { served0[j] },
                ),
                inc == gain(g, served0, cms, i as nat),
                0 <= inc <= 98 * i,
                self.turn == old(self).turn,
                self.income == old(self).income,
                self.limit == old(self).limit,
                self.phase == old(self).phase,
            decreases input.m - i,
        {
            let cm = input.commuters[i];
            proof {
                assert(commuter_on_grid(input.commuters@[i as int]));
            }
            if !self.served[i] {
                if commuter_servable(&mut self.grid, &cm) {
                    let f = commuter_fare(&cm);
                    self.served.set(i, true);
                    inc = inc + f;
                }
            }
            i = i + 1;
            proof {
                assert(self.served@ =~= Seq::new(
                    input.m as nat,
                    |j: int| if j < i { served0[j] || servable(g, cms[j]) } else { served0[j] },
                ));
            }
        }
        proof {
            assert(self.served@ =~= accrued(g, served0, cms));
        }
        inc
    }

    /// Applies one action: refuses it when the turns are used up, otherwise
    /// builds what it asks for, then lets newly served commuters pay.
    /// A replay that failed stays failed.
    pub fn step(&mut self, input: &Input, a: Action) -> (res: Result<(), Failure>)
        requires
            old(self).wf(*input),
            action_on_grid(a),
        ensures
            final(self).wf(*input),
            match old(self).phase_spec() {
                Phase::Failed(f) => res == Err::<(), Failure>(f) && final(self)@ == old(self)@
                    && final(self).phase_spec() == old(self).phase_spec(),
                _ => if old(self)@.turn >= input.t {
                    res == Err::<(), Failure>(
                        Failure { turn: old(self)@.turn as usize, violation: Violation::TooManyActions },
                    ) && final(self).phase_spec() == Phase::Failed(
                        Failure { turn: old(self)@.turn as usize, violation: Violation::TooManyActions },
                    )
                } else {
                    match step_spec(*input, old(self)@, a) {
                        Err(e) => res == Err::<(), Failure>(
                            Failure { turn: old(self)@.turn as usize, violation: violation_of(e) },
                        ) && final(self).phase_spec() == Phase::Failed(
                            Failure { turn: old(self)@.turn as usize, violation: violation_of(e) },
                        ),
                        Ok(s) => res is Ok && final(self)@ == s && final(self).phase_spec()
                            == phase_of(s.turn, input.t as nat),
                    }
                },
            },
    {
        match self.phase {
            Phase::Failed(f) => {
                return Err(f);
            },
            Phase::Exhausted => {
                let f = Failure { turn: self.turn, violation: Violation::TooManyActions };
                self.phase = Phase::Failed(f);
                return Err(f);
            },
            Phase::Ready | Phase::InProgress => {},
        }
        let built = match a {
            Action::Wait => Ok(()),
            Action::Station { r, c } => self.grid.place_station(r, c),
            Action::Track { shape, r, c } => self.grid.place_track(r, c, shape),
        };
        match built {
            Err(e) => {
                let violation = match e {
                    BuildError::InsufficientFunds => Violation::InsufficientFunds,
                    BuildError::CellOccupied => Violation::CellOccupied,
                };
                let f = Failure { turn: self.turn, violation };
                self.phase = Phase::Failed(f);
                Err(f)
            },
            Ok(()) => {
                let inc = self.accrue(input);
                self.grid.earn(inc);
                self.income = inc;
                self.turn = self.turn + 1;
                self.phase = if self.turn < self.limit {
                    Phase::InProgress
                } else {
                    Phase::Exhausted
                };
                Ok(())
            },
        }
    }
}

/// A successful prefix of `i` actions has used exactly `i` turns, at most
/// the turn limit, and keeps one served flag per commuter.
pub proof fn lemma_replay_turns(input: Input, acts: Seq<Action>, i: nat)
    requires
        i <= acts.len(),
    ensures
        replay_spec(input, acts, i) is Ok ==> {
            let s = replay_spec(input, acts, i)->Ok_0;
            &&& s.turn == i
            &&& s.served.len() == input.m
            &&& (i > 0 ==> s.turn <= input.t)
        },
    decreases i,
{
    if i > 0 {
        lemma_replay_turns(input, acts, (i - 1) as nat);
    }
}

/// Once a replay has failed, later actions change nothing.
pub proof fn lemma_failure_sticks(input: Input, acts: Seq<Action>, i: nat, j: nat)
    requires
        i <= j,
        replay_spec(input, acts, i) is Err,
    ensures
        replay_spec(input, acts, j) == replay_spec(input, acts, i),
    decreases j - i,
{
    if j > i {
        lemma_failure_sticks(input, acts, i, (j - 1) as nat);
    }
}

/// Replays `acts` on `input`: the money left after exactly the turn limit's
/// worth of actions, or the first rule broken and the turn at fault.
pub fn judge(input: &Input, acts: &Vec<Action>) -> (r: Result<i64, Failure>)
    requires
        input.valid(),
        forall|i: int| 0 <= i < acts@.len() ==> action_on_grid(#[trigger] acts@[i]),
    ensures
        match r {
            Ok(v) => judge_spec(*input, acts@) == Ok::<int, Failure>(v as int),
            Err(f) => judge_spec(*input, acts@) == Err::<int, Failure>(f),
        },
{
    let mut rep = Replay::new(input);
    let mut i: usize = 0;
    while i < acts.len()
        invariant
            input.valid(),
            forall|i: int| 0 <= i < acts@.len() ==> action_on_grid(#[trigger] acts@[i]),
            i <= acts@.len(),
            rep.wf(*input),
            replay_spec(*input, acts@, i as nat) == Ok::<ReplayModel, Failure>(rep@),
            rep.phase_spec() == phase_of(i as nat, input.t as nat),
        decreases acts@.len() - i,
    {
        proof {
            lemma_replay_turns(*input, acts@, i as nat);
        }
        let res = rep.step(input, acts[i]);
        match res {
            Err(f) => {
                proof {
                    lemma_failure_sticks(*input, acts@, (i + 1) as nat, acts@.len());
                }
                return Err(f);
            },
            Ok(()) => {},
        }
        i = i + 1;
    }
    proof {
        lemma_replay_turns(*input, acts@, i as nat);
    }
    if rep.turn() < input.t {
        Err(Failure { turn: rep.turn(), violation: Violation::TooFewActions })
    } else {
        Ok(rep.money())
    }
}

/// Money that the action spends when it succeeds.
pub open spec fn cost_of(a: Action) -> int {
    match a {
        Action::Wait => 0,
        Action::Station { .. } => STATION_COST as int,
        Action::Track { .. } => TRACK_COST as int,
    }
}

/// Money that the first `i` actions spend.
pub open spec fn spent(acts: Seq<Action>, i: nat) -> int
    decreases i,
{
    if i == 0 {
        0
    } else {
        spent(acts, (i - 1) as nat) + cost_of(acts[i - 1])
    }
}

/// A successful prefix keeps one code and one label per cell and one flag
/// per commuter.
pub proof fn lemma_replay_shape(input: Input, acts: Seq<Action>, i: nat)
    requires
        i <= acts.len(),
        forall|j: int| 0 <= j < acts.len() ==> action_on_grid(#[trigger] acts[j]),
    ensures
        replay_spec(input, acts, i) is Ok ==> {
            let s = replay_spec(input, acts, i)->Ok_0;
            &&& s.grid.cells.len() == 2500
            &&& s.grid.comp.len() == 2500
            &&& s.served.len() == input.m
        },
    decreases i,
{
    if i > 0 {
        lemma_replay_shape(input, acts, (i - 1) as nat);
        lemma_replay_turns(input, acts, (i - 1) as nat);
        if replay_spec(input, acts, i) is Ok {
            let s = replay_spec(input, acts, (i - 1) as nat)->Ok_0;
            let a = acts[i - 1];
            assert(action_on_grid(a));
            match a {
                Action::Wait => {},
                Action::Station { r, c } => {
                    lemma_comp_after_keeps(
                        s.grid.comp,
                        s.grid.cells.update(cell_id(r as int, c as int), STATION),
                        r as int,
                        c as int,
                        STATION,
                        4,
                        0,
                        0,
                    );
                },
                Action::Track { shape, r, c } => {
                    lemma_comp_after_keeps(
                        s.grid.comp,
                        s.grid.cells.update(cell_id(r as int, c as int), shape_code(shape)),
                        r as int,
                        c as int,
                        shape_code(shape),
                        4,
                        0,
                        0,
                    );
                },
            }
        }
    }
}

/// Connectivity is never revoked: two cells joined after `i` actions are
/// still joined after any later successful prefix `j`.
pub proof fn lemma_connectivity_kept(
    input: Input,
    acts: Seq<Action>,
    i: nat,
    j: nat,
    x: int,
    y: int,
)
    requires
        i <= j <= acts.len(),
        forall|k: int| 0 <= k < acts.len() ==> action_on_grid(#[trigger] acts[k]),
        replay_spec(input, acts, j) is Ok,
        0 <= x < 2500,
        0 <= y < 2500,
        replay_spec(input, acts, i) is Ok,
        replay_spec(input, acts, i)->Ok_0.grid.comp[x] == replay_spec(input, acts, i)->Ok_0.grid.comp[y],
    ensures
        replay_spec(input, acts, j)->Ok_0.grid.comp[x] == replay_spec(input, acts, j)->Ok_0.grid.comp[y],
    decreases j - i,
{
    if j > i {
        if replay_spec(input, acts, (j - 1) as nat) is Err {
            lemma_failure_sticks(input, acts, (j - 1) as nat, j);
        }
        lemma_connectivity_kept(input, acts, i, (j - 1) as nat, x, y);
        lemma_replay_shape(input, acts, (j - 1) as nat);
        let s = replay_spec(input, acts, (j - 1) as nat)->Ok_0;
        let a = acts[j - 1];
        assert(action_on_grid(a));
        match a {
            Action::Wait => {},
            Action::Station { r, c } => {
                lemma_comp_after_keeps(
                    s.grid.comp,
                    s.grid.cells.update(cell_id(r as int, c as int), STATION),
                    r as int,
                    c as int,
                    STATION,
                    4,
                    x,
                    y,
                );
            },
            Action::Track { shape, r, c } => {
                lemma_comp_after_keeps(
                    s.grid.comp,
                    s.grid.cells.update(cell_id(r as int, c as int), shape_code(shape)),
                    r as int,
                    c as int,
                    shape_code(shape),
                    4,
                    x,
                    y,
                );
            },
        }
    }
}

proof fn lemma_accrued_fares(g: GridModel, served: Seq<bool>, cms: Seq<Commuter>, k: nat)
    requires
        k <= served.len(),
    ensures
        fares(accrued(g, served, cms), cms, k) == fares(served, cms, k) + gain(g, served, cms, k),
    decreases k,
{
    if k > 0 {
        lemma_accrued_fares(g, served, cms, (k - 1) as nat);
    }
}

/// Every commuter pays its fare once: after any successful prefix, the
/// money is the budget, less what the actions spent, plus the fare of each
/// served commuter; and a served commuter stays served.
pub proof fn lemma_income_is_fares(input: Input, acts: Seq<Action>, i: nat)
    requires
        input.valid(),
        i <= acts.len(),
        forall|j: int| 0 <= j < acts.len() ==> action_on_grid(#[trigger] acts[j]),
        replay_spec(input, acts, i) is Ok,
    ensures
        replay_spec(input, acts, i)->Ok_0.grid.money == input.k - spent(acts, i) + fares(
            replay_spec(input, acts, i)->Ok_0.served,
            input.commuters@,
            input.m as nat,
        ),
    decreases i,
{
    let cms = input.commuters@;
    if i == 0 {
        lemma_no_fares(Seq::new(input.m as nat, |j: int| false), cms, input.m as nat);
    } else {
        if replay_spec(input, acts, (i - 1) as nat) is Err {
            lemma_failure_sticks(input, acts, (i - 1) as nat, i);
        }
        lemma_income_is_fares(input, acts, (i - 1) as nat);
        lemma_replay_shape(input, acts, (i - 1) as nat);
        let s = replay_spec(input, acts, (i - 1) as nat)->Ok_0;
        let a = acts[i - 1];
        let g = build_of(s.grid, a)->Ok_0;
        lemma_accrued_fares(g, s.served, cms, input.m as nat);
        assert(step_spec(input, s, a) is Ok);
        assert(g.money == s.grid.money - cost_of(a));
        assert(replay_spec(input, acts, i)->Ok_0 == step_spec(input, s, a)->Ok_0);
    }
}

/// A commuter that is served stays served in every later successful prefix.
pub proof fn lemma_served_once(input: Input, acts: Seq<Action>, i: nat, j: nat, c: int)
    requires
        i <= j <= acts.len(),
        replay_spec(input, acts, j) is Ok,
        replay_spec(input, acts, i) is Ok,
        0 <= c < input.m,
        replay_spec(input, acts, i)->Ok_0.served[c],
    ensures
        replay_spec(input, acts, j)->Ok_0.served[c],
    decreases j - i,
{
    if j > i {
        if replay_spec(input, acts, (j - 1) as nat) is Err {
            lemma_failure_sticks(input, acts, (j - 1) as nat, j);
        }
        lemma_served_once(input, acts, i, (j - 1) as nat, c);
        lemma_replay_turns(input, acts, (j - 1) as nat);
    }
}

proof fn lemma_no_fares(served: Seq<bool>, cms: Seq<Commuter>, k: nat)
    requires
        k <= served.len(),
        forall|j: int| 0 <= j < served.len() ==> !served[j],
    ensures
        fares(served, cms, k) == 0,
    decreases k,
{
    if k > 0 {
        lemma_no_fares(served, cms, (k - 1) as nat);
    }
}

proof fn lemma_no_station_gain(g: GridModel, served: Seq<bool>, cms: Seq<Commuter>, k: nat)
    requires
        k <= served.len(),
        g.cells.len() == 2500,
        forall|j: int| 0 <= j < g.cells.len() ==> g.cells[j] != STATION,
    ensures
        gain(g, served, cms, k) == 0,
        accrued(g, served, cms) == served,
    decreases k,
{
    if k > 0 {
        lemma_no_station_gain(g, served, cms, (k - 1) as nat);
    }
    assert forall|j: int| 0 <= j < served.len() implies !servable(g, #[trigger] cms[j]) by {
        if servable(g, cms[j]) {
            let cm = cms[j];
            let (ar, ac, br, bc) = choose|ar: int, ac: int, br: int, bc: int|
                station_near(g.cells, cm.r0 as int, cm.c0 as int, ar, ac) && station_near(
                    g.cells,
                    cm.r1 as int,
                    cm.c1 as int,
                    br,
                    bc,
                ) && g.comp[cell_id(ar, ac)] == g.comp[cell_id(br, bc)];
            assert(g.cells[cell_id(ar, ac)] == STATION);
        }
    }
    assert(accrued(g, served, cms) =~= served);
}

proof fn lemma_waits_prefix(input: Input, acts: Seq<Action>, i: nat)
    requires
        input.valid(),
        i <= acts.len() <= input.t,
        forall|j: int| 0 <= j < acts.len() ==> acts[j] == Action::Wait,
    ensures
        replay_spec(input, acts, i) == Ok::<ReplayModel, Failure>(
            ReplayModel { turn: i, ..initial_model(input) },
        ),
    decreases i,
{
    if i > 0 {
        lemma_waits_prefix(input, acts, (i - 1) as nat);
        let s = initial_model(input);
        lemma_no_station_gain(s.grid, s.served, input.commuters@, input.m as nat);
    }
}

/// With no construction at all (exactly the turn limit's worth of waits)
/// no commuter is ever served and the score is the starting budget.
pub proof fn lemma_waits_keep_budget(input: Input, acts: Seq<Action>)
    requires
        input.valid(),
        acts.len() == input.t,
        forall|j: int| 0 <= j < acts.len() ==> acts[j] == Action::Wait,
    ensures
        judge_spec(input, acts) == Ok::<int, Failure>(input.k as int),
{
    lemma_waits_prefix(input, acts, acts.len());
}

} // verus!
