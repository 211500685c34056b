//! Cell occupancy, construction costs and the connectivity of the network.

use vstd::prelude::*;
use crate::dsu::{UnionFind, relabel, merged_same, lemma_relabel_same};

verus! {

/// Side length of the square grid.
pub const GRID_SIDE: usize = 50;

/// Number of cells of the grid.
pub const CELL_COUNT: usize = 2500;

/// Price of one station.
pub const STATION_COST: i64 = 4000;

/// Price of one track segment.
pub const TRACK_COST: i64 = 100;

/// Code of a cell that holds nothing.
pub const EMPTY: u8 = 0;

/// Code of a cell that holds a station; codes 1 to 6 are the track shapes.
pub const STATION: u8 = 7;

/// The six shapes of a track segment, each joining two sides of its cell.
#[derive(Clone, Copy, Debug, PartialEq, Eq, Structural)]
pub enum Shape {
    /// Left and right.
    Horizontal,
    /// Up and down.
    Vertical,
    /// Left and down.
    LeftDown,
    /// Left and up.
    LeftUp,
    /// Up and right.
    UpRight,
    /// Right and down.
    RightDown,
}

/// Why a construction was refused.
#[derive(Clone, Copy, Debug, PartialEq, Eq, Structural)]
pub enum BuildError {
    /// The money left is below the price.
    InsufficientFunds,
    /// The cell already holds a station or a track segment.
    CellOccupied,
}

/// Cell code of a track shape.
pub open spec fn shape_code(s: Shape) -> u8 {
    match s {
        Shape::Horizontal => 1,
        Shape::Vertical => 2,
        Shape::LeftDown => 3,
        Shape::LeftUp => 4,
        Shape::UpRight => 5,
        Shape::RightDown => 6,
    }
}

/// Whether a cell with this code connects through side `d`
/// (0 left, 1 up, 2 right, 3 down).
pub open spec fn opens(code: u8, d: int) -> bool {
    match code {
        1 => d == 0 || d == 2,
        2 => d == 1 || d == 3,
        3 => d == 0 || d == 3,
        4 => d == 0 || d == 1,
        5 => d == 1 || d == 2,
        6 => d == 2 || d == 3,
        7 => 0 <= d < 4,
        _ => false,
    }
}

/// The side facing side `d`.
pub open spec fn opposite(d: int) -> int {
    if d < 2 {
        d + 2
    } else {
        d - 2
    }
}

/// Row-major id of cell (`r`, `c`).
pub open spec fn cell_id(r: int, c: int) -> int {
    r * 50 + c
}

/// Whether (`r`, `c`) lies on the grid.
pub open spec fn on_grid(r: int, c: int) -> bool {
    0 <= r < 50 && 0 <= c < 50
}

/// The cell next to (`r`, `c`) through side `d`, when it lies on the grid.
pub open spec fn neighbor(r: int, c: int, d: int) -> Option<(int, int)> {
    let (nr, nc) = if d == 0 {
        (r, c - 1)
    } else if d == 1 {
        (r - 1, c)
    } else if d == 2 {
        (r, c + 1)
    } else {
        (r + 1, c)
    };
    if on_grid(nr, nc) {
        Some((nr, nc))
    } else {
        None
    }
}

/// The neighbor through side `d` that a cell coded `code` at (`r`, `c`)
/// joins: both cells must be open toward each other.
pub open spec fn link(cells: Seq<u8>, r: int, c: int, code: u8, d: int) -> Option<int> {
    match neighbor(r, c, d) {
        Some((nr, nc)) => if opens(code, d) && opens(cells[cell_id(nr, nc)], opposite(d)) {
            Some(cell_id(nr, nc))
        } else {
            None
        },
        None => None,
    }
}

/// Component labels after joining (`r`, `c`) with its linked neighbors
/// through sides `0..d`.
pub open spec fn comp_after(comp: Seq<int>, cells: Seq<u8>, r: int, c: int, code: u8, d: nat) -> Seq<
    int,
>
    decreases d,
{
    if d == 0 {
        comp
    } else {
        let prev = comp_after(comp, cells, r, c, code, (d - 1) as nat);
        match link(cells, r, c, code, d - 1) {
            Some(nb) => relabel(prev, prev[nb], prev[cell_id(r, c)]),
            None => prev,
        }
    }
}

/// Two labellings that split the cells into the same components.
pub open spec fn same_partition(u: Seq<int>, v: Seq<int>) -> bool {
    &&& u.len() == v.len()
    &&& forall|x: int, y: int|
        #![trigger u[x], u[y]]
        #![trigger v[x], v[y]]
        0 <= x < u.len() && 0 <= y < u.len() ==> (u[x] == u[y] <==> v[x] == v[y])
}

/// What the grid holds: a code per cell, a component label per cell, and the
/// money left.
pub struct GridModel {
    pub cells: Seq<u8>,
    pub comp: Seq<int>,
    pub money: int,
}

/// Building a cell coded `code` at (`r`, `c`) for `cost`. A station refuses
/// an occupied cell whatever the money; a track segment first asks for the
/// money, then for an empty cell.
pub open spec fn build_spec(g: GridModel, r: int, c: int, code: u8, cost: int) -> Result<
    GridModel,
    BuildError,
> {
    let id = cell_id(r, c);
    if code == STATION && g.cells[id] != EMPTY {
        Err(BuildError::CellOccupied)
    } else if g.money < cost {
        Err(BuildError::InsufficientFunds)
    } else if g.cells[id] != EMPTY {
        Err(BuildError::CellOccupied)
    } else {
        let cells = g.cells.update(id, code);
        Ok(GridModel { cells, comp: comp_after(g.comp, cells, r, c, code, 4), money: g.money - cost })
    }
}

/// Joining cells never separates two cells that were together.
pub proof fn lemma_comp_after_keeps(
    comp: Seq<int>,
    cells: Seq<u8>,
    r: int,
    c: int,
    code: u8,
    d: nat,
    x: int,
    y: int,
)
    requires
        comp.len() == 2500,
        cells.len() == 2500,
        on_grid(r, c),
        0 <= x < 2500,
        0 <= y < 2500,
        comp[x] == comp[y],
    ensures
        comp_after(comp, cells, r, c, code, d).len() == 2500,
        comp_after(comp, cells, r, c, code, d)[x] == comp_after(comp, cells, r, c, code, d)[y],
    decreases d,
{
    if d > 0 {
        lemma_comp_after_keeps(comp, cells, r, c, code, (d - 1) as nat, x, y);
        let prev = comp_after(comp, cells, r, c, code, (d - 1) as nat);
        match link(cells, r, c, code, d - 1) {
            Some(nb) => {
                lemma_relabel_same(prev, prev[nb], prev[cell_id(r, c)], x, y);
            },
            None => {},
        }
    }
}

/// A cell that took a station refuses a second one as occupied, whatever
/// the money left.
pub proof fn lemma_station_twice(g: GridModel, r: int, c: int, cost: int)
    requires
        on_grid(r, c),
        g.cells.len() == 2500,
        build_spec(g, r, c, STATION, STATION_COST as int) is Ok,
    ensures
        build_spec(build_spec(g, r, c, STATION, STATION_COST as int)->Ok_0, r, c, STATION, cost)
            == Err::<GridModel, BuildError>(BuildError::CellOccupied),
{
}

proof fn lemma_union_keeps_partition(u: Seq<int>, u2: Seq<int>, v: Seq<int>, a: int, b: int)
    requires
        same_partition(u, v),
        0 <= a < u.len(),
        0 <= b < u.len(),
        u2.len() == u.len(),
        forall|x: int, y: int|
            #![trigger u2[x], u2[y]]
            0 <= x < u.len() && 0 <= y < u.len() ==> (u2[x] == u2[y] <==> merged_same(u, a, b, x, y)),
    ensures
        same_partition(u2, relabel(v, v[b], v[a])),
{
    let v2 = relabel(v, v[b], v[a]);
    assert forall|x: int, y: int| 0 <= x < u.len() && 0 <= y < u.len() implies (u2[x] == u2[y]
        <==> v2[x] == v2[y]) by {
        lemma_relabel_same(v, v[b], v[a], x, y);
        assert(u[x] == u[a] <==> v[x] == v[a]);
        assert(u[x] == u[b] <==> v[x] == v[b]);
        assert(u[y] == u[a] <==> v[y] == v[a]);
        assert(u[y] == u[b] <==> v[y] == v[b]);
        assert(u[x] == u[y] <==> v[x] == v[y]);
    }
}

/// Whether a cell with this code connects through side `d`.
pub fn opens_toward(code: u8, d: usize) -> (r: bool)
    ensures
        r == opens(code, d as int),
{
    match code {
        1 => d == 0 || d == 2,
        2 => d == 1 || d == 3,
        3 => d == 0 || d == 3,
        4 => d == 0 || d == 1,
        5 => d == 1 || d == 2,
        6 => d == 2 || d == 3,
        7 => d < 4,
        _ => false,
    }
}

/// Cell code of a track shape.
pub fn code_of_shape(s: Shape) -> (r: u8)
    ensures
        r == shape_code(s),
{
    match s {
        Shape::Horizontal => 1,
        Shape::Vertical => 2,
        Shape::LeftDown => 3,
        Shape::LeftUp => 4,
        Shape::UpRight => 5,
        Shape::RightDown => 6,
    }
}

/// The grid during a replay: cell codes, connectivity and money.
pub struct GridState {
    cells: Vec<u8>,
    uf: UnionFind,
    money: i64,
    comp: Ghost<Seq<int>>,
}

impl View for GridState {
    type V = GridModel;

    closed spec fn view(&self) -> GridModel {
        GridModel { cells: self.cells@, comp: self.comp@, money: self.money as int }
    }
}

impl GridState {
    /// The grid's invariant: one code and one label per cell, the union-find
    /// splits the cells as the labels do, and the money is not negative.
    pub closed spec fn wf(&self) -> bool {
        &&& self.cells@.len() == CELL_COUNT
        &&& self.uf.wf()
        &&& self.uf@.len() == CELL_COUNT
        &&& self.comp@.len() == CELL_COUNT
        &&& same_partition(self.uf@, self.comp@)
        &&& self.money >= 0
    }

    /// An empty grid with `money` to spend.
    pub fn new(money: i64) -> (r: GridState)
        requires
            money >= 0,
        ensures
            r.wf(),
            r@.cells == Seq::new(2500, |i: int| EMPTY),
            r@.comp == Seq::new(2500, |i: int| i),
            r@.money == money,
    {
        let mut cells: Vec<u8> = Vec::new();
        let mut i: usize = 0;
        while i < CELL_COUNT
            invariant
                i <= CELL_COUNT,
                cells@ == Seq::new(i as nat, |j: int| EMPTY),
            decreases CELL_COUNT - i,
        {
            cells.push(EMPTY);
            i = i + 1;
            assert(cells@ =~= Seq::new(i as nat, |j: int| EMPTY));
        }
        let uf = UnionFind::new(CELL_COUNT);
        GridState { cells, uf, money, comp: Ghost(Seq::new(2500, |i: int| i)) }
    }

    /// Money left.
    pub fn money(&self) -> (r: i64)
        ensures
            r == self@.money,
    {
        self.money
    }

    /// Code of cell (`r`, `c`).
    pub fn cell(&self, r: usize, c: usize) -> (code: u8)
        requires
            self.wf(),
            on_grid(r as int, c as int),
        ensures
            code == self@.cells[cell_id(r as int, c as int)],
    {
        self.cells[r * GRID_SIDE + c]
    }

    /// The codes of all cells, row by row.
    pub fn cells(&self) -> (r: &Vec<u8>)
        ensures
            r@ == self@.cells,
    {
        &self.cells
    }

    /// Whether the cells with ids `a` and `b` belong to one component.
    pub fn connected(&mut self, a: usize, b: usize) -> (r: bool)
        requires
            old(self).wf(),
            a < CELL_COUNT,
            b < CELL_COUNT,
        ensures
            final(self).wf(),
            final(self)@ == old(self)@,
            r == (old(self)@.comp[a as int] == old(self)@.comp[b as int]),
    {
        self.uf.same(a, b)
    }

    /// Adds `amount` to the money.
    pub fn earn(&mut self, amount: i64)
        requires
            old(self).wf(),
            amount >= 0,
            old(self)@.money + amount <= i64::MAX,
        ensures
            final(self).wf(),
            final(self)@ == (GridModel { money: old(self)@.money + amount, ..old(self)@ }),
    {
        self.money = self.money + amount;
    }

    /// The neighbor id that a cell coded `code` at (`r`, `c`) joins through side `d`.
    fn link_toward(&self, r: usize, c: usize, code: u8, d: usize) -> (nb: Option<usize>)
        requires
            self.wf(),
            on_grid(r as int, c as int),
            d < 4,
        ensures
            match link(self@.cells, r as int, c as int, code, d as int) {
                Some(id) => nb == Some(id as usize) && 0 <= id < CELL_COUNT,
                None => nb is None,
            },
    {
        let (nr, nc) = if d == 0 {
            if c == 0 {
                return None;
            }
            (r, c - 1)
        } else if d == 1 {
            if r == 0 {
                return None;
            }
            (r - 1, c)
        } else if d == 2 {
            if c + 1 >= GRID_SIDE {
                return None;
            }
            (r, c + 1)
        } else {
            if r + 1 >= GRID_SIDE {
                return None;
            }
            (r + 1, c)
        };
        let nb = nr * GRID_SIDE + nc;
        let back = if d < 2 {
            d + 2
        } else {
            d - 2
        };
        if opens_toward(code, d) && opens_toward(self.cells[nb], back) {
            Some(nb)
        } else {
            None
        }
    }

    /// Builds a cell coded `code` at (`r`, `c`) for `cost`, joining it with
    /// every neighbor open toward it.
    fn build(&mut self, r: usize, c: usize, code: u8, cost: i64) -> (res: Result<(), BuildError>)
        requires
            old(self).wf(),
            on_grid(r as int, c as int),
            cost >= 0,
            code != EMPTY,
        ensures
            final(self).wf(),
            match build_spec(old(self)@, r as int, c as int, code, cost as int) {
                Ok(g) => res is Ok && final(self)@ == g,
                Err(e) => res == Err::<(), BuildError>(e) && final(self)@ == old(self)@,
            },
    {
        let id = r * GRID_SIDE + c;
        if code == STATION && self.cells[id] != EMPTY {
            return Err(BuildError::CellOccupied);
        }
        if self.money < cost {
            return Err(BuildError::InsufficientFunds);
        }
        if self.cells[id] != EMPTY {
            return Err(BuildError::CellOccupied);
        }
        self.money = self.money - cost;
        self.cells.set(id, code);
        let ghost comp0 = self.comp@;
        let mut d: usize = 0;
        while d < 4
            invariant
                self.wf(),
                d <= 4,
                id == cell_id(r as int, c as int),
                on_grid(r as int, c as int),
                self.cells@ == old(self)@.cells.update(id as int, code),
                self.money == old(self).money - cost,
                comp0 == old(self)@.comp,
                self.comp@ == comp_after(comp0, self.cells@, r as int, c as int, code, d as nat),
            decreases 4 - d,
        {
            let nb = self.link_toward(r, c, code, d);
            match nb {
                Some(nb) => {
                    let ghost u = self.uf@;
                    let ghost v = self.comp@;
                    self.uf.union(id, nb);
                    proof {
                        lemma_union_keeps_partition(u, self.uf@, v, id as int, nb as int);
                    }
                    self.comp = Ghost(relabel(v, v[nb as int], v[id as int]));
                },
                None => {},
            }
            d = d + 1;
        }
        Ok(())
    }

    /// Lays a track segment of `shape` at (`r`, `c`).
    pub fn place_track(&mut self, r: usize, c: usize, shape: Shape) -> (res: Result<(), BuildError>)
        requires
            old(self).wf(),
            on_grid(r as int, c as int),
        ensures
            final(self).wf(),
            match build_spec(old(self)@, r as int, c as int, shape_code(shape), TRACK_COST as int) {
                Ok(g) => res is Ok && final(self)@ == g,
                Err(e) => res == Err::<(), BuildError>(e) && final(self)@ == old(self)@,
            },
    {
        let code = code_of_shape(shape);
        self.build(r, c, code, TRACK_COST)
    }

    /// Builds a station at (`r`, `c`).
    pub fn place_station(&mut self, r: usize, c: usize) -> (res: Result<(), BuildError>)
        requires
            old(self).wf(),
            on_grid(r as int, c as int),
        ensures
            final(self).wf(),
            match build_spec(old(self)@, r as int, c as int, STATION, STATION_COST as int) {
                Ok(g) => res is Ok && final(self)@ == g,
                Err(e) => res == Err::<(), BuildError>(e) && final(self)@ == old(self)@,
            },
    {
        self.build(r, c, STATION, STATION_COST)
    }
}

} // verus!
