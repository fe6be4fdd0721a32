use vstd::prelude::*;

verus! {

/// The board is a fixed 8 x 8 grid.
pub const BOARD_SIZE: usize = 8;

/// The two sides of the game. A cell is either empty or claimed by one colour.
#[derive(Copy, Clone, PartialEq, Eq, Structural, Debug)]
pub enum Colour {
    Light,
    Dark,
}

impl Colour {
    pub open spec fn spec_opposite(self) -> Colour {
        match self {
            Colour::Light => Colour::Dark,
            Colour::Dark => Colour::Light,
        }
    }

    /// The other colour: Light and Dark swap.
    pub fn opposite(&self) -> (r: Colour)
        ensures
            r == self.spec_opposite(),
    {
        match self {
            Colour::Light => Colour::Dark,
            Colour::Dark => Colour::Light,
        }
    }
}

/// One of the eight compass steps: both components in {-1, 0, 1}, not both zero.
#[derive(Copy, Clone, PartialEq, Eq, Debug)]
pub struct Direction {
    pub dx: i8,
    pub dy: i8,
}

impl Direction {
    pub open spec fn is_unit(self) -> bool {
        &&& -1 <= self.dx <= 1
        &&& -1 <= self.dy <= 1
        &&& !(self.dx == 0 && self.dy == 0)
    }
}

/// The eight directions in their fixed compass order. The order is observable:
/// it decides the order in which moves from one cell are enumerated.
pub open spec fn spec_direction(i: int) -> Direction {
    if i == 0 {
        Direction { dx: 0i8, dy: -1i8 }
    } else if i == 1 {
        Direction { dx: -1i8, dy: 0i8 }
    } else if i == 2 {
        Direction { dx: 1i8, dy: 0i8 }
    } else if i == 3 {
        Direction { dx: 0i8, dy: 1i8 }
    } else if i == 4 {
        Direction { dx: 1i8, dy: -1i8 }
    } else if i == 5 {
        Direction { dx: -1i8, dy: -1i8 }
    } else if i == 6 {
        Direction { dx: -1i8, dy: 1i8 }
    } else {
        Direction { dx: 1i8, dy: 1i8 }
    }
}

/// The i-th direction of the fixed compass order.
pub fn direction_at(i: usize) -> (d: Direction)
    requires
        i < 8,
    ensures
        d == spec_direction(i as int),
        d.is_unit(),
{
    match i {
        0 => Direction { dx: 0, dy: -1 },
        1 => Direction { dx: -1, dy: 0 },
        2 => Direction { dx: 1, dy: 0 },
        3 => Direction { dx: 0, dy: 1 },
        4 => Direction { dx: 1, dy: -1 },
        5 => Direction { dx: -1, dy: -1 },
        6 => Direction { dx: -1, dy: 1 },
        _ => Direction { dx: 1, dy: 1 },
    }
}

/// A cell coordinate. A position made by `new` is always on the board.
#[derive(Copy, Clone, PartialEq, Eq, Debug)]
pub struct Position {
    pub x: usize,
    pub y: usize,
}

impl Position {
    pub open spec fn in_bounds(self) -> bool {
        self.x < 8 && self.y < 8
    }

    /// Out-of-range coordinates are a caller error and are ruled out here.
    pub fn new(x: usize, y: usize) -> (p: Position)
        requires
            x < 8,
            y < 8,
        ensures
            p == (Position { x, y }),
    {
        Position { x, y }
    }

    pub fn get_x(&self) -> (r: usize)
        ensures
            r == self.x,
    {
        self.x
    }

    pub fn get_y(&self) -> (r: usize)
        ensures
            r == self.y,
    {
        self.y
    }
}

/// A flanking move: `team` plays from `origin` along `dir`. Moves are produced
/// by the legality algorithm; `Board::apply_move` only accepts a move whose
/// flanking run it can resolve, which is exactly what the generator emits.
#[derive(Copy, Clone, PartialEq, Eq, Debug)]
pub struct Move {
    pub origin: Position,
    pub dir: Direction,
    pub team: Colour,
}

/// True on-board coordinates.
pub open spec fn on_board(x: int, y: int) -> bool {
    0 <= x < 8 && 0 <= y < 8
}

/// Index of the cell (x, y) in the row-major cell sequence.
pub open spec fn cell_index(x: int, y: int) -> int {
    x * 8 + y
}

/// Coordinates after k steps from (x, y) along d.
pub open spec fn step_coords(x: int, y: int, d: Direction, k: nat) -> (int, int)
    decreases k,
{
    if k == 0 {
        (x, y)
    } else {
        let p = step_coords(x, y, d, (k - 1) as nat);
        (p.0 + d.dx as int, p.1 + d.dy as int)
    }
}

/// Each coordinate of a step along a unit direction moves by exactly its
/// component each step, so it is a linear function of the step count.
pub proof fn lemma_step_component(x: int, y: int, d: Direction, k: nat)
    requires
        d.is_unit(),
    ensures
        step_coords(x, y, d, k).0 == x + (if d.dx == 1 {
            k as int
        } else if d.dx == -1 {
            -(k as int)
        } else {
            0
        }),
        step_coords(x, y, d, k).1 == y + (if d.dy == 1 {
            k as int
        } else if d.dy == -1 {
            -(k as int)
        } else {
            0
        }),
    decreases k,
{
    if k > 0 {
        lemma_step_component(x, y, d, (k - 1) as nat);
    }
}

/// Two distinct step counts along a unit direction land on distinct coordinates.
pub proof fn lemma_step_distinct(x: int, y: int, d: Direction, k1: nat, k2: nat)
    requires
        d.is_unit(),
        k1 < k2,
    ensures
        step_coords(x, y, d, k1) != step_coords(x, y, d, k2),
{
    lemma_step_component(x, y, d, k1);
    lemma_step_component(x, y, d, k2);
}

/// Once a ray from an on-board origin leaves the board, it never returns.
pub proof fn lemma_ray_exits(x: int, y: int, d: Direction, k1: nat, k2: nat)
    requires
        on_board(x, y),
        d.is_unit(),
        k1 <= k2,
        !on_board(step_coords(x, y, d, k1).0, step_coords(x, y, d, k1).1),
    ensures
        !on_board(step_coords(x, y, d, k2).0, step_coords(x, y, d, k2).1),
{
    lemma_step_component(x, y, d, k1);
    lemma_step_component(x, y, d, k2);
}

/// How many cells of the sequence hold the value v.
pub open spec fn count_of(s: Seq<Option<Colour>>, v: Option<Colour>) -> nat
    decreases s.len(),
{
    if s.len() == 0 {
        0
    } else {
        (if s.last() == v {
            1nat
        } else {
            0nat
        }) + count_of(s.drop_last(), v)
    }
}

/// Overwriting one cell moves the counts by at most one in each direction.
pub proof fn lemma_count_update(s: Seq<Option<Colour>>, i: int, w: Option<Colour>, v: Option<
    Colour,
>)
    requires
        0 <= i < s.len(),
    ensures
        count_of(s.update(i, w), v) == count_of(s, v) - (if s[i] == v {
            1int
        } else {
            0int
        }) + (if w == v {
            1int
        } else {
            0int
        }),
    decreases s.len(),
{
    let t = s.update(i, w);
    if i == s.len() - 1 {
        assert(t.drop_last() =~= s.drop_last());
    } else {
        assert(t.drop_last() =~= s.drop_last().update(i, w));
        lemma_count_update(s.drop_last(), i, w, v);
    }
}

/// Every cell is empty, Light or Dark, so the three counts always add up to
/// the number of cells: on the 8 x 8 board, to 64.
pub proof fn lemma_cell_conservation(s: Seq<Option<Colour>>)
    ensures
        count_of(s, None) + count_of(s, Some(Colour::Light)) + count_of(s, Some(Colour::Dark))
            == s.len(),
    decreases s.len(),
{
    if s.len() > 0 {
        lemma_cell_conservation(s.drop_last());
        assert(s.last() is None || s.last() == Some(Colour::Light) || s.last() == Some(
            Colour::Dark,
        ));
    }
}

/// On any board, the dark, light and empty cells together are the whole
/// 8 x 8 grid: occupied(dark) + occupied(light) + empty == 64.
pub proof fn lemma_board_conservation(b: Board)
    requires
        b.wf(),
    ensures
        count_of(b@, Some(Colour::Dark)) + count_of(b@, Some(Colour::Light)) + count_of(b@, None)
            == 64,
{
    lemma_cell_conservation(b@);
}

/// Extending a scan by one cell extends its counts by that cell.
pub proof fn lemma_count_extend(s: Seq<Option<Colour>>, i: int, v: Option<Colour>)
    requires
        0 <= i < s.len(),
    ensures
        count_of(s.subrange(0, i + 1), v) == count_of(s.subrange(0, i), v) + (if s[i] == v {
            1int
        } else {
            0int
        }),
{
    let t = s.subrange(0, i + 1);
    assert(t.drop_last() =~= s.subrange(0, i));
    assert(t.last() == s[i]);
}

/// The 8 x 8 grid itself: 64 cells in row-major order, each empty or claimed.
pub struct Board {
    cells: Vec<Option<Colour>>,
}

impl View for Board {
    type V = Seq<Option<Colour>>;

    closed spec fn view(&self) -> Seq<Option<Colour>> {
        self.cells@
    }
}

impl Board {
    /// A board always holds exactly 64 cells.
    pub open spec fn wf(self) -> bool {
        self@.len() == 64
    }

    pub open spec fn cell(self, x: int, y: int) -> Option<Colour> {
        self@[cell_index(x, y)]
    }

    pub open spec fn occupant(self, p: Position) -> Option<Colour> {
        self.cell(p.x as int, p.y as int)
    }

    /// An all-empty board.
    pub fn new() -> (b: Board)
        ensures
            b.wf(),
            forall|i: int| 0 <= i < 64 ==> b@[i] is None,
    {
        let cells: Vec<Option<Colour>> = vec![None; 64];
        Board { cells }
    }

    pub fn get(&self, p: Position) -> (r: Option<Colour>)
        requires
            self.wf(),
            p.in_bounds(),
        ensures
            r == self.occupant(p),
    {
        self.cells[p.x * 8 + p.y]
    }

    pub fn set(&mut self, p: Position, v: Option<Colour>)
        requires
            old(self).wf(),
            p.in_bounds(),
        ensures
            final(self)@ == old(self)@.update(cell_index(p.x as int, p.y as int), v),
            final(self).wf(),
    {
        self.cells.set(p.x * 8 + p.y, v);
    }

    /// A fresh copy of the board, cell for cell.
    pub fn duplicate(&self) -> (b: Board)
        requires
            self.wf(),
        ensures
            b@ == self@,
    {
        let mut cells: Vec<Option<Colour>> = Vec::new();
        let mut i: usize = 0;
        while i < 64
            invariant
                self.wf(),
                i <= 64,
                cells@ =~= self@.subrange(0, i as int),
            decreases 64 - i,
        {
            cells.push(self.cells[i]);
            i = i + 1;
        }
        proof {
            assert(cells@ =~= self@);
        }
        Board { cells }
    }

    /// The running total of claimed cells, as the pair (dark, light) - in that
    /// order by design. The two counts never exceed the 64 cells together.
    pub fn get_score(&self) -> (r: (usize, usize))
        requires
            self.wf(),
        ensures
            r.0 == count_of(self@, Some(Colour::Dark)),
            r.1 == count_of(self@, Some(Colour::Light)),
            r.0 + r.1 <= 64,
    {
        let mut dark: usize = 0;
        let mut light: usize = 0;
        let mut i: usize = 0;
        while i < 64
            invariant
                self.wf(),
                i <= 64,
                dark == count_of(self@.subrange(0, i as int), Some(Colour::Dark)),
                light == count_of(self@.subrange(0, i as int), Some(Colour::Light)),
                dark + light <= i,
            decreases 64 - i,
        {
            proof {
                lemma_count_extend(self@, i as int, Some(Colour::Dark));
                lemma_count_extend(self@, i as int, Some(Colour::Light));
            }
            match self.cells[i] {
                Some(Colour::Dark) => {
                    dark = dark + 1;
                },
                Some(Colour::Light) => {
                    light = light + 1;
                },
                None => {},
            }
            i = i + 1;
        }
        proof {
            assert(self@.subrange(0, 64) =~= self@);
        }
        (dark, light)
    }
}

/// Element i of a walked line sits on the board at step i + 1 from the origin.
pub open spec fn line_elem_ok(origin: Position, going: Direction, line: Seq<Position>, i: int) -> bool {
    let t = step_coords(origin.x as int, origin.y as int, going, (i + 1) as nat);
    on_board(t.0, t.1) && line[i].x == t.0 && line[i].y == t.1
}

/// Step k from origin along d sits on the board and holds the colour opposite to c.
pub open spec fn opp_at_step(b: Board, origin: Position, d: Direction, k: int, c: Colour) -> bool {
    let t = step_coords(origin.x as int, origin.y as int, d, k as nat);
    on_board(t.0, t.1) && b.cell(t.0, t.1) == Some(c.spec_opposite())
}

impl Board {
    /// Step j is where a flanking run from origin along d lands: the origin is
    /// occupied, every strictly earlier step holds the opposite colour (so at
    /// least one cell is captured), and step j itself is an empty board cell.
    pub open spec fn is_landing_step(self, origin: Position, d: Direction, j: int) -> bool {
        let t = step_coords(origin.x as int, origin.y as int, d, j as nat);
        &&& 2 <= j
        &&& on_board(t.0, t.1)
        &&& self.cell(t.0, t.1) is None
        &&& self.occupant(origin) is Some
        &&& (forall|k: int|
            1 <= k < j ==> opp_at_step(self, origin, d, k, self.occupant(origin).unwrap()))
    }

    pub open spec fn has_landing(self, origin: Position, d: Direction) -> bool {
        exists|j: int| self.is_landing_step(origin, d, j)
    }

    /// The on-board positions strictly between origin (exclusive) and the edge
    /// along `going`: pure geometry, independent of occupancy.
    pub fn get_line(origin: Position, going: Direction) -> (line: Vec<Position>)
        requires
            origin.in_bounds(),
            going.is_unit(),
        ensures
            forall|i: int| 0 <= i < line@.len() ==> #[trigger] line_elem_ok(origin, going, line@, i),
            !on_board(
                step_coords(origin.x as int, origin.y as int, going, (line@.len() + 1) as nat).0,
                step_coords(origin.x as int, origin.y as int, going, (line@.len() + 1) as nat).1,
            ),
            line@.len() <= 7,
    {
        let ghost x0 = origin.x as int;
        let ghost y0 = origin.y as int;
        let mut line: Vec<Position> = Vec::new();
        let mut nx: i16 = origin.x as i16 + going.dx as i16;
        let mut ny: i16 = origin.y as i16 + going.dy as i16;
        proof {
            reveal_with_fuel(step_coords, 2);
            assert((nx as int, ny as int) == step_coords(x0, y0, going, 1nat));
        }
        while 0 <= nx && nx < 8 && 0 <= ny && ny < 8
            invariant
                x0 == origin.x as int,
                y0 == origin.y as int,
                origin.in_bounds(),
                going.is_unit(),
                -1 <= nx <= 8,
                -1 <= ny <= 8,
                (nx as int, ny as int) == step_coords(x0, y0, going, (line@.len() + 1) as nat),
                on_board(
                    step_coords(x0, y0, going, line@.len() as nat).0,
                    step_coords(x0, y0, going, line@.len() as nat).1,
                ),
                line@.len() <= 7,
                forall|i: int| 0 <= i < line@.len() ==> #[trigger] line_elem_ok(
                    origin,
                    going,
                    line@,
                    i,
                ),
            decreases 8 - line@.len(),
        {
            let ghost n0 = line@.len() as int;
            let ghost prev = line@;
            proof {
                lemma_step_component(x0, y0, going, (n0 + 1) as nat);
            }
            line.push(Position { x: nx as usize, y: ny as usize });
            proof {
                assert forall|i: int| 0 <= i < line@.len() implies #[trigger] line_elem_ok(
                    origin,
                    going,
                    line@,
                    i,
                ) by {
                    if i < n0 {
                        assert(line_elem_ok(origin, going, prev, i));
                        assert(line@[i] == prev[i]);
                    } else {
                        assert(line@[i] == (Position { x: nx as usize, y: ny as usize }));
                    }
                }
            }
            nx = nx + going.dx as i16;
            ny = ny + going.dy as i16;
            proof {
                reveal_with_fuel(step_coords, 2);
                assert(step_coords(x0, y0, going, (n0 + 2) as nat) == (
                    step_coords(x0, y0, going, (n0 + 1) as nat).0 + going.dx as int,
                    step_coords(x0, y0, going, (n0 + 1) as nat).1 + going.dy as int,
                ));
                assert((nx as int, ny as int) == step_coords(
                    x0,
                    y0,
                    going,
                    (line@.len() + 1) as nat,
                ));
            }
        }
        line
    }

    /// The capture-resolution rule: walk the line from origin; cells of the
    /// opposite colour mark the run as capturing; the first empty cell is the
    /// landing square if the run was capturing, and a failure otherwise; a cell
    /// of the origin's own colour, or the board edge, ends the walk with no
    /// landing. Returns the landing square exactly when one exists.
    pub fn get_empty_at_end_of_line(&self, origin: Position, going: Direction) -> (r: Option<
        Position,
    >)
        requires
            self.wf(),
            origin.in_bounds(),
            going.is_unit(),
        ensures
            (r is Some) == self.has_landing(origin, going),
            r matches Some(p) ==> p.in_bounds() && (exists|j: int|
                self.is_landing_step(origin, going, j) && step_coords(
                    origin.x as int,
                    origin.y as int,
                    going,
                    j as nat,
                ) == (p.x as int, p.y as int)),
    {
        let ghost x0 = origin.x as int;
        let ghost y0 = origin.y as int;
        let starting_team = match self.get(origin) {
            Some(c) => c,
            None => {
                proof {
                    assert forall|j: int| !self.is_landing_step(origin, going, j) by {}
                }
                return None;
            },
        };
        let line = Board::get_line(origin, going);
        let mut i: usize = 0;
        while i < line.len()
            invariant
                x0 == origin.x as int,
                y0 == origin.y as int,
                self.wf(),
                origin.in_bounds(),
                going.is_unit(),
                i <= line@.len(),
                self.occupant(origin) == Some(starting_team),
                self.occupant(origin).unwrap() == starting_team,
                forall|i2: int| 0 <= i2 < line@.len() ==> #[trigger] line_elem_ok(
                    origin,
                    going,
                    line@,
                    i2,
                ),
                !on_board(
                    step_coords(x0, y0, going, (line@.len() + 1) as nat).0,
                    step_coords(x0, y0, going, (line@.len() + 1) as nat).1,
                ),
                line@.len() <= 7,
                forall|k: int| 1 <= k <= i ==> opp_at_step(*self, origin, going, k, starting_team),
            decreases line@.len() - i,
        {
            let p = line[i];
            proof {
                assert(line@[i as int] == p);
                assert(line_elem_ok(origin, going, line@, i as int));
            }
            match self.get(p) {
                Some(u) => {
                    if u == starting_team {
                        proof {
                            assert forall|j: int| !self.is_landing_step(origin, going, j) by {
                                if self.is_landing_step(origin, going, j) {
                                    lemma_landing_bounded(
                                        *self,
                                        origin,
                                        going,
                                        j,
                                        line@.len() as int,
                                    );
                                    if j <= i as int {
                                        assert(opp_at_step(*self, origin, going, j, starting_team));
                                    } else if j == i as int + 1 {
                                        assert(self.cell(p.x as int, p.y as int) == Some(u));
                                    } else {
                                        assert(opp_at_step(
                                            *self,
                                            origin,
                                            going,
                                            i as int + 1,
                                            starting_team,
                                        ));
                                    }
                                }
                            }
                        }
                        return None;
                    }
                    proof {
                        assert(u == starting_team.spec_opposite());
                        assert(opp_at_step(*self, origin, going, i as int + 1, starting_team));
                    }
                },
                None => {
                    if i > 0 {
                        proof {
                            assert(self.is_landing_step(origin, going, i as int + 1)
                                && step_coords(x0, y0, going, (i + 1) as nat) == (
                            p.x as int,
                            p.y as int,
                            ));
                        }
                        return Some(p);
                    } else {
                        proof {
                            assert forall|j: int| !self.is_landing_step(origin, going, j) by {
                                if self.is_landing_step(origin, going, j) {
                                    assert(opp_at_step(*self, origin, going, 1, starting_team));
                                }
                            }
                        }
                        return None;
                    }
                },
            }
            i = i + 1;
        }
        proof {
            assert forall|j: int| !self.is_landing_step(origin, going, j) by {
                if self.is_landing_step(origin, going, j) {
                    lemma_landing_bounded(*self, origin, going, j, line@.len() as int);
                    assert(opp_at_step(*self, origin, going, j, starting_team));
                }
            }
        }
        None
    }
}

/// The row-major cell index that step k from origin along d lands on.
pub open spec fn step_cell(origin: Position, d: Direction, k: int) -> int {
    let t = step_coords(origin.x as int, origin.y as int, d, k as nat);
    cell_index(t.0, t.1)
}

/// Cell i is overwritten when the first m steps of the walk are claimed.
pub open spec fn flipped_by(origin: Position, d: Direction, m: int, i: int) -> bool {
    exists|k: int| 1 <= k <= m && (#[trigger] step_cell(origin, d, k)) == i
}

/// The grid after the first m steps of the walk from origin along d have been
/// claimed by t: those cells hold t, every other cell keeps its old value.
pub open spec fn flip_upto(
    s: Seq<Option<Colour>>,
    origin: Position,
    d: Direction,
    m: int,
    t: Colour,
) -> Seq<Option<Colour>> {
    Seq::new(
        s.len(),
        |i: int|
            if flipped_by(origin, d, m, i) {
                Some(t)
            } else {
                s[i]
            },
    )
}

/// A line has at most one landing step: the first empty cell ends the walk.
pub proof fn lemma_landing_unique(b: Board, origin: Position, d: Direction, j1: int, j2: int)
    requires
        b.is_landing_step(origin, d, j1),
        b.is_landing_step(origin, d, j2),
    ensures
        j1 == j2,
{
    assert(b.occupant(origin).unwrap() == b.occupant(origin).unwrap());
    if j1 < j2 {
        assert(opp_at_step(b, origin, d, j1, b.occupant(origin).unwrap()));
    }
    if j2 < j1 {
        assert(opp_at_step(b, origin, d, j2, b.occupant(origin).unwrap()));
    }
}

/// Claiming the first m steps leaves every later step of the walk untouched:
/// the steps of a walk sit on pairwise distinct cells.
proof fn lemma_flip_preserves_ahead(
    s: Seq<Option<Colour>>,
    b0: Board,
    origin: Position,
    d: Direction,
    j: int,
    m: int,
    k2: int,
    t: Colour,
)
    requires
        s.len() == 64,
        origin.in_bounds(),
        d.is_unit(),
        b0.is_landing_step(origin, d, j),
        0 <= m < k2 <= j,
    ensures
        0 <= step_cell(origin, d, k2) < 64,
        flip_upto(s, origin, d, m, t)[step_cell(origin, d, k2)] == s[step_cell(origin, d, k2)],
{
    let x0 = origin.x as int;
    let y0 = origin.y as int;
    let c = b0.occupant(origin).unwrap();
    if k2 < j {
        assert(opp_at_step(b0, origin, d, k2, c));
    }
    let t2 = step_coords(x0, y0, d, k2 as nat);
    assert(on_board(t2.0, t2.1));
    if flipped_by(origin, d, m, step_cell(origin, d, k2)) {
        let k = choose|k: int|
            1 <= k <= m && (#[trigger] step_cell(origin, d, k)) == step_cell(origin, d, k2);
        assert(opp_at_step(b0, origin, d, k, c));
        let t1 = step_coords(x0, y0, d, k as nat);
        assert(on_board(t1.0, t1.1));
        lemma_step_distinct(x0, y0, d, k as nat, k2 as nat);
        assert(t1.0 * 8 + t1.1 != t2.0 * 8 + t2.1);
        assert(false);
    }
}

impl Board {
    /// The step at which the flanking run from origin along d lands, where one
    /// exists.
    pub open spec fn landing_step_of(self, origin: Position, d: Direction) -> int {
        choose|j: int| self.is_landing_step(origin, d, j)
    }

    /// The grid after m is played: the captured run and the landing square all
    /// hold m's colour, every other cell is untouched.
    pub open spec fn spec_apply(self, m: Move) -> Seq<Option<Colour>> {
        flip_upto(self@, m.origin, m.dir, self.landing_step_of(m.origin, m.dir), m.team)
    }

    /// Play a flanking move: walk the line from the origin, claim each cell of
    /// the captured run, claim the empty landing square, and stop. Exactly one
    /// empty cell is claimed, so the empty count drops by exactly one.
    pub fn apply_move(&mut self, m: Move)
        requires
            old(self).wf(),
            m.origin.in_bounds(),
            m.dir.is_unit(),
            old(self).occupant(m.origin) == Some(m.team),
            old(self).has_landing(m.origin, m.dir),
        ensures
            final(self).wf(),
            final(self)@ == old(self).spec_apply(m),
            count_of(final(self)@, None) == count_of(old(self)@, None) - 1,
    {
        let ghost j = old(self).landing_step_of(m.origin, m.dir);
        proof {
            assert(old(self).is_landing_step(m.origin, m.dir, j));
            assert(old(self).occupant(m.origin).unwrap() == m.team);
            assert(self@ =~= flip_upto(old(self)@, m.origin, m.dir, 0, m.team));
        }
        let line = Board::get_line(m.origin, m.dir);
        proof {
            lemma_landing_bounded(*self, m.origin, m.dir, j, line@.len() as int);
        }
        let mut i: usize = 0;
        while i < line.len()
            invariant
                m.origin.in_bounds(),
                m.dir.is_unit(),
                old(self).wf(),
                self.wf(),
                old(self).occupant(m.origin) == Some(m.team),
                old(self).occupant(m.origin).unwrap() == m.team,
                old(self).is_landing_step(m.origin, m.dir, j),
                j == old(self).landing_step_of(m.origin, m.dir),
                i < j <= line@.len(),
                forall|i2: int| 0 <= i2 < line@.len() ==> #[trigger] line_elem_ok(
                    m.origin,
                    m.dir,
                    line@,
                    i2,
                ),
                self@ == flip_upto(old(self)@, m.origin, m.dir, i as int, m.team),
                count_of(self@, None) == count_of(old(self)@, None),
            decreases line@.len() - i,
        {
            let p = line[i];
            let ghost icur = step_cell(m.origin, m.dir, i as int + 1);
            proof {
                assert(line_elem_ok(m.origin, m.dir, line@, i as int));
                lemma_flip_preserves_ahead(
                    old(self)@,
                    *old(self),
                    m.origin,
                    m.dir,
                    j,
                    i as int,
                    i as int + 1,
                    m.team,
                );
                assert(self@[icur] == old(self)@[icur]);
                assert(self.occupant(p) == self@[icur]);
            }
            match self.get(p) {
                None => {
                    proof {
                        if i as int + 1 < j {
                            assert(opp_at_step(
                                *old(self),
                                m.origin,
                                m.dir,
                                i as int + 1,
                                m.team,
                            ));
                            assert(false);
                        }
                        assert(i as int + 1 == j);
                    }
                    let ghost before = self@;
                    self.set(p, Some(m.team));
                    proof {
                        lemma_count_update(before, icur, Some(m.team), None);
                        assert forall|ii: int|
                            0 <= ii < 64 implies self@[ii] == flip_upto(
                            old(self)@,
                            m.origin,
                            m.dir,
                            j,
                            m.team,
                        )[ii] by {
                            if ii == icur {
                                assert(1 <= j <= j && step_cell(m.origin, m.dir, j) == ii);
                                assert(flipped_by(m.origin, m.dir, j, ii));
                            } else {
                                if flipped_by(m.origin, m.dir, j, ii) {
                                    let k = choose|k: int|
                                        1 <= k <= j && (#[trigger] step_cell(m.origin, m.dir, k))
                                            == ii;
                                    assert(k <= i as int);
                                    assert(flipped_by(m.origin, m.dir, i as int, ii));
                                }
                                if flipped_by(m.origin, m.dir, i as int, ii) {
                                    let k = choose|k: int|
                                        1 <= k <= i as int && (#[trigger] step_cell(
                                            m.origin,
                                            m.dir,
                                            k,
                                        )) == ii;
                                    assert(flipped_by(m.origin, m.dir, j, ii));
                                }
                            }
                        }
                        assert(self@ =~= flip_upto(old(self)@, m.origin, m.dir, j, m.team));
                    }
                    return ;
                },
                Some(u) => {
                    proof {
                        if i as int + 1 == j {
                            assert(false);
                        }
                        assert(opp_at_step(*old(self), m.origin, m.dir, i as int + 1, m.team));
                        assert(u == m.team.spec_opposite());
                    }
                    let ghost before = self@;
                    self.set(p, Some(m.team));
                    proof {
                        lemma_count_update(before, icur, Some(m.team), None);
                        assert forall|ii: int|
                            0 <= ii < 64 implies self@[ii] == flip_upto(
                            old(self)@,
                            m.origin,
                            m.dir,
                            i as int + 1,
                            m.team,
                        )[ii] by {
                            if ii == icur {
                                assert(1 <= i as int + 1 <= i as int + 1 && step_cell(
                                    m.origin,
                                    m.dir,
                                    i as int + 1,
                                ) == ii);
                                assert(flipped_by(m.origin, m.dir, i as int + 1, ii));
                            } else {
                                if flipped_by(m.origin, m.dir, i as int + 1, ii) {
                                    let k = choose|k: int|
                                        1 <= k <= i as int + 1 && (#[trigger] step_cell(
                                            m.origin,
                                            m.dir,
                                            k,
                                        )) == ii;
                                    assert(k <= i as int);
                                    assert(flipped_by(m.origin, m.dir, i as int, ii));
                                }
                                if flipped_by(m.origin, m.dir, i as int, ii) {
                                    assert(flipped_by(m.origin, m.dir, i as int + 1, ii));
                                }
                            }
                        }
                        assert(self@ =~= flip_upto(
                            old(self)@,
                            m.origin,
                            m.dir,
                            i as int + 1,
                            m.team,
                        ));
                    }
                },
            }
            i = i + 1;
        }
    }
}

/// A landing step along a line of length len is at most len: past the end of
/// the line the walk has left the board for good.
pub proof fn lemma_landing_bounded(b: Board, origin: Position, d: Direction, j: int, len: int)
    requires
        origin.in_bounds(),
        d.is_unit(),
        b.is_landing_step(origin, d, j),
        0 <= len,
        !on_board(
            step_coords(origin.x as int, origin.y as int, d, (len + 1) as nat).0,
            step_coords(origin.x as int, origin.y as int, d, (len + 1) as nat).1,
        ),
    ensures
        j <= len,
{
    if j > len {
        lemma_ray_exits(origin.x as int, origin.y as int, d, (len + 1) as nat, j as nat);
    }
}

/// What the move generator promises of every move it emits: the move belongs
/// to the asked colour, starts on one of its own cells, and has a flanking run
/// with an empty landing square - exactly what `apply_move` requires.
pub open spec fn move_is_flanking(b: Board, t: Colour, m: Move) -> bool {
    &&& m.team == t
    &&& m.origin.in_bounds()
    &&& m.dir.is_unit()
    &&& b.occupant(m.origin) == Some(t)
    &&& b.has_landing(m.origin, m.dir)
}

impl Board {
    /// The moves of colour t from one origin cell, over the first n directions
    /// of the compass order.
    pub open spec fn moves_from_upto(self, t: Colour, origin: Position, n: int) -> Seq<Move>
        decreases n,
    {
        if n <= 0 {
            Seq::empty()
        } else {
            let rest = self.moves_from_upto(t, origin, n - 1);
            if self.has_landing(origin, spec_direction(n - 1)) {
                rest.push(Move { origin, dir: spec_direction(n - 1), team: t })
            } else {
                rest
            }
        }
    }

    /// The moves of colour t from one origin cell, in compass order.
    pub open spec fn spec_moves_from(self, t: Colour, origin: Position) -> Seq<Move> {
        self.moves_from_upto(t, origin, 8)
    }

    /// The moves of colour t whose origin is among the first n cells in
    /// row-major order.
    pub open spec fn all_moves_upto(self, t: Colour, n: int) -> Seq<Move>
        decreases n,
    {
        if n <= 0 {
            Seq::empty()
        } else {
            let rest = self.all_moves_upto(t, n - 1);
            let p = Position { x: (((n - 1) / 8) as usize), y: (((n - 1) % 8) as usize) };
            if self.occupant(p) == Some(t) {
                rest + self.spec_moves_from(t, p)
            } else {
                rest
            }
        }
    }

    /// Every legal move of colour t: origins in row-major order, and from each
    /// origin the directions in compass order.
    pub open spec fn all_moves(self, t: Colour) -> Seq<Move> {
        self.all_moves_upto(t, 64)
    }

    /// The legal moves of colour t from one origin cell, one per direction
    /// whose walk has a landing square, in compass order.
    pub fn get_moves_from_cell(&self, t: Colour, origin: Position) -> (moves: Vec<Move>)
        requires
            self.wf(),
            origin.in_bounds(),
            self.occupant(origin) == Some(t),
        ensures
            moves@ == self.spec_moves_from(t, origin),
    {
        let mut moves: Vec<Move> = Vec::new();
        let mut di: usize = 0;
        while di < 8
            invariant
                self.wf(),
                origin.in_bounds(),
                self.occupant(origin) == Some(t),
                di <= 8,
                moves@ == self.moves_from_upto(t, origin, di as int),
            decreases 8 - di,
        {
            let d = direction_at(di);
            match self.get_empty_at_end_of_line(origin, d) {
                Some(_) => {
                    moves.push(Move { origin, dir: d, team: t });
                },
                None => {},
            }
            di = di + 1;
        }
        moves
    }

    /// Every legal move of colour t on the current board: all 64 cells are
    /// scanned in row-major order, cells of colour t contribute their moves in
    /// compass order. This enumeration order is the order players see.
    pub fn get_moves(&self, t: Colour) -> (moves: Vec<Move>)
        requires
            self.wf(),
        ensures
            moves@ == self.all_moves(t),
    {
        let mut moves: Vec<Move> = Vec::new();
        let mut idx: usize = 0;
        while idx < 64
            invariant
                self.wf(),
                idx <= 64,
                moves@ == self.all_moves_upto(t, idx as int),
            decreases 64 - idx,
        {
            let p = Position { x: idx / 8, y: idx % 8 };
            let occupied = match self.get(p) {
                Some(u) => u == t,
                None => false,
            };
            if occupied {
                let mut from = self.get_moves_from_cell(t, p);
                moves.append(&mut from);
            }
            idx = idx + 1;
        }
        moves
    }
}

/// Soundness of the per-cell generator: every emitted move is a flanking move.
proof fn lemma_moves_from_sound(b: Board, t: Colour, origin: Position, n: int)
    requires
        origin.in_bounds(),
        b.occupant(origin) == Some(t),
        n <= 8,
    ensures
        forall|i: int|
            0 <= i < b.moves_from_upto(t, origin, n).len() ==> move_is_flanking(
                b,
                t,
                #[trigger] b.moves_from_upto(t, origin, n)[i],
            ),
    decreases (if n <= 0 {
        0int
    } else {
        n
    }),
{
    if n > 0 {
        lemma_moves_from_sound(b, t, origin, n - 1);
        let cur = b.moves_from_upto(t, origin, n);
        let rest = b.moves_from_upto(t, origin, n - 1);
        let d = spec_direction(n - 1);
        assert(d.is_unit());
        assert forall|i: int| 0 <= i < cur.len() implies move_is_flanking(b, t, cur[i]) by {
            if b.has_landing(origin, d) {
                assert(cur == rest.push(Move { origin, dir: d, team: t }));
                if i < rest.len() {
                    assert(cur[i] == rest[i]);
                    assert(move_is_flanking(b, t, rest[i]));
                } else {
                    assert(cur[i] == (Move { origin, dir: d, team: t }));
                }
            } else {
                assert(move_is_flanking(b, t, rest[i]));
            }
        }
    }
}

/// Soundness of the board scan over the first n cells.
proof fn lemma_all_moves_sound(b: Board, t: Colour, n: int)
    requires
        n <= 64,
    ensures
        forall|i: int|
            0 <= i < b.all_moves_upto(t, n).len() ==> move_is_flanking(
                b,
                t,
                #[trigger] b.all_moves_upto(t, n)[i],
            ),
    decreases (if n <= 0 {
        0int
    } else {
        n
    }),
{
    if n > 0 {
        lemma_all_moves_sound(b, t, n - 1);
        let p = Position { x: (((n - 1) / 8) as usize), y: (((n - 1) % 8) as usize) };
        let cur = b.all_moves_upto(t, n);
        let rest = b.all_moves_upto(t, n - 1);
        if b.occupant(p) == Some(t) {
            lemma_moves_from_sound(b, t, p, 8);
            let extra = b.spec_moves_from(t, p);
            assert forall|i: int| 0 <= i < cur.len() implies move_is_flanking(b, t, cur[i]) by {
                assert(cur == rest + extra);
                if i < rest.len() {
                    assert(cur[i] == rest[i]);
                    assert(move_is_flanking(b, t, rest[i]));
                } else {
                    assert(cur[i] == extra[i - rest.len()]);
                    assert(move_is_flanking(b, t, b.moves_from_upto(t, p, 8)[i - rest.len()]));
                }
            }
        } else {
            assert forall|i: int| 0 <= i < cur.len() implies move_is_flanking(b, t, cur[i]) by {
                assert(move_is_flanking(b, t, rest[i]));
            }
        }
    }
}

/// Every move the generator returns is sound: its landing cell is empty, its
/// origin holds the moving colour, and applying it meets `apply_move`'s
/// contract, so it removes exactly one empty cell and cannot fault.
pub proof fn lemma_legal_moves_sound(b: Board, t: Colour)
    requires
        b.wf(),
    ensures
        forall|i: int|
            0 <= i < b.all_moves(t).len() ==> move_is_flanking(b, t, #[trigger] b.all_moves(t)[i]),
{
    lemma_all_moves_sound(b, t, 64);
}

/// Two boards with the same cells agree on every landing question.
pub proof fn lemma_landing_view(b1: Board, b2: Board, origin: Position, d: Direction)
    requires
        b1@ == b2@,
    ensures
        forall|j: int| b1.is_landing_step(origin, d, j) == b2.is_landing_step(origin, d, j),
        b1.has_landing(origin, d) == b2.has_landing(origin, d),
{
    assert forall|j: int|
        b1.is_landing_step(origin, d, j) == b2.is_landing_step(origin, d, j) by {
        assert(b1.occupant(origin) == b2.occupant(origin));
        if b1.is_landing_step(origin, d, j) {
            let c = b1.occupant(origin).unwrap();
            assert forall|k: int| 1 <= k < j implies opp_at_step(b2, origin, d, k, c) by {
                assert(opp_at_step(b1, origin, d, k, c));
            }
            assert(b2.is_landing_step(origin, d, j));
        }
        if b2.is_landing_step(origin, d, j) {
            let c = b2.occupant(origin).unwrap();
            assert forall|k: int| 1 <= k < j implies opp_at_step(b1, origin, d, k, c) by {
                assert(opp_at_step(b2, origin, d, k, c));
            }
            assert(b1.is_landing_step(origin, d, j));
        }
    }
    if b1.has_landing(origin, d) {
        let j = choose|j: int| b1.is_landing_step(origin, d, j);
        assert(b2.is_landing_step(origin, d, j));
    }
    if b2.has_landing(origin, d) {
        let j = choose|j: int| b2.is_landing_step(origin, d, j);
        assert(b1.is_landing_step(origin, d, j));
    }
}

proof fn lemma_moves_from_view(b1: Board, b2: Board, t: Colour, origin: Position, n: int)
    requires
        b1@ == b2@,
    ensures
        b1.moves_from_upto(t, origin, n) == b2.moves_from_upto(t, origin, n),
    decreases (if n <= 0 {
        0int
    } else {
        n
    }),
{
    if n > 0 {
        lemma_moves_from_view(b1, b2, t, origin, n - 1);
        lemma_landing_view(b1, b2, origin, spec_direction(n - 1));
    }
}

proof fn lemma_all_moves_view_upto(b1: Board, b2: Board, t: Colour, n: int)
    requires
        b1@ == b2@,
    ensures
        b1.all_moves_upto(t, n) == b2.all_moves_upto(t, n),
    decreases (if n <= 0 {
        0int
    } else {
        n
    }),
{
    if n > 0 {
        lemma_all_moves_view_upto(b1, b2, t, n - 1);
        let p = Position { x: (((n - 1) / 8) as usize), y: (((n - 1) % 8) as usize) };
        lemma_moves_from_view(b1, b2, t, p, 8);
        assert(b1.occupant(p) == b2.occupant(p));
    }
}

/// The legal moves of a board depend on its cells alone: two boards with the
/// same cells offer the same moves, in the same order.
pub proof fn lemma_moves_view(b1: Board, b2: Board, t: Colour)
    requires
        b1@ == b2@,
    ensures
        b1.all_moves(t) == b2.all_moves(t),
{
    lemma_all_moves_view_upto(b1, b2, t, 64);
}

/// Applying a flanking move depends on the cells alone as well: two boards
/// with the same cells resolve the move to the same landing and the same
/// resulting grid.
pub proof fn lemma_apply_view(b1: Board, b2: Board, m: Move)
    requires
        b1@ == b2@,
        move_is_flanking(b1, m.team, m),
    ensures
        move_is_flanking(b2, m.team, m),
        b1.spec_apply(m) == b2.spec_apply(m),
{
    lemma_landing_view(b1, b2, m.origin, m.dir);
    let j1 = b1.landing_step_of(m.origin, m.dir);
    let j2 = b2.landing_step_of(m.origin, m.dir);
    assert(b1.is_landing_step(m.origin, m.dir, j1));
    assert(b2.is_landing_step(m.origin, m.dir, j2));
    assert(b2.is_landing_step(m.origin, m.dir, j1));
    lemma_landing_unique(b2, m.origin, m.dir, j1, j2);
}

/// Board b2 is board b1 after one legal ply: either unchanged (a pass or a
/// declined turn) or the result of applying one of b1's legal moves.
pub open spec fn is_ply_of(b1: Board, b2: Board) -> bool {
    b2@ == b1@ || (exists|c: Colour, i: int|
        #![trigger b1.all_moves(c)[i]]
        0 <= i < b1.all_moves(c).len() && b2@ == b1.spec_apply(b1.all_moves(c)[i]))
}

/// Every consecutive pair of the sequence is one legal ply.
pub open spec fn evolves_by_plies(s: Seq<Board>) -> bool {
    forall|k: int| 0 <= k < s.len() - 1 ==> is_ply_of(#[trigger] s[k], s[k + 1])
}

/// Board b2 can be reached from board b1 by legal plies alone.
pub open spec fn reachable_by_plies(b1: Board, b2: Board) -> bool {
    exists|s: Seq<Board>|
        #[trigger] evolves_by_plies(s) && s.len() >= 1 && s[0]@ == b1@ && s[s.len() - 1]@ == b2@
}

/// Reachability is reflexive.
pub proof fn lemma_reachable_refl(b: Board)
    ensures
        reachable_by_plies(b, b),
{
    let s = seq![b];
    assert(evolves_by_plies(s));
    assert(s.len() >= 1 && s[0]@ == b@ && s[s.len() - 1]@ == b@);
}

/// Reachability extends over one more legal ply.
pub proof fn lemma_reachable_step(b1: Board, b2: Board, b3: Board)
    requires
        reachable_by_plies(b1, b2),
        is_ply_of(b2, b3),
    ensures
        reachable_by_plies(b1, b3),
{
    let s = choose|s: Seq<Board>|
        #[trigger] evolves_by_plies(s) && s.len() >= 1 && s[0]@ == b1@ && s[s.len() - 1]@ == b2@;
    let t = s.push(b3);
    assert forall|k: int| 0 <= k < t.len() - 1 implies is_ply_of(#[trigger] t[k], t[k + 1]) by {
        if k < s.len() - 1 {
            assert(t[k] == s[k] && t[k + 1] == s[k + 1]);
            assert(is_ply_of(s[k], s[k + 1]));
        } else {
            assert(t[k] == s[s.len() - 1] && t[k + 1] == b3);
            if b3@ == b2@ {
            } else {
                let (c, i): (Colour, int) = choose|c: Colour, i: int|
                    #![trigger b2.all_moves(c)[i]]
                    0 <= i < b2.all_moves(c).len() && b3@ == b2.spec_apply(b2.all_moves(c)[i]);
                lemma_moves_view(b2, s[s.len() - 1], c);
                assert(move_is_flanking(b2, c, b2.all_moves(c)[i])) by {
                    lemma_all_moves_sound(b2, c, 64);
                    assert(move_is_flanking(b2, c, b2.all_moves_upto(c, 64)[i]));
                }
                lemma_apply_view(b2, s[s.len() - 1], b2.all_moves(c)[i]);
                assert(b3@ == s[s.len() - 1].spec_apply(s[s.len() - 1].all_moves(c)[i]));
            }
        }
    }
    assert(evolves_by_plies(t) && t.len() >= 1 && t[0]@ == b1@ && t[t.len() - 1]@ == b3@);
}

/// The starting layout: the four centre cells hold two diagonal pairs of
/// opposite colours, and every other cell is empty.
pub open spec fn spec_start_board() -> Seq<Option<Colour>> {
    Seq::new(
        64,
        |i: int|
            if i == cell_index(3, 3) || i == cell_index(4, 4) {
                Some(Colour::Light)
            } else if i == cell_index(4, 3) || i == cell_index(3, 4) {
                Some(Colour::Dark)
            } else {
                None
            },
    )
}

impl Default for Board {
    /// The starting board.
    fn default() -> (b: Board)
        ensures
            b.wf(),
            b@ == spec_start_board(),
    {
        let mut b = Board::new();
        let centre: usize = (BOARD_SIZE - 1) / 2;
        b.set(Position::new(centre, centre), Some(Colour::Light));
        b.set(Position::new(centre + 1, centre), Some(Colour::Dark));
        b.set(Position::new(centre, centre + 1), Some(Colour::Dark));
        b.set(Position::new(centre + 1, centre + 1), Some(Colour::Light));
        proof {
            assert(b@ =~= spec_start_board());
        }
        b
    }
}

} // verus!
