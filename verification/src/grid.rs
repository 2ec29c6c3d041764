//! The cell grid of an arena, with its running count of unpainted cells.

use crate::counting::{
    count_in_row, count_in_rows, lemma_count_cell_update, lemma_count_rows_zero, rows_of,
};
use crate::fill::{
    check_tour, edge_end, edge_lo, edge_ok_at, fill_fits, fill_tour, filled, in_region, is_seed,
    lemma_seed_filled, on_edge, seed_at, tour_ok,
};
use crate::flags::Flags;
use crate::geometry::Pos;
use crate::task::{max_x_of, max_y_of, Booster, Task};
use crate::text::{is_symbol, push_symbol};
use vstd::prelude::*;
use vstd::string::StringExecFns;

verus! {

/// The state of one cell. `Empty` is traversable and not yet painted.
#[derive(Hash, Copy, Clone, PartialEq, Eq, Structural, Debug, PartialOrd, Ord)]
pub enum Cell {
    Wall,
    Empty,
    Marked,
}

/// A rectangle of cells, `max_x` columns of `max_y` cells, indexed as `cells[x][y]`.
pub struct Grid {
    pub id: u64,
    pub max_x: i32,
    pub max_y: i32,
    pub cells: Vec<Vec<Cell>>,
    pub empty_cell_count: usize,
    pub bot_start_pos: Pos,
    pub boosters: Vec<Booster>,
}

/// Why an arena description gives no grid.
#[derive(Copy, Clone, PartialEq, Eq, Structural, Debug)]
pub enum GridError {
    /// The boundary has no corner.
    EmptyBoundary,
    /// An edge of the boundary or of an obstacle is neither horizontal nor vertical, or has
    /// no length.
    BadEdge,
    /// The boundary or an obstacle encloses a cell outside the rectangle that the boundary's
    /// greatest coordinates span.
    OutOfBounds,
    /// The number of open cells does not fit the counter.
    TooLarge,
    /// The start cell is not an open cell of the grid.
    BadStart,
}

/// The first `k` obstacles are made of proper edges.
pub open spec fn obstacles_ok(obstacles: Seq<Vec<Pos>>, k: int) -> bool {
    forall|j: int| 0 <= j < k ==> tour_ok((#[trigger] obstacles[j])@)
}

/// The first `k` obstacles enclose cells of the rectangle only.
pub open spec fn obstacles_fit(obstacles: Seq<Vec<Pos>>, k: int, w: int, h: int) -> bool {
    forall|j: int| 0 <= j < k ==> fill_fits((#[trigger] obstacles[j])@, w, h)
}

/// One of the first `k` obstacles encloses `c`.
#[verifier::opaque]
pub open spec fn in_obstacle(obstacles: Seq<Vec<Pos>>, k: int, c: (int, int)) -> bool {
    exists|j: int| 0 <= j < k && filled((#[trigger] obstacles[j])@, c)
}

/// The cell `c` is open: inside the boundary and inside no obstacle.
pub open spec fn open_in(map: Seq<Pos>, obstacles: Seq<Vec<Pos>>, c: (int, int)) -> bool {
    filled(map, c) && !in_obstacle(obstacles, obstacles.len() as int, c)
}

/// The table of `w` columns of `h` cells that the arena rasterises to.
pub open spec fn raster(map: Seq<Pos>, obstacles: Seq<Vec<Pos>>, w: int, h: int) -> Seq<Seq<Cell>> {
    Seq::new(
        w as nat,
        |x: int|
            Seq::new(
                h as nat,
                |y: int|
                    if open_in(map, obstacles, (x, y)) {
                        Cell::Empty
                    } else {
                        Cell::Wall
                    },
            ),
    )
}

/// The reason, if any, for which `task` gives no grid.
pub open spec fn grid_error(task: &Task) -> Option<GridError> {
    let w = max_x_of(task.map@);
    let h = max_y_of(task.map@);
    let n = task.obstacles@.len() as int;
    if task.map@.len() == 0 {
        Some(GridError::EmptyBoundary)
    } else if !(tour_ok(task.map@) && obstacles_ok(task.obstacles@, n)) {
        Some(GridError::BadEdge)
    } else if !(fill_fits(task.map@, w, h) && obstacles_fit(task.obstacles@, n, w, h)) {
        Some(GridError::OutOfBounds)
    } else if count_in_rows(raster(task.map@, task.obstacles@, w, h), Cell::Empty) > usize::MAX {
        Some(GridError::TooLarge)
    } else {
        None
    }
}

/// A tour of proper edges with at least one corner has a seed.
proof fn lemma_tour_has_seed(tour: Seq<Pos>)
    requires
        tour.len() > 0,
        tour_ok(tour),
    ensures
        exists|c: (int, int)| is_seed(tour, c),
{
    reveal(is_seed);
    assert(edge_ok_at(tour, 0));
    let t = edge_lo(tour[0], edge_end(tour, 0));
    assert(on_edge(tour, 0, t));
    assert(is_seed(tour, seed_at(tour, 0, t)));
}

proof fn lemma_in_obstacle_next(obstacles: Seq<Vec<Pos>>, k: int, c: (int, int))
    requires
        0 <= k < obstacles.len(),
    ensures
        in_obstacle(obstacles, k + 1, c) <==> in_obstacle(obstacles, k, c) || filled(obstacles[k]@, c),
        !in_obstacle(obstacles, 0, c),
{
    reveal(in_obstacle);
    if in_obstacle(obstacles, k + 1, c) {
        let j = choose|j: int| 0 <= j < k + 1 && filled((#[trigger] obstacles[j])@, c);
        if j < k {
            assert(in_obstacle(obstacles, k, c));
        }
    }
    if in_obstacle(obstacles, k, c) {
        let j = choose|j: int| 0 <= j < k && filled((#[trigger] obstacles[j])@, c);
        assert(0 <= j < k + 1 && filled(obstacles[j]@, c));
    }
    if filled(obstacles[k]@, c) {
        assert(0 <= k < k + 1 && filled(obstacles[k]@, c));
    }
}

/// The cells that are set in `inside` and not in `blocked`, as `Empty` among `Wall`, with
/// their number.
fn build_cells(inside: &Flags, blocked: &Flags, w: usize, h: usize) -> (r: (Vec<Vec<Cell>>, u64))
    requires
        inside.wf(),
        blocked.wf(),
        w == inside.width() == blocked.width(),
        h == inside.height() == blocked.height(),
        w <= 0x7fff_ffff,
        h <= 0x7fff_ffff,
    ensures
        r.0@.len() == w,
        forall|x: int| 0 <= x < w ==> (#[trigger] r.0@[x])@.len() == h,
        forall|x: int, y: int|
            0 <= x < w && 0 <= y < h ==> (#[trigger] r.0@[x]@[y]) == if inside.has(x, y)
                && !blocked.has(x, y) {
                Cell::Empty
            } else {
                Cell::Wall
            },
        r.1 == count_in_rows(rows_of(r.0@), Cell::Empty),
{
    let mut cells: Vec<Vec<Cell>> = Vec::new();
    let mut count: u64 = 0;
    let mut x: usize = 0;
    while x < w
        invariant
            x <= w,
            inside.wf(),
            blocked.wf(),
            w == inside.width() == blocked.width(),
            h == inside.height() == blocked.height(),
            w <= 0x7fff_ffff,
            h <= 0x7fff_ffff,
            cells@.len() == x,
            forall|i: int| 0 <= i < x ==> (#[trigger] cells@[i])@.len() == h,
            forall|i: int, j: int|
                0 <= i < x && 0 <= j < h ==> (#[trigger] cells@[i]@[j]) == if inside.has(i, j)
                    && !blocked.has(i, j) {
                    Cell::Empty
                } else {
                    Cell::Wall
                },
            count == count_in_rows(rows_of(cells@), Cell::Empty),
            count <= x * h,
        decreases w - x,
    {
        let mut row: Vec<Cell> = Vec::new();
        let mut in_row: u64 = 0;
        let mut y: usize = 0;
        while y < h
            invariant
                x < w,
                y <= h,
                inside.wf(),
                blocked.wf(),
                w == inside.width() == blocked.width(),
                h == inside.height() == blocked.height(),
                h <= 0x7fff_ffff,
                row@.len() == y,
                forall|j: int|
                    0 <= j < y ==> (#[trigger] row@[j]) == if inside.has(x as int, j)
                        && !blocked.has(x as int, j) {
                        Cell::Empty
                    } else {
                        Cell::Wall
                    },
                in_row == count_in_row(row@, Cell::Empty),
                in_row <= y,
            decreases h - y,
        {
            let ghost before = row@;
            if inside.get(x, y) && !blocked.get(x, y) {
                row.push(Cell::Empty);
                in_row += 1;
            } else {
                row.push(Cell::Wall);
            }
            assert(row@.drop_last() =~= before);
            y += 1;
        }
        assert(x * h + h == (x + 1) * h) by (nonlinear_arith);
        assert((x + 1) * h <= 0x7fff_ffff * 0x7fff_ffff) by (nonlinear_arith)
            requires
                0 <= x + 1 <= 0x7fff_ffff,
                0 <= h <= 0x7fff_ffff,
        ;
        count += in_row;
        let ghost before = rows_of(cells@);
        cells.push(row);
        assert(rows_of(cells@).drop_last() =~= before);
        assert(rows_of(cells@).last() == row@);
        x += 1;
    }
    (cells, count)
}

/// The character that a cell is drawn as.
pub open spec fn cell_symbol(c: Cell) -> char {
    match c {
        Cell::Wall => '#',
        Cell::Empty => '.',
        Cell::Marked => '-',
    }
}

/// The letter of the last of the first `k` pickups that lie on `(x, y)`.
pub open spec fn overlay(boosters: Seq<Booster>, k: int, x: int, y: int) -> Option<char>
    decreases k,
{
    if k <= 0 {
        None
    } else if boosters[k - 1].pos.x == x && boosters[k - 1].pos.y == y {
        Some(boosters[k - 1].kind.letter())
    } else {
        overlay(boosters, k - 1, x, y)
    }
}

impl Grid {
    /// The character that the cell `(x, y)` is drawn as: the letter of the last pickup on
    /// it, else `O` for the start cell, else the character of the cell.
    pub open spec fn symbol(&self, x: int, y: int) -> char {
        match overlay(self.boosters@, self.boosters@.len() as int, x, y) {
            Some(c) => c,
            None => if self.bot_start_pos.x == x && self.bot_start_pos.y == y {
                'O'
            } else {
                cell_symbol(self.at(x, y))
            },
        }
    }

    /// The row `y` of the picture.
    pub open spec fn row_text(&self, y: int) -> Seq<char> {
        Seq::new(self.max_x as nat, |x: int| self.symbol(x, y))
    }

    /// The top `k` rows of the picture, with line breaks between them.
    pub open spec fn rows_text(&self, k: int) -> Seq<char>
        decreases k,
    {
        if k <= 0 {
            Seq::empty()
        } else if k == 1 {
            self.row_text(self.max_y - 1)
        } else {
            self.rows_text(k - 1) + seq!['\n'] + self.row_text(self.max_y - k)
        }
    }

    fn symbol_at(&self, x: usize, y: usize) -> (c: char)
        requires
            self.wf(),
            x < self.max_x,
            y < self.max_y,
        ensures
            c == self.symbol(x as int, y as int),
            is_symbol(c),
    {
        let mut k: usize = self.boosters.len();
        while k > 0
            invariant
                x < self.max_x,
                y < self.max_y,
                k <= self.boosters@.len(),
                overlay(self.boosters@, self.boosters@.len() as int, x as int, y as int) == overlay(
                    self.boosters@,
                    k as int,
                    x as int,
                    y as int,
                ),
            decreases k,
        {
            let b = self.boosters[k - 1];
            if b.pos.x as i64 == x as i64 && b.pos.y as i64 == y as i64 {
                return b.kind.to_char();
            }
            k -= 1;
        }
        if self.bot_start_pos.x as i64 == x as i64 && self.bot_start_pos.y as i64 == y as i64 {
            'O'
        } else {
            match self.cells[x][y] {
                Cell::Wall => '#',
                Cell::Empty => '.',
                Cell::Marked => '-',
            }
        }
    }

    /// A picture of the grid, the top row first: `#` for a wall, `.` for an unpainted cell,
    /// `-` for a painted one, `O` for the start cell and the letter of its kind for a
    /// pickup.
    pub fn dump_map(&self) -> (s: String)
        requires
            self.wf(),
        ensures
            s@ == self.rows_text(self.max_y as int),
    {
        let mut s = String::new();
        let w = self.max_x as usize;
        let h = self.max_y as usize;
        let mut k: usize = 0;
        while k < h
            invariant
                self.wf(),
                w == self.max_x,
                h == self.max_y,
                k <= h,
                s@ == self.rows_text(k as int),
            decreases h - k,
        {
            if k > 0 {
                proof {
                    reveal_strlit("\n");
                }
                s.append("\n");
            }
            let y = h - 1 - k;
            let ghost lead = s@;
            let mut x: usize = 0;
            while x < w
                invariant
                    self.wf(),
                    w == self.max_x,
                    h == self.max_y,
                    y < h,
                    x <= w,
                    s@ == lead + self.row_text(y as int).take(x as int),
                decreases w - x,
            {
                let c = self.symbol_at(x, y);
                push_symbol(&mut s, c);
                assert(s@ =~= lead + self.row_text(y as int).take(x + 1));
                x += 1;
            }
            assert(self.row_text(y as int).take(w as int) =~= self.row_text(y as int));
            assert(s@ =~= self.rows_text(k + 1));
            k += 1;
        }
        s
    }

    /// Rasterises an arena: the cells inside the boundary and inside no obstacle are `Empty`,
    /// all others `Wall`. The grid spans the rectangle from the origin to the greatest
    /// coordinates of the boundary.
    pub fn new(task: Task) -> (r: Result<Grid, GridError>)
        ensures
            match r {
                Ok(g) => {
                    &&& grid_error(&task) is None
                    &&& g.wf()
                    &&& g.id == task.id
                    &&& g.bot_start_pos == task.bot
                    &&& g.boosters@ == task.boosters@
                    &&& g.max_x == max_x_of(task.map@)
                    &&& g.max_y == max_y_of(task.map@)
                    &&& g.table() == raster(
                        task.map@,
                        task.obstacles@,
                        g.max_x as int,
                        g.max_y as int,
                    )
                },
                Err(e) => grid_error(&task) == Some(e),
            },
    {
        if task.map.len() == 0 {
            return Err(GridError::EmptyBoundary);
        }
        let max_x = task.max_x();
        let max_y = task.max_y();
        if !check_tour(&task.map) {
            return Err(GridError::BadEdge);
        }
        let n = task.obstacles.len();
        let mut k: usize = 0;
        while k < n
            invariant
                k <= n,
                n == task.obstacles@.len(),
                task.map@.len() > 0,
                tour_ok(task.map@),
                obstacles_ok(task.obstacles@, k as int),
            decreases n - k,
        {
            if !check_tour(&task.obstacles[k]) {
                return Err(GridError::BadEdge);
            }
            k += 1;
        }
        let inside = match fill_tour(&task.map, max_x, max_y) {
            Ok(f) => f,
            Err(_) => {
                return Err(GridError::OutOfBounds);
            },
        };
        proof {
            lemma_tour_has_seed(task.map@);
            let c = choose|c: (int, int)| is_seed(task.map@, c);
            lemma_seed_filled(task.map@, c);
            assert(in_region(max_x as int, max_y as int, c));
        }
        let w: usize = max_x as usize;
        let h: usize = max_y as usize;
        let mut blocked = Flags::new(w, h);
        let mut k: usize = 0;
        proof {
            assert forall|x: int, y: int| #[trigger]
                blocked.has(x, y) == in_obstacle(task.obstacles@, 0, (x, y)) by {
                reveal(in_obstacle);
            }
        }
        while k < n
            invariant
                k <= n,
                n == task.obstacles@.len(),
                0 < max_x,
                0 < max_y,
                w == max_x,
                h == max_y,
                blocked.wf(),
                blocked.width() == w,
                blocked.height() == h,
                obstacles_ok(task.obstacles@, n as int),
                obstacles_fit(task.obstacles@, k as int, max_x as int, max_y as int),
                forall|x: int, y: int| #[trigger]
                    blocked.has(x, y) == in_obstacle(task.obstacles@, k as int, (x, y)),
                task.map@.len() > 0,
                tour_ok(task.map@),
                fill_fits(task.map@, max_x as int, max_y as int),
                max_x == max_x_of(task.map@),
                max_y == max_y_of(task.map@),
            decreases n - k,
        {
            let ghost before = blocked;
            match fill_tour(&task.obstacles[k], max_x, max_y) {
                Ok(inner) => {
                    blocked.merge(&inner);
                    proof {
                        assert forall|x: int, y: int| #[trigger]
                            blocked.has(x, y) == in_obstacle(
                                task.obstacles@,
                                k + 1,
                                (x, y),
                            ) by {
                            lemma_in_obstacle_next(task.obstacles@, k as int, (x, y));
                            assert(before.has(x, y) == in_obstacle(task.obstacles@, k as int, (x, y)));
                        }
                    }
                },
                Err(_) => {
                    return Err(GridError::OutOfBounds);
                },
            }
            k += 1;
        }
        let (cells, count) = build_cells(&inside, &blocked, w, h);
        let ghost goal = raster(task.map@, task.obstacles@, max_x as int, max_y as int);
        proof {
            assert forall|x: int, y: int| 0 <= x < w && 0 <= y < h implies rows_of(cells@)[x][y]
                == #[trigger] goal[x][y] by {
                assert(cells@[x]@[y] == if inside.has(x, y) && !blocked.has(x, y) {
                    Cell::Empty
                } else {
                    Cell::Wall
                });
            }
            assert(rows_of(cells@) =~~= goal);
        }
        if count > usize::MAX as u64 {
            return Err(GridError::TooLarge);
        }
        Ok(
            Grid {
                id: task.id,
                max_x,
                max_y,
                cells,
                empty_cell_count: count as usize,
                bot_start_pos: task.bot,
                boosters: task.boosters,
            },
        )
    }

    /// The cells as a table of plain values.
    pub open spec fn table(&self) -> Seq<Seq<Cell>> {
        rows_of(self.cells@)
    }

    /// The grid is a full rectangle and its counter is the number of `Empty` cells.
    pub open spec fn wf(&self) -> bool {
        &&& 0 <= self.max_x
        &&& 0 <= self.max_y
        &&& self.cells@.len() == self.max_x
        &&& forall|x: int| 0 <= x < self.max_x ==> (#[trigger] self.cells@[x])@.len() == self.max_y
        &&& self.empty_cell_count == count_in_rows(self.table(), Cell::Empty)
    }

    /// The cell `(x, y)` lies in the rectangle.
    pub open spec fn in_range(&self, x: int, y: int) -> bool {
        0 <= x < self.max_x && 0 <= y < self.max_y
    }

    /// The cell at `(x, y)`; meaningful in range only.
    pub open spec fn at(&self, x: int, y: int) -> Cell {
        self.cells@[x]@[y]
    }

    /// The cell `(x, y)` lies in the rectangle and is unpainted.
    pub open spec fn empty_at(&self, x: int, y: int) -> bool {
        self.in_range(x, y) && self.at(x, y) == Cell::Empty
    }

    /// The cell `(x, y)` lies in the rectangle and is no wall.
    pub open spec fn free_at(&self, x: int, y: int) -> bool {
        self.in_range(x, y) && self.at(x, y) != Cell::Wall
    }

    /// The cell `(x, y)` lies in the rectangle and is a wall.
    pub open spec fn wall_at(&self, x: int, y: int) -> bool {
        self.in_range(x, y) && self.at(x, y) == Cell::Wall
    }

    /// Everything but the cells and their count is as in `other`.
    pub open spec fn same_frame(&self, other: &Grid) -> bool {
        &&& self.id == other.id
        &&& self.max_x == other.max_x
        &&& self.max_y == other.max_y
        &&& self.bot_start_pos == other.bot_start_pos
        &&& self.boosters@ == other.boosters@
    }

    /// `self` can come after `before` in a solve: cells only ever go from `Empty` or `Wall`
    /// to `Marked`, and the count of `Empty` cells does not grow.
    pub open spec fn advances(&self, before: &Grid) -> bool {
        &&& self.same_frame(before)
        &&& self.empty_cell_count <= before.empty_cell_count
        &&& forall|x: int, y: int|
            #![trigger self.at(x, y)]
            #![trigger before.at(x, y)]
            self.in_range(x, y) ==> self.at(x, y) == before.at(x, y) || self.at(x, y)
                == Cell::Marked
    }

    /// The cell at `(x, y)`, or `None` outside the rectangle.
    pub fn probe(&self, x: i64, y: i64) -> (r: Option<Cell>)
        requires
            self.wf(),
        ensures
            r == if self.in_range(x as int, y as int) {
                Some(self.at(x as int, y as int))
            } else {
                None
            },
    {
        if 0 <= x && x < self.max_x as i64 && 0 <= y && y < self.max_y as i64 {
            Some(self.cells[x as usize][y as usize])
        } else {
            None
        }
    }

    /// Whether `pos` lies in the rectangle.
    pub fn is_in_range(&self, pos: Pos) -> (r: bool)
        ensures
            r == self.in_range(pos.x as int, pos.y as int),
    {
        0 <= pos.x && pos.x < self.max_x && 0 <= pos.y && pos.y < self.max_y
    }

    /// Whether `pos` lies in the rectangle and is unpainted.
    pub fn is_empty(&self, pos: Pos) -> (r: bool)
        requires
            self.wf(),
        ensures
            r == self.empty_at(pos.x as int, pos.y as int),
    {
        self.is_in_range(pos) && self.cells[pos.x as usize][pos.y as usize] == Cell::Empty
    }

    /// Whether `pos` lies in the rectangle and is no wall.
    pub fn is_free(&self, pos: Pos) -> (r: bool)
        requires
            self.wf(),
        ensures
            r == self.free_at(pos.x as int, pos.y as int),
    {
        self.is_in_range(pos) && self.cells[pos.x as usize][pos.y as usize] != Cell::Wall
    }

    /// Whether `pos` lies in the rectangle and is a wall. What lies outside is neither wall
    /// nor free.
    pub fn is_wall(&self, pos: Pos) -> (r: bool)
        requires
            self.wf(),
        ensures
            r == self.wall_at(pos.x as int, pos.y as int),
    {
        self.is_in_range(pos) && self.cells[pos.x as usize][pos.y as usize] == Cell::Wall
    }

    /// Opens the wall at `pos`: the cell becomes `Marked`, never `Empty`, so the count stays.
    pub fn do_drill(&mut self, pos: Pos)
        requires
            old(self).wf(),
            old(self).wall_at(pos.x as int, pos.y as int),
        ensures
            final(self).wf(),
            final(self).same_frame(old(self)),
            final(self).empty_cell_count == old(self).empty_cell_count,
            final(self).table() == old(self).table().update(
                pos.x as int,
                old(self).table()[pos.x as int].update(pos.y as int, Cell::Marked),
            ),
            final(self).advances(old(self)),
            forall|x: int, y: int|
                old(self).in_range(x, y) ==> #[trigger] final(self).at(x, y) == if x == pos.x && y
                    == pos.y {
                    Cell::Marked
                } else {
                    old(self).at(x, y)
                },
    {
        proof {
            lemma_count_cell_update(
                self.table(),
                pos.x as int,
                pos.y as int,
                Cell::Marked,
                Cell::Empty,
            );
        }
        self.cells[pos.x as usize][pos.y as usize] = Cell::Marked;
        assert(self.table() =~= old(self).table().update(
            pos.x as int,
            old(self).table()[pos.x as int].update(pos.y as int, Cell::Marked),
        ));
    }

    /// Paints `pos` if it is an unpainted cell of the grid, and counts it; changes nothing
    /// otherwise.
    pub fn mark_pos(&mut self, pos: Pos)
        requires
            old(self).wf(),
        ensures
            final(self).wf(),
            final(self).same_frame(old(self)),
            final(self).advances(old(self)),
            old(self).empty_at(pos.x as int, pos.y as int) ==> {
                &&& final(self).empty_cell_count == old(self).empty_cell_count - 1
                &&& final(self).table() == old(self).table().update(
                    pos.x as int,
                    old(self).table()[pos.x as int].update(pos.y as int, Cell::Marked),
                )
            },
            !old(self).empty_at(pos.x as int, pos.y as int) ==> {
                &&& final(self).empty_cell_count == old(self).empty_cell_count
                &&& final(self).table() == old(self).table()
            },
            forall|x: int, y: int|
                old(self).in_range(x, y) ==> #[trigger] final(self).at(x, y) == if x == pos.x && y
                    == pos.y && old(self).at(x, y) == Cell::Empty {
                    Cell::Marked
                } else {
                    old(self).at(x, y)
                },
    {
        if !self.is_in_range(pos) {
            return ;
        }
        match self.cells[pos.x as usize][pos.y as usize] {
            Cell::Empty => {
                proof {
                    lemma_count_cell_update(
                        self.table(),
                        pos.x as int,
                        pos.y as int,
                        Cell::Marked,
                        Cell::Empty,
                    );
                }
                self.cells[pos.x as usize][pos.y as usize] = Cell::Marked;
                assert(self.table() =~= old(self).table().update(
                    pos.x as int,
                    old(self).table()[pos.x as int].update(pos.y as int, Cell::Marked),
                ));
                self.empty_cell_count -= 1;
            },
            Cell::Wall => {},
            Cell::Marked => {},
        }
    }
}

/// `advances` is reflexive and transitive, so it holds between any two moments of a solve.
pub proof fn lemma_advances_chain(a: &Grid, b: &Grid, c: &Grid)
    requires
        b.advances(a),
        c.advances(b),
    ensures
        a.advances(a),
        c.advances(a),
{
    assert forall|x: int, y: int|
        #![trigger c.at(x, y)]
        #![trigger a.at(x, y)]
        c.in_range(x, y) implies c.at(x, y) == a.at(x, y) || c.at(x, y) == Cell::Marked by {
        assert(b.in_range(x, y));
        let _ = b.at(x, y);
    }
}

/// In a well-formed grid the counter is zero exactly when no cell is `Empty`.
pub proof fn lemma_count_zero_means_covered(g: &Grid)
    requires
        g.wf(),
    ensures
        g.empty_cell_count == 0 <==> forall|x: int, y: int| !g.empty_at(x, y),
{
    lemma_count_rows_zero(g.table(), Cell::Empty);
    if g.empty_cell_count == 0 {
        assert forall|x: int, y: int| !g.empty_at(x, y) by {
            if g.in_range(x, y) {
                assert(g.table()[x][y] == g.at(x, y));
            }
        }
    } else {
        let (i, j) = choose|i: int, j: int|
            0 <= i < g.table().len() && 0 <= j < g.table()[i].len() && g.table()[i][j]
                == Cell::Empty;
        assert(g.empty_at(i, j));
    }
}

} // verus!
