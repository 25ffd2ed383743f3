//! Board, snake and tick-engine state machine.
//!
//! The board is a `width x height` matrix of tagged cells; the snake is an
//! ordered sequence of occupied coordinates, head first. The grid is
//! logically a torus: a prospective head move is wrapped before the target
//! cell is inspected. Growth after eating an apple is delayed: it is stored
//! as a counter on the tail cell and consumed one decrement per tick.

use vstd::prelude::*;

verus! {

/// Initial snake length: one materialized head cell plus a pending growth
/// counter of `SNAKE_LENGTH_DEFAULT - 1` that elongates it over the first
/// ticks.
pub const SNAKE_LENGTH_DEFAULT: usize = 4;

/// Pending growth added to the tail cell each time an apple is eaten.
pub const SNAKE_LENGTH_GROWTH: usize = 3;

/// Base score increment for one apple.
pub const SCORE_INCREMENT: u32 = 50;

/// Multiplier applied to the base increment when an apple is eaten but no
/// empty cell remains for a respawn.
pub const BOARD_FULL_MULTIPLIER: u32 = 50;

#[derive(Debug, Clone, Copy, PartialEq, Eq, Structural)]
pub enum Direction {
    Up,
    Dn,
    Lf,
    Rt,
}

#[derive(Debug, Clone, Copy, PartialEq, Eq, Structural)]
pub enum GridCell {
    Nothing,
    /// Occupied by part of the snake: a pending-growth counter and the
    /// direction the segment was facing when it was the head.
    Snake(usize, Direction),
    Apple,
    Wall,
}

#[derive(Debug, Clone, Copy, PartialEq, Eq, Structural)]
pub enum GameEvent {
    GeneralMovement,
    GraceTick,
    AppleCollected,
    GameOver,
}

/// Placement failure: no empty cell remains on the board.
#[derive(Debug, Clone, Copy, PartialEq, Eq, Structural)]
pub struct BoardFull;

pub struct Snake {
    /// Occupied coordinates, index 0 = head, last index = tail.
    pub body: Vec<(usize, usize)>,
}

pub struct Board {
    pub width: usize,
    pub height: usize,
    /// Row-major cells: `cells[y][x]`.
    pub cells: Vec<Vec<GridCell>>,
    pub snake: Snake,
    pub grace_frame: bool,
    pub score: u32,
}

/// Toroidal normalization of one coordinate against dimension `n`:
/// a value past the upper edge maps to 0, a negative value to `n - 1`.
pub open spec fn spec_wrap(v: int, n: int) -> int {
    if v >= n {
        0
    } else if v < 0 {
        n - 1
    } else {
        v
    }
}

/// The coordinate one step from `(x, y)` in direction `d`, wrapped on the
/// `w x h` torus.
pub open spec fn spec_step(x: int, y: int, d: Direction, w: int, h: int) -> (int, int) {
    match d {
        Direction::Up => (x, spec_wrap(y - 1, h)),
        Direction::Dn => (x, spec_wrap(y + 1, h)),
        Direction::Lf => (spec_wrap(x - 1, w), y),
        Direction::Rt => (spec_wrap(x + 1, w), y),
    }
}

/// `q` is one wrapped step away from `p` on the `w x h` torus.
pub open spec fn adjacent(p: (usize, usize), q: (usize, usize), w: int, h: int) -> bool {
    let qi = (q.0 as int, q.1 as int);
    ||| qi == spec_step(p.0 as int, p.1 as int, Direction::Up, w, h)
    ||| qi == spec_step(p.0 as int, p.1 as int, Direction::Dn, w, h)
    ||| qi == spec_step(p.0 as int, p.1 as int, Direction::Lf, w, h)
    ||| qi == spec_step(p.0 as int, p.1 as int, Direction::Rt, w, h)
}

pub open spec fn growth_of(c: GridCell) -> usize {
    match c {
        GridCell::Snake(g, _) => g,
        _ => 0,
    }
}

pub open spec fn dir_of(c: GridCell) -> Direction {
    match c {
        GridCell::Snake(_, d) => d,
        _ => Direction::Up,
    }
}

impl Board {
    /// The cell stored at column `x`, row `y`.
    pub open spec fn cell_at(self, x: int, y: int) -> GridCell {
        self.cells@[y]@[x]
    }

    pub open spec fn in_bounds(self, p: (usize, usize)) -> bool {
        p.0 < self.width && p.1 < self.height
    }

    /// The matrix has the advertised dimensions, the height keeps the 3:2
    /// aspect ratio, and every coordinate fits signed arithmetic.
    pub open spec fn grid_wf(self) -> bool {
        &&& 3 <= self.width
        &&& self.width <= isize::MAX as usize
        &&& self.height == (self.width / 3) * 2
        &&& self.cells@.len() == self.height
        &&& forall|y: int| 0 <= y < self.height ==> (#[trigger] self.cells@[y])@.len() == self.width
    }

    pub open spec fn body(self) -> Seq<(usize, usize)> {
        self.snake.body@
    }

    pub open spec fn snake_len(self) -> int {
        self.body().len() as int
    }

    /// The board has been seeded with a snake.
    pub open spec fn placed(self) -> bool {
        self.snake_len() >= 1
    }

    /// Every body entry is an in-bounds coordinate whose cell is a snake
    /// segment.
    pub open spec fn cells_ok(self) -> bool {
        forall|i: int| 0 <= i < self.snake_len() ==> {
            let p = #[trigger] self.body()[i];
            self.in_bounds(p) && self.cell_at(p.0 as int, p.1 as int) is Snake
        }
    }

    /// Body coordinates are pairwise distinct.
    pub open spec fn body_nodup(self) -> bool {
        forall|i: int, j: int| 0 <= i < j < self.snake_len()
            ==> #[trigger] self.body()[i] != #[trigger] self.body()[j]
    }

    /// Every snake-segment cell on the grid is addressed by the body.
    pub open spec fn snake_complete(self) -> bool {
        forall|x: int, y: int|
            0 <= x < self.width && 0 <= y < self.height && #[trigger] self.cell_at(x, y) is Snake
                ==> self.body().contains((x as usize, y as usize))
    }

    /// Consecutive body entries are toroidally adjacent: each one is a
    /// single wrapped step from its successor, so the body is one path from
    /// head to tail.
    pub open spec fn body_path(self) -> bool {
        forall|i: int| 0 <= i && i + 1 < self.snake_len()
            ==> adjacent(#[trigger] self.body()[i + 1], self.body()[i], self.width as int, self.height as int)
    }

    pub open spec fn wf(self) -> bool {
        self.grid_wf() && self.cells_ok() && self.body_nodup() && self.snake_complete()
            && self.body_path()
    }

    pub open spec fn head(self) -> (usize, usize) {
        self.body()[0]
    }

    pub open spec fn tail(self) -> (usize, usize) {
        self.body()[self.snake_len() - 1]
    }

    pub open spec fn head_cell(self) -> GridCell {
        self.cell_at(self.head().0 as int, self.head().1 as int)
    }

    pub open spec fn head_dir(self) -> Direction {
        dir_of(self.head_cell())
    }

    /// The wrapped coordinate the head would move to under its stored
    /// facing direction.
    pub open spec fn next_head(self) -> (int, int) {
        spec_step(
            self.head().0 as int,
            self.head().1 as int,
            self.head_dir(),
            self.width as int,
            self.height as int,
        )
    }

    /// The cell the head is about to enter.
    pub open spec fn next_cell(self) -> GridCell {
        self.cell_at(self.next_head().0, self.next_head().1)
    }
}

/// All cells outside `ps` agree between `pre` and `post` (dimensions taken
/// from `pre`).
pub open spec fn cells_unchanged_except(pre: Board, post: Board, ps: Set<(int, int)>) -> bool {
    forall|x: int, y: int|
        0 <= x < pre.width && 0 <= y < pre.height && !ps.contains((x, y))
            ==> #[trigger] post.cell_at(x, y) == pre.cell_at(x, y)
}

/// Instantiates `body_path` at one index pair.
pub proof fn lemma_path_pair(b: Board, i: int)
    requires
        b.body_path(),
        0 <= i,
        i + 1 < b.snake_len(),
    ensures
        adjacent(b.body()[i + 1], b.body()[i], b.width as int, b.height as int),
{
}

/// Well-formedness depends only on the dimensions, the cells and the body:
/// it carries over to any board with the same content.
pub proof fn lemma_wf_same_content(a: Board, b: Board)
    requires
        a.wf(),
        b.width == a.width,
        b.height == a.height,
        b.cells@ == a.cells@,
        b.snake.body@ == a.snake.body@,
    ensures
        b.wf(),
{
    assert forall|i: int| 0 <= i < b.snake_len() implies {
        let p = #[trigger] b.body()[i];
        b.in_bounds(p) && b.cell_at(p.0 as int, p.1 as int) is Snake
    } by {
        assert(a.body()[i] == b.body()[i]);
        let p = a.body()[i];
        assert(a.in_bounds(p) && a.cell_at(p.0 as int, p.1 as int) is Snake);
        assert(b.cell_at(p.0 as int, p.1 as int) == a.cell_at(p.0 as int, p.1 as int));
    }
    assert forall|x: int, y: int|
        0 <= x < b.width && 0 <= y < b.height && #[trigger] b.cell_at(x, y) is Snake implies b
        .body().contains((x as usize, y as usize)) by {
        assert(a.cell_at(x, y) == b.cell_at(x, y));
        assert(a.body().contains((x as usize, y as usize)));
    }
    assert forall|i: int| 0 <= i && i + 1 < b.snake_len() implies adjacent(
        #[trigger] b.body()[i + 1],
        b.body()[i],
        b.width as int,
        b.height as int,
    ) by {
        lemma_path_pair(a, i);
        assert(a.body()[i + 1] == b.body()[i + 1]);
        assert(a.body()[i] == b.body()[i]);
    }
}

/// `post` is `pre` with nothing observable changed.
pub open spec fn same_board(pre: Board, post: Board) -> bool {
    &&& post.width == pre.width
    &&& post.height == pre.height
    &&& cells_unchanged_except(pre, post, Set::empty())
    &&& post.body() == pre.body()
    &&& post.grace_frame == pre.grace_frame
    &&& post.score == pre.score
}

impl Snake {
    pub fn new() -> (s: Snake)
        ensures
            s.body@ == Seq::<(usize, usize)>::empty(),
    {
        Snake { body: Vec::new() }
    }
}

impl Board {
    /// Construct an empty board of the given width; the height is derived
    /// as `(width / 3) * 2` to keep a 3:2 aspect ratio.
    pub fn new(width: usize) -> (b: Board)
        requires
            3 <= width <= isize::MAX as usize,
        ensures
            b.wf(),
            b.width == width,
            b.height == (width / 3) * 2,
            b.snake_len() == 0,
            b.grace_frame == false,
            b.score == 0,
            forall|x: int, y: int| 0 <= x < b.width && 0 <= y < b.height
                ==> #[trigger] b.cell_at(x, y) == GridCell::Nothing,
    {
        let height = (width / 3) * 2;
        let mut cells: Vec<Vec<GridCell>> = Vec::new();
        let mut y: usize = 0;
        while y < height
            invariant
                y <= height,
                cells@.len() == y,
                forall|j: int| 0 <= j < y ==> (#[trigger] cells@[j])@.len() == width,
                forall|j: int, i: int| 0 <= j < y && 0 <= i < width
                    ==> #[trigger] cells@[j]@[i] == GridCell::Nothing,
            decreases height - y,
        {
            let mut row: Vec<GridCell> = Vec::new();
            let mut x: usize = 0;
            while x < width
                invariant
                    x <= width,
                    row@.len() == x,
                    forall|i: int| 0 <= i < x ==> row@[i] == GridCell::Nothing,
                decreases width - x,
            {
                row.push(GridCell::Nothing);
                x = x + 1;
            }
            cells.push(row);
            y = y + 1;
        }
        Board { width, height, cells, snake: Snake::new(), grace_frame: false, score: 0 }
    }

    /// Read-only cell query; out-of-range coordinates are a caller error.
    pub fn peek(&self, x: usize, y: usize) -> (c: GridCell)
        requires
            self.grid_wf(),
            x < self.width,
            y < self.height,
        ensures
            c == self.cell_at(x as int, y as int),
    {
        self.cells[y][x]
    }

    /// Total overwrite of one cell.
    fn owrt_cell(&mut self, new_cell: GridCell, x: usize, y: usize)
        requires
            old(self).grid_wf(),
            x < old(self).width,
            y < old(self).height,
        ensures
            final(self).grid_wf(),
            final(self).width == old(self).width,
            final(self).height == old(self).height,
            final(self).snake.body@ == old(self).snake.body@,
            final(self).grace_frame == old(self).grace_frame,
            final(self).score == old(self).score,
            final(self).cell_at(x as int, y as int) == new_cell,
            forall|i: int, j: int|
                0 <= i < old(self).width && 0 <= j < old(self).height
                    && (i, j) != (x as int, y as int)
                    ==> #[trigger] final(self).cell_at(i, j) == old(self).cell_at(i, j),
    {
        self.cells[y][x] = new_cell;
    }

    pub fn query_score(&self) -> (s: u32)
        ensures
            s == self.score,
    {
        self.score
    }

    pub fn query_grace(&self) -> (g: bool)
        ensures
            g == self.grace_frame,
    {
        self.grace_frame
    }

    /// The head coordinate, or `None` before a snake has been placed.
    pub fn query_head_location(&self) -> (r: Option<(usize, usize)>)
        ensures
            r == if self.placed() {
                Some(self.head())
            } else {
                None::<(usize, usize)>
            },
    {
        if self.snake.body.len() >= 1 {
            Some(self.snake.body[0])
        } else {
            None
        }
    }
}

/// The coordinate lies on the outer ring of the `w x h` grid.
pub open spec fn on_perimeter(x: int, y: int, w: int, h: int) -> bool {
    x == 0 || x == w - 1 || y == 0 || y == h - 1
}

impl Board {
    /// Set every cell on the outer ring to `Wall`. Walls are built before
    /// the snake is seeded, so no occupied cell can be overwritten.
    pub fn generate_walls(&mut self)
        requires
            old(self).wf(),
            old(self).snake_len() == 0,
        ensures
            final(self).wf(),
            final(self).width == old(self).width,
            final(self).height == old(self).height,
            final(self).snake.body@ == old(self).snake.body@,
            final(self).grace_frame == old(self).grace_frame,
            final(self).score == old(self).score,
            forall|x: int, y: int|
                0 <= x < old(self).width && 0 <= y < old(self).height
                    ==> #[trigger] final(self).cell_at(x, y) == if on_perimeter(
                        x,
                        y,
                        old(self).width as int,
                        old(self).height as int,
                    ) {
                        GridCell::Wall
                    } else {
                        old(self).cell_at(x, y)
                    },
    {
        let ghost pre = *self;
        let w = self.width;
        let h = self.height;
        let mut y: usize = 0;
        while y < h
            invariant
                self.grid_wf(),
                self.width == pre.width,
                self.height == pre.height,
                w == pre.width,
                h == pre.height,
                self.snake.body@ == pre.snake.body@,
                self.grace_frame == pre.grace_frame,
                self.score == pre.score,
                y <= h,
                forall|a: int, b: int|
                    0 <= a < w && 0 <= b < h
                        ==> #[trigger] self.cell_at(a, b) == if b < y && on_perimeter(
                            a,
                            b,
                            w as int,
                            h as int,
                        ) {
                            GridCell::Wall
                        } else {
                            pre.cell_at(a, b)
                        },
            decreases h - y,
        {
            let mut x: usize = 0;
            while x < w
                invariant
                    self.grid_wf(),
                    self.width == pre.width,
                    self.height == pre.height,
                    w == pre.width,
                    h == pre.height,
                    self.snake.body@ == pre.snake.body@,
                    self.grace_frame == pre.grace_frame,
                    self.score == pre.score,
                    y < h,
                    x <= w,
                    forall|a: int, b: int|
                        0 <= a < w && 0 <= b < h
                            ==> #[trigger] self.cell_at(a, b) == if (b < y || (b == y && a < x))
                                && on_perimeter(a, b, w as int, h as int) {
                                GridCell::Wall
                            } else {
                                pre.cell_at(a, b)
                            },
                decreases w - x,
            {
                if x == 0 || x == w - 1 || y == 0 || y == h - 1 {
                    self.owrt_cell(GridCell::Wall, x, y);
                }
                x = x + 1;
            }
            y = y + 1;
        }
        proof {
            assert forall|x: int, y2: int|
                0 <= x < self.width && 0 <= y2 < self.height
                    && #[trigger] self.cell_at(x, y2) is Snake implies self.body().contains(
                (x as usize, y2 as usize),
            ) by {
                assert(pre.cell_at(x, y2) is Snake ==> pre.body().contains(
                    (x as usize, y2 as usize),
                ));
            }
        }
    }

    /// All empty coordinates strictly before row `y`, plus those in row `y`
    /// at columns below `x`, in row-major scan order.
    pub open spec fn empties_upto(self, y: int, x: int) -> Seq<(usize, usize)>
        decreases y, x,
    {
        if y < 0 || x < 0 {
            Seq::empty()
        } else if x > 0 {
            let rest = self.empties_upto(y, x - 1);
            if self.cell_at(x - 1, y) is Nothing {
                rest.push((((x - 1) as usize), (y as usize)))
            } else {
                rest
            }
        } else if y > 0 {
            self.empties_upto(y - 1, self.width as int)
        } else {
            Seq::empty()
        }
    }

    /// The ordered (row-major) sequence of coordinates whose cell is empty.
    pub open spec fn spec_empties(self) -> Seq<(usize, usize)> {
        self.empties_upto(self.height as int, 0)
    }

    pub proof fn lemma_empties_upto(self, y: int, x: int)
        requires
            self.grid_wf(),
            0 <= y <= self.height,
            0 <= x <= self.width,
            y == self.height ==> x == 0,
        ensures
            forall|i: int| 0 <= i < self.empties_upto(y, x).len() ==> {
                let p = #[trigger] self.empties_upto(y, x)[i];
                self.in_bounds(p) && (p.1 < y || (p.1 == y && p.0 < x)) && self.cell_at(
                    p.0 as int,
                    p.1 as int,
                ) is Nothing
            },
            forall|a: int, b: int|
                0 <= a < self.width && 0 <= b < self.height && (b < y || (b == y && a < x))
                    && #[trigger] self.cell_at(a, b) is Nothing ==> self.empties_upto(
                    y,
                    x,
                ).contains((a as usize, b as usize)),
        decreases y, x,
    {
        if x > 0 {
            self.lemma_empties_upto(y, x - 1);
            let rest = self.empties_upto(y, x - 1);
            let cur = self.empties_upto(y, x);
            assert forall|a: int, b: int|
                0 <= a < self.width && 0 <= b < self.height && (b < y || (b == y && a < x))
                    && #[trigger] self.cell_at(a, b) is Nothing implies cur.contains(
                (a as usize, b as usize),
            ) by {
                if b < y || (b == y && a < x - 1) {
                    let i = choose|i: int| 0 <= i < rest.len() && rest[i] == (
                        a as usize,
                        b as usize,
                    );
                    assert(cur[i] == (a as usize, b as usize));
                } else {
                    assert(a == x - 1 && b == y);
                    assert(cur[cur.len() - 1] == (a as usize, b as usize));
                }
            }
        } else if y > 0 {
            self.lemma_empties_upto(y - 1, self.width as int);
        }
    }

    pub proof fn lemma_spec_empties(self)
        requires
            self.grid_wf(),
        ensures
            forall|i: int| 0 <= i < self.spec_empties().len() ==> {
                let p = #[trigger] self.spec_empties()[i];
                self.in_bounds(p) && self.cell_at(p.0 as int, p.1 as int) is Nothing
            },
            forall|a: int, b: int|
                0 <= a < self.width && 0 <= b < self.height && #[trigger] self.cell_at(
                    a,
                    b,
                ) is Nothing ==> self.spec_empties().contains((a as usize, b as usize)),
    {
        self.lemma_empties_upto(self.height as int, 0);
    }

    /// Two boards with the same dimensions and the same pattern of empty
    /// cells catalogue the same empty coordinates.
    pub proof fn lemma_empties_congruence(self, other: Board, y: int, x: int)
        requires
            self.width == other.width,
            self.height == other.height,
            forall|a: int, b: int|
                0 <= a < self.width && 0 <= b < self.height
                    ==> ((#[trigger] self.cell_at(a, b)) is Nothing <==> (#[trigger] other.cell_at(
                    a,
                    b,
                )) is Nothing),
            0 <= y <= self.height,
            0 <= x <= self.width,
            y == self.height ==> x == 0,
        ensures
            self.empties_upto(y, x) == other.empties_upto(y, x),
        decreases y, x,
    {
        if x > 0 {
            self.lemma_empties_congruence(other, y, x - 1);
        } else if y > 0 {
            self.lemma_empties_congruence(other, y - 1, self.width as int);
        }
    }

    /// Scan the grid row-major and collect every coordinate whose cell is
    /// empty; the deterministic order makes random index selection
    /// reproducible.
    pub fn catalogue_empty_spaces(&self) -> (r: Vec<(usize, usize)>)
        requires
            self.grid_wf(),
        ensures
            r@ == self.spec_empties(),
    {
        let mut r: Vec<(usize, usize)> = Vec::new();
        let mut y: usize = 0;
        while y < self.height
            invariant
                self.grid_wf(),
                y <= self.height,
                r@ == self.empties_upto(y as int, 0),
            decreases self.height - y,
        {
            let mut x: usize = 0;
            while x < self.width
                invariant
                    self.grid_wf(),
                    y < self.height,
                    x <= self.width,
                    r@ == self.empties_upto(y as int, x as int),
                decreases self.width - x,
            {
                match self.peek(x, y) {
                    GridCell::Nothing => r.push((x, y)),
                    _ => (),
                }
                x = x + 1;
            }
            y = y + 1;
        }
        r
    }
}

pub open spec fn abs_int(v: int) -> int {
    if v < 0 {
        -v
    } else {
        v
    }
}

/// Initial facing heuristic for a snake spawned at `(x, y)` on a `w x h`
/// grid: the axis on which the point is farther from the board's center
/// decides, the vertical case and ties split by the sign of the offset.
pub open spec fn initial_direction(x: int, y: int, w: int, h: int) -> Direction {
    let rx = 2 * x - w;
    let ry = 2 * y - h;
    if abs_int(rx) < abs_int(ry) {
        if ry > 0 {
            Direction::Up
        } else {
            Direction::Dn
        }
    } else if rx > 0 {
        Direction::Lf
    } else {
        Direction::Rt
    }
}

impl Board {
    /// Write a single apple cell.
    fn spawn_apple(&mut self, x: usize, y: usize)
        requires
            old(self).wf(),
            x < old(self).width,
            y < old(self).height,
            old(self).cell_at(x as int, y as int) is Nothing,
        ensures
            final(self).wf(),
            final(self).width == old(self).width,
            final(self).height == old(self).height,
            final(self).snake.body@ == old(self).snake.body@,
            final(self).grace_frame == old(self).grace_frame,
            final(self).score == old(self).score,
            final(self).cell_at(x as int, y as int) == GridCell::Apple,
            cells_unchanged_except(*old(self), *final(self), set![(x as int, y as int)]),
    {
        let ghost pre = *self;
        self.owrt_cell(GridCell::Apple, x, y);
        proof {
            assert forall|i: int| 0 <= i < self.snake_len() implies {
                let p = #[trigger] self.body()[i];
                self.in_bounds(p) && self.cell_at(p.0 as int, p.1 as int) is Snake
            } by {
                let p = self.body()[i];
                assert(pre.cell_at(p.0 as int, p.1 as int) is Snake);
                assert(p != (x, y));
            }
        }
    }

    /// Place a single apple at a caller-chosen empty cell: the scan index is
    /// `pick % count` over the row-major catalogue of empty cells, so a
    /// uniformly random `pick` below a multiple of the count selects
    /// uniformly. Fails with `BoardFull` when no empty cell exists.
    pub fn generate_apple(&mut self, pick: usize) -> (r: Result<(), BoardFull>)
        requires
            old(self).wf(),
        ensures
            final(self).wf(),
            final(self).width == old(self).width,
            final(self).height == old(self).height,
            final(self).snake.body@ == old(self).snake.body@,
            final(self).grace_frame == old(self).grace_frame,
            final(self).score == old(self).score,
            old(self).spec_empties().len() == 0 ==> r == Result::<(), BoardFull>::Err(BoardFull)
                && same_board(*old(self), *final(self)),
            old(self).spec_empties().len() > 0 ==> {
                let es = old(self).spec_empties();
                let p = es[pick as int % es.len() as int];
                &&& r == Result::<(), BoardFull>::Ok(())
                &&& final(self).cell_at(p.0 as int, p.1 as int) == GridCell::Apple
                &&& cells_unchanged_except(
                    *old(self),
                    *final(self),
                    set![(p.0 as int, p.1 as int)],
                )
            },
    {
        let available_locations = self.catalogue_empty_spaces();
        if available_locations.len() == 0 {
            return Err(BoardFull);
        }
        let idx = pick % available_locations.len();
        let (apple_x, apple_y) = available_locations[idx];
        proof {
            self.lemma_spec_empties();
        }
        self.spawn_apple(apple_x, apple_y);
        Ok(())
    }

    /// Write the initial snake head cell: the whole default length but one
    /// is stored as pending growth on the single spawned segment.
    fn spawn_snake(&mut self, x: usize, y: usize, len: usize, dir: Direction)
        requires
            old(self).wf(),
            old(self).snake_len() == 0,
            x < old(self).width,
            y < old(self).height,
            old(self).cell_at(x as int, y as int) is Nothing,
            len >= 1,
        ensures
            final(self).wf(),
            final(self).width == old(self).width,
            final(self).height == old(self).height,
            final(self).grace_frame == old(self).grace_frame,
            final(self).score == old(self).score,
            final(self).snake.body@ == seq![(x, y)],
            final(self).cell_at(x as int, y as int) == GridCell::Snake((len - 1) as usize, dir),
            cells_unchanged_except(*old(self), *final(self), set![(x as int, y as int)]),
    {
        let ghost pre = *self;
        self.owrt_cell(GridCell::Snake(len - 1, dir), x, y);
        let ghost mid = *self;
        self.snake.body.push((x, y));
        proof {
            assert(self.body() =~= seq![(x, y)]);
            assert(self.cells@ == mid.cells@);
            assert forall|a: int, b: int|
                0 <= a < pre.width && 0 <= b < pre.height && !set![(x as int, y as int)].contains(
                (a, b),
            ) implies #[trigger] self.cell_at(a, b) == pre.cell_at(a, b) by {
                assert((a, b) != (x as int, y as int));
                assert(mid.cell_at(a, b) == pre.cell_at(a, b));
            }
            assert forall|a: int, b: int|
                0 <= a < self.width && 0 <= b < self.height && #[trigger] self.cell_at(
                    a,
                    b,
                ) is Snake implies self.body().contains((a as usize, b as usize)) by {
                if (a, b) != (x as int, y as int) {
                    assert(mid.cell_at(a, b) == pre.cell_at(a, b));
                    assert(pre.cell_at(a, b) is Snake);
                    assert(false);
                } else {
                    assert(self.body()[0] == (a as usize, b as usize));
                }
            }
        }
    }

    /// Seed the board with its single snake at a caller-chosen empty cell
    /// (index `pick % count` of the row-major catalogue, as for apples);
    /// the initial facing follows `initial_direction`. Fails with
    /// `BoardFull` when no empty cell exists.
    pub fn generate_snake(&mut self, pick: usize) -> (r: Result<(), BoardFull>)
        requires
            old(self).wf(),
            old(self).snake_len() == 0,
        ensures
            final(self).wf(),
            final(self).width == old(self).width,
            final(self).height == old(self).height,
            final(self).grace_frame == old(self).grace_frame,
            final(self).score == old(self).score,
            old(self).spec_empties().len() == 0 ==> r == Result::<(), BoardFull>::Err(BoardFull)
                && same_board(*old(self), *final(self)),
            old(self).spec_empties().len() > 0 ==> {
                let es = old(self).spec_empties();
                let p = es[pick as int % es.len() as int];
                &&& r == Result::<(), BoardFull>::Ok(())
                &&& final(self).snake.body@ == seq![p]
                &&& final(self).cell_at(p.0 as int, p.1 as int) == GridCell::Snake(
                    (SNAKE_LENGTH_DEFAULT - 1) as usize,
                    initial_direction(
                        p.0 as int,
                        p.1 as int,
                        old(self).width as int,
                        old(self).height as int,
                    ),
                )
                &&& cells_unchanged_except(
                    *old(self),
                    *final(self),
                    set![(p.0 as int, p.1 as int)],
                )
            },
    {
        let available_locations = self.catalogue_empty_spaces();
        if available_locations.len() == 0 {
            return Err(BoardFull);
        }
        let idx = pick % available_locations.len();
        let (snake_x, snake_y) = available_locations[idx];
        proof {
            self.lemma_spec_empties();
        }
        let rx: i128 = 2 * (snake_x as i128) - (self.width as i128);
        let ry: i128 = 2 * (snake_y as i128) - (self.height as i128);
        let ax: i128 = if rx < 0 { -rx } else { rx };
        let ay: i128 = if ry < 0 { -ry } else { ry };
        let direction: Direction = if ax < ay {
            if ry > 0 {
                Direction::Up
            } else {
                Direction::Dn
            }
        } else if rx > 0 {
            Direction::Lf
        } else {
            Direction::Rt
        };
        self.spawn_snake(snake_x, snake_y, SNAKE_LENGTH_DEFAULT, direction);
        Ok(())
    }

    /// Change the head's stored facing direction without moving. With a
    /// body longer than one segment, a direction that points straight at
    /// the neck (the second body segment) is ignored, preventing an
    /// immediate reversal into the snake's own body.
    pub fn change_facing_direction(&mut self, direction: Direction)
        requires
            old(self).wf(),
            old(self).placed(),
        ensures
            final(self).wf(),
            final(self).width == old(self).width,
            final(self).height == old(self).height,
            final(self).snake.body@ == old(self).snake.body@,
            final(self).grace_frame == old(self).grace_frame,
            final(self).score == old(self).score,
            ({
                let pre = *old(self);
                let head = pre.head();
                let blocked = pre.snake_len() > 1 && spec_step(
                    head.0 as int,
                    head.1 as int,
                    direction,
                    pre.width as int,
                    pre.height as int,
                ) == (pre.body()[1].0 as int, pre.body()[1].1 as int);
                if blocked {
                    same_board(pre, *final(self))
                } else {
                    &&& final(self).cell_at(head.0 as int, head.1 as int) == GridCell::Snake(
                        growth_of(pre.head_cell()),
                        direction,
                    )
                    &&& cells_unchanged_except(
                        pre,
                        *final(self),
                        set![(head.0 as int, head.1 as int)],
                    )
                }
            }),
    {
        let ghost pre = *self;
        let (head_x, head_y) = self.snake.body[0];
        let stack = match self.peek(head_x, head_y) {
            GridCell::Snake(s, _) => s,
            _ => {
                proof {
                    assert(false);
                }
                0
            },
        };
        if self.snake.body.len() > 1 {
            let (neck_x, neck_y) = self.snake.body[1];
            let (next_x, next_y) = match direction {
                Direction::Up => wrap_cells(
                    head_x as isize,
                    head_y as isize - 1,
                    self.width,
                    self.height,
                ),
                Direction::Dn => wrap_cells(
                    head_x as isize,
                    head_y as isize + 1,
                    self.width,
                    self.height,
                ),
                Direction::Lf => wrap_cells(
                    head_x as isize - 1,
                    head_y as isize,
                    self.width,
                    self.height,
                ),
                Direction::Rt => wrap_cells(
                    head_x as isize + 1,
                    head_y as isize,
                    self.width,
                    self.height,
                ),
            };
            if next_x == neck_x && next_y == neck_y {
                return ;
            }
        }
        self.owrt_cell(GridCell::Snake(stack, direction), head_x, head_y);
        proof {
            assert forall|i: int| 0 <= i < self.snake_len() implies {
                let p = #[trigger] self.body()[i];
                self.in_bounds(p) && self.cell_at(p.0 as int, p.1 as int) is Snake
            } by {
                let p = self.body()[i];
                assert(pre.cell_at(p.0 as int, p.1 as int) is Snake);
            }
            assert forall|x: int, y: int|
                0 <= x < self.width && 0 <= y < self.height && #[trigger] self.cell_at(
                    x,
                    y,
                ) is Snake implies self.body().contains((x as usize, y as usize)) by {
                assert(pre.cell_at(x, y) is Snake);
            }
        }
    }

    /// Exchange the contents of two cells.
    fn swap_cells(&mut self, p0: (usize, usize), p1: (usize, usize))
        requires
            old(self).grid_wf(),
            old(self).in_bounds(p0),
            old(self).in_bounds(p1),
        ensures
            final(self).grid_wf(),
            final(self).width == old(self).width,
            final(self).height == old(self).height,
            final(self).snake.body@ == old(self).snake.body@,
            final(self).grace_frame == old(self).grace_frame,
            final(self).score == old(self).score,
            final(self).cell_at(p1.0 as int, p1.1 as int) == old(self).cell_at(
                p0.0 as int,
                p0.1 as int,
            ),
            final(self).cell_at(p0.0 as int, p0.1 as int) == old(self).cell_at(
                p1.0 as int,
                p1.1 as int,
            ),
            cells_unchanged_except(
                *old(self),
                *final(self),
                set![(p0.0 as int, p0.1 as int), (p1.0 as int, p1.1 as int)],
            ),
    {
        let temp = self.peek(p1.0, p1.1);
        let c0 = self.peek(p0.0, p0.1);
        self.owrt_cell(c0, p1.0, p1.1);
        self.owrt_cell(temp, p0.0, p0.1);
    }

    /// Move the snake one cell: open a new head segment at `(nx, ny)` and
    /// inspect the outgoing tail. A tail with exhausted growth is released
    /// (its cell empties, the body length is unchanged overall); a tail
    /// with pending growth consumes one unit and holds its cell, so the
    /// body elongates by one.
    fn advance_snake(&mut self, nx: usize, ny: usize, d: Direction)
        requires
            old(self).wf(),
            old(self).placed(),
            old(self).in_bounds((nx, ny)),
            !(old(self).cell_at(nx as int, ny as int) is Snake),
            !(old(self).cell_at(nx as int, ny as int) is Wall),
            adjacent(old(self).head(), (nx, ny), old(self).width as int, old(self).height as int),
        ensures
            final(self).wf(),
            final(self).placed(),
            final(self).width == old(self).width,
            final(self).height == old(self).height,
            final(self).grace_frame == old(self).grace_frame,
            final(self).score == old(self).score,
            final(self).cell_at(nx as int, ny as int) == GridCell::Snake(0, d),
            ({
                let pre = *old(self);
                let t = pre.tail();
                let g = growth_of(pre.cell_at(t.0 as int, t.1 as int));
                let touched = set![(nx as int, ny as int), (t.0 as int, t.1 as int)];
                if g == 0 {
                    &&& final(self).snake.body@ == seq![(nx, ny)] + pre.body().drop_last()
                    &&& final(self).cell_at(t.0 as int, t.1 as int) == GridCell::Nothing
                    &&& cells_unchanged_except(pre, *final(self), touched)
                } else {
                    &&& final(self).snake.body@ == seq![(nx, ny)] + pre.body()
                    &&& final(self).cell_at(t.0 as int, t.1 as int) == GridCell::Snake(
                        (g - 1) as usize,
                        dir_of(pre.cell_at(t.0 as int, t.1 as int)),
                    )
                    &&& cells_unchanged_except(pre, *final(self), touched)
                }
            }),
    {
        let ghost pre = *self;
        let len = self.snake.body.len();
        let (tx, ty) = self.snake.body[len - 1];
        let ghost t = pre.tail();
        let ghost g = growth_of(pre.cell_at(t.0 as int, t.1 as int));
        proof {
            assert(pre.body()[len - 1] == t);
            assert((tx, ty) != (nx, ny));
        }
        let (s, td) = match self.peek(tx, ty) {
            GridCell::Snake(s, td) => (s, td),
            _ => {
                proof {
                    assert(false);
                }
                (0, d)
            },
        };
        if s == 0 {
            let _ = self.snake.body.pop();
            self.owrt_cell(GridCell::Nothing, tx, ty);
        } else {
            self.owrt_cell(GridCell::Snake(s - 1, td), tx, ty);
        }
        let ghost mid = *self;
        self.owrt_cell(GridCell::Snake(0, d), nx, ny);
        let ghost mid2 = *self;
        self.snake.body.insert(0, (nx, ny));
        proof {
            let fin = *self;
            assert(fin.cells@ == mid2.cells@);
            let b = pre.body();
            let n = b.len() as int;
            assert(g == s && td == dir_of(pre.cell_at(t.0 as int, t.1 as int)));
            if g == 0 {
                assert(mid.body() == b.drop_last());
                assert(fin.body() =~= seq![(nx, ny)] + b.drop_last());
            } else {
                assert(mid.body() == b);
                assert(fin.body() =~= seq![(nx, ny)] + b);
            }
            // every pre body coordinate differs from the new head cell
            assert forall|j: int| 0 <= j < n implies #[trigger] b[j] != (nx, ny) by {
                assert(pre.cell_at(b[j].0 as int, b[j].1 as int) is Snake);
            }
            // cells outside the two touched coordinates are unchanged
            assert forall|a2: int, b2: int|
                0 <= a2 < pre.width && 0 <= b2 < pre.height && !set![
                    (nx as int, ny as int),
                    (t.0 as int, t.1 as int),
                ].contains((a2, b2)) implies #[trigger] fin.cell_at(a2, b2) == pre.cell_at(
                a2,
                b2,
            ) by {
                assert((a2, b2) != (nx as int, ny as int));
                assert((a2, b2) != (t.0 as int, t.1 as int));
                assert(mid.cell_at(a2, b2) == pre.cell_at(a2, b2));
                assert(mid2.cell_at(a2, b2) == mid.cell_at(a2, b2));
                assert(fin.cell_at(a2, b2) == mid2.cell_at(a2, b2));
            }
            assert(mid2.cell_at(nx as int, ny as int) == GridCell::Snake(0, d));
            assert(fin.cell_at(nx as int, ny as int) == GridCell::Snake(0, d));
            assert(mid.cell_at(t.0 as int, t.1 as int) == (if g == 0 {
                GridCell::Nothing
            } else {
                GridCell::Snake((g - 1) as usize, td)
            }));
            assert(mid2.cell_at(t.0 as int, t.1 as int) == mid.cell_at(t.0 as int, t.1 as int));
            assert(fin.cell_at(t.0 as int, t.1 as int) == if g == 0 {
                GridCell::Nothing
            } else {
                GridCell::Snake((g - 1) as usize, dir_of(pre.cell_at(t.0 as int, t.1 as int)))
            });
            // body entries address snake cells
            assert forall|i: int| 0 <= i < fin.snake_len() implies {
                let p = #[trigger] fin.body()[i];
                fin.in_bounds(p) && fin.cell_at(p.0 as int, p.1 as int) is Snake
            } by {
                if i == 0 {
                    assert(fin.body()[0] == (nx, ny));
                } else {
                    let p = b[i - 1];
                    assert(fin.body()[i] == p);
                    assert(pre.cell_at(p.0 as int, p.1 as int) is Snake);
                    assert(p != (nx, ny));
                    if p == t {
                        assert(g != 0);
                    } else {
                        assert(mid.cell_at(p.0 as int, p.1 as int) == pre.cell_at(
                            p.0 as int,
                            p.1 as int,
                        ));
                        assert(mid2.cell_at(p.0 as int, p.1 as int) == mid.cell_at(
                            p.0 as int,
                            p.1 as int,
                        ));
                        assert(fin.cell_at(p.0 as int, p.1 as int) == pre.cell_at(
                            p.0 as int,
                            p.1 as int,
                        ));
                    }
                }
            }
            // body entries stay pairwise distinct
            assert forall|i: int, j: int| 0 <= i < j < fin.snake_len() implies #[trigger] fin.body()[i]
                != #[trigger] fin.body()[j] by {
                if i == 0 {
                    assert(fin.body()[j] == b[j - 1]);
                    assert(b[j - 1] != (nx, ny));
                } else {
                    assert(fin.body()[i] == b[i - 1]);
                    assert(fin.body()[j] == b[j - 1]);
                }
            }
            // every snake cell is addressed by the body
            assert forall|a2: int, b2: int|
                0 <= a2 < fin.width && 0 <= b2 < fin.height && #[trigger] fin.cell_at(
                    a2,
                    b2,
                ) is Snake implies fin.body().contains((a2 as usize, b2 as usize)) by {
                let p = (a2 as usize, b2 as usize);
                if (a2, b2) == (nx as int, ny as int) {
                    assert(fin.body()[0] == p);
                } else if (a2, b2) == (t.0 as int, t.1 as int) {
                    assert(g != 0);
                    assert(fin.body()[n] == b[n - 1]);
                } else {
                    assert(mid.cell_at(a2, b2) == pre.cell_at(a2, b2));
                    assert(mid2.cell_at(a2, b2) == mid.cell_at(a2, b2));
                    assert(pre.cell_at(a2, b2) is Snake);
                    assert(pre.body().contains(p));
                    let j = choose|j: int| 0 <= j < n && b[j] == p;
                    if j == n - 1 {
                        assert(b[j] == t);
                        assert(false);
                    } else {
                        assert(fin.body()[j + 1] == b[j]);
                    }
                }
            }
            // consecutive body entries stay adjacent
            assert forall|i: int| 0 <= i && i + 1 < fin.snake_len() implies adjacent(
                #[trigger] fin.body()[i + 1],
                fin.body()[i],
                fin.width as int,
                fin.height as int,
            ) by {
                if i == 0 {
                    assert(fin.body()[1] == b[0]);
                    assert(fin.body()[0] == (nx, ny));
                    assert(b[0] == pre.head());
                } else {
                    assert(fin.body()[i + 1] == b[i]);
                    assert(fin.body()[i] == b[i - 1]);
                    lemma_path_pair(pre, i - 1);
                }
            }
        }
    }

    /// One simulation step: look one cell ahead of the head's stored facing
    /// direction (toroidally wrapped), classify the target cell, mutate the
    /// board accordingly and return the classified event.
    ///
    /// - An empty target: the snake moves; `GeneralMovement`.
    /// - An apple: the tail's pending growth rises by `SNAKE_LENGTH_GROWTH`,
    ///   a replacement apple is placed at the empty cell selected by
    ///   `apple_pick` (scoring the base increment) or, with the board full,
    ///   the one-time bonus is scored instead and no apple remains; the
    ///   snake then moves; `AppleCollected`.
    /// - The snake's own tail cell, with growth exhausted: the head moves
    ///   into the cell the tail vacates this same tick, realized as a
    ///   head/tail cell swap and a body rotation; `GeneralMovement`.
    /// - Any other snake cell, or a wall: no movement; the first collision
    ///   arms the one-tick grace warning (`GraceTick`), a collision with the
    ///   warning already armed ends the game (`GameOver`).
    ///
    /// The two arithmetic bounds in the requires keep the score and the
    /// tail's growth counter within their machine types when an apple is
    /// eaten.
    #[verifier::rlimit(60)]
    pub fn do_game_tick(&mut self, apple_pick: usize) -> (e: GameEvent)
        requires
            old(self).wf(),
            old(self).placed(),
            old(self).next_cell() is Apple ==> old(self).score as int + SCORE_INCREMENT as int
                * BOARD_FULL_MULTIPLIER as int <= u32::MAX as int,
            old(self).next_cell() is Apple ==> growth_of(
                old(self).cell_at(old(self).tail().0 as int, old(self).tail().1 as int),
            ) as int + SNAKE_LENGTH_GROWTH as int <= usize::MAX as int,
        ensures
            final(self).wf(),
            final(self).placed(),
            final(self).width == old(self).width,
            final(self).height == old(self).height,
            ({
                let pre = *old(self);
                let post = *final(self);
                let nh = pre.next_head();
                let nhu = ((nh.0 as usize), (nh.1 as usize));
                let d = pre.head_dir();
                let t = pre.tail();
                let tc = pre.cell_at(t.0 as int, t.1 as int);
                let g = growth_of(tc) as int;
                let target = pre.next_cell();
                let self_consume = target is Snake && growth_of(target) == 0 && nhu == t;
                if target is Nothing {
                    &&& e == GameEvent::GeneralMovement
                    &&& post.grace_frame == false
                    &&& post.score == pre.score
                    &&& post.cell_at(nh.0, nh.1) == GridCell::Snake(0, d)
                    &&& (if g == 0 {
                        &&& post.snake.body@ == seq![nhu] + pre.body().drop_last()
                        &&& post.cell_at(t.0 as int, t.1 as int) == GridCell::Nothing
                    } else {
                        &&& post.snake.body@ == seq![nhu] + pre.body()
                        &&& post.cell_at(t.0 as int, t.1 as int) == GridCell::Snake(
                            (g - 1) as usize,
                            dir_of(tc),
                        )
                    })
                    &&& cells_unchanged_except(
                        pre,
                        post,
                        set![(nh.0, nh.1), (t.0 as int, t.1 as int)],
                    )
                } else if target is Apple {
                    &&& e == GameEvent::AppleCollected
                    &&& post.grace_frame == false
                    &&& post.cell_at(nh.0, nh.1) == GridCell::Snake(0, d)
                    &&& post.snake.body@ == seq![nhu] + pre.body()
                    &&& post.cell_at(t.0 as int, t.1 as int) == GridCell::Snake(
                        (g + SNAKE_LENGTH_GROWTH - 1) as usize,
                        dir_of(tc),
                    )
                    &&& ({
                        let es = pre.spec_empties();
                        if es.len() == 0 {
                            &&& post.score == pre.score + SCORE_INCREMENT * BOARD_FULL_MULTIPLIER
                            &&& cells_unchanged_except(
                                pre,
                                post,
                                set![(nh.0, nh.1), (t.0 as int, t.1 as int)],
                            )
                        } else {
                            let p = es[apple_pick as int % es.len() as int];
                            &&& post.score == pre.score + SCORE_INCREMENT
                            &&& post.cell_at(p.0 as int, p.1 as int) == GridCell::Apple
                            &&& cells_unchanged_except(
                                pre,
                                post,
                                set![
                                    (nh.0, nh.1),
                                    (t.0 as int, t.1 as int),
                                    (p.0 as int, p.1 as int),
                                ],
                            )
                        }
                    })
                } else if self_consume {
                    &&& e == GameEvent::GeneralMovement
                    &&& post.grace_frame == false
                    &&& post.score == pre.score
                    &&& post.snake.body@ == seq![t] + pre.body().drop_last()
                    &&& post.cell_at(t.0 as int, t.1 as int) == pre.head_cell()
                    &&& post.cell_at(pre.head().0 as int, pre.head().1 as int) == tc
                    &&& cells_unchanged_except(
                        pre,
                        post,
                        set![(pre.head().0 as int, pre.head().1 as int), (t.0 as int, t.1 as int)],
                    )
                } else {
                    &&& post.snake.body@ == pre.body()
                    &&& post.score == pre.score
                    &&& cells_unchanged_except(pre, post, Set::empty())
                    &&& post.grace_frame == true
                    &&& e == (if !pre.grace_frame {
                        GameEvent::GraceTick
                    } else {
                        GameEvent::GameOver
                    })
                }
            }),
    {
        let ghost pre = *self;
        // Look-ahead
        let (x0, y0) = self.snake.body[0];
        let d = match self.peek(x0, y0) {
            GridCell::Snake(_, dir) => dir,
            _ => {
                proof {
                    assert(false);
                }
                Direction::Up
            },
        };
        let (x1, y1) = match d {
            Direction::Up => wrap_cells(x0 as isize, (y0 as isize) - 1, self.width, self.height),
            Direction::Dn => wrap_cells(x0 as isize, (y0 as isize) + 1, self.width, self.height),
            Direction::Lf => wrap_cells((x0 as isize) - 1, y0 as isize, self.width, self.height),
            Direction::Rt => wrap_cells((x0 as isize) + 1, y0 as isize, self.width, self.height),
        };
        proof {
            assert(pre.head() == (x0, y0));
            assert(d == pre.head_dir());
            assert((x1 as int, y1 as int) == pre.next_head());
            assert(x1 < pre.width && y1 < pre.height);
            assert(adjacent(pre.head(), (x1, y1), pre.width as int, pre.height as int));
        }
        // Classify the target cell
        match self.peek(x1, y1) {
            GridCell::Nothing => {
                self.grace_frame = false;
                proof {
                    lemma_wf_same_content(pre, *self);
                }
                self.advance_snake(x1, y1, d);
                GameEvent::GeneralMovement
            },
            GridCell::Apple => {
                self.grace_frame = false;
                proof {
                    lemma_wf_same_content(pre, *self);
                }
                // Credit the eaten apple to the tail's pending growth
                let len = self.snake.body.len();
                let (tx, ty) = self.snake.body[len - 1];
                let ghost t = pre.tail();
                let (s2, td) = match self.peek(tx, ty) {
                    GridCell::Snake(s2, td) => (s2, td),
                    _ => {
                        proof {
                            assert(false);
                        }
                        (0, d)
                    },
                };
                self.owrt_cell(GridCell::Snake(s2 + SNAKE_LENGTH_GROWTH, td), tx, ty);
                let ghost bumped = *self;
                proof {
                    assert((tx, ty) == t);
                    assert((x1, y1) != (tx, ty));
                    assert forall|i: int| 0 <= i < bumped.snake_len() implies {
                        let p = #[trigger] bumped.body()[i];
                        bumped.in_bounds(p) && bumped.cell_at(p.0 as int, p.1 as int) is Snake
                    } by {
                        let p = bumped.body()[i];
                        assert(pre.body()[i] == p);
                        assert(pre.cell_at(p.0 as int, p.1 as int) is Snake);
                        if p != t {
                            assert(bumped.cell_at(p.0 as int, p.1 as int) == pre.cell_at(
                                p.0 as int,
                                p.1 as int,
                            ));
                        }
                    }
                    assert forall|a2: int, b2: int|
                        0 <= a2 < bumped.width && 0 <= b2 < bumped.height
                            && #[trigger] bumped.cell_at(a2, b2) is Snake implies bumped
                        .body().contains((a2 as usize, b2 as usize)) by {
                        if (a2, b2) != (t.0 as int, t.1 as int) {
                            assert(bumped.cell_at(a2, b2) == pre.cell_at(a2, b2));
                        }
                        assert(pre.cell_at(a2, b2) is Snake);
                    }
                    assert(bumped.wf());
                    assert forall|a2: int, b2: int|
                        0 <= a2 < pre.width && 0 <= b2 < pre.height implies ((
                        #[trigger] pre.cell_at(a2, b2)) is Nothing <==> (#[trigger] bumped.cell_at(
                            a2,
                            b2,
                        )) is Nothing) by {
                        if (a2, b2) != (t.0 as int, t.1 as int) {
                            assert(bumped.cell_at(a2, b2) == pre.cell_at(a2, b2));
                        }
                    }
                    pre.lemma_empties_congruence(bumped, pre.height as int, 0);
                    assert(bumped.spec_empties() == pre.spec_empties());
                    bumped.lemma_spec_empties();
                }
                // Respawn the apple; a full board scores the bonus instead
                let respawn = self.generate_apple(apple_pick);
                let ghost st3 = *self;
                match respawn {
                    Ok(_) => self.increase_score(1),
                    Err(_) => self.increase_score(BOARD_FULL_MULTIPLIER),
                }
                let ghost st4 = *self;
                proof {
                    let es = pre.spec_empties();
                    lemma_wf_same_content(st3, st4);
                    assert(st4.cells@ == st3.cells@);
                    if es.len() > 0 {
                        let idx = apple_pick as int % es.len() as int;
                        let p = es[idx];
                        assert(bumped.spec_empties()[idx] == p);
                        assert(bumped.in_bounds(p) && bumped.cell_at(
                            p.0 as int,
                            p.1 as int,
                        ) is Nothing);
                        assert(bumped.cell_at(x1 as int, y1 as int) == pre.cell_at(
                            x1 as int,
                            y1 as int,
                        ));
                        assert(p != (x1, y1));
                        assert(p != (tx, ty));
                        assert(st3.cell_at(p.0 as int, p.1 as int) == GridCell::Apple);
                        assert((x1 as int, y1 as int) != (p.0 as int, p.1 as int));
                        assert(st3.cell_at(x1 as int, y1 as int) == bumped.cell_at(
                            x1 as int,
                            y1 as int,
                        ));
                        assert(st3.cell_at(t.0 as int, t.1 as int) == bumped.cell_at(
                            t.0 as int,
                            t.1 as int,
                        ));
                    } else {
                        assert(st3.cell_at(x1 as int, y1 as int) == bumped.cell_at(
                            x1 as int,
                            y1 as int,
                        ));
                        assert(st3.cell_at(t.0 as int, t.1 as int) == bumped.cell_at(
                            t.0 as int,
                            t.1 as int,
                        ));
                    }
                    assert(bumped.cell_at(x1 as int, y1 as int) == pre.cell_at(
                        x1 as int,
                        y1 as int,
                    ));
                    assert(st4.cell_at(x1 as int, y1 as int) == GridCell::Apple);
                    assert(st4.tail() == t);
                    assert(st4.cell_at(t.0 as int, t.1 as int) == GridCell::Snake(
                        (s2 + SNAKE_LENGTH_GROWTH) as usize,
                        td,
                    ));
                    assert(st4.head() == pre.head());
                    assert(adjacent(st4.head(), (x1, y1), st4.width as int, st4.height as int));
                }
                self.advance_snake(x1, y1, d);
                proof {
                    let fin = *self;
                    assert(fin.snake.body@ =~= seq![(x1, y1)] + pre.body());
                    let es = pre.spec_empties();
                    if es.len() == 0 {
                        assert forall|a2: int, b2: int|
                            0 <= a2 < pre.width && 0 <= b2 < pre.height && !set![
                                ((x1 as int, y1 as int)),
                                ((t.0 as int, t.1 as int)),
                            ].contains((a2, b2)) implies #[trigger] fin.cell_at(a2, b2)
                            == pre.cell_at(a2, b2) by {
                            assert((a2, b2) != (x1 as int, y1 as int));
                            assert((a2, b2) != (t.0 as int, t.1 as int));
                            assert(bumped.cell_at(a2, b2) == pre.cell_at(a2, b2));
                            assert(st3.cell_at(a2, b2) == bumped.cell_at(a2, b2));
                            assert(st4.cell_at(a2, b2) == st3.cell_at(a2, b2));
                            assert(fin.cell_at(a2, b2) == st4.cell_at(a2, b2));
                        }
                    } else {
                        let p = es[apple_pick as int % es.len() as int];
                        assert(st4.cell_at(p.0 as int, p.1 as int) == GridCell::Apple);
                        assert(p != (x1, y1) && p != t);
                        assert(fin.cell_at(p.0 as int, p.1 as int) == GridCell::Apple);
                        assert forall|a2: int, b2: int|
                            0 <= a2 < pre.width && 0 <= b2 < pre.height && !set![
                                ((x1 as int, y1 as int)),
                                ((t.0 as int, t.1 as int)),
                                ((p.0 as int, p.1 as int)),
                            ].contains((a2, b2)) implies #[trigger] fin.cell_at(a2, b2)
                            == pre.cell_at(a2, b2) by {
                            assert((a2, b2) != (x1 as int, y1 as int));
                            assert((a2, b2) != (t.0 as int, t.1 as int));
                            assert((a2, b2) != (p.0 as int, p.1 as int));
                            assert(bumped.cell_at(a2, b2) == pre.cell_at(a2, b2));
                            assert(st3.cell_at(a2, b2) == bumped.cell_at(a2, b2));
                            assert(st4.cell_at(a2, b2) == st3.cell_at(a2, b2));
                            assert(fin.cell_at(a2, b2) == st4.cell_at(a2, b2));
                        }
                    }
                }
                GameEvent::AppleCollected
            },
            GridCell::Snake(s_t, _) => {
                let len = self.snake.body.len();
                let (tx, ty) = self.snake.body[len - 1];
                if s_t == 0 && tx == x1 && ty == y1 {
                    // Self-consumption: the head enters the cell the tail
                    // vacates this tick; swap the two cells and rotate the
                    // body instead of moving.
                    self.grace_frame = false;
                    proof {
                        lemma_wf_same_content(pre, *self);
                    }
                    self.swap_cells((x0, y0), (tx, ty));
                    let ghost mid = *self;
                    let t2 = match self.snake.body.pop() {
                        Some(p) => p,
                        None => {
                            proof {
                                assert(false);
                            }
                            (0, 0)
                        },
                    };
                    self.snake.body.insert(0, t2);
                    proof {
                        let fin = *self;
                        let b = pre.body();
                        let n = b.len() as int;
                        let t = pre.tail();
                        assert(t2 == t);
                        assert(fin.cells@ == mid.cells@);
                        assert(fin.snake.body@ =~= seq![t] + b.drop_last());
                        assert(mid.cell_at(t.0 as int, t.1 as int) == pre.head_cell());
                        assert(mid.cell_at(x0 as int, y0 as int) == pre.cell_at(
                            t.0 as int,
                            t.1 as int,
                        ));
                        assert forall|a2: int, b2: int|
                            0 <= a2 < pre.width && 0 <= b2 < pre.height && !set![
                                ((x0 as int, y0 as int)),
                                ((t.0 as int, t.1 as int)),
                            ].contains((a2, b2)) implies #[trigger] fin.cell_at(a2, b2)
                            == pre.cell_at(a2, b2) by {
                            assert((a2, b2) != (x0 as int, y0 as int));
                            assert((a2, b2) != (t.0 as int, t.1 as int));
                            assert(mid.cell_at(a2, b2) == pre.cell_at(a2, b2));
                            assert(fin.cell_at(a2, b2) == mid.cell_at(a2, b2));
                        }
                        // body entries address snake cells
                        assert forall|i: int| 0 <= i < fin.snake_len() implies {
                            let p = #[trigger] fin.body()[i];
                            fin.in_bounds(p) && fin.cell_at(p.0 as int, p.1 as int) is Snake
                        } by {
                            if i == 0 {
                                assert(fin.body()[0] == t);
                                assert(fin.cell_at(t.0 as int, t.1 as int) == pre.head_cell());
                                assert(pre.head_cell() is Snake);
                            } else {
                                let p = b[i - 1];
                                assert(fin.body()[i] == p);
                                assert(pre.cell_at(p.0 as int, p.1 as int) is Snake);
                                if p == (x0, y0) {
                                    assert(fin.cell_at(p.0 as int, p.1 as int) == pre.cell_at(
                                        t.0 as int,
                                        t.1 as int,
                                    ));
                                } else if p == t {
                                    assert(i - 1 < n - 1 && b[n - 1] == t);
                                    assert(false);
                                } else {
                                    assert(fin.cell_at(p.0 as int, p.1 as int) == pre.cell_at(
                                        p.0 as int,
                                        p.1 as int,
                                    ));
                                }
                            }
                        }
                        // pairwise distinct
                        assert forall|i: int, j: int| 0 <= i < j < fin.snake_len() implies #[trigger] fin.body()[i] != #[trigger] fin.body()[j] by {
                            if i == 0 {
                                assert(fin.body()[0] == b[n - 1]);
                                assert(fin.body()[j] == b[j - 1]);
                            } else {
                                assert(fin.body()[i] == b[i - 1]);
                                assert(fin.body()[j] == b[j - 1]);
                            }
                        }
                        // completeness
                        assert forall|a2: int, b2: int|
                            0 <= a2 < fin.width && 0 <= b2 < fin.height && #[trigger] fin.cell_at(
                                a2,
                                b2,
                            ) is Snake implies fin.body().contains((a2 as usize, b2 as usize)) by {
                            let p = (a2 as usize, b2 as usize);
                            if (a2, b2) == (t.0 as int, t.1 as int) {
                                assert(fin.body()[0] == p);
                            } else if (a2, b2) == (x0 as int, y0 as int) {
                                assert(b[0] == p);
                                assert(n >= 2);
                                assert(fin.body()[1] == p);
                            } else {
                                assert(fin.cell_at(a2, b2) == pre.cell_at(a2, b2));
                                assert(pre.body().contains(p));
                                let j = choose|j: int| 0 <= j < n && b[j] == p;
                                if j == n - 1 {
                                    assert(b[j] == t);
                                    assert(false);
                                } else {
                                    assert(fin.body()[j + 1] == b[j]);
                                }
                            }
                        }
                        // adjacency
                        assert forall|i: int| 0 <= i && i + 1 < fin.snake_len() implies adjacent(
                            #[trigger] fin.body()[i + 1],
                            fin.body()[i],
                            fin.width as int,
                            fin.height as int,
                        ) by {
                            if i == 0 {
                                assert(fin.body()[1] == b[0]);
                                assert(fin.body()[0] == t);
                                assert((x1 as int, y1 as int) == pre.next_head());
                                assert(adjacent(
                                    pre.head(),
                                    (x1, y1),
                                    pre.width as int,
                                    pre.height as int,
                                ));
                            } else {
                                assert(fin.body()[i + 1] == b[i]);
                                assert(fin.body()[i] == b[i - 1]);
                                lemma_path_pair(pre, i - 1);
                            }
                        }
                    }
                    GameEvent::GeneralMovement
                } else {
                    if !self.grace_frame {
                        self.grace_frame = true;
                        proof {
                            lemma_wf_same_content(pre, *self);
                        }
                        GameEvent::GraceTick
                    } else {
                        GameEvent::GameOver
                    }
                }
            },
            GridCell::Wall => {
                if !self.grace_frame {
                    self.grace_frame = true;
                    proof {
                        lemma_wf_same_content(pre, *self);
                    }
                    GameEvent::GraceTick
                } else {
                    GameEvent::GameOver
                }
            },
        }
    }

    /// Add `increase` times the base increment to the score.
    fn increase_score(&mut self, increase: u32)
        requires
            old(self).score as int + increase as int * SCORE_INCREMENT as int <= u32::MAX as int,
        ensures
            (*final(self) == Board {
                score: (old(self).score + increase * SCORE_INCREMENT) as u32,
                ..*old(self)
            }),
    {
        self.score = self.score + increase * SCORE_INCREMENT;
    }
}

/// Wrap a prospective (signed) coordinate pair onto the `width x height`
/// torus, as `spec_wrap` states, one coordinate at a time.
pub fn wrap_cells(x: isize, y: isize, width: usize, height: usize) -> (r: (usize, usize))
    requires
        1 <= width <= isize::MAX as usize,
        1 <= height <= isize::MAX as usize,
    ensures
        r.0 == spec_wrap(x as int, width as int),
        r.1 == spec_wrap(y as int, height as int),
{
    let rx: usize = if x >= width as isize {
        0
    } else if x < 0 {
        width - 1
    } else {
        x as usize
    };
    let ry: usize = if y >= height as isize {
        0
    } else if y < 0 {
        height - 1
    } else {
        y as usize
    };
    (rx, ry)
}

/// The set of grid coordinates whose cell is a snake segment.
pub open spec fn snake_cells(b: Board) -> Set<(usize, usize)> {
    Set::new(|p: (usize, usize)| b.in_bounds(p) && b.cell_at(p.0 as int, p.1 as int) is Snake)
}

/// Bounded occupancy: on every well-formed board the snake-segment cells
/// are exactly the coordinates listed by the body, so their number equals
/// the snake's length, and consecutive body entries are toroidally
/// adjacent: the segments form a single path from head to tail.
pub proof fn lemma_bounded_occupancy(b: Board)
    requires
        b.wf(),
    ensures
        snake_cells(b).finite(),
        snake_cells(b).len() == b.snake.body@.len(),
        snake_cells(b) == b.snake.body@.to_set(),
        forall|i: int|
            0 <= i && i + 1 < b.snake.body@.len() ==> adjacent(
                #[trigger] b.snake.body@[i + 1],
                b.snake.body@[i],
                b.width as int,
                b.height as int,
            ),
{
    broadcast use vstd::seq_lib::seq_to_set_is_finite;

    let s = b.body();
    assert(s.no_duplicates());
    s.unique_seq_to_set();
    assert forall|p: (usize, usize)| snake_cells(b).contains(p) <==> s.to_set().contains(p) by {
        if b.in_bounds(p) && b.cell_at(p.0 as int, p.1 as int) is Snake {
            assert(b.cell_at(p.0 as int, p.1 as int) is Snake);
            assert(s.contains(p));
        }
        if s.contains(p) {
            let i = choose|i: int| 0 <= i < s.len() && s[i] == p;
            assert(b.body()[i] == p);
            assert(b.in_bounds(p) && b.cell_at(p.0 as int, p.1 as int) is Snake);
        }
    }
    assert(snake_cells(b) =~= s.to_set());
    assert forall|i: int| 0 <= i && i + 1 < b.snake.body@.len() implies adjacent(
        #[trigger] b.snake.body@[i + 1],
        b.snake.body@[i],
        b.width as int,
        b.height as int,
    ) by {
        lemma_path_pair(b, i);
    }
}

/// Toroidal continuity: with the head at the last column and facing right,
/// the next head coordinate is column 0 of the same row; the matching wrap
/// holds at each of the other three edges.
pub proof fn lemma_toroidal_continuity(b: Board)
    requires
        b.wf(),
        b.placed(),
    ensures
        b.head().0 == b.width - 1 && b.head_dir() == Direction::Rt ==> b.next_head() == (
            0int,
            b.head().1 as int,
        ),
        b.head().0 == 0 && b.head_dir() == Direction::Lf ==> b.next_head() == (
            b.width - 1 as int,
            b.head().1 as int,
        ),
        b.head().1 == b.height - 1 && b.head_dir() == Direction::Dn ==> b.next_head() == (
            b.head().0 as int,
            0int,
        ),
        b.head().1 == 0 && b.head_dir() == Direction::Up ==> b.next_head() == (
            b.head().0 as int,
            b.height - 1 as int,
        ),
{
}

} // verus!
