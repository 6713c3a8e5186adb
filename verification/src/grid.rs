//! The board state machine: cell states, directions, the spread mechanic and
//! the three-in-a-row win check.

use vstd::prelude::*;

verus! {

/// The state of one board cell.
///
/// `Yellow` and `White` partition the empty cells: a cell is playable iff it
/// is `Yellow`.  `Black` is a permanent obstacle and never changes.
#[derive(Clone, Copy, PartialEq, Eq, Structural, Debug)]
pub enum CaseValue {
    Red,
    Blue,
    Yellow,
    White,
    Black,
}

/// The outcome of one call to [`Grid::play`].
#[derive(Clone, Copy, PartialEq, Eq, Structural, Debug)]
pub enum PlayResult {
    InvalidPosition,
    Played,
    RedWin,
    BlueWin,
    NobodyWin,
}

/// One of the eight compass directions a stone can relate to its neighbours
/// by.  A step never wraps around a row edge or past the top or bottom row.
#[derive(Clone, Copy, PartialEq, Eq, Structural, Debug)]
pub enum Direction {
    North,
    East,
    West,
    South,
    NorthEast,
    NorthWest,
    SouthEast,
    SouthWest,
}

/// Column displacement of one step in direction `d`.
pub open spec fn dir_dx(d: Direction) -> int {
    match d {
        Direction::North => 0,
        Direction::East => 1,
        Direction::West => -1,
        Direction::South => 0,
        Direction::NorthEast => 1,
        Direction::NorthWest => -1,
        Direction::SouthEast => 1,
        Direction::SouthWest => -1,
    }
}

/// Row displacement of one step in direction `d` (rows grow southwards).
pub open spec fn dir_dy(d: Direction) -> int {
    match d {
        Direction::North => -1,
        Direction::East => 0,
        Direction::West => 0,
        Direction::South => 1,
        Direction::NorthEast => -1,
        Direction::NorthWest => -1,
        Direction::SouthEast => 1,
        Direction::SouthWest => 1,
    }
}

/// The direction opposite to `d`.
pub open spec fn dir_mirror(d: Direction) -> Direction {
    match d {
        Direction::North => Direction::South,
        Direction::South => Direction::North,
        Direction::East => Direction::West,
        Direction::West => Direction::East,
        Direction::NorthEast => Direction::SouthWest,
        Direction::NorthWest => Direction::SouthEast,
        Direction::SouthEast => Direction::NorthWest,
        Direction::SouthWest => Direction::NorthEast,
    }
}

/// The fixed order in which the eight directions are visited.
pub open spec fn direction_order() -> Seq<Direction> {
    seq![
        Direction::North,
        Direction::East,
        Direction::West,
        Direction::South,
        Direction::NorthEast,
        Direction::NorthWest,
        Direction::SouthEast,
        Direction::SouthWest,
    ]
}

/// Every direction occurs in `direction_order`.
pub proof fn lemma_direction_order_complete(d: Direction)
    ensures
        exists|k: int| 0 <= k < 8 && direction_order()[k] == d,
{
    match d {
        Direction::North => assert(direction_order()[0] == d),
        Direction::East => assert(direction_order()[1] == d),
        Direction::West => assert(direction_order()[2] == d),
        Direction::South => assert(direction_order()[3] == d),
        Direction::NorthEast => assert(direction_order()[4] == d),
        Direction::NorthWest => assert(direction_order()[5] == d),
        Direction::SouthEast => assert(direction_order()[6] == d),
        Direction::SouthWest => assert(direction_order()[7] == d),
    }
}

/// Whether one step from cell `index` in direction `d` stays on a
/// `w`-by-`h` board (no horizontal wrap, no step past the first or last row).
pub open spec fn step_ok(index: int, w: int, h: int, d: Direction) -> bool {
    &&& 0 <= index % w + dir_dx(d) < w
    &&& 0 <= index / w + dir_dy(d) < h
}

/// The cell one step from `index` in direction `d` on a board `w` cells wide.
pub open spec fn step_to(index: int, w: int, d: Direction) -> int {
    (index % w + dir_dx(d)) + (index / w + dir_dy(d)) * w
}

/// `j` lies one step away from `index` in some direction.
pub open spec fn is_neighbor(index: int, j: int, w: int, h: int) -> bool {
    exists|d: Direction| step_ok(index, w, h, d) && #[trigger] step_to(index, w, d) == j
}

impl CaseValue {
    /// Whether the cell holds no stone and no obstacle.
    pub open spec fn is_empty_cell(self) -> bool {
        self is White || self is Yellow
    }

    /// Exec mirror of [`CaseValue::is_empty_cell`].
    pub fn empty(&self) -> (r: bool)
        ensures
            r == self.is_empty_cell(),
    {
        *self == CaseValue::White || *self == CaseValue::Yellow
    }

    /// The opposing stone colour.
    pub open spec fn other_color(self) -> CaseValue {
        match self {
            CaseValue::Red => CaseValue::Blue,
            _ => CaseValue::Red,
        }
    }

    /// Exec mirror of [`CaseValue::other_color`], defined on stones only.
    pub fn invert(&self) -> (r: CaseValue)
        requires
            *self is Red || *self is Blue,
        ensures
            r == self.other_color(),
    {
        match self {
            CaseValue::Red => CaseValue::Blue,
            _ => CaseValue::Red,
        }
    }
}

impl Direction {
    /// The opposite direction.
    pub fn mirror(&self) -> (r: Direction)
        ensures
            r == dir_mirror(*self),
    {
        match self {
            Direction::North => Direction::South,
            Direction::South => Direction::North,
            Direction::East => Direction::West,
            Direction::West => Direction::East,
            Direction::NorthEast => Direction::SouthWest,
            Direction::NorthWest => Direction::SouthEast,
            Direction::SouthEast => Direction::NorthWest,
            Direction::SouthWest => Direction::NorthEast,
        }
    }

    /// The linear offset of one step in this direction on a board `width`
    /// cells wide, in row-major cell order.
    pub fn offset(&self, width: usize) -> (r: isize)
        requires
            width < isize::MAX,
        ensures
            r == dir_dx(*self) + dir_dy(*self) * width,
    {
        let w = width as isize;
        proof {
            assert(w == width);
            assert(-w == (-1) * width);
        }
        match self {
            Direction::North => -w,
            Direction::East => 1,
            Direction::West => -1,
            Direction::South => w,
            Direction::NorthEast => -w + 1,
            Direction::NorthWest => -w - 1,
            Direction::SouthEast => w + 1,
            Direction::SouthWest => w - 1,
        }
    }

    /// The eight directions, in the order [`direction_order`] gives.
    pub fn all() -> (v: Vec<Direction>)
        ensures
            v@ == direction_order(),
    {
        let v = vec![
            Direction::North,
            Direction::East,
            Direction::West,
            Direction::South,
            Direction::NorthEast,
            Direction::NorthWest,
            Direction::SouthEast,
            Direction::SouthWest,
        ];
        proof {
            assert(v@ =~= direction_order());
        }
        v
    }
}

/// Backing storage for a board: a row-major sequence of cells with fixed
/// dimensions.
pub trait GridProvider: Sized {
    /// The cells, in row-major order.
    spec fn cells(&self) -> Seq<CaseValue>;

    /// The board width, in cells.
    spec fn grid_width(&self) -> nat;

    /// The board height, in cells.
    spec fn grid_height(&self) -> nat;

    fn width(&self) -> (r: usize)
        ensures
            r == self.grid_width(),
    ;

    fn height(&self) -> (r: usize)
        ensures
            r == self.grid_height(),
    ;

    fn get(&self, index: usize) -> (r: Option<CaseValue>)
        ensures
            match r {
                Some(v) => index < self.cells().len() && v == self.cells()[index as int],
                None => index >= self.cells().len(),
            },
    ;

    fn cell(&self, index: usize) -> (r: CaseValue)
        requires
            index < self.cells().len(),
        ensures
            r == self.cells()[index as int],
    ;

    fn set(&mut self, index: usize, value: CaseValue)
        requires
            index < old(self).cells().len(),
        ensures
            final(self).cells() == old(self).cells().update(index as int, value),
            final(self).grid_width() == old(self).grid_width(),
            final(self).grid_height() == old(self).grid_height(),
    ;

    /// A copy whose cells and dimensions equal this provider's.
    fn duplicate(&self) -> (r: Self)
        ensures
            r.cells() == self.cells(),
            r.grid_width() == self.grid_width(),
            r.grid_height() == self.grid_height(),
    ;
}

/// A heap-allocated provider whose dimensions are chosen at run time.
#[derive(Clone)]
pub struct VecProvider {
    height: usize,
    width: usize,
    cases: Vec<CaseValue>,
}

impl VecProvider {
    /// A `width`-by-`height` board with every cell playable.
    pub fn new(width: usize, height: usize) -> (r: Self)
        requires
            width * height <= usize::MAX,
        ensures
            r.grid_width() == width,
            r.grid_height() == height,
            r.cells().len() == width * height,
            forall|i: int| 0 <= i < r.cells().len() ==> r.cells()[i] == CaseValue::Yellow,
    {
        let n = width * height;
        let mut cases: Vec<CaseValue> = Vec::new();
        let mut i: usize = 0;
        while i < n
            invariant
                i <= n,
                cases@.len() == i,
                forall|k: int| 0 <= k < i ==> cases@[k] == CaseValue::Yellow,
            decreases n - i,
        {
            cases.push(CaseValue::Yellow);
            i += 1;
        }
        Self { height, width, cases }
    }
}

impl GridProvider for VecProvider {
    closed spec fn cells(&self) -> Seq<CaseValue> {
        self.cases@
    }

    closed spec fn grid_width(&self) -> nat {
        self.width as nat
    }

    closed spec fn grid_height(&self) -> nat {
        self.height as nat
    }

    fn width(&self) -> usize {
        self.width
    }

    fn height(&self) -> usize {
        self.height
    }

    fn get(&self, index: usize) -> Option<CaseValue> {
        if index < self.cases.len() {
            Some(self.cases[index])
        } else {
            None
        }
    }

    fn cell(&self, index: usize) -> CaseValue {
        self.cases[index]
    }

    fn set(&mut self, index: usize, value: CaseValue) {
        self.cases[index] = value;
    }

    fn duplicate(&self) -> (r: Self) {
        let mut cases: Vec<CaseValue> = Vec::new();
        let mut i: usize = 0;
        while i < self.cases.len()
            invariant
                i <= self.cases@.len(),
                cases@.len() == i,
                forall|k: int| 0 <= k < i ==> cases@[k] == self.cases@[k],
            decreases self.cases@.len() - i,
        {
            cases.push(self.cases[i]);
            i += 1;
        }
        proof {
            assert(cases@ =~= self.cases@);
        }
        Self { height: self.height, width: self.width, cases }
    }
}

/// A provider whose dimensions are fixed at compile time.
#[derive(Clone)]
pub struct ArrayProvider<const WIDTH: usize, const HEIGHT: usize> {
    cases: Vec<CaseValue>,
}

impl<const WIDTH: usize, const HEIGHT: usize> ArrayProvider<WIDTH, HEIGHT> {
    /// A `WIDTH`-by-`HEIGHT` board with every cell playable.
    pub fn new() -> (r: Self)
        requires
            WIDTH * HEIGHT <= usize::MAX,
        ensures
            r.grid_width() == WIDTH,
            r.grid_height() == HEIGHT,
            r.cells().len() == WIDTH * HEIGHT,
            forall|i: int| 0 <= i < r.cells().len() ==> r.cells()[i] == CaseValue::Yellow,
    {
        let n = WIDTH * HEIGHT;
        let mut cases: Vec<CaseValue> = Vec::new();
        let mut i: usize = 0;
        while i < n
            invariant
                i <= n,
                cases@.len() == i,
                forall|k: int| 0 <= k < i ==> cases@[k] == CaseValue::Yellow,
            decreases n - i,
        {
            cases.push(CaseValue::Yellow);
            i += 1;
        }
        Self { cases }
    }
}

impl<const WIDTH: usize, const HEIGHT: usize> GridProvider for ArrayProvider<WIDTH, HEIGHT> {
    closed spec fn cells(&self) -> Seq<CaseValue> {
        self.cases@
    }

    closed spec fn grid_width(&self) -> nat {
        WIDTH as nat
    }

    closed spec fn grid_height(&self) -> nat {
        HEIGHT as nat
    }

    fn width(&self) -> usize {
        WIDTH
    }

    fn height(&self) -> usize {
        HEIGHT
    }

    fn get(&self, index: usize) -> Option<CaseValue> {
        if index < self.cases.len() {
            Some(self.cases[index])
        } else {
            None
        }
    }

    fn cell(&self, index: usize) -> CaseValue {
        self.cases[index]
    }

    fn set(&mut self, index: usize, value: CaseValue) {
        self.cases[index] = value;
    }

    fn duplicate(&self) -> (r: Self) {
        let mut cases: Vec<CaseValue> = Vec::new();
        let mut i: usize = 0;
        while i < self.cases.len()
            invariant
                i <= self.cases@.len(),
                cases@.len() == i,
                forall|k: int| 0 <= k < i ==> cases@[k] == self.cases@[k],
            decreases self.cases@.len() - i,
        {
            cases.push(self.cases[i]);
            i += 1;
        }
        proof {
            assert(cases@ =~= self.cases@);
        }
        Self { cases }
    }
}

/// The mathematical state of a board.
pub ghost struct GridView {
    pub cells: Seq<CaseValue>,
    pub width: nat,
    pub height: nat,
    pub last_play: Option<int>,
    pub red_turn: bool,
    pub everything_yellow: bool,
}

impl GridView {
    /// Basic well-formedness: the cell sequence fills the rectangle and the
    /// recorded last play, if any, lies on the board.
    pub open spec fn wf(self) -> bool {
        &&& self.cells.len() == self.width * self.height
        &&& self.cells.len() <= usize::MAX
        &&& match self.last_play {
            Some(i) => 0 <= i < self.cells.len(),
            None => true,
        }
    }

    /// The colour whose turn it is to play.
    pub open spec fn mover_color(self) -> CaseValue {
        if self.red_turn {
            CaseValue::Red
        } else {
            CaseValue::Blue
        }
    }
}

/// A game board over some backing storage.
#[derive(Clone)]
pub struct Grid<T: GridProvider + Clone> {
    pub cases: T,
    pub last_play: Option<usize>,
    pub is_red_turn: bool,
    pub was_everything_yellow: bool,
}

impl<T: GridProvider + Clone> View for Grid<T> {
    type V = GridView;

    open spec fn view(&self) -> GridView {
        GridView {
            cells: self.cases.cells(),
            width: self.cases.grid_width(),
            height: self.cases.grid_height(),
            last_play: match self.last_play {
                Some(i) => Some(i as int),
                None => None,
            },
            red_turn: self.is_red_turn,
            everything_yellow: self.was_everything_yellow,
        }
    }
}

impl<T: GridProvider + Clone> Grid<T> {
    /// A fresh game over `grid_provider`: no play yet, red to move, and the
    /// whole board treated as freshly revealed.
    pub fn new(grid_provider: T) -> (r: Self)
        requires
            grid_provider.cells().len() == grid_provider.grid_width()
                * grid_provider.grid_height(),
            grid_provider.cells().len() <= usize::MAX,
        ensures
            r@.wf(),
            r@.cells == grid_provider.cells(),
            r@.width == grid_provider.grid_width(),
            r@.height == grid_provider.grid_height(),
            r@.last_play is None,
            r@.red_turn,
            r@.everything_yellow,
    {
        Self {
            cases: grid_provider,
            last_play: None,
            is_red_turn: true,
            was_everything_yellow: true,
        }
    }

    pub fn width(&self) -> (r: usize)
        ensures
            r == self@.width,
    {
        self.cases.width()
    }

    pub fn height(&self) -> (r: usize)
        ensures
            r == self@.height,
    {
        self.cases.height()
    }

    /// The row-major cell index of column `x` in row `y`.
    pub fn x_y_to_index(&self, x: usize, y: usize) -> (r: usize)
        requires
            self@.wf(),
            x < self@.width,
            y < self@.height,
        ensures
            r == x + y * self@.width,
            r < self@.cells.len(),
    {
        proof {
            lemma_xy_in_rectangle(x as int, y as int, self@.width as int, self@.height as int);
        }
        x + y * self.width()
    }

    pub fn get(&self, index: usize) -> (r: Option<CaseValue>)
        ensures
            match r {
                Some(v) => index < self@.cells.len() && v == self@.cells[index as int],
                None => index >= self@.cells.len(),
            },
    {
        self.cases.get(index)
    }

    /// Write `value` at `index`; out-of-range writes are ignored.
    pub fn set(&mut self, index: usize, value: CaseValue)
        ensures
            index < old(self)@.cells.len() ==> final(self)@ == (GridView {
                cells: old(self)@.cells.update(index as int, value),
                ..old(self)@
            }),
            index >= old(self)@.cells.len() ==> final(self)@ == old(self)@,
    {
        match self.cases.get(index) {
            Some(_) => self.cases.set(index, value),
            None => (),
        }
    }

    /// A board equal to this one, safe to explore hypothetical plays on.
    pub fn duplicate(&self) -> (r: Self)
        ensures
            r@ == self@,
    {
        Self {
            cases: self.cases.duplicate(),
            last_play: self.last_play,
            is_red_turn: self.is_red_turn,
            was_everything_yellow: self.was_everything_yellow,
        }
    }
}

impl<T: GridProvider + Clone> Grid<T> {
    /// The cell value at an in-range index.
    pub(crate) fn cell_at(&self, index: usize) -> (r: CaseValue)
        requires
            self@.wf(),
            index < self@.cells.len(),
        ensures
            r == self@.cells[index as int],
    {
        self.cases.cell(index)
    }

    /// The index one step from `index` in direction `dir`, or `None` when the
    /// step would leave the board or wrap around a row edge.
    pub fn follow(&self, index: usize, dir: Direction) -> (r: Option<usize>)
        requires
            self@.wf(),
            index < self@.cells.len(),
        ensures
            (match r {
                Some(u) => step_ok(index as int, self@.width as int, self@.height as int, dir)
                    && u == step_to(index as int, self@.width as int, dir) && u
                    < self@.cells.len(),
                None => !step_ok(index as int, self@.width as int, self@.height as int, dir),
            }),
    {
        let w = self.width();
        let h = self.height();
        proof {
            assert(w >= 1 && h >= 1) by (nonlinear_arith)
                requires
                    w * h > 0,
            ;
            lemma_index_decomposition(index as int, w as int, h as int);
        }
        let x = index % w;
        let y = index / w;
        proof {
            assert(y as int * w as int - w as int == (y as int - 1) * w as int && y as int * w
                as int + w as int == (y as int + 1) * w as int && w as int * y as int == y as int
                * w as int) by (nonlinear_arith);
            assert(y >= 1 ==> y as int * w as int >= w as int) by (nonlinear_arith)
                requires
                    w >= 1,
            ;
        }
        let can_west = x >= 1;
        let can_east = x + 1 < w;
        let can_north = y >= 1;
        let can_south = y + 1 < h;
        match dir {
            Direction::North => if can_north {
                proof {
                    lemma_xy_to_index(x as int, y as int - 1, w as int, h as int);
                }
                Some(index - w)
            } else {
                None
            },
            Direction::East => if can_east {
                proof {
                    lemma_xy_to_index(x as int + 1, y as int, w as int, h as int);
                }
                Some(index + 1)
            } else {
                None
            },
            Direction::West => if can_west {
                proof {
                    lemma_xy_to_index(x as int - 1, y as int, w as int, h as int);
                }
                Some(index - 1)
            } else {
                None
            },
            Direction::South => if can_south {
                proof {
                    lemma_xy_to_index(x as int, y as int + 1, w as int, h as int);
                }
                Some(index + w)
            } else {
                None
            },
            Direction::NorthEast => if can_north && can_east {
                proof {
                    lemma_xy_to_index(x as int + 1, y as int - 1, w as int, h as int);
                }
                Some(index - w + 1)
            } else {
                None
            },
            Direction::NorthWest => if can_north && can_west {
                proof {
                    lemma_xy_to_index(x as int - 1, y as int - 1, w as int, h as int);
                }
                Some(index - w - 1)
            } else {
                None
            },
            Direction::SouthEast => if can_south && can_east {
                proof {
                    lemma_xy_to_index(x as int + 1, y as int + 1, w as int, h as int);
                }
                Some(index + w + 1)
            } else {
                None
            },
            Direction::SouthWest => if can_south && can_west {
                proof {
                    lemma_xy_to_index(x as int - 1, y as int + 1, w as int, h as int);
                }
                Some(index + w - 1)
            } else {
                None
            },
        }
    }

    /// Withdraw playability everywhere: every `Yellow` cell becomes `White`.
    fn clear_all_yellow(&mut self)
        requires
            old(self)@.wf(),
        ensures
            final(self)@.wf(),
            same_frame(old(self)@, final(self)@),
            final(self)@.everything_yellow == old(self)@.everything_yellow,
            final(self)@.cells == clear_yellow(old(self)@.cells),
    {
        let ghost g0 = self@;
        let w = self.width();
        let h = self.height();
        let n = w * h;
        let mut i: usize = 0;
        while i < n
            invariant
                self@.wf(),
                i <= n,
                n == self@.cells.len(),
                same_frame(g0, self@),
                self@.everything_yellow == g0.everything_yellow,
                self@.cells.len() == g0.cells.len(),
                forall|k: int|
                    0 <= k < i ==> self@.cells[k] == (if g0.cells[k] is Yellow {
                        CaseValue::White
                    } else {
                        g0.cells[k]
                    }),
                forall|k: int| i <= k < n ==> self@.cells[k] == g0.cells[k],
            decreases n - i,
        {
            if self.cell_at(i) == CaseValue::Yellow {
                self.cases.set(i, CaseValue::White);
            }
            i += 1;
        }
        proof {
            assert(self@.cells =~= clear_yellow(g0.cells));
        }
    }

    /// Reveal every `White` cell on the board; report whether any was found.
    fn reveal_all_whites(&mut self) -> (found: bool)
        requires
            old(self)@.wf(),
        ensures
            final(self)@.wf(),
            same_frame(old(self)@, final(self)@),
            final(self)@.everything_yellow == old(self)@.everything_yellow,
            final(self)@.cells == reveal_all(old(self)@.cells),
            found == has_white(old(self)@.cells),
    {
        let ghost g0 = self@;
        let w = self.width();
        let h = self.height();
        let n = w * h;
        let mut found = false;
        let mut i: usize = 0;
        while i < n
            invariant
                self@.wf(),
                i <= n,
                n == self@.cells.len(),
                same_frame(g0, self@),
                self@.everything_yellow == g0.everything_yellow,
                self@.cells.len() == g0.cells.len(),
                found == exists|k: int| 0 <= k < i && g0.cells[k] is White,
                forall|k: int|
                    0 <= k < i ==> self@.cells[k] == (if g0.cells[k] is White {
                        CaseValue::Yellow
                    } else {
                        g0.cells[k]
                    }),
                forall|k: int| i <= k < n ==> self@.cells[k] == g0.cells[k],
            decreases n - i,
        {
            if self.cell_at(i) == CaseValue::White {
                found = true;
                self.cases.set(i, CaseValue::Yellow);
                proof {
                    assert(g0.cells[i as int] is White);
                }
            }
            i += 1;
        }
        proof {
            assert(self@.cells =~= reveal_all(g0.cells));
        }
        found
    }

    /// Turn each neighbour of `index` that holds `condition` into `value`.
    fn replace_around_if(&mut self, index: usize, value: CaseValue, condition: CaseValue)
        requires
            old(self)@.wf(),
            index < old(self)@.cells.len(),
            value != condition,
        ensures
            final(self)@.wf(),
            same_frame(old(self)@, final(self)@),
            final(self)@.everything_yellow == old(self)@.everything_yellow,
            final(self)@.cells == Seq::new(
                old(self)@.cells.len(),
                |i: int|
                    if is_neighbor(
                        index as int,
                        i,
                        old(self)@.width as int,
                        old(self)@.height as int,
                    ) && old(self)@.cells[i] == condition {
                        value
                    } else {
                        old(self)@.cells[i]
                    },
            ),
    {
        let ghost g0 = self@;
        let ghost w = self@.width as int;
        let ghost h = self@.height as int;
        let dirs = Direction::all();
        let mut k: usize = 0;
        while k < 8
            invariant
                self@.wf(),
                k <= 8,
                dirs@ == direction_order(),
                value != condition,
                index < g0.cells.len(),
                w == g0.width as int,
                h == g0.height as int,
                g0.wf(),
                same_frame(g0, self@),
                self@.everything_yellow == g0.everything_yellow,
                self@.cells == spread_upto(g0.cells, index as int, w, h, k as int, value, condition),
                self@.cells.len() == g0.cells.len(),
            decreases 8 - k,
        {
            let dir = dirs[k];
            match self.follow(index, dir) {
                Some(u) => {
                    if self.cell_at(u) == condition {
                        self.cases.set(u, value);
                    }
                },
                None => (),
            }
            k += 1;
        }
        proof {
            lemma_spread_upto_pointwise(g0.cells, index as int, w, h, 8, value, condition);
            assert forall|i: int| 0 <= i < g0.cells.len() implies self@.cells[i] == (if is_neighbor(
                index as int,
                i,
                w,
                h,
            ) && g0.cells[i] == condition {
                value
            } else {
                g0.cells[i]
            }) by {
                lemma_hit_before_all(index as int, w, h, i);
            }
            assert(self@.cells =~= Seq::new(
                g0.cells.len(),
                |i: int|
                    if is_neighbor(index as int, i, w, h) && g0.cells[i] == condition {
                        value
                    } else {
                        g0.cells[i]
                    },
            ));
        }
    }

    /// The post-play spread-and-win check for a `compare` stone just placed
    /// at `index`: reveal `White` neighbours, detect a completed
    /// three-in-a-row, and fall back to a whole-board reveal (or a draw) when
    /// nothing local was revealed.
    #[verifier::rlimit(100)]
    fn check_direction_and_yellow_first(&mut self, index: usize, compare: CaseValue) -> (r:
        PlayResult)
        requires
            old(self)@.wf(),
            index < old(self)@.cells.len(),
            compare is Red || compare is Blue,
        ensures
            final(self)@.wf(),
            same_frame(old(self)@, final(self)@),
            spread_outcome(old(self)@, final(self)@, index as int, compare, r),
    {
        let ghost g0 = self@;
        let ghost w = self@.width as int;
        let ghost h = self@.height as int;
        let mut p = false;
        let mut matched: Vec<bool> = vec![false;8];
        let dirs = Direction::all();
        let mut k: usize = 0;
        while k < 8
            invariant
                self@.wf(),
                g0 == old(self)@,
                k <= 8,
                dirs@ == direction_order(),
                matched@.len() == 8,
                index < g0.cells.len(),
                w == g0.width as int,
                h == g0.height as int,
                g0.wf(),
                compare is Red || compare is Blue,
                same_frame(g0, self@),
                self@.everything_yellow == g0.everything_yellow,
                self@.cells == spread_upto(
                    g0.cells,
                    index as int,
                    w,
                    h,
                    k as int,
                    CaseValue::Yellow,
                    CaseValue::White,
                ),
                self@.cells.len() == g0.cells.len(),
                p == white_seen_before(g0.cells, index as int, w, h, k as int),
                forall|k2: int|
                    0 <= k2 < 8 ==> (matched@[k2] <==> (k2 < k && dir_matches(
                        g0.cells,
                        index as int,
                        w,
                        h,
                        compare,
                        direction_order()[k2],
                    ))),
                forall|k2: int|
                    0 <= k2 < k ==> !#[trigger] triggers_win_at(
                        g0.cells,
                        index as int,
                        w,
                        h,
                        compare,
                        k2,
                    ),
            decreases 8 - k,
        {
            let dir = dirs[k];
            proof {
                lemma_spread_upto_pointwise(
                    g0.cells,
                    index as int,
                    w,
                    h,
                    k as int,
                    CaseValue::Yellow,
                    CaseValue::White,
                );
            }
            match self.follow(index, dir) {
                Some(u) => {
                    proof {
                        if hit_before(index as int, w, h, u as int, k as int) {
                            let k2 = choose|k2: int|
                                0 <= k2 < k && step_ok(index as int, w, h, direction_order()[k2])
                                    && #[trigger] step_to(index as int, w, direction_order()[k2])
                                    == u as int;
                            lemma_step_to_injective(
                                index as int,
                                w,
                                h,
                                direction_order()[k2],
                                dir,
                            );
                            lemma_direction_order_injective(k2, k as int);
                            assert(false);
                        }
                        assert(self@.cells[u as int] == g0.cells[u as int]);
                    }
                    let o = self.cell_at(u);
                    if o == CaseValue::White {
                        p = true;
                        self.cases.set(u, CaseValue::Yellow);
                        proof {
                            assert(white_seen_before(
                                g0.cells,
                                index as int,
                                w,
                                h,
                                k as int + 1,
                            )) by {
                                assert(step_ok(index as int, w, h, direction_order()[k as int])
                                    && g0.cells[step_to(
                                    index as int,
                                    w,
                                    direction_order()[k as int],
                                )] is White);
                            }
                        }
                    } else if o == compare {
                        let mi = dir_index(dir.mirror());
                        if matched[mi] {
                            proof {
                                assert(three_in_dir(
                                    g0.cells,
                                    index as int,
                                    w,
                                    h,
                                    compare,
                                    dir,
                                ));
                                assert(triggers_win_at(
                                    g0.cells,
                                    index as int,
                                    w,
                                    h,
                                    compare,
                                    k as int,
                                ));
                                lemma_first_win_from_exact(
                                    g0.cells,
                                    index as int,
                                    w,
                                    h,
                                    compare,
                                    k as int,
                                    0,
                                );
                                self.lemma_partial_reveal(g0, index as int, k as int);
                            }
                            if compare == CaseValue::Red {
                                return PlayResult::RedWin;
                            } else {
                                return PlayResult::BlueWin;
                            }
                        }
                        let di = dir_index(dir);
                        matched[di] = true;
                        match self.follow(u, dir) {
                            Some(u2) => {
                                proof {
                                    assert(self@.cells[u2 as int] == compare <==> g0.cells[u2
                                        as int] == compare);
                                }
                                if self.cell_at(u2) == compare {
                                    proof {
                                        assert(three_in_dir(
                                            g0.cells,
                                            index as int,
                                            w,
                                            h,
                                            compare,
                                            dir,
                                        ));
                                        assert(triggers_win_at(
                                            g0.cells,
                                            index as int,
                                            w,
                                            h,
                                            compare,
                                            k as int,
                                        ));
                                        lemma_first_win_from_exact(
                                            g0.cells,
                                            index as int,
                                            w,
                                            h,
                                            compare,
                                            k as int,
                                            0,
                                        );
                                        self.lemma_partial_reveal(g0, index as int, k as int);
                                    }
                                    if compare == CaseValue::Red {
                                        return PlayResult::RedWin;
                                    } else {
                                        return PlayResult::BlueWin;
                                    }
                                }
                            },
                            None => (),
                        }
                    }
                },
                None => (),
            }
            k += 1;
        }
        proof {
            lemma_spread_upto_pointwise(
                g0.cells,
                index as int,
                w,
                h,
                8,
                CaseValue::Yellow,
                CaseValue::White,
            );
            lemma_wins_iff_some_trigger(g0.cells, index as int, w, h, compare);
            assert(!wins_at(g0.cells, index as int, w, h, compare)) by {
                if wins_at(g0.cells, index as int, w, h, compare) {
                    let k2 = choose|k2: int|
                        0 <= k2 < 8 && #[trigger] triggers_win_at(
                            g0.cells,
                            index as int,
                            w,
                            h,
                            compare,
                            k2,
                        );
                    assert(false);
                }
            }
            lemma_white_seen_all(g0.cells, index as int, w, h);
        }
        if !p {
            proof {
                assert forall|j: int| 0 <= j < g0.cells.len() implies self@.cells[j]
                    == g0.cells[j] by {
                    if hit_before(index as int, w, h, j, 8) && g0.cells[j] is White {
                        let k2 = choose|k2: int|
                            0 <= k2 < 8 && step_ok(index as int, w, h, direction_order()[k2])
                                && #[trigger] step_to(index as int, w, direction_order()[k2])
                                == j;
                        assert(white_seen_before(g0.cells, index as int, w, h, 8));
                    }
                }
                assert(self@.cells =~= g0.cells);
            }
            let found = self.reveal_all_whites();
            self.was_everything_yellow = true;
            if !found {
                proof {
                    assert(self@.cells =~= g0.cells);
                }
                return PlayResult::NobodyWin;
            }
            PlayResult::Played
        } else {
            self.was_everything_yellow = false;
            proof {
                assert forall|j: int| 0 <= j < g0.cells.len() implies self@.cells[j]
                    == reveal_around(g0.cells, index as int, w, h)[j] by {
                    lemma_hit_before_all(index as int, w, h, j);
                }
                assert(self@.cells =~= reveal_around(g0.cells, index as int, w, h));
            }
            PlayResult::Played
        }
    }

    /// On an early (winning) return, every cell is either untouched or a
    /// revealed `White` neighbour of `index`.
    proof fn lemma_partial_reveal(&self, g0: GridView, index: int, k: int)
        requires
            g0.wf(),
            0 <= index < g0.cells.len(),
            0 <= k <= 8,
            self@.cells == spread_upto(
                g0.cells,
                index,
                g0.width as int,
                g0.height as int,
                k,
                CaseValue::Yellow,
                CaseValue::White,
            ),
        ensures
            self@.cells.len() == g0.cells.len(),
            forall|j: int|
                0 <= j < g0.cells.len() ==> self@.cells[j] == g0.cells[j] || (g0.cells[j] is White
                    && is_neighbor(index, j, g0.width as int, g0.height as int)
                    && self@.cells[j] is Yellow),
    {
        let w = g0.width as int;
        let h = g0.height as int;
        lemma_spread_upto_pointwise(
            g0.cells,
            index,
            w,
            h,
            k,
            CaseValue::Yellow,
            CaseValue::White,
        );
        assert forall|j: int|
            0 <= j < g0.cells.len() implies self@.cells[j] == g0.cells[j] || (g0.cells[j] is White
            && is_neighbor(index, j, w, h) && self@.cells[j] is Yellow) by {
            if self@.cells[j] != g0.cells[j] {
                let k2 = choose|k2: int|
                    0 <= k2 < k && step_ok(index, w, h, direction_order()[k2]) && #[trigger]
                    step_to(index, w, direction_order()[k2]) == j;
                assert(is_neighbor(index, j, w, h));
            }
        }
    }

    /// Play the mover's stone at `index`.
    ///
    /// A non-playable index is rejected with `InvalidPosition` and the board
    /// is left untouched.  A playable one runs the pre-play spread, places
    /// the stone, flips the turn, records the play, and runs the post-play
    /// spread-and-win check, whose result is returned; the full effect is
    /// [`play_transition`].
    pub fn play(&mut self, index: usize) -> (r: PlayResult)
        requires
            old(self)@.wf(),
        ensures
            final(self)@.wf(),
            r == PlayResult::InvalidPosition <==> !play_valid(old(self)@, index as int),
            !play_valid(old(self)@, index as int) ==> final(self)@ == old(self)@,
            play_valid(old(self)@, index as int) ==> play_transition(
                old(self)@,
                final(self)@,
                index as int,
                r,
            ),
            final(self)@ == play_next(old(self)@, index as int),
            r == play_result_of(old(self)@, index as int),
    {
        let ghost g0 = self@;
        let is_yellow = match self.get(index) {
            Some(CaseValue::Yellow) => true,
            _ => false,
        };
        if !is_yellow {
            return PlayResult::InvalidPosition;
        }
        if self.was_everything_yellow {
            self.clear_all_yellow();
        } else {
            match self.last_play {
                Some(e) => self.replace_around_if(e, CaseValue::White, CaseValue::Yellow),
                None => (),
            }
        }
        proof {
            assert(self@.cells =~= pre_spread(g0));
        }
        let turn_case_color = if self.is_red_turn {
            CaseValue::Red
        } else {
            CaseValue::Blue
        };
        self.set(index, turn_case_color);
        self.is_red_turn = !self.is_red_turn;
        self.last_play = Some(index);
        proof {
            assert(self@ == after_place(g0, index as int));
        }
        let r = self.check_direction_and_yellow_first(index, turn_case_color);
        proof {
            lemma_play_result_classification(g0, self@, index as int, r);
            lemma_play_is_a_function(g0, self@, index as int, r);
        }
        r
    }

    /// The currently playable cell indices, in increasing order.
    pub fn get_yellows(&self) -> (v: Vec<usize>)
        requires
            self@.wf(),
        ensures
            v@ == yellow_indices(self@.cells),
    {
        let w = self.width();
        let h = self.height();
        let n = w * h;
        let mut v: Vec<usize> = Vec::new();
        let mut i: usize = 0;
        while i < n
            invariant
                self@.wf(),
                i <= n,
                n == self@.cells.len(),
                v@ == yellows_upto(self@.cells, i as int),
            decreases n - i,
        {
            if self.cell_at(i) == CaseValue::Yellow {
                v.push(i);
            }
            i += 1;
        }
        v
    }

    /// Play a uniformly chosen playable cell; with none, reject the move and
    /// leave the board untouched.
    pub fn random_play(&mut self) -> (r: PlayResult)
        requires
            old(self)@.wf(),
        ensures
            final(self)@.wf(),
            !has_yellow(old(self)@.cells) ==> r == PlayResult::InvalidPosition && final(self)@
                == old(self)@,
            has_yellow(old(self)@.cells) ==> r != PlayResult::InvalidPosition && (exists|i: int|
                play_valid(old(self)@, i) && #[trigger] play_transition(
                    old(self)@,
                    final(self)@,
                    i,
                    r,
                )),
    {
        let ghost g0 = self@;
        let ys = self.get_yellows();
        proof {
            lemma_yellows_upto_properties(g0.cells, g0.cells.len() as int);
        }
        if ys.len() == 0 {
            proof {
                if has_yellow(g0.cells) {
                    let j = choose|j: int| 0 <= j < g0.cells.len() && g0.cells[j] is Yellow;
                    assert(yellow_indices(g0.cells).contains(j as usize));
                    assert(false);
                }
            }
            return PlayResult::InvalidPosition;
        }
        let j = random_below(ys.len());
        let i = ys[j];
        let r = self.play(i);
        proof {
            assert(g0.cells[ys@[j as int] as int] is Yellow);
            assert(play_valid(g0, i as int));
            assert(play_transition(g0, self@, i as int, r));
        }
        r
    }

    /// The board drawn as text, one row per line: `R` and `B` for stones,
    /// `-` for playable cells, a space for hidden ones, `#` for obstacles.
    pub fn render(&self) -> (s: String)
        requires
            self@.wf(),
        ensures
            s@ == render_spec(self@.cells, self@.width as int),
    {
        let w = self.width();
        let h = self.height();
        let n = w * h;
        let mut s = String::new();
        let mut i: usize = 0;
        while i < n
            invariant
                self@.wf(),
                i <= n,
                w == self@.width,
                n == w * h,
                n == self@.cells.len(),
                s@ == render_upto(self@.cells, w as int, i as int),
            decreases n - i,
        {
            proof {
                assert(w >= 1) by (nonlinear_arith)
                    requires
                        n == w * h,
                        n > 0,
                ;
            }
            if i % w == 0 {
                push_char(&mut s, '\n');
            }
            let c = match self.cell_at(i) {
                CaseValue::Red => 'R',
                CaseValue::Blue => 'B',
                CaseValue::Yellow => '-',
                CaseValue::White => ' ',
                CaseValue::Black => '#',
            };
            push_char(&mut s, c);
            i += 1;
        }
        push_char(&mut s, '\n');
        s
    }

    /// Scatter up to `i` permanent obstacles at positions drawn from
    /// `rand_func`, reduced modulo the board size.  The final board is the
    /// old one with exactly one cell blackened per draw (repeated draws may
    /// hit the same cell), for some sequence of `i` values the closure can
    /// return.
    pub fn place_blocks<F: Fn() -> usize>(&mut self, i: usize, rand_func: F)
        requires
            old(self)@.wf(),
            old(self)@.cells.len() > 0,
            rand_func.requires(()),
        ensures
            final(self)@.wf(),
            same_frame(old(self)@, final(self)@),
            final(self)@.everything_yellow == old(self)@.everything_yellow,
            final(self)@.cells.len() == old(self)@.cells.len(),
            exists|draws: Seq<usize>|
                {
                    &&& draws.len() == i
                    &&& (forall|k: int| 0 <= k < i ==> rand_func.ensures((), #[trigger] draws[k]))
                    &&& final(self)@.cells == blacken_cells(old(self)@.cells, draws)
                },
            forall|j: int|
                0 <= j < old(self)@.cells.len() ==> final(self)@.cells[j] == old(self)@.cells[j]
                    || final(self)@.cells[j] is Black,
    {
        let ghost g0 = self@;
        let ghost mut draws: Seq<usize> = Seq::empty();
        let mut t: usize = 0;
        while t < i
            invariant
                self@.wf(),
                g0.wf(),
                g0.cells.len() > 0,
                rand_func.requires(()),
                same_frame(g0, self@),
                self@.everything_yellow == g0.everything_yellow,
                self@.cells.len() == g0.cells.len(),
                t <= i,
                draws.len() == t,
                forall|k: int| 0 <= k < t ==> rand_func.ensures((), #[trigger] draws[k]),
                self@.cells == blacken_cells(g0.cells, draws),
                forall|j: int|
                    0 <= j < g0.cells.len() ==> self@.cells[j] == g0.cells[j]
                        || self@.cells[j] is Black,
            decreases i - t,
        {
            let rnd = rand_func();
            proof {
                assert(self@.height * self@.width == self@.width * self@.height)
                    by (nonlinear_arith);
            }
            let n = self.height() * self.width();
            self.set(rnd % n, CaseValue::Black);
            proof {
                assert(draws.push(rnd).drop_last() =~= draws);
                draws = draws.push(rnd);
            }
            t += 1;
        }
    }

    /// [`Grid::follow`] together with the value of the reached cell.
    pub fn follow_and_get(&self, index: usize, dir: Direction) -> (r: Option<(usize, CaseValue)>)
        requires
            self@.wf(),
            index < self@.cells.len(),
        ensures
            (match r {
                Some(p) => step_ok(index as int, self@.width as int, self@.height as int, dir)
                    && p.0 == step_to(index as int, self@.width as int, dir) && p.0
                    < self@.cells.len() && p.1 == self@.cells[p.0 as int],
                None => !step_ok(index as int, self@.width as int, self@.height as int, dir),
            }),
    {
        match self.follow(index, dir) {
            Some(u) => Some((u, self.cell_at(u))),
            None => None,
        }
    }
}

/// Row/column decomposition of an in-range row-major index.
pub proof fn lemma_index_decomposition(index: int, w: int, h: int)
    requires
        w >= 1,
        0 <= index < w * h,
    ensures
        index == w * (index / w) + index % w,
        0 <= index % w < w,
        0 <= index / w < h,
{
    vstd::arithmetic::div_mod::lemma_fundamental_div_mod(index, w);
    vstd::arithmetic::div_mod::lemma_mod_bound(index, w);
    assert(0 <= index / w) by (nonlinear_arith)
        requires
            w >= 1,
            0 <= index,
            index == w * (index / w) + index % w,
            0 <= index % w < w,
    ;
    assert(index / w < h) by (nonlinear_arith)
        requires
            w >= 1,
            index < w * h,
            index == w * (index / w) + index % w,
            0 <= index % w < w,
    ;
}

/// The row-major index of column `x` in row `y` decomposes back to `x`, `y`.
pub proof fn lemma_xy_to_index(x: int, y: int, w: int, h: int)
    requires
        w >= 1,
        0 <= x < w,
        0 <= y < h,
    ensures
        0 <= x + y * w < w * h,
        (x + y * w) % w == x,
        (x + y * w) / w == y,
{
    lemma_xy_in_rectangle(x, y, w, h);
    vstd::arithmetic::div_mod::lemma_fundamental_div_mod_converse(x + y * w, w, y, x);
}

/// Distinct directions whose steps both stay on the board reach distinct
/// cells.
pub proof fn lemma_step_to_injective(index: int, w: int, h: int, d1: Direction, d2: Direction)
    requires
        w >= 1,
        0 <= index < w * h,
        step_ok(index, w, h, d1),
        step_ok(index, w, h, d2),
        step_to(index, w, d1) == step_to(index, w, d2),
    ensures
        d1 == d2,
{
    let x = index % w;
    let y = index / w;
    lemma_index_decomposition(index, w, h);
    lemma_xy_to_index(x + dir_dx(d1), y + dir_dy(d1), w, h);
    lemma_xy_to_index(x + dir_dx(d2), y + dir_dy(d2), w, h);
    assert(x + dir_dx(d1) == x + dir_dx(d2));
    assert(y + dir_dy(d1) == y + dir_dy(d2));
}

/// A step in a valid direction never stays in place.
pub proof fn lemma_step_to_moves(index: int, w: int, h: int, d: Direction)
    requires
        w >= 1,
        0 <= index < w * h,
        step_ok(index, w, h, d),
    ensures
        step_to(index, w, d) != index,
        0 <= step_to(index, w, d) < w * h,
{
    let x = index % w;
    let y = index / w;
    lemma_index_decomposition(index, w, h);
    lemma_xy_to_index(x + dir_dx(d), y + dir_dy(d), w, h);
    assert(step_to(index, w, d) == index ==> x + dir_dx(d) == x && y + dir_dy(d) == y);
}

/// Every `Yellow` cell turned `White`.
pub open spec fn clear_yellow(c: Seq<CaseValue>) -> Seq<CaseValue> {
    Seq::new(c.len(), |i: int| if c[i] is Yellow {
        CaseValue::White
    } else {
        c[i]
    })
}

/// Every `Yellow` neighbour of `lp` turned `White`.
pub open spec fn spread_around(c: Seq<CaseValue>, lp: int, w: int, h: int) -> Seq<CaseValue> {
    Seq::new(c.len(), |i: int| if is_neighbor(lp, i, w, h) && c[i] is Yellow {
        CaseValue::White
    } else {
        c[i]
    })
}

/// Every `White` neighbour of `index` revealed (`Yellow`).
pub open spec fn reveal_around(c: Seq<CaseValue>, index: int, w: int, h: int) -> Seq<CaseValue> {
    Seq::new(c.len(), |i: int| if is_neighbor(index, i, w, h) && c[i] is White {
        CaseValue::Yellow
    } else {
        c[i]
    })
}

/// Every `White` cell on the board revealed (`Yellow`).
pub open spec fn reveal_all(c: Seq<CaseValue>) -> Seq<CaseValue> {
    Seq::new(c.len(), |i: int| if c[i] is White {
        CaseValue::Yellow
    } else {
        c[i]
    })
}

/// Some cell on the board is `White`.
pub open spec fn has_white(c: Seq<CaseValue>) -> bool {
    exists|i: int| 0 <= i < c.len() && c[i] is White
}

/// Some neighbour of `index` is `White`.
pub open spec fn has_white_neighbor(c: Seq<CaseValue>, index: int, w: int, h: int) -> bool {
    exists|d: Direction|
        #[trigger] step_ok(index, w, h, d) && c[step_to(index, w, d)] is White
}

/// The neighbour of `index` in direction `d` exists and holds `color`.
pub open spec fn dir_matches(
    c: Seq<CaseValue>,
    index: int,
    w: int,
    h: int,
    color: CaseValue,
    d: Direction,
) -> bool {
    step_ok(index, w, h, d) && c[step_to(index, w, d)] == color
}

/// The two cells after `index` in direction `d` both exist and the second
/// also holds `color` (the first is covered by [`dir_matches`]).
pub open spec fn extends_in_dir(
    c: Seq<CaseValue>,
    index: int,
    w: int,
    h: int,
    color: CaseValue,
    d: Direction,
) -> bool {
    step_ok(step_to(index, w, d), w, h, d) && c[step_to(step_to(index, w, d), w, d)] == color
}

/// A stone at `index` completes three `color` stones in a row along the axis
/// of `d`: either as the middle stone or as an endpoint.
pub open spec fn three_in_dir(
    c: Seq<CaseValue>,
    index: int,
    w: int,
    h: int,
    color: CaseValue,
    d: Direction,
) -> bool {
    dir_matches(c, index, w, h, color, d) && (dir_matches(
        c,
        index,
        w,
        h,
        color,
        dir_mirror(d),
    ) || extends_in_dir(c, index, w, h, color, d))
}

/// A stone just placed at `index` completes three `color` stones in a row in
/// some direction.
pub open spec fn wins_at(c: Seq<CaseValue>, index: int, w: int, h: int, color: CaseValue) -> bool {
    exists|d: Direction| #[trigger] three_in_dir(c, index, w, h, color, d)
}

/// The position of `d` in [`direction_order`].
pub open spec fn dir_position(d: Direction) -> int {
    match d {
        Direction::North => 0,
        Direction::East => 1,
        Direction::West => 2,
        Direction::South => 3,
        Direction::NorthEast => 4,
        Direction::NorthWest => 5,
        Direction::SouthEast => 6,
        Direction::SouthWest => 7,
    }
}

/// The win check, visiting directions in order, first detects the win while
/// processing the `k`-th direction: its neighbour holds `color`, and either
/// the mirror direction was already seen to match, or the next cell out also
/// holds `color`.
pub open spec fn triggers_win_at(
    c: Seq<CaseValue>,
    index: int,
    w: int,
    h: int,
    color: CaseValue,
    k: int,
) -> bool {
    let d = direction_order()[k];
    let m = dir_mirror(d);
    dir_matches(c, index, w, h, color, d) && ((dir_position(m) < k && dir_matches(
        c,
        index,
        w,
        h,
        color,
        m,
    )) || extends_in_dir(c, index, w, h, color, d))
}

/// The first direction position at which the win check, started at `k`,
/// detects a win; 8 when none does.
pub open spec fn first_win_from(
    c: Seq<CaseValue>,
    index: int,
    w: int,
    h: int,
    color: CaseValue,
    k: int,
) -> int
    decreases 8 - k,
{
    if k >= 8 {
        8
    } else if triggers_win_at(c, index, w, h, color, k) {
        k
    } else {
        first_win_from(c, index, w, h, color, k + 1)
    }
}

/// The direction position at which the win check detects a win; 8 when it
/// detects none.
pub open spec fn first_win_step(c: Seq<CaseValue>, index: int, w: int, h: int, color: CaseValue)
    -> int {
    first_win_from(c, index, w, h, color, 0)
}

/// `first_win_from` finds the earliest triggering position.
pub proof fn lemma_first_win_from_exact(
    c: Seq<CaseValue>,
    index: int,
    w: int,
    h: int,
    color: CaseValue,
    k: int,
    j: int,
)
    requires
        0 <= j <= k < 8,
        triggers_win_at(c, index, w, h, color, k),
        forall|k2: int| j <= k2 < k ==> !triggers_win_at(c, index, w, h, color, k2),
    ensures
        first_win_from(c, index, w, h, color, j) == k,
    decreases k - j,
{
    if j < k {
        lemma_first_win_from_exact(c, index, w, h, color, k, j + 1);
    }
}

/// The win predicate holds exactly when some direction position triggers
/// the ordered win check.
pub proof fn lemma_wins_iff_some_trigger(
    c: Seq<CaseValue>,
    index: int,
    w: int,
    h: int,
    color: CaseValue,
)
    ensures
        wins_at(c, index, w, h, color) <==> exists|k: int|
            0 <= k < 8 && #[trigger] triggers_win_at(c, index, w, h, color, k),
{
    if wins_at(c, index, w, h, color) {
        let d = choose|d: Direction| #[trigger] three_in_dir(c, index, w, h, color, d);
        let a = dir_position(d);
        assert(direction_order()[a] == d);
        if extends_in_dir(c, index, w, h, color, d) {
            assert(triggers_win_at(c, index, w, h, color, a));
        } else {
            let m = dir_mirror(d);
            let b = dir_position(m);
            assert(direction_order()[b] == m);
            assert(a != b);
            if b < a {
                assert(triggers_win_at(c, index, w, h, color, a));
            } else {
                assert(dir_mirror(m) == d);
                assert(triggers_win_at(c, index, w, h, color, b));
            }
        }
    }
    if exists|k: int| 0 <= k < 8 && #[trigger] triggers_win_at(c, index, w, h, color, k) {
        let k = choose|k: int| 0 <= k < 8 && #[trigger] triggers_win_at(c, index, w, h, color, k);
        let d = direction_order()[k];
        assert(three_in_dir(c, index, w, h, color, d));
    }
}

/// The result a win by `color` yields.
pub open spec fn win_result(color: CaseValue) -> PlayResult {
    if color is Red {
        PlayResult::RedWin
    } else {
        PlayResult::BlueWin
    }
}

/// `index` can be played on `g`: it is on the board and playable.
pub open spec fn play_valid(g: GridView, index: int) -> bool {
    0 <= index < g.cells.len() && g.cells[index] is Yellow
}

/// The cells after the pre-play spread: playability withdrawn everywhere if
/// the last spread reset the whole board, else only around the last play.
pub open spec fn pre_spread(g: GridView) -> Seq<CaseValue> {
    if g.everything_yellow {
        clear_yellow(g.cells)
    } else {
        match g.last_play {
            Some(lp) => spread_around(g.cells, lp, g.width as int, g.height as int),
            None => g.cells,
        }
    }
}

/// The board right after the pre-play spread and the stone placement at
/// `index`, before the post-play spread-and-win check runs.
pub open spec fn after_place(g: GridView, index: int) -> GridView {
    GridView {
        cells: pre_spread(g).update(index, g.mover_color()),
        width: g.width,
        height: g.height,
        last_play: Some(index),
        red_turn: !g.red_turn,
        everything_yellow: g.everything_yellow,
    }
}

/// All board fields except the cells and the spread flag agree.
pub open spec fn same_frame(a: GridView, b: GridView) -> bool {
    &&& a.width == b.width
    &&& a.height == b.height
    &&& a.last_play == b.last_play
    &&& a.red_turn == b.red_turn
}

/// How the post-play spread-and-win check relates the board `g` it starts
/// from to the board `g2` it leaves, for a stone of `color` just placed at
/// `index`.
///
/// On a win the reveal stops early: exactly the `White` neighbours visited
/// before the first direction that detects the win have been revealed, and
/// every other cell is untouched.  Otherwise all of them are revealed, and
/// when there was none, the whole board's `White` cells are revealed
/// instead — the draw (`NobodyWin`) is reported exactly when that global
/// sweep finds nothing either.
pub open spec fn spread_outcome(
    g: GridView,
    g2: GridView,
    index: int,
    color: CaseValue,
    r: PlayResult,
) -> bool {
    let w = g.width as int;
    let h = g.height as int;
    let won = wins_at(g.cells, index, w, h, color);
    &&& (won ==> {
        &&& r == win_result(color)
        &&& g2.everything_yellow == g.everything_yellow
        &&& g2.cells.len() == g.cells.len()
        &&& g2.cells == spread_upto(
            g.cells,
            index,
            w,
            h,
            first_win_step(g.cells, index, w, h, color),
            CaseValue::Yellow,
            CaseValue::White,
        )
        &&& (forall|j: int|
            0 <= j < g.cells.len() ==> g2.cells[j] == g.cells[j] || (g.cells[j] is White
                && is_neighbor(index, j, w, h) && g2.cells[j] is Yellow))
    })
    &&& (!won ==> {
        if has_white_neighbor(g.cells, index, w, h) {
            &&& r == PlayResult::Played
            &&& g2.cells == reveal_around(g.cells, index, w, h)
            &&& !g2.everything_yellow
        } else if has_white(g.cells) {
            &&& r == PlayResult::Played
            &&& g2.cells == reveal_all(g.cells)
            &&& g2.everything_yellow
        } else {
            &&& r == PlayResult::NobodyWin
            &&& g2.cells == g.cells
            &&& g2.everything_yellow
        }
    })
}

/// The full effect of a successful `play(index)` on board `g`: the pre-play
/// spread runs, the mover's stone lands on `index`, the turn flips, the play
/// is recorded, and the post-play spread-and-win check produces `r`.
pub open spec fn play_transition(g: GridView, g2: GridView, index: int, r: PlayResult) -> bool {
    &&& g2.width == g.width
    &&& g2.height == g.height
    &&& g2.red_turn == !g.red_turn
    &&& g2.last_play == Some(index)
    &&& spread_outcome(after_place(g, index), g2, index, g.mover_color(), r)
}

/// The board a play at `index` leaves behind, as a function of the board it
/// finds: unchanged for a rejected play, else the placed board with the
/// post-play spread applied — cut short at the winning direction, local, or
/// board-wide, as the cases of [`spread_outcome`] describe.
pub open spec fn play_next(g: GridView, index: int) -> GridView {
    if !play_valid(g, index) {
        g
    } else {
        let mid = after_place(g, index);
        let w = g.width as int;
        let h = g.height as int;
        let c = g.mover_color();
        if wins_at(mid.cells, index, w, h, c) {
            GridView {
                cells: spread_upto(
                    mid.cells,
                    index,
                    w,
                    h,
                    first_win_step(mid.cells, index, w, h, c),
                    CaseValue::Yellow,
                    CaseValue::White,
                ),
                everything_yellow: g.everything_yellow,
                ..mid
            }
        } else if has_white_neighbor(mid.cells, index, w, h) {
            GridView { cells: reveal_around(mid.cells, index, w, h), everything_yellow: false, ..mid }
        } else if has_white(mid.cells) {
            GridView { cells: reveal_all(mid.cells), everything_yellow: true, ..mid }
        } else {
            GridView { everything_yellow: true, ..mid }
        }
    }
}

/// The result a play at `index` returns, as a function of the board.
pub open spec fn play_result_of(g: GridView, index: int) -> PlayResult {
    if !play_valid(g, index) {
        PlayResult::InvalidPosition
    } else {
        let mid = after_place(g, index);
        let w = g.width as int;
        let h = g.height as int;
        let c = g.mover_color();
        if wins_at(mid.cells, index, w, h, c) {
            win_result(c)
        } else if has_white(mid.cells) {
            PlayResult::Played
        } else {
            PlayResult::NobodyWin
        }
    }
}

/// The transition relation of a valid play determines the next board and
/// the result: [`play_next`] and [`play_result_of`] are its one solution.
pub proof fn lemma_play_is_a_function(g: GridView, g2: GridView, index: int, r: PlayResult)
    requires
        g.wf(),
        play_valid(g, index),
        play_transition(g, g2, index, r),
    ensures
        g2 == play_next(g, index),
        r == play_result_of(g, index),
{
    let mid = after_place(g, index);
    let w = g.width as int;
    let h = g.height as int;
    let c = g.mover_color();
    if !wins_at(mid.cells, index, w, h, c) && has_white_neighbor(mid.cells, index, w, h) {
        let d = choose|d: Direction|
            #[trigger] step_ok(index, w, h, d) && mid.cells[step_to(index, w, d)] is White;
        assert(w >= 1) by (nonlinear_arith)
            requires
                0 <= index,
                index < w * h,
                h >= 0,
        ;
        lemma_step_to_moves(index, w, h, d);
        assert(has_white(mid.cells));
    }
}

/// One step of the neighbourhood sweep: if the step in direction `d` stays
/// on the board and reaches a `condition` cell, that cell becomes `value`.
pub open spec fn spread_step(
    c: Seq<CaseValue>,
    index: int,
    w: int,
    h: int,
    d: Direction,
    value: CaseValue,
    condition: CaseValue,
) -> Seq<CaseValue> {
    if step_ok(index, w, h, d) && c[step_to(index, w, d)] == condition {
        c.update(step_to(index, w, d), value)
    } else {
        c
    }
}

/// The neighbourhood sweep after the first `k` directions of
/// [`direction_order`] have been visited.
pub open spec fn spread_upto(
    c: Seq<CaseValue>,
    index: int,
    w: int,
    h: int,
    k: int,
    value: CaseValue,
    condition: CaseValue,
) -> Seq<CaseValue>
    decreases k,
{
    if k <= 0 {
        c
    } else {
        spread_step(
            spread_upto(c, index, w, h, k - 1, value, condition),
            index,
            w,
            h,
            direction_order()[k - 1],
            value,
            condition,
        )
    }
}

/// Some of the first `k` directions steps from `index` to `j`.
pub open spec fn hit_before(index: int, w: int, h: int, j: int, k: int) -> bool {
    exists|k2: int|
        0 <= k2 < k && step_ok(index, w, h, direction_order()[k2]) && #[trigger] step_to(
            index,
            w,
            direction_order()[k2],
        ) == j
}

/// Some of the first `k` directions steps from `index` to a `White` cell.
pub open spec fn white_seen_before(c: Seq<CaseValue>, index: int, w: int, h: int, k: int) -> bool {
    exists|k2: int|
        0 <= k2 < k && step_ok(index, w, h, direction_order()[k2]) && c[#[trigger] step_to(
            index,
            w,
            direction_order()[k2],
        )] is White
}

/// The cells after one obstacle has been placed per draw, in order, each at
/// its draw reduced modulo the board size.
pub open spec fn blacken_cells(c: Seq<CaseValue>, draws: Seq<usize>) -> Seq<CaseValue>
    decreases draws.len(),
{
    if draws.len() == 0 {
        c
    } else {
        blacken_cells(c, draws.drop_last()).update(
            draws.last() as int % c.len() as int,
            CaseValue::Black,
        )
    }
}

/// The character a cell is drawn as.
pub open spec fn cell_char(v: CaseValue) -> char {
    match v {
        CaseValue::Red => 'R',
        CaseValue::Blue => 'B',
        CaseValue::Yellow => '-',
        CaseValue::White => ' ',
        CaseValue::Black => '#',
    }
}

/// The text of the first `n` cells of a board `w` cells wide: each row is
/// preceded by a line break.
pub open spec fn render_upto(c: Seq<CaseValue>, w: int, n: int) -> Seq<char>
    decreases n,
{
    if n <= 0 {
        Seq::empty()
    } else {
        let prev = render_upto(c, w, n - 1);
        let with_break = if (n - 1) % w == 0 {
            prev.push('\n')
        } else {
            prev
        };
        with_break.push(cell_char(c[n - 1]))
    }
}

/// The full text of a board: its rows, then a final line break.
pub open spec fn render_spec(c: Seq<CaseValue>, w: int) -> Seq<char> {
    render_upto(c, w, c.len() as int).push('\n')
}

/// Relies on `String::push`: appends exactly the given character.
#[verifier::external_body]
fn push_char(s: &mut String, c: char)
    ensures
        final(s)@ == old(s)@.push(c),
{
    s.push(c);
}

/// Some cell on the board is playable.
pub open spec fn has_yellow(c: Seq<CaseValue>) -> bool {
    exists|i: int| 0 <= i < c.len() && c[i] is Yellow
}

/// The indices below `n` whose cells are `Yellow`, in increasing order.
pub open spec fn yellows_upto(c: Seq<CaseValue>, n: int) -> Seq<usize>
    decreases n,
{
    if n <= 0 {
        Seq::empty()
    } else {
        if c[n - 1] is Yellow {
            yellows_upto(c, n - 1).push((n - 1) as usize)
        } else {
            yellows_upto(c, n - 1)
        }
    }
}

/// The playable cell indices of a board, in increasing order.
pub open spec fn yellow_indices(c: Seq<CaseValue>) -> Seq<usize> {
    yellows_upto(c, c.len() as int)
}

/// `yellows_upto` holds exactly the `Yellow` indices below `n`, sorted.
pub proof fn lemma_yellows_upto_properties(c: Seq<CaseValue>, n: int)
    requires
        0 <= n <= c.len(),
        c.len() <= usize::MAX,
    ensures
        forall|k: int|
            0 <= k < yellows_upto(c, n).len() ==> (#[trigger] yellows_upto(c, n)[k] < n && c[
                yellows_upto(c, n)[k] as int] is Yellow),
        forall|j: int| 0 <= j < n && c[j] is Yellow ==> yellows_upto(c, n).contains(j as usize),
        forall|k1: int, k2: int|
            0 <= k1 < k2 < yellows_upto(c, n).len() ==> yellows_upto(c, n)[k1] < yellows_upto(
                c,
                n,
            )[k2],
    decreases n,
{
    if n > 0 {
        lemma_yellows_upto_properties(c, n - 1);
        let prev = yellows_upto(c, n - 1);
        let cur = yellows_upto(c, n);
        assert forall|j: int| 0 <= j < n && c[j] is Yellow implies cur.contains(j as usize) by {
            if j < n - 1 {
                let k = choose|k: int| 0 <= k < prev.len() && prev[k] == j as usize;
                assert(cur[k] == j as usize);
            } else {
                assert(c[n - 1] is Yellow);
                assert(cur[cur.len() - 1] == j as usize);
            }
        }
    }
}

/// A board has a playable cell exactly when its playable-index list is
/// non-empty.
pub proof fn lemma_has_yellow_iff_some_index(c: Seq<CaseValue>)
    requires
        c.len() <= usize::MAX,
    ensures
        has_yellow(c) <==> yellow_indices(c).len() > 0,
{
    lemma_yellows_upto_properties(c, c.len() as int);
    if has_yellow(c) {
        let j = choose|j: int| 0 <= j < c.len() && c[j] is Yellow;
        assert(yellow_indices(c).contains(j as usize));
    }
    if yellow_indices(c).len() > 0 {
        assert(c[yellow_indices(c)[0] as int] is Yellow);
    }
}

/// Relies on rand's `Rng::gen_range` over `0..n` with a thread-local
/// generator: a uniformly distributed index strictly below `n`.
#[verifier::external_body]
fn random_below(n: usize) -> (r: usize)
    requires
        n >= 1,
    ensures
        r < n,
{
    rand::Rng::gen_range(&mut rand::thread_rng(), 0..n)
}

/// How many cells of `c` hold `v`.
pub open spec fn count_of(c: Seq<CaseValue>, v: CaseValue) -> int
    decreases c.len(),
{
    if c.len() == 0 {
        0
    } else {
        count_of(c.drop_last(), v) + if c.last() == v {
            1int
        } else {
            0int
        }
    }
}

/// How many stones (of either colour) stand on the board.
pub open spec fn stone_count(c: Seq<CaseValue>) -> int {
    count_of(c, CaseValue::Red) + count_of(c, CaseValue::Blue)
}

/// Two boards that agree on where `v` stands hold `v` equally often.
pub proof fn lemma_count_pointwise(a: Seq<CaseValue>, b: Seq<CaseValue>, v: CaseValue)
    requires
        a.len() == b.len(),
        forall|i: int| 0 <= i < a.len() ==> (a[i] == v <==> b[i] == v),
    ensures
        count_of(a, v) == count_of(b, v),
    decreases a.len(),
{
    if a.len() > 0 {
        assert forall|i: int| 0 <= i < a.drop_last().len() implies (a.drop_last()[i] == v
            <==> b.drop_last()[i] == v) by {
            assert(a.drop_last()[i] == a[i] && b.drop_last()[i] == b[i]);
        }
        lemma_count_pointwise(a.drop_last(), b.drop_last(), v);
    }
}

/// How one update changes the count of `v`.
pub proof fn lemma_count_update(c: Seq<CaseValue>, i: int, x: CaseValue, v: CaseValue)
    requires
        0 <= i < c.len(),
    ensures
        count_of(c.update(i, x), v) == count_of(c, v) - (if c[i] == v {
            1int
        } else {
            0int
        }) + (if x == v {
            1int
        } else {
            0int
        }),
    decreases c.len(),
{
    if i == c.len() - 1 {
        assert(c.update(i, x).drop_last() =~= c.drop_last());
        assert(c.update(i, x).last() == x);
    } else {
        lemma_count_update(c.drop_last(), i, x, v);
        assert(c.update(i, x).drop_last() =~= c.drop_last().update(i, x));
        assert(c.update(i, x).last() == c.last());
    }
}

/// Law: a successful play yields exactly one of `Played`, `RedWin`,
/// `BlueWin` or `NobodyWin`, the turn has flipped, and a win belongs to the
/// colour that just moved.
pub proof fn lemma_play_result_classification(g: GridView, g2: GridView, index: int, r: PlayResult)
    requires
        g.wf(),
        play_valid(g, index),
        play_transition(g, g2, index, r),
    ensures
        r is Played || r is RedWin || r is BlueWin || r is NobodyWin,
        !(r is InvalidPosition),
        g2.red_turn == !g.red_turn,
        r is RedWin ==> g.red_turn,
        r is BlueWin ==> !g.red_turn,
{
    let mid = after_place(g, index);
    if wins_at(mid.cells, index, g.width as int, g.height as int, g.mover_color()) {
    }
}

/// Law: a successful play is reported as a win for the colour that just
/// moved exactly when its new stone completes three of its stones in a row
/// — as middle stone or endpoint, in any of the eight directions — on the
/// board as it stood right after the stone was placed.
pub proof fn lemma_win_detection(g: GridView, g2: GridView, index: int, r: PlayResult)
    requires
        g.wf(),
        play_valid(g, index),
        play_transition(g, g2, index, r),
    ensures
        r == win_result(g.mover_color()) <==> wins_at(
            after_place(g, index).cells,
            index,
            g.width as int,
            g.height as int,
            g.mover_color(),
        ),
{
    let mid = after_place(g, index);
    if !wins_at(mid.cells, index, g.width as int, g.height as int, g.mover_color()) {
        assert(r is Played || r is NobodyWin);
    }
}

/// Law: a successful play ends in a draw exactly when it neither wins nor
/// leaves any hidden (`White`) cell to reveal — locally or anywhere on the
/// board — so that no spread can open up further territory.
pub proof fn lemma_draw_detection(g: GridView, g2: GridView, index: int, r: PlayResult)
    requires
        g.wf(),
        play_valid(g, index),
        play_transition(g, g2, index, r),
    ensures
        r is NobodyWin <==> {
            let mid = after_place(g, index);
            &&& !wins_at(mid.cells, index, g.width as int, g.height as int, g.mover_color())
            &&& !has_white(mid.cells)
        },
{
    let mid = after_place(g, index);
    let w = g.width as int;
    let h = g.height as int;
    if !wins_at(mid.cells, index, w, h, g.mover_color()) {
        if has_white_neighbor(mid.cells, index, w, h) {
            let d = choose|d: Direction|
                #[trigger] step_ok(index, w, h, d) && mid.cells[step_to(index, w, d)] is White;
            lemma_step_to_moves(index, w, h, d);
            assert(has_white(mid.cells));
        }
    }
}

/// Law: a successful play adds exactly one stone to the board, and no play —
/// successful or not — ever changes the number of `Black` obstacles.
pub proof fn lemma_play_preserves_counts(g: GridView, g2: GridView, index: int, r: PlayResult)
    requires
        g.wf(),
        play_valid(g, index),
        play_transition(g, g2, index, r),
    ensures
        stone_count(g2.cells) == stone_count(g.cells) + 1,
        count_of(g2.cells, CaseValue::Black) == count_of(g.cells, CaseValue::Black),
{
    let w = g.width as int;
    let h = g.height as int;
    let pre = pre_spread(g);
    let mid = after_place(g, index);
    let color = g.mover_color();
    assert(pre.len() == g.cells.len());
    assert(forall|i: int| 0 <= i < g.cells.len() ==> pre[i] == g.cells[i] || (g.cells[i] is Yellow
        && pre[i] is White));
    lemma_count_pointwise(g.cells, pre, CaseValue::Red);
    lemma_count_pointwise(g.cells, pre, CaseValue::Blue);
    lemma_count_pointwise(g.cells, pre, CaseValue::Black);
    assert(pre[index] is Yellow || pre[index] is White);
    lemma_count_update(pre, index, color, CaseValue::Red);
    lemma_count_update(pre, index, color, CaseValue::Blue);
    lemma_count_update(pre, index, color, CaseValue::Black);
    assert(stone_count(mid.cells) == stone_count(g.cells) + 1);
    assert(count_of(mid.cells, CaseValue::Black) == count_of(g.cells, CaseValue::Black));
    assert(g2.cells.len() == mid.cells.len());
    assert(forall|i: int| 0 <= i < mid.cells.len() ==> g2.cells[i] == mid.cells[i] || (
    mid.cells[i] is White && g2.cells[i] is Yellow));
    lemma_count_pointwise(mid.cells, g2.cells, CaseValue::Red);
    lemma_count_pointwise(mid.cells, g2.cells, CaseValue::Blue);
    lemma_count_pointwise(mid.cells, g2.cells, CaseValue::Black);
}

/// Exec mirror of [`dir_position`].
fn dir_index(d: Direction) -> (r: usize)
    ensures
        r < 8,
        r == dir_position(d),
        direction_order()[r as int] == d,
{
    match d {
        Direction::North => 0,
        Direction::East => 1,
        Direction::West => 2,
        Direction::South => 3,
        Direction::NorthEast => 4,
        Direction::NorthWest => 5,
        Direction::SouthEast => 6,
        Direction::SouthWest => 7,
    }
}

/// The indices of `direction_order` are distinct directions.
pub proof fn lemma_direction_order_injective(i: int, j: int)
    requires
        0 <= i < 8,
        0 <= j < 8,
        direction_order()[i] == direction_order()[j],
    ensures
        i == j,
{
}

/// After all eight directions, `hit_before` is exactly neighbourhood.
pub proof fn lemma_hit_before_all(index: int, w: int, h: int, j: int)
    ensures
        hit_before(index, w, h, j, 8) <==> is_neighbor(index, j, w, h),
{
    if hit_before(index, w, h, j, 8) {
        let k2 = choose|k2: int|
            0 <= k2 < 8 && step_ok(index, w, h, direction_order()[k2]) && #[trigger] step_to(
                index,
                w,
                direction_order()[k2],
            ) == j;
        assert(is_neighbor(index, j, w, h));
    }
    if is_neighbor(index, j, w, h) {
        let d = choose|d: Direction|
            step_ok(index, w, h, d) && #[trigger] step_to(index, w, d) == j;
        lemma_direction_order_complete(d);
        let k2 = choose|k2: int| 0 <= k2 < 8 && direction_order()[k2] == d;
        assert(step_to(index, w, direction_order()[k2]) == j);
    }
}

/// After all eight directions, `white_seen_before` is exactly
/// [`has_white_neighbor`].
pub proof fn lemma_white_seen_all(c: Seq<CaseValue>, index: int, w: int, h: int)
    ensures
        white_seen_before(c, index, w, h, 8) <==> has_white_neighbor(c, index, w, h),
{
    if white_seen_before(c, index, w, h, 8) {
        let k2 = choose|k2: int|
            0 <= k2 < 8 && step_ok(index, w, h, direction_order()[k2]) && c[#[trigger] step_to(
                index,
                w,
                direction_order()[k2],
            )] is White;
        assert(step_ok(index, w, h, direction_order()[k2]) && c[step_to(
            index,
            w,
            direction_order()[k2],
        )] is White);
    }
    if has_white_neighbor(c, index, w, h) {
        let d = choose|d: Direction|
            #[trigger] step_ok(index, w, h, d) && c[step_to(index, w, d)] is White;
        lemma_direction_order_complete(d);
        let k2 = choose|k2: int| 0 <= k2 < 8 && direction_order()[k2] == d;
        assert(step_ok(index, w, h, direction_order()[k2]) && c[step_to(
            index,
            w,
            direction_order()[k2],
        )] is White);
    }
}

/// Pointwise description of the neighbourhood sweep: after `k` directions a
/// cell holds `value` exactly when one of those directions reaches it and it
/// held `condition`; every other cell is untouched.
pub proof fn lemma_spread_upto_pointwise(
    c: Seq<CaseValue>,
    index: int,
    w: int,
    h: int,
    k: int,
    value: CaseValue,
    condition: CaseValue,
)
    requires
        0 <= k <= 8,
        value != condition,
        w >= 1,
        0 <= index < w * h,
        c.len() == w * h,
    ensures
        spread_upto(c, index, w, h, k, value, condition).len() == c.len(),
        forall|j: int|
            0 <= j < c.len() ==> spread_upto(c, index, w, h, k, value, condition)[j] == (
            if hit_before(index, w, h, j, k) && c[j] == condition {
                value
            } else {
                c[j]
            }),
    decreases k,
{
    if k > 0 {
        lemma_spread_upto_pointwise(c, index, w, h, k - 1, value, condition);
        let prev = spread_upto(c, index, w, h, k - 1, value, condition);
        let cur = spread_upto(c, index, w, h, k, value, condition);
        let d = direction_order()[k - 1];
        if step_ok(index, w, h, d) {
            lemma_step_to_moves(index, w, h, d);
        }
        assert forall|j: int| 0 <= j < c.len() implies cur[j] == (if hit_before(index, w, h, j, k)
            && c[j] == condition {
            value
        } else {
            c[j]
        }) by {
            if step_ok(index, w, h, d) {
                lemma_step_to_moves(index, w, h, d);
                let u = step_to(index, w, d);
                if j == u {
                    assert(hit_before(index, w, h, j, k)) by {
                        assert(step_to(index, w, direction_order()[k - 1]) == j);
                    }
                } else {
                    assert(cur[j] == prev[j]);
                    if hit_before(index, w, h, j, k) && !hit_before(index, w, h, j, k - 1) {
                        let k2 = choose|k2: int|
                            0 <= k2 < k && step_ok(index, w, h, direction_order()[k2])
                                && #[trigger] step_to(index, w, direction_order()[k2]) == j;
                        assert(k2 == k - 1);
                        assert(false);
                    }
                }
            } else {
                if hit_before(index, w, h, j, k) && !hit_before(index, w, h, j, k - 1) {
                    let k2 = choose|k2: int|
                        0 <= k2 < k && step_ok(index, w, h, direction_order()[k2]) && #[trigger]
                        step_to(index, w, direction_order()[k2]) == j;
                    assert(k2 == k - 1);
                    assert(false);
                }
            }
        }
    }
}

/// `x + y * w` lies inside a `w`-by-`h` rectangle laid out row-major.
pub proof fn lemma_xy_in_rectangle(x: int, y: int, w: int, h: int)
    requires
        0 <= x < w,
        0 <= y < h,
    ensures
        0 <= x + y * w < w * h,
{
    assert(x + y * w < w * h) by (nonlinear_arith)
        requires
            0 <= x < w,
            0 <= y < h,
    ;
    assert(0 <= x + y * w) by (nonlinear_arith)
        requires
            0 <= x,
            0 <= y,
            0 < w,
    ;
}

} // verus!
