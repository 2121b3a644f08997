//! The authoritative rules state machine of the puzzle.
//!
//! A `Game` owns the mine grid, the opened mask, the precomputed
//! neighbour-mine counts and the coarse game state (`New`, `Playing`, `Won`,
//! `Lost`).  The board is generated lazily: the first probe fixes the layout
//! with the probed cell guaranteed clear, then the probe itself is executed.

use crate::grid::{
    dims_ok, free_before, grid_of, grid_set, lemma_all_free, lemma_grid_counts, lemma_grid_update,
    row_free, rows_free, set_cell, view_of,
};
use rand::Rng;
use vstd::prelude::*;

verus! {

broadcast use crate::grid::lemma_view_of_len, crate::grid::lemma_view_of_index;

/// The coarse lifecycle stage of a game.
#[derive(Debug, Clone, Copy, PartialEq, Eq, Structural)]
pub enum GameState {
    New,
    Playing,
    Won,
    Lost,
}

/// What the rules engine reports about a single cell.
#[derive(Debug, Clone, Copy, PartialEq, Eq, PartialOrd, Ord, Structural)]
pub enum Cell {
    Hidden,
    Mine,
    Clear(u8),
}

impl Cell {
    /// The cell is a revealed clear cell.
    pub fn is_clear(&self) -> (b: bool)
        ensures
            b == (self is Clear),
    {
        match self {
            Cell::Clear(_) => true,
            _ => false,
        }
    }
}

/// The outcome of a successful probe: the state the game moved to and what
/// the probed cell holds.
#[derive(Debug, Clone, PartialEq, Eq, Structural)]
pub struct OpenInfo {
    pub state: GameState,
    pub cell: Cell,
}

/// The recoverable ways a probe can be rejected.
#[derive(Debug, Clone, Copy, PartialEq, Eq, Structural)]
pub enum OpenErr {
    OutOfBounds,
    AlreadyOpen,
    GameOver,
}

/// The source of randomness the board generator draws from.
///
/// Mine placement repeatedly draws an index below a shrinking bound and
/// marks the corresponding free cell (see `generate_mines`).  `Uniform`
/// takes each draw from the thread-local random generator; `Draws` takes the
/// i-th draw from the i-th entry of the list, reading an entry that is
/// missing or not below the bound as zero, which makes a layout reproducible
/// for testing.
#[derive(Debug, Clone, PartialEq, Eq)]
pub enum Randomizer {
    Uniform,
    Draws(Vec<u32>),
}

/// A configuration is valid when both sides are at least one, there is at
/// least one mine and at least one clear cell, and the area fits in `u32`.
pub open spec fn valid_config(width: u32, height: u32, num_mines: u32) -> bool {
    &&& 1 <= width
    &&& 1 <= height
    &&& 1 <= num_mines
    &&& num_mines as int <= width as int * height as int - 1
    &&& width as int * height as int <= u32::MAX as int
}

/// One if `(x, y)` lies on the grid and holds a mine, else zero.
pub open spec fn mine_ind(g: Seq<Seq<bool>>, w: int, h: int, x: int, y: int) -> int {
    if 0 <= x < w && 0 <= y < h && g[y][x] {
        1int
    } else {
        0int
    }
}

/// The exact number of mines among the up-to-8 neighbours of `(x, y)`.
pub open spec fn neighbour_count(g: Seq<Seq<bool>>, w: int, h: int, x: int, y: int) -> int {
    mine_ind(g, w, h, x - 1, y - 1) + mine_ind(g, w, h, x, y - 1) + mine_ind(g, w, h, x + 1, y - 1)
        + mine_ind(g, w, h, x - 1, y) + mine_ind(g, w, h, x + 1, y) + mine_ind(
        g,
        w,
        h,
        x - 1,
        y + 1,
    ) + mine_ind(g, w, h, x, y + 1) + mine_ind(g, w, h, x + 1, y + 1)
}

/// `(i, j)` is one of the up-to-8 cells around `(x, y)`.
pub open spec fn adjacent(x: int, y: int, i: int, j: int) -> bool {
    &&& !(i == x && j == y)
    &&& x - 1 <= i <= x + 1
    &&& y - 1 <= j <= y + 1
}

/// A cell with no neighbouring mines has no mine on any adjacent cell.
pub proof fn lemma_zero_count_safe(g: Seq<Seq<bool>>, w: int, h: int, x: int, y: int, i: int, j: int)
    requires
        neighbour_count(g, w, h, x, y) == 0,
        adjacent(x, y, i, j),
        0 <= i < w,
        0 <= j < h,
    ensures
        !g[j][i],
{
}

/// The rules engine: the sole owner of the authoritative board state.
#[derive(Debug, Clone, PartialEq, Eq)]
pub struct Game {
    state: GameState,
    width: u32,
    height: u32,
    num_mines: u32,
    randomizer: Randomizer,
    clear_remaining: u32,
    mines: Vec<Vec<bool>>,
    opened: Vec<Vec<bool>>,
    neighbours: Vec<Vec<u8>>,
}

impl Game {
    /// The coarse state.
    pub closed spec fn spec_state(self) -> GameState {
        self.state
    }

    pub closed spec fn spec_width(self) -> u32 {
        self.width
    }

    pub closed spec fn spec_height(self) -> u32 {
        self.height
    }

    pub closed spec fn spec_num_mines(self) -> u32 {
        self.num_mines
    }

    /// How many clear cells are still to be opened before the game is won.
    pub closed spec fn spec_to_clear(self) -> u32 {
        self.clear_remaining
    }

    /// The mine grid: `true` marks a mine.
    pub closed spec fn spec_mines(self) -> Seq<Seq<bool>> {
        view_of(self.mines)
    }

    /// The opened mask: `true` marks a cell the player has revealed.
    pub closed spec fn spec_opened_grid(self) -> Seq<Seq<bool>> {
        view_of(self.opened)
    }

    /// The per-cell neighbour-mine counts.
    pub closed spec fn spec_counts(self) -> Seq<Seq<u8>> {
        view_of(self.neighbours)
    }

    pub open spec fn spec_mine(self, x: int, y: int) -> bool {
        self.spec_mines()[y][x]
    }

    pub open spec fn spec_opened(self, x: int, y: int) -> bool {
        self.spec_opened_grid()[y][x]
    }

    pub open spec fn spec_count(self, x: int, y: int) -> u8 {
        self.spec_counts()[y][x]
    }

    pub open spec fn spec_in_bounds(self, x: int, y: int) -> bool {
        0 <= x < self.spec_width() && 0 <= y < self.spec_height()
    }

    /// What `get_cell` reports for `(x, y)`: everything is hidden before the
    /// board exists, unopened cells are hidden while playing, and the full
    /// truth is disclosed once the game is over.
    pub open spec fn spec_cell(self, x: int, y: int) -> Cell {
        if self.spec_state() == GameState::New {
            Cell::Hidden
        } else if self.spec_state() == GameState::Playing && !self.spec_opened(x, y) {
            Cell::Hidden
        } else if self.spec_mine(x, y) {
            Cell::Mine
        } else {
            Cell::Clear(self.spec_count(x, y))
        }
    }

    /// The internal well-formedness of the engine.
    ///
    /// Once a board exists, the three grids have the configured dimensions,
    /// the mine grid holds exactly `num_mines` mines, and every cell of the
    /// count grid holds the exact number of neighbouring mines.  While
    /// playing, no mine is opened and `clear_remaining` counts exactly the
    /// clear cells not yet opened; it reaches zero exactly when the game is
    /// won.
    pub closed spec fn inv(self) -> bool {
        let w = self.width as int;
        let h = self.height as int;
        &&& valid_config(self.width, self.height, self.num_mines)
        &&& self.state != GameState::New ==> {
            &&& dims_ok(self.spec_mines(), w, h)
            &&& dims_ok(self.spec_opened_grid(), w, h)
            &&& dims_ok(self.spec_counts(), w, h)
            &&& grid_set(self.spec_mines()) == self.num_mines as int
            &&& forall|x: int, y: int|
                0 <= x < w && 0 <= y < h ==> #[trigger] self.spec_count(x, y) as int
                    == neighbour_count(self.spec_mines(), w, h, x, y)
        }
        &&& (self.state == GameState::Playing || self.state == GameState::Won) ==> {
            &&& self.clear_remaining as int == (w * h - self.num_mines as int) - grid_set(
                self.spec_opened_grid(),
            )
            &&& forall|x: int, y: int|
                0 <= x < w && 0 <= y < h && #[trigger] self.spec_opened(x, y) ==> !self.spec_mine(
                    x,
                    y,
                )
        }
        &&& self.state == GameState::Playing ==> 1 <= self.clear_remaining
        &&& self.state == GameState::Won ==> self.clear_remaining == 0
    }

    /// The public consequences of the internal invariant.
    pub proof fn lemma_inv(self)
        requires
            self.inv(),
        ensures
            valid_config(self.spec_width(), self.spec_height(), self.spec_num_mines()),
            self.spec_state() != GameState::New ==> {
                &&& dims_ok(self.spec_mines(), self.spec_width() as int, self.spec_height() as int)
                &&& dims_ok(
                    self.spec_opened_grid(),
                    self.spec_width() as int,
                    self.spec_height() as int,
                )
                &&& dims_ok(self.spec_counts(), self.spec_width() as int, self.spec_height() as int)
                &&& grid_set(self.spec_mines()) == self.spec_num_mines() as int
                &&& forall|x: int, y: int|
                    self.spec_in_bounds(x, y) ==> #[trigger] self.spec_count(x, y) as int
                        == neighbour_count(
                        self.spec_mines(),
                        self.spec_width() as int,
                        self.spec_height() as int,
                        x,
                        y,
                    )
            },
            self.spec_state() == GameState::Playing ==> forall|x: int, y: int|
                self.spec_in_bounds(x, y) && #[trigger] self.spec_opened(x, y) ==> !self.spec_mine(
                    x,
                    y,
                ),
    {
    }

    /// Winning means exactly that every clear cell has been opened: while
    /// the game is in play some clear cell is still closed, and once it is
    /// won none is.
    pub proof fn lemma_won_iff_cleared(self)
        requires
            self.inv(),
            self.spec_state() == GameState::Playing || self.spec_state() == GameState::Won,
        ensures
            (self.spec_state() == GameState::Won) <==> (forall|x: int, y: int|
                self.spec_in_bounds(x, y) ==> (!(#[trigger] self.spec_mine(x, y))
                    ==> self.spec_opened(x, y))),
    {
        let w = self.width as int;
        let h = self.height as int;
        let m = self.num_mines as int;
        crate::grid::lemma_grid_counts(self.spec_mines(), w, h);
        if self.spec_state() == GameState::Won {
            assert forall|x: int, y: int|
                0 <= x < w && 0 <= y < h implies (#[trigger] self.spec_opened_grid()[y][x]
                ==> !self.spec_mines()[y][x]) by {
                assert(self.spec_opened(x, y) ==> !self.spec_mine(x, y));
            }
            crate::grid::lemma_grid_counts(self.spec_opened_grid(), w, h);
            assert(crate::grid::rows_set(self.spec_opened_grid(), h) == crate::grid::rows_free(
                self.spec_mines(),
                h,
            ));
            crate::grid::lemma_disjoint_equal_cover(
                self.spec_opened_grid(),
                self.spec_mines(),
                w,
                h,
            );
            assert forall|x: int, y: int|
                self.spec_in_bounds(x, y) implies (!(#[trigger] self.spec_mine(x, y))
                ==> self.spec_opened(x, y)) by {}
        } else {
            if forall|x: int, y: int|
                self.spec_in_bounds(x, y) ==> (!(#[trigger] self.spec_mine(x, y))
                    ==> self.spec_opened(x, y)) {
                assert forall|x: int, y: int|
                    0 <= x < w && 0 <= y < h implies (!(#[trigger] self.spec_mines()[y][x])
                    ==> self.spec_opened_grid()[y][x]) by {
                    assert(!self.spec_mine(x, y) ==> self.spec_opened(x, y));
                }
                crate::grid::lemma_rows_cover_count(
                    self.spec_opened_grid(),
                    self.spec_mines(),
                    w,
                    h,
                );
                assert(false);
            }
        }
    }

    /// A fresh engine with the default uniform randomizer.
    pub fn new(width: u32, height: u32, num_mines: u32) -> (g: Game)
        requires
            valid_config(width, height, num_mines),
        ensures
            g.inv(),
            g.spec_state() == GameState::New,
            g.spec_width() == width,
            g.spec_height() == height,
            g.spec_num_mines() == num_mines,
    {
        Self::new_with(width, height, num_mines, Randomizer::Uniform)
    }

    /// A fresh engine with an injected source of randomness.
    pub fn new_with(width: u32, height: u32, num_mines: u32, randomizer: Randomizer) -> (g: Game)
        requires
            valid_config(width, height, num_mines),
        ensures
            g.inv(),
            g.spec_state() == GameState::New,
            g.spec_width() == width,
            g.spec_height() == height,
            g.spec_num_mines() == num_mines,
    {
        Game {
            state: GameState::New,
            width,
            height,
            num_mines,
            randomizer,
            clear_remaining: 0,
            mines: Vec::new(),
            opened: Vec::new(),
            neighbours: Vec::new(),
        }
    }

    pub fn width(&self) -> (w: u32)
        ensures
            w == self.spec_width(),
    {
        self.width
    }

    pub fn height(&self) -> (h: u32)
        ensures
            h == self.spec_height(),
    {
        self.height
    }

    pub fn num_mines(&self) -> (m: u32)
        ensures
            m == self.spec_num_mines(),
    {
        self.num_mines
    }

    /// Forget the board and return to the `New` state, keeping the settings.
    pub fn clear(&mut self)
        requires
            old(self).inv(),
        ensures
            final(self).inv(),
            final(self).spec_state() == GameState::New,
            final(self).spec_width() == old(self).spec_width(),
            final(self).spec_height() == old(self).spec_height(),
            final(self).spec_num_mines() == old(self).spec_num_mines(),
    {
        self.state = GameState::New;
        self.mines = Vec::new();
        self.opened = Vec::new();
        self.neighbours = Vec::new();
    }

    /// Adopt a new configuration and return to the `New` state.
    pub fn reset(&mut self, width: u32, height: u32, num_mines: u32)
        requires
            valid_config(width, height, num_mines),
        ensures
            final(self).inv(),
            final(self).spec_state() == GameState::New,
            final(self).spec_width() == width,
            final(self).spec_height() == height,
            final(self).spec_num_mines() == num_mines,
    {
        self.height = height;
        self.width = width;
        self.num_mines = num_mines;
        self.state = GameState::New;
        self.mines = Vec::new();
        self.opened = Vec::new();
        self.neighbours = Vec::new();
    }

    /// Swap the source of randomness; the board and state are untouched.
    pub fn reset_randomizer(&mut self, randomizer: Randomizer)
        requires
            old(self).inv(),
        ensures
            final(self).inv(),
            final(self).spec_state() == old(self).spec_state(),
            final(self).spec_width() == old(self).spec_width(),
            final(self).spec_height() == old(self).spec_height(),
            final(self).spec_num_mines() == old(self).spec_num_mines(),
            final(self).spec_to_clear() == old(self).spec_to_clear(),
            final(self).spec_mines() == old(self).spec_mines(),
            final(self).spec_opened_grid() == old(self).spec_opened_grid(),
            final(self).spec_counts() == old(self).spec_counts(),
    {
        self.randomizer = randomizer;
        proof {
            let w = self.width as int;
            let h = self.height as int;
            if self.state != GameState::New {
                assert forall|x: int, y: int|
                    0 <= x < w && 0 <= y < h implies #[trigger] self.spec_count(x, y) as int
                    == neighbour_count(self.spec_mines(), w, h, x, y) by {
                    assert(old(self).spec_count(x, y) as int == neighbour_count(
                        old(self).spec_mines(),
                        w,
                        h,
                        x,
                        y,
                    ));
                }
            }
            if self.state == GameState::Playing || self.state == GameState::Won {
                assert forall|x: int, y: int|
                    0 <= x < w && 0 <= y < h && #[trigger] self.spec_opened(x, y) implies !self.spec_mine(
                    x,
                    y,
                ) by {
                    assert(old(self).spec_opened(x, y));
                }
            }
            assert(self.inv());
        }
    }

    pub fn get_state(&self) -> (s: GameState)
        ensures
            s == self.spec_state(),
    {
        self.state
    }

    /// What the player may know about cell `(x, y)`.
    pub fn get_cell(&self, x: u32, y: u32) -> (c: Cell)
        requires
            self.inv(),
            self.spec_in_bounds(x as int, y as int),
        ensures
            c == self.spec_cell(x as int, y as int),
    {
        match self.state {
            GameState::New => Cell::Hidden,
            GameState::Playing if !self.opened[y as usize][x as usize] => Cell::Hidden,
            _ => {
                if self.mines[y as usize][x as usize] {
                    Cell::Mine
                } else {
                    Cell::Clear(self.neighbours[y as usize][x as usize])
                }
            },
        }
    }

    /// The whole board as `get_cell` reports it, row by row.
    pub fn get_board(&self) -> (b: Vec<Vec<Cell>>)
        requires
            self.inv(),
        ensures
            dims_ok(view_of(b), self.spec_width() as int, self.spec_height() as int),
            forall|x: int, y: int|
                self.spec_in_bounds(x, y) ==> #[trigger] view_of(b)[y][x] == self.spec_cell(x, y),
    {
        let mut b: Vec<Vec<Cell>> = Vec::new();
        let mut y: u32 = 0;
        while y < self.height
            invariant
                self.inv(),
                y <= self.spec_height(),
                view_of(b).len() == y as int,
                forall|j: int|
                    0 <= j < y ==> (#[trigger] view_of(b)[j]).len() == self.spec_width() as int,
                forall|i: int, j: int|
                    0 <= i < self.spec_width() && 0 <= j < y ==> #[trigger] view_of(b)[j][i]
                        == self.spec_cell(i, j),
            decreases self.spec_height() - y,
        {
            let mut row: Vec<Cell> = Vec::new();
            let mut x: u32 = 0;
            while x < self.width
                invariant
                    self.inv(),
                    y < self.spec_height(),
                    x <= self.spec_width(),
                    row@.len() == x as int,
                    forall|i: int| 0 <= i < x ==> row@[i] == self.spec_cell(i, y as int),
                decreases self.spec_width() - x,
            {
                row.push(self.get_cell(x, y));
                x += 1;
            }
            let ghost prev = view_of(b);
            b.push(row);
            proof {
                assert forall|j: int| 0 <= j < y + 1 implies #[trigger] view_of(b)[j] == (if j < y {
                    prev[j]
                } else {
                    row@
                }) by {}
            }
            y += 1;
        }
        b
    }

    /// Recompute the neighbour-count grid from the mine grid.
    fn calculate_neighbours(&mut self)
        requires
            dims_ok(
                old(self).spec_mines(),
                old(self).spec_width() as int,
                old(self).spec_height() as int,
            ),
        ensures
            final(self).spec_state() == old(self).spec_state(),
            final(self).spec_width() == old(self).spec_width(),
            final(self).spec_height() == old(self).spec_height(),
            final(self).spec_num_mines() == old(self).spec_num_mines(),
            final(self).spec_to_clear() == old(self).spec_to_clear(),
            final(self).spec_mines() == old(self).spec_mines(),
            final(self).spec_opened_grid() == old(self).spec_opened_grid(),
            dims_ok(
                final(self).spec_counts(),
                old(self).spec_width() as int,
                old(self).spec_height() as int,
            ),
            forall|x: int, y: int|
                0 <= x < old(self).spec_width() && 0 <= y < old(self).spec_height()
                    ==> #[trigger] final(self).spec_count(x, y) as int == neighbour_count(
                    old(self).spec_mines(),
                    old(self).spec_width() as int,
                    old(self).spec_height() as int,
                    x,
                    y,
                ),
    {
        let n = neighbours_of(&self.mines, self.width, self.height);
        self.neighbours = n;
    }

    /// Lay the board out for a first probe of `(firstx, firsty)`: generate
    /// the mines, clear the opened mask, derive the counts and seed the
    /// count of cells still to clear.
    fn generate_board(&mut self, firstx: u32, firsty: u32)
        requires
            valid_config(
                old(self).spec_width(),
                old(self).spec_height(),
                old(self).spec_num_mines(),
            ),
            firstx < old(self).spec_width(),
            firsty < old(self).spec_height(),
        ensures
            final(self).spec_state() == old(self).spec_state(),
            final(self).spec_width() == old(self).spec_width(),
            final(self).spec_height() == old(self).spec_height(),
            final(self).spec_num_mines() == old(self).spec_num_mines(),
            dims_ok(
                final(self).spec_mines(),
                old(self).spec_width() as int,
                old(self).spec_height() as int,
            ),
            dims_ok(
                final(self).spec_opened_grid(),
                old(self).spec_width() as int,
                old(self).spec_height() as int,
            ),
            dims_ok(
                final(self).spec_counts(),
                old(self).spec_width() as int,
                old(self).spec_height() as int,
            ),
            grid_set(final(self).spec_mines()) == old(self).spec_num_mines() as int,
            !final(self).spec_mine(firstx as int, firsty as int),
            forall|x: int, y: int|
                0 <= x < old(self).spec_width() && 0 <= y < old(self).spec_height() ==> !(
                #[trigger] final(self).spec_opened(x, y)),
            grid_set(final(self).spec_opened_grid()) == 0,
            forall|x: int, y: int|
                0 <= x < old(self).spec_width() && 0 <= y < old(self).spec_height()
                    ==> #[trigger] final(self).spec_count(x, y) as int == neighbour_count(
                    final(self).spec_mines(),
                    old(self).spec_width() as int,
                    old(self).spec_height() as int,
                    x,
                    y,
                ),
            final(self).spec_to_clear() as int == old(self).spec_width() as int * old(
                self,
            ).spec_height() as int - old(self).spec_num_mines() as int,
    {
        let m = generate_mines(
            self.width,
            self.height,
            self.num_mines,
            firstx,
            firsty,
            &self.randomizer,
        );
        self.mines = m;
        self.opened = grid_of(self.width, self.height, false);
        self.clear_remaining = self.width * self.height - self.num_mines;
        self.calculate_neighbours();
        proof {
            lemma_all_free(self.spec_opened_grid(), self.width as int, self.height as int);
        }
    }

    /// Probe cell `(x, y)`.
    ///
    /// Out-of-bounds coordinates are rejected first, in every state.  Once
    /// the game is won or lost every probe is rejected with `GameOver`.  The
    /// first probe of a fresh game generates the board with `(x, y)` kept
    /// clear and then opens it.  While playing, probing an opened cell is
    /// rejected with `AlreadyOpen` and nothing changes; opening a mine loses
    /// the game; opening the last clear cell wins it.
    pub fn open(&mut self, x: u32, y: u32) -> (r: Result<OpenInfo, OpenErr>)
        requires
            old(self).inv(),
        ensures
            final(self).inv(),
            final(self).spec_width() == old(self).spec_width(),
            final(self).spec_height() == old(self).spec_height(),
            final(self).spec_num_mines() == old(self).spec_num_mines(),
            !old(self).spec_in_bounds(x as int, y as int) ==> r == Err::<OpenInfo, OpenErr>(
                OpenErr::OutOfBounds,
            ) && *final(self) == *old(self),
            old(self).spec_in_bounds(x as int, y as int) && (old(self).spec_state()
                == GameState::Won || old(self).spec_state() == GameState::Lost) ==> r == Err::<
                OpenInfo,
                OpenErr,
            >(OpenErr::GameOver) && *final(self) == *old(self),
            old(self).spec_in_bounds(x as int, y as int) && old(self).spec_state()
                == GameState::Playing && old(self).spec_opened(x as int, y as int) ==> r == Err::<
                OpenInfo,
                OpenErr,
            >(OpenErr::AlreadyOpen) && *final(self) == *old(self),
            old(self).spec_in_bounds(x as int, y as int) && old(self).spec_state()
                == GameState::Playing && !old(self).spec_opened(x as int, y as int) ==> {
                &&& final(self).spec_mines() == old(self).spec_mines()
                &&& final(self).spec_counts() == old(self).spec_counts()
                &&& final(self).spec_opened(x as int, y as int)
                &&& forall|i: int, j: int|
                    old(self).spec_in_bounds(i, j) && !(i == x && j == y)
                        ==> #[trigger] final(self).spec_opened(i, j) == old(self).spec_opened(i, j)
                &&& old(self).spec_mine(x as int, y as int) ==> final(self).spec_state()
                    == GameState::Lost && r == Ok::<OpenInfo, OpenErr>(
                    OpenInfo { state: GameState::Lost, cell: Cell::Mine },
                )
                &&& !old(self).spec_mine(x as int, y as int) ==> {
                    &&& final(self).spec_to_clear() as int == old(self).spec_to_clear() as int - 1
                    &&& final(self).spec_state() == (if old(self).spec_to_clear() == 1 {
                        GameState::Won
                    } else {
                        GameState::Playing
                    })
                    &&& r == Ok::<OpenInfo, OpenErr>(
                        OpenInfo {
                            state: final(self).spec_state(),
                            cell: Cell::Clear(old(self).spec_count(x as int, y as int)),
                        },
                    )
                    &&& (final(self).spec_state() == GameState::Won) <==> (forall|i: int, j: int|
                        final(self).spec_in_bounds(i, j) ==> (!(#[trigger] final(self).spec_mine(
                            i,
                            j,
                        )) ==> final(self).spec_opened(i, j)))
                }
            },
            old(self).spec_in_bounds(x as int, y as int) && old(self).spec_state()
                == GameState::New ==> {
                &&& !final(self).spec_mine(x as int, y as int)
                &&& final(self).spec_opened(x as int, y as int)
                &&& forall|i: int, j: int|
                    old(self).spec_in_bounds(i, j) && !(i == x && j == y) ==> !(
                    #[trigger] final(self).spec_opened(i, j))
                &&& final(self).spec_to_clear() as int == old(self).spec_width() as int * old(
                    self,
                ).spec_height() as int - old(self).spec_num_mines() as int - 1
                &&& final(self).spec_state() == (if old(self).spec_width() as int * old(
                    self,
                ).spec_height() as int - old(self).spec_num_mines() as int == 1 {
                    GameState::Won
                } else {
                    GameState::Playing
                })
                &&& r == Ok::<OpenInfo, OpenErr>(
                    OpenInfo {
                        state: final(self).spec_state(),
                        cell: Cell::Clear(final(self).spec_count(x as int, y as int)),
                    },
                )
                &&& (final(self).spec_state() == GameState::Won) <==> (forall|i: int, j: int|
                    final(self).spec_in_bounds(i, j) ==> (!(#[trigger] final(self).spec_mine(i, j))
                        ==> final(self).spec_opened(i, j)))
            },
    {
        if x >= self.width || y >= self.height {
            return Err(OpenErr::OutOfBounds);
        }
        match self.state {
            GameState::Won | GameState::Lost => {
                return Err(OpenErr::GameOver);
            },
            GameState::Playing => {
                if self.opened[y as usize][x as usize] {
                    return Err(OpenErr::AlreadyOpen);
                }
            },
            GameState::New => {
                self.state = GameState::Playing;
                self.generate_board(x, y);
            },
        }
        let ghost mid = *self;
        let ghost pre_opened = self.spec_opened_grid();
        proof {
            assert(!self.spec_opened(x as int, y as int));
        }
        set_cell(&mut self.opened, x, y, true);
        proof {
            lemma_grid_update(pre_opened, x as int, y as int, true, self.height as int);
        }
        let result;
        if self.mines[y as usize][x as usize] {
            self.state = GameState::Lost;
            result = OpenInfo { state: GameState::Lost, cell: Cell::Mine };
        } else {
            self.clear_remaining = self.clear_remaining - 1;
            if self.clear_remaining == 0 {
                self.state = GameState::Won;
            }
            result = OpenInfo {
                state: self.state,
                cell: Cell::Clear(self.neighbours[y as usize][x as usize]),
            };
        }
        proof {
            let w = self.width as int;
            let h = self.height as int;
            assert forall|i: int, j: int|
                0 <= i < w && 0 <= j < h && !(i == x as int && j == y as int) implies #[trigger] self.spec_opened(
                i,
                j,
            ) == mid.spec_opened(i, j) by {}
            assert forall|i: int, j: int|
                0 <= i < w && 0 <= j < h implies #[trigger] self.spec_count(i, j) as int
                == neighbour_count(self.spec_mines(), w, h, i, j) by {
                assert(mid.spec_count(i, j) as int == neighbour_count(mid.spec_mines(), w, h, i, j));
            }
            if self.state == GameState::Playing || self.state == GameState::Won {
                assert forall|i: int, j: int|
                    0 <= i < w && 0 <= j < h && #[trigger] self.spec_opened(i, j) implies !self.spec_mine(
                    i,
                    j,
                ) by {
                    if !(i == x && j == y) {
                        assert(mid.spec_opened(i, j));
                    }
                }
            }
            assert(self.inv());
            if self.state == GameState::Playing || self.state == GameState::Won {
                self.lemma_won_iff_cleared();
            }
        }
        Ok(result)
    }
}


/// The i-th placement draw of an injected list, read as zero when missing
/// or not below the bound.
pub open spec fn drawn_at(draws: Seq<u32>, i: int, bound: int) -> int {
    if 0 <= i < draws.len() && (draws[i] as int) < bound {
        draws[i] as int
    } else {
        0int
    }
}

/// The coordinates of the free cell of row-major rank `r`.
pub open spec fn free_cell_at(g: Seq<Seq<bool>>, w: int, h: int, r: int) -> (int, int) {
    choose|x: int, y: int| 0 <= x < w && 0 <= y < h && !g[y][x] && free_before(g, x, y) == r
}

/// The grid before any placement: all clear, with the first-probed cell
/// scratch-marked.
pub open spec fn seeded_grid(w: int, h: int, fx: int, fy: int) -> Seq<Seq<bool>> {
    Seq::new(h as nat, |y: int| Seq::new(w as nat, |x: int| x == fx && y == fy))
}

/// The grid after the first `k` placements of a draw-list generation: each
/// step sets the still-free cell whose row-major rank the next draw names.
pub open spec fn drawn_prefix(
    w: int,
    h: int,
    m: int,
    fx: int,
    fy: int,
    draws: Seq<u32>,
    k: int,
) -> Seq<Seq<bool>>
    decreases k,
{
    if k <= 0 {
        seeded_grid(w, h, fx, fy)
    } else {
        let prev = drawn_prefix(w, h, m, fx, fy, draws, k - 1);
        let bound = w * h - m - 1 + (m - (k - 1));
        let r = drawn_at(draws, k - 1, bound);
        let (cx, cy) = free_cell_at(prev, w, h, r);
        prev.update(cy, prev[cy].update(cx, true))
    }
}

/// The layout an injected draw list produces: all `m` placements, then the
/// scratch mark cleared off the first-probed cell.
pub open spec fn drawn_grid(w: int, h: int, m: int, fx: int, fy: int, draws: Seq<u32>) -> Seq<
    Seq<bool>,
> {
    let full = drawn_prefix(w, h, m, fx, fy, draws, m);
    full.update(fy, full[fy].update(fx, false))
}

/// Relies on `rand::thread_rng` and `rand::Rng::gen_range` on the range
/// `0..bound`: the sampled value lies in the range, so below `bound`.  The
/// range is non-empty by the precondition, so the call does not panic.
#[verifier::external_body]
fn random_below(bound: u32) -> (r: u32)
    requires
        1 <= bound,
    ensures
        r < bound,
{
    rand::thread_rng().gen_range(0..bound)
}

/// The next placement draw: a uniform random draw, or the `idx`-th entry of
/// the injected list, read as zero when missing or out of range.
fn next_draw(randomizer: &Randomizer, idx: usize, bound: u32) -> (r: u32)
    requires
        1 <= bound,
    ensures
        r < bound,
        randomizer matches Randomizer::Draws(v) ==> r as int == drawn_at(
            v@,
            idx as int,
            bound as int,
        ),
{
    match randomizer {
        Randomizer::Uniform => random_below(bound),
        Randomizer::Draws(v) => {
            if idx < v.len() {
                let d = v[idx];
                if d < bound {
                    d
                } else {
                    0
                }
            } else {
                0
            }
        },
    }
}

/// The `r`-th free cell of the grid in row-major order.
fn find_free_cell(g: &Vec<Vec<bool>>, w: u32, h: u32, r: u32) -> (cell: (u32, u32))
    requires
        dims_ok(view_of(*g), w as int, h as int),
        (r as int) < rows_free(view_of(*g), h as int),
    ensures
        ({
            let (cx, cy) = cell;
            &&& cx < w
            &&& cy < h
            &&& !view_of(*g)[cy as int][cx as int]
            &&& free_before(view_of(*g), cx as int, cy as int) == r as int
        }),
{
    let ghost gv = view_of(*g);
    let mut i: u32 = 0;
    let mut y: u32 = 0;
    while y < h
        invariant
            dims_ok(gv, w as int, h as int),
            gv == view_of(*g),
            y <= h,
            i <= r,
            (r as int) < rows_free(gv, h as int),
            i as int == rows_free(gv, y as int),
        decreases h - y,
    {
        let mut x: u32 = 0;
        while x < w
            invariant
                dims_ok(gv, w as int, h as int),
                gv == view_of(*g),
                y < h,
                x <= w,
                i <= r,
                (r as int) < rows_free(gv, h as int),
                i as int == rows_free(gv, y as int) + row_free(gv[y as int], x as int),
            decreases w - x,
        {
            if !g[y as usize][x as usize] {
                if i == r {
                    return (x, y);
                }
                i += 1;
            }
            x += 1;
        }
        y += 1;
    }
    proof {
        assert(i as int == rows_free(gv, h as int));
        assert(false);
    }
    (0, 0)
}

/// Lay out exactly `num_mines` mines, leaving the first-probed cell clear.
///
/// All cells but the first-probed one form the candidate pool.  The probed
/// cell is scratch-marked, then each round draws an index below the number
/// of still-free cells and sets the mine at that free cell, and the scratch
/// mark is cleared at the end.  With uniform draws this samples mine
/// positions without replacement, uniformly over all boards that keep the
/// probed cell clear.
pub fn generate_mines(
    width: u32,
    height: u32,
    num_mines: u32,
    firstx: u32,
    firsty: u32,
    randomizer: &Randomizer,
) -> (g: Vec<Vec<bool>>)
    requires
        valid_config(width, height, num_mines),
        firstx < width,
        firsty < height,
    ensures
        dims_ok(view_of(g), width as int, height as int),
        grid_set(view_of(g)) == num_mines as int,
        !view_of(g)[firsty as int][firstx as int],
        randomizer matches Randomizer::Draws(v) ==> view_of(g) == drawn_grid(
            width as int,
            height as int,
            num_mines as int,
            firstx as int,
            firsty as int,
            v@,
        ),
{
    let ghost w = width as int;
    let ghost h = height as int;
    let ghost mm = num_mines as int;
    let ghost fx = firstx as int;
    let ghost fy = firsty as int;
    let ghost is_draws = randomizer is Draws;
    let ghost dv = match randomizer {
        Randomizer::Draws(v) => v@,
        Randomizer::Uniform => Seq::<u32>::empty(),
    };
    let mut g = grid_of(width, height, false);
    proof {
        lemma_all_free(view_of(g), w, h);
        let pre = view_of(g);
        lemma_grid_update(pre, firstx as int, firsty as int, true, h);
    }
    set_cell(&mut g, firstx, firsty, true);
    proof {
        assert(view_of(g) =~~= seeded_grid(w, h, fx, fy));
    }
    let mut mines_left = num_mines;
    let mut di: usize = 0;
    while mines_left > 0
        invariant
            valid_config(width, height, num_mines),
            firstx < width,
            firsty < height,
            w == width as int,
            h == height as int,
            mm == num_mines as int,
            fx == firstx as int,
            fy == firsty as int,
            is_draws == (randomizer is Draws),
            is_draws ==> dv == randomizer->Draws_0@,
            dims_ok(view_of(g), w, h),
            view_of(g)[firsty as int][firstx as int],
            mines_left <= num_mines,
            di as int == num_mines as int - mines_left as int,
            grid_set(view_of(g)) == num_mines as int - mines_left as int + 1,
            is_draws ==> view_of(g) == drawn_prefix(w, h, mm, fx, fy, dv, di as int),
        decreases mines_left,
    {
        let bound = width * height - num_mines - 1 + mines_left;
        let r = next_draw(randomizer, di, bound);
        proof {
            lemma_grid_counts(view_of(g), w, h);
        }
        let (cx, cy) = find_free_cell(&g, width, height, r);
        let ghost pre_g = view_of(g);
        proof {
            lemma_grid_update(pre_g, cx as int, cy as int, true, h);
        }
        set_cell(&mut g, cx, cy, true);
        proof {
            if is_draws {
                // the placement is exactly the k-th step of the specified
                // layout: the rank pins the cell
                let k = di as int;
                assert(exists|x: int, y: int|
                    0 <= x < w && 0 <= y < h && !pre_g[y][x] && free_before(pre_g, x, y)
                        == r as int) by {
                    assert(0 <= (cx as int) < w && 0 <= (cy as int) < h
                        && !pre_g[cy as int][cx as int] && free_before(pre_g, cx as int, cy as int)
                        == r as int);
                }
                let (px, py) = free_cell_at(pre_g, w, h, r as int);
                assert(0 <= px < w && 0 <= py < h && !pre_g[py][px] && free_before(pre_g, px, py)
                    == r as int) by {
                    assert(exists|x: int, y: int|
                        0 <= x < w && 0 <= y < h && !pre_g[y][x] && free_before(pre_g, x, y)
                            == r as int);
                }
                crate::grid::lemma_free_before_unique(
                    pre_g,
                    w,
                    h,
                    cx as int,
                    cy as int,
                    px,
                    py,
                );
                assert(view_of(g) == drawn_prefix(w, h, mm, fx, fy, dv, k + 1));
            }
        }
        mines_left -= 1;
        di += 1;
    }
    proof {
        let pre = view_of(g);
        lemma_grid_update(pre, firstx as int, firsty as int, false, h);
    }
    set_cell(&mut g, firstx, firsty, false);
    g
}

/// A board drawn from the thread-local random generator, with the
/// first-probed cell left clear.
pub fn default_randomizer(
    width: u32,
    height: u32,
    num_mines: u32,
    firstx: u32,
    firsty: u32,
) -> (g: Vec<Vec<bool>>)
    requires
        valid_config(width, height, num_mines),
        firstx < width,
        firsty < height,
    ensures
        dims_ok(view_of(g), width as int, height as int),
        grid_set(view_of(g)) == num_mines as int,
        !view_of(g)[firsty as int][firstx as int],
{
    let rz = Randomizer::Uniform;
    generate_mines(width, height, num_mines, firstx, firsty, &rz)
}

/// The number of mines among the up-to-8 neighbours of `(x, y)`.
fn count_adjacent(mines: &Vec<Vec<bool>>, w: u32, h: u32, x: u32, y: u32) -> (c: u8)
    requires
        dims_ok(view_of(*mines), w as int, h as int),
        x < w,
        y < h,
    ensures
        c as int == neighbour_count(view_of(*mines), w as int, h as int, x as int, y as int),
{
    let mut c: u8 = 0;
    if x > 0 && y > 0 && mines[(y - 1) as usize][(x - 1) as usize] {
        c += 1;
    }
    if y > 0 && mines[(y - 1) as usize][x as usize] {
        c += 1;
    }
    if x + 1 < w && y > 0 && mines[(y - 1) as usize][(x + 1) as usize] {
        c += 1;
    }
    if x > 0 && mines[y as usize][(x - 1) as usize] {
        c += 1;
    }
    if x + 1 < w && mines[y as usize][(x + 1) as usize] {
        c += 1;
    }
    if x > 0 && y + 1 < h && mines[(y + 1) as usize][(x - 1) as usize] {
        c += 1;
    }
    if y + 1 < h && mines[(y + 1) as usize][x as usize] {
        c += 1;
    }
    if x + 1 < w && y + 1 < h && mines[(y + 1) as usize][(x + 1) as usize] {
        c += 1;
    }
    c
}

/// The full grid of neighbour-mine counts for a mine grid.
fn neighbours_of(mines: &Vec<Vec<bool>>, w: u32, h: u32) -> (n: Vec<Vec<u8>>)
    requires
        dims_ok(view_of(*mines), w as int, h as int),
    ensures
        dims_ok(view_of(n), w as int, h as int),
        forall|x: int, y: int|
            0 <= x < w && 0 <= y < h ==> #[trigger] view_of(n)[y][x] as int == neighbour_count(
                view_of(*mines),
                w as int,
                h as int,
                x,
                y,
            ),
{
    let mut n: Vec<Vec<u8>> = Vec::new();
    let mut y: u32 = 0;
    while y < h
        invariant
            dims_ok(view_of(*mines), w as int, h as int),
            y <= h,
            view_of(n).len() == y as int,
            forall|j: int| 0 <= j < y ==> (#[trigger] view_of(n)[j]).len() == w as int,
            forall|i: int, j: int|
                0 <= i < w && 0 <= j < y ==> #[trigger] view_of(n)[j][i] as int == neighbour_count(
                    view_of(*mines),
                    w as int,
                    h as int,
                    i,
                    j,
                ),
        decreases h - y,
    {
        let mut row: Vec<u8> = Vec::new();
        let mut x: u32 = 0;
        while x < w
            invariant
                dims_ok(view_of(*mines), w as int, h as int),
                y < h,
                x <= w,
                row@.len() == x as int,
                forall|i: int|
                    0 <= i < x ==> #[trigger] row@[i] as int == neighbour_count(
                        view_of(*mines),
                        w as int,
                        h as int,
                        i,
                        y as int,
                    ),
            decreases w - x,
        {
            row.push(count_adjacent(mines, w, h, x, y));
            x += 1;
        }
        let ghost prev = view_of(n);
        n.push(row);
        proof {
            assert forall|j: int| 0 <= j < y + 1 implies #[trigger] view_of(n)[j] == (if j < y {
                prev[j]
            } else {
                row@
            }) by {}
        }
        y += 1;
    }
    n
}

} // verus!
