//! The player-facing overlay engine.
//!
//! A `Game` here wraps the authoritative rules engine and owns what only the
//! player sees: flags, the remaining-mine counter, cascading auto-reveal of
//! zero-count regions, chording, and the endgame board on which hidden cells
//! are disclosed and wrong flags are marked.  The rules engine stays the
//! sole source of truth for what is under each cell; the overlay only talks
//! to it through its public probes.

use crate::grid::{dims_ok, view_of};
use crate::rules;
use crate::rules::{adjacent, lemma_zero_count_safe, GameState};
use crate::timer::{nanos_to_secs, Timer};
use vstd::prelude::*;

verus! {

broadcast use crate::grid::lemma_view_of_len, crate::grid::lemma_view_of_index;

/// What the player sees on one cell.  `Mine`, `FalseFlag` and `TrippedMine`
/// appear only once the game is over.
#[derive(Debug, Clone, Copy, PartialEq, Eq, Structural)]
pub enum Cell {
    Hidden,
    Flag,
    Mine,
    FalseFlag,
    TrippedMine,
    Open(u8),
}

/// How the overlay presents a cell the rules engine reports.
pub open spec fn cell_of_rules(cell: rules::Cell) -> Cell {
    match cell {
        rules::Cell::Hidden => Cell::Hidden,
        rules::Cell::Mine => Cell::Mine,
        rules::Cell::Clear(n) => Cell::Open(n),
    }
}

impl From<rules::Cell> for Cell {
    fn from(cell: rules::Cell) -> (c: Cell) {
        match cell {
            rules::Cell::Hidden => Cell::Hidden,
            rules::Cell::Mine => Cell::Mine,
            rules::Cell::Clear(n) => Cell::Open(n),
        }
    }
}

impl vstd::std_specs::convert::FromSpecImpl<rules::Cell> for Cell {
    open spec fn obeys_from_spec() -> bool {
        true
    }

    open spec fn from_spec(cell: rules::Cell) -> Cell {
        cell_of_rules(cell)
    }
}

/// A player intent.  Everything except `Quit` is handled by `action`; `Quit`
/// is the host loop's concern and is rejected here.
#[derive(Debug, Clone, PartialEq, Eq, Structural)]
pub enum Action {
    Quit,
    ChangeSettings(Settings),
    Reset,
    Open(usize, usize),
    Flag(usize, usize),
    Chord(usize, usize),
    OpenOrChord(usize, usize),
}

/// A validated custom board shape.
#[derive(Debug, Clone, Copy, PartialEq, Eq, Structural)]
pub struct CustomBoard {
    width: usize,
    height: usize,
    mines: usize,
}

impl CustomBoard {
    pub closed spec fn spec_width(self) -> usize {
        self.width
    }

    pub closed spec fn spec_height(self) -> usize {
        self.height
    }

    pub closed spec fn spec_mines(self) -> usize {
        self.mines
    }

    /// A custom shape: both sides at least one, at least one mine, at least
    /// one clear cell, and an area small enough for the rules engine.
    pub fn new(width: usize, height: usize, mines: usize) -> (b: CustomBoard)
        requires
            1 <= width,
            1 <= height,
            1 <= mines,
            mines < width * height,
            width * height <= u32::MAX as int,
        ensures
            b.spec_width() == width,
            b.spec_height() == height,
            b.spec_mines() == mines,
    {
        CustomBoard { width, height, mines }
    }
}

/// The named difficulty presets plus a custom shape.
#[derive(Debug, Clone, Copy, PartialEq, Eq, Structural)]
pub enum Difficulty {
    Easy,
    Medium,
    Hard,
    Custom(CustomBoard),
}

impl Difficulty {
    pub open spec fn spec_width(self) -> usize {
        match self {
            Difficulty::Easy => 9,
            Difficulty::Medium => 16,
            Difficulty::Hard => 30,
            Difficulty::Custom(board) => board.spec_width(),
        }
    }

    pub open spec fn spec_height(self) -> usize {
        match self {
            Difficulty::Easy => 9,
            Difficulty::Medium => 16,
            Difficulty::Hard => 16,
            Difficulty::Custom(board) => board.spec_height(),
        }
    }

    pub open spec fn spec_mines(self) -> usize {
        match self {
            Difficulty::Easy => 10,
            Difficulty::Medium => 40,
            Difficulty::Hard => 99,
            Difficulty::Custom(board) => board.spec_mines(),
        }
    }

    /// The shape is one the rules engine accepts.  The presets always are; a
    /// custom shape is whenever it came through `CustomBoard::new`.
    pub open spec fn spec_wf(self) -> bool {
        &&& 1 <= self.spec_width()
        &&& 1 <= self.spec_height()
        &&& 1 <= self.spec_mines()
        &&& self.spec_mines() < self.spec_width() * self.spec_height()
        &&& self.spec_width() * self.spec_height() <= u32::MAX as int
    }

    pub fn width(&self) -> (w: usize)
        ensures
            w == self.spec_width(),
    {
        match self {
            Difficulty::Easy => 9,
            Difficulty::Medium => 16,
            Difficulty::Hard => 30,
            Difficulty::Custom(board) => board.width,
        }
    }

    pub fn height(&self) -> (h: usize)
        ensures
            h == self.spec_height(),
    {
        match self {
            Difficulty::Easy => 9,
            Difficulty::Medium => 16,
            Difficulty::Hard => 16,
            Difficulty::Custom(board) => board.height,
        }
    }

    pub fn mines(&self) -> (m: usize)
        ensures
            m == self.spec_mines(),
    {
        match self {
            Difficulty::Easy => 10,
            Difficulty::Medium => 40,
            Difficulty::Hard => 99,
            Difficulty::Custom(board) => board.mines,
        }
    }
}

/// The configuration the overlay runs under.
#[derive(Debug, Clone, PartialEq, Eq, Structural)]
pub struct Settings {
    pub difficulty: Difficulty,
}

impl Default for Settings {
    fn default() -> (s: Settings)
        ensures
            s.difficulty == Difficulty::Easy,
    {
        Settings { difficulty: Difficulty::Easy }
    }
}

/// What endgame reconciliation makes of one cell: a hidden cell shows its
/// true content, a flag over a real mine is confirmed, a flag over a clear
/// cell becomes `FalseFlag`, everything else keeps its face.
pub open spec fn disclosed_cell(pre: Cell, mine: bool, count: u8) -> Cell {
    match pre {
        Cell::Hidden => if mine {
            Cell::Mine
        } else {
            Cell::Open(count)
        },
        Cell::Flag => if mine {
            Cell::Mine
        } else {
            Cell::FalseFlag
        },
        other => other,
    }
}

/// Number of flags among the first `n` cells of a row.
pub open spec fn row_flags(r: Seq<Cell>, n: int) -> int
    decreases n,
{
    if n <= 0 {
        0
    } else {
        row_flags(r, n - 1) + if r[n - 1] == Cell::Flag {
            1int
        } else {
            0int
        }
    }
}

/// Number of flags in the first `k` full rows.
pub open spec fn rows_flags(g: Seq<Seq<Cell>>, k: int) -> int
    decreases k,
{
    if k <= 0 {
        0
    } else {
        rows_flags(g, k - 1) + row_flags(g[k - 1], g[k - 1].len() as int)
    }
}

/// Number of flags on the whole board.
pub open spec fn board_flags(g: Seq<Seq<Cell>>) -> int {
    rows_flags(g, g.len() as int)
}

proof fn lemma_row_flags_bounds(r: Seq<Cell>, n: int)
    requires
        0 <= n,
    ensures
        0 <= row_flags(r, n) <= n,
    decreases n,
{
    if n > 0 {
        lemma_row_flags_bounds(r, n - 1);
    }
}

proof fn lemma_rows_flags_bounds(g: Seq<Seq<Cell>>, w: int, k: int)
    requires
        0 <= k <= g.len(),
        0 <= w,
        forall|y: int| 0 <= y < g.len() ==> (#[trigger] g[y]).len() == w,
    ensures
        0 <= rows_flags(g, k) <= k * w,
    decreases k,
{
    if k > 0 {
        lemma_rows_flags_bounds(g, w, k - 1);
        lemma_row_flags_bounds(g[k - 1], w);
        assert(k * w == (k - 1) * w + w) by (nonlinear_arith);
    }
}

/// The change in the flag count when one cell goes from `from` to `to`.
pub open spec fn delta_flags(from: Cell, to: Cell) -> int {
    (if to == Cell::Flag {
        1int
    } else {
        0int
    }) - (if from == Cell::Flag {
        1int
    } else {
        0int
    })
}

proof fn lemma_row_flags_update(r: Seq<Cell>, i: int, c: Cell, n: int)
    requires
        0 <= i < r.len(),
        0 <= n <= r.len(),
    ensures
        n <= i ==> row_flags(r.update(i, c), n) == row_flags(r, n),
        n > i ==> row_flags(r.update(i, c), n) == row_flags(r, n) + delta_flags(r[i], c),
    decreases n,
{
    if n > 0 {
        lemma_row_flags_update(r, i, c, n - 1);
    }
}

proof fn lemma_rows_flags_update(g: Seq<Seq<Cell>>, x: int, y: int, c: Cell, k: int)
    requires
        0 <= y < g.len(),
        0 <= x < g[y].len(),
        0 <= k <= g.len(),
    ensures
        k <= y ==> rows_flags(g.update(y, g[y].update(x, c)), k) == rows_flags(g, k),
        k > y ==> rows_flags(g.update(y, g[y].update(x, c)), k) == rows_flags(g, k) + delta_flags(
            g[y][x],
            c,
        ),
    decreases k,
{
    if k > 0 {
        lemma_rows_flags_update(g, x, y, c, k - 1);
        if k - 1 == y {
            lemma_row_flags_update(g[y], x, c, g[y].len() as int);
        }
    }
}

proof fn lemma_rows_flags_none(g: Seq<Seq<Cell>>, w: int, k: int)
    requires
        0 <= k <= g.len(),
        0 <= w,
        forall|y: int| 0 <= y < g.len() ==> (#[trigger] g[y]).len() == w,
        forall|x: int, y: int| 0 <= x < w && 0 <= y < g.len() ==> #[trigger] g[y][x] != Cell::Flag,
    ensures
        rows_flags(g, k) == 0,
    decreases k,
{
    if k > 0 {
        lemma_rows_flags_none(g, w, k - 1);
        lemma_row_flags_none(g[k - 1], w);
    }
}

proof fn lemma_row_flags_none(r: Seq<Cell>, n: int)
    requires
        0 <= n <= r.len(),
        forall|i: int| 0 <= i < r.len() ==> #[trigger] r[i] != Cell::Flag,
    ensures
        row_flags(r, n) == 0,
    decreases n,
{
    if n > 0 {
        lemma_row_flags_none(r, n - 1);
    }
}

/// Number of hidden cells among the first `n` of a row.
pub open spec fn row_hidden(r: Seq<Cell>, n: int) -> int
    decreases n,
{
    if n <= 0 {
        0
    } else {
        row_hidden(r, n - 1) + if r[n - 1] == Cell::Hidden {
            1int
        } else {
            0int
        }
    }
}

/// Number of hidden cells in the first `k` full rows.
pub open spec fn rows_hidden(g: Seq<Seq<Cell>>, k: int) -> int
    decreases k,
{
    if k <= 0 {
        0
    } else {
        rows_hidden(g, k - 1) + row_hidden(g[k - 1], g[k - 1].len() as int)
    }
}

/// Number of hidden cells on the whole board: the cascade's termination
/// measure.
pub open spec fn board_hidden(g: Seq<Seq<Cell>>) -> int {
    rows_hidden(g, g.len() as int)
}

proof fn lemma_row_hidden_bounds(r: Seq<Cell>, n: int)
    requires
        0 <= n,
    ensures
        0 <= row_hidden(r, n),
    decreases n,
{
    if n > 0 {
        lemma_row_hidden_bounds(r, n - 1);
    }
}

proof fn lemma_rows_hidden_bounds(g: Seq<Seq<Cell>>, k: int)
    requires
        0 <= k <= g.len(),
    ensures
        0 <= rows_hidden(g, k),
    decreases k,
{
    if k > 0 {
        lemma_rows_hidden_bounds(g, k - 1);
        lemma_row_hidden_bounds(g[k - 1], g[k - 1].len() as int);
    }
}

proof fn lemma_row_hidden_update(r: Seq<Cell>, i: int, c: Cell, n: int)
    requires
        0 <= i < r.len(),
        0 <= n <= r.len(),
    ensures
        n <= i ==> row_hidden(r.update(i, c), n) == row_hidden(r, n),
        n > i && r[i] == Cell::Hidden && c != Cell::Hidden ==> row_hidden(r.update(i, c), n)
            == row_hidden(r, n) - 1,
    decreases n,
{
    if n > 0 {
        lemma_row_hidden_update(r, i, c, n - 1);
    }
}

proof fn lemma_rows_hidden_update(g: Seq<Seq<Cell>>, x: int, y: int, c: Cell, k: int)
    requires
        0 <= y < g.len(),
        0 <= x < g[y].len(),
        0 <= k <= g.len(),
    ensures
        k <= y ==> rows_hidden(g.update(y, g[y].update(x, c)), k) == rows_hidden(g, k),
        k > y && g[y][x] == Cell::Hidden && c != Cell::Hidden ==> rows_hidden(
            g.update(y, g[y].update(x, c)),
            k,
        ) == rows_hidden(g, k) - 1,
    decreases k,
{
    if k > 0 {
        lemma_rows_hidden_update(g, x, y, c, k - 1);
        if k - 1 == y {
            lemma_row_hidden_update(g[y], x, c, g[y].len() as int);
        }
    }
}

proof fn lemma_row_hidden_none(r: Seq<Cell>, n: int)
    requires
        0 <= n <= r.len(),
        forall|i: int| 0 <= i < r.len() ==> #[trigger] r[i] != Cell::Hidden,
    ensures
        row_hidden(r, n) == 0,
    decreases n,
{
    if n > 0 {
        lemma_row_hidden_none(r, n - 1);
    }
}

proof fn lemma_rows_hidden_none(g: Seq<Seq<Cell>>, w: int, k: int)
    requires
        0 <= k <= g.len(),
        0 <= w,
        forall|y: int| 0 <= y < g.len() ==> (#[trigger] g[y]).len() == w,
        forall|x: int, y: int| 0 <= x < w && 0 <= y < g.len() ==> #[trigger] g[y][x] != Cell::Hidden,
    ensures
        rows_hidden(g, k) == 0,
    decreases k,
{
    if k > 0 {
        lemma_rows_hidden_none(g, w, k - 1);
        lemma_row_hidden_none(g[k - 1], w);
    }
}

proof fn lemma_row_hidden_pos(r: Seq<Cell>, i: int, n: int)
    requires
        0 <= i < n <= r.len(),
        r[i] == Cell::Hidden,
    ensures
        row_hidden(r, n) >= 1,
    decreases n,
{
    lemma_row_hidden_bounds(r, n - 1);
    if i < n - 1 {
        lemma_row_hidden_pos(r, i, n - 1);
    }
}

proof fn lemma_rows_hidden_pos(g: Seq<Seq<Cell>>, x: int, y: int, k: int)
    requires
        0 <= y < k <= g.len(),
        0 <= x < g[y].len(),
        g[y][x] == Cell::Hidden,
    ensures
        rows_hidden(g, k) >= 1,
    decreases k,
{
    lemma_rows_hidden_bounds(g, k - 1);
    lemma_row_hidden_bounds(g[k - 1], g[k - 1].len() as int);
    if y < k - 1 {
        lemma_rows_hidden_pos(g, x, y, k - 1);
    } else {
        lemma_row_hidden_pos(g[y], x, g[y].len() as int);
    }
}

/// `(a, b)` is one of the coordinate pairs on the work list.
pub open spec fn holds_pair(st: Seq<(usize, usize)>, a: int, b: int) -> bool {
    exists|k: int| 0 <= k < st.len() && (#[trigger] st[k]).0 == a && st[k].1 == b
}

proof fn lemma_holds_pair_push(st: Seq<(usize, usize)>, p: (usize, usize))
    ensures
        forall|a: int, b: int| #[trigger]
            holds_pair(st.push(p), a, b) <==> (holds_pair(st, a, b) || (p.0 == a && p.1 == b)),
{
    assert forall|a: int, b: int| #[trigger]
        holds_pair(st.push(p), a, b) <==> (holds_pair(st, a, b) || (p.0 == a && p.1
        == b)) by {
        if holds_pair(st.push(p), a, b) {
            let k = choose|k: int|
                0 <= k < st.push(p).len() && (#[trigger] st.push(p)[k]).0 == a && st.push(p)[k].1
                    == b;
            if k < st.len() {
                assert(st[k] == st.push(p)[k]);
                assert(holds_pair(st, a, b));
            } else {
                assert(st.push(p)[k] == p);
            }
        }
        if holds_pair(st, a, b) {
            let k = choose|k: int| 0 <= k < st.len() && (#[trigger] st[k]).0 == a && st[k].1 == b;
            assert(st.push(p)[k] == st[k]);
            assert(holds_pair(st.push(p), a, b));
        }
        if p.0 == a && p.1 == b {
            assert(st.push(p)[st.len() as int] == p);
            assert(holds_pair(st.push(p), a, b));
        }
    }
}

proof fn lemma_holds_pair_shrink(st: Seq<(usize, usize)>, rest: Seq<(usize, usize)>)
    requires
        st.len() > 0,
        rest == st.subrange(0, st.len() - 1),
    ensures
        forall|a: int, b: int| #[trigger]
            holds_pair(st, a, b) ==> holds_pair(rest, a, b) || (st.last().0 == a && st.last().1
                == b),
        forall|a: int, b: int| #[trigger] holds_pair(rest, a, b) ==> holds_pair(st, a, b),
{
    assert forall|a: int, b: int| #[trigger]
        holds_pair(st, a, b) implies holds_pair(rest, a, b) || (st.last().0 == a && st.last().1
        == b) by {
        let k = choose|k: int| 0 <= k < st.len() && (#[trigger] st[k]).0 == a && st[k].1 == b;
        if k < st.len() - 1 {
            assert(rest[k] == st[k]);
            assert(holds_pair(rest, a, b));
        }
    }
    assert forall|a: int, b: int| #[trigger] holds_pair(rest, a, b) implies holds_pair(
        st,
        a,
        b,
    ) by {
        let k = choose|k: int| 0 <= k < rest.len() && (#[trigger] rest[k]).0 == a && rest[k].1 == b;
        assert(st[k] == rest[k]);
    }
}

/// Push one pair onto a work list, tracking membership.
fn push_pair(st: &mut Vec<(usize, usize)>, a: usize, b: usize)
    ensures
        final(st)@ == old(st)@.push((a, b)),
        forall|i: int, j: int| #[trigger]
            holds_pair(final(st)@, i, j) <==> (holds_pair(old(st)@, i, j) || (i == a && j == b)),
{
    st.push((a, b));
    proof {
        lemma_holds_pair_push(old(st)@, (a, b));
    }
}

/// The in-bounds cells around `(x, y)` on a `w` by `h` grid: each listed
/// pair is adjacent and on the grid, and every such cell is listed.
fn seed_neighbours(w: usize, h: usize, x: usize, y: usize) -> (st: Vec<(usize, usize)>)
    requires
        x < w,
        y < h,
    ensures
        forall|k: int|
            0 <= k < st@.len() ==> (#[trigger] st@[k]).0 < w && st@[k].1 < h && adjacent(
                x as int,
                y as int,
                st@[k].0 as int,
                st@[k].1 as int,
            ),
        forall|a: int, b: int|
            0 <= a < w && 0 <= b < h && adjacent(x as int, y as int, a, b) ==> #[trigger] holds_pair(
                st@,
                a,
                b,
            ),
        forall|k1: int, k2: int|
            0 <= k1 < k2 < st@.len() ==> #[trigger] st@[k1] != #[trigger] st@[k2],
{
    let mut st: Vec<(usize, usize)> = Vec::new();
    if x > 0 && y > 0 {
        push_pair(&mut st, x - 1, y - 1);
    }
    if y > 0 {
        push_pair(&mut st, x, y - 1);
    }
    if x + 1 < w && y > 0 {
        push_pair(&mut st, x + 1, y - 1);
    }
    if x > 0 {
        push_pair(&mut st, x - 1, y);
    }
    if x + 1 < w {
        push_pair(&mut st, x + 1, y);
    }
    if x > 0 && y + 1 < h {
        push_pair(&mut st, x - 1, y + 1);
    }
    if y + 1 < h {
        push_pair(&mut st, x, y + 1);
    }
    if x + 1 < w && y + 1 < h {
        push_pair(&mut st, x + 1, y + 1);
    }
    st
}

/// Membership in a concatenated work list.
proof fn lemma_holds_pair_concat(s1: Seq<(usize, usize)>, s2: Seq<(usize, usize)>)
    ensures
        forall|a: int, b: int| #[trigger]
            holds_pair(s1 + s2, a, b) <==> (holds_pair(s1, a, b) || holds_pair(s2, a, b)),
{
    assert forall|a: int, b: int| #[trigger]
        holds_pair(s1 + s2, a, b) <==> (holds_pair(s1, a, b) || holds_pair(s2, a, b)) by {
        if holds_pair(s1 + s2, a, b) {
            let k = choose|k: int|
                0 <= k < (s1 + s2).len() && (#[trigger] (s1 + s2)[k]).0 == a && (s1 + s2)[k].1 == b;
            if k < s1.len() {
                assert((s1 + s2)[k] == s1[k]);
                assert(holds_pair(s1, a, b));
            } else {
                assert((s1 + s2)[k] == s2[k - s1.len()]);
                assert(holds_pair(s2, a, b));
            }
        }
        if holds_pair(s1, a, b) {
            let k = choose|k: int| 0 <= k < s1.len() && (#[trigger] s1[k]).0 == a && s1[k].1 == b;
            assert((s1 + s2)[k] == s1[k]);
            assert(holds_pair(s1 + s2, a, b));
        }
        if holds_pair(s2, a, b) {
            let k = choose|k: int| 0 <= k < s2.len() && (#[trigger] s2[k]).0 == a && s2[k].1 == b;
            assert((s1 + s2)[k + s1.len()] == s2[k]);
            assert(holds_pair(s1 + s2, a, b));
        }
    }
}

/// One cell's part of a reveal, stated against the truth after the call
/// (which a first probe only creates then): the cell is untouched, or it was
/// hidden, holds no mine, and now shows its true count.
pub open spec fn revealed_from(pre: Game, post: Game, i: int, j: int) -> bool {
    post.spec_cell(i, j) == pre.spec_cell(i, j) || (pre.spec_cell(i, j) == Cell::Hidden
        && !post.spec_truth_mine(i, j) && post.spec_cell(i, j) == Cell::Open(
        post.spec_truth_count(i, j),
    ))
}

/// One cell of the endgame board, stated against the truth after the call.
pub open spec fn disclosed_from(pre: Game, post: Game, i: int, j: int) -> bool {
    post.spec_cell(i, j) == disclosed_cell(
        pre.spec_cell(i, j),
        post.spec_truth_mine(i, j),
        post.spec_truth_count(i, j),
    )
}

/// One if `(a, b)` lies on the board and carries a flag, else zero.
pub open spec fn flag_ind(g: Game, a: int, b: int) -> int {
    if g.spec_in_bounds(a, b) && g.spec_cell(a, b) == Cell::Flag {
        1int
    } else {
        0int
    }
}

/// The number of flags among the up-to-8 neighbours of `(x, y)`.
pub open spec fn flags_around(g: Game, x: int, y: int) -> int {
    flag_ind(g, x - 1, y - 1) + flag_ind(g, x, y - 1) + flag_ind(g, x + 1, y - 1) + flag_ind(
        g,
        x - 1,
        y,
    ) + flag_ind(g, x + 1, y) + flag_ind(g, x - 1, y + 1) + flag_ind(g, x, y + 1) + flag_ind(
        g,
        x + 1,
        y + 1,
    )
}

/// The chord precondition on `(x, y)`: an open cell with a positive number
/// matched exactly by the flags around it.
pub open spec fn chord_enabled(g: Game, x: int, y: int) -> bool {
    g.spec_cell(x, y) matches Cell::Open(n) && n > 0 && flags_around(g, x, y) == n as int
}

/// One cell's part of a cascade that is still in play: the cell is untouched,
/// or it was hidden, holds no mine, and now shows its true count.
pub open spec fn cascade_step(pre: Game, post: Game, i: int, j: int) -> bool {
    post.spec_cell(i, j) == pre.spec_cell(i, j) || (pre.spec_cell(i, j) == Cell::Hidden
        && !pre.spec_truth_mine(i, j) && post.spec_cell(i, j) == Cell::Open(
        pre.spec_truth_count(i, j),
    ))
}

/// No cell around `(i, j)` is still hidden.
pub open spec fn no_hidden_neighbour(g: Game, i: int, j: int) -> bool {
    forall|a: int, b: int|
        g.spec_in_bounds(a, b) && adjacent(i, j, a, b) ==> #[trigger] g.spec_cell(a, b)
            != Cell::Hidden
}

/// Some cell around `(i, j)` is an open zero cell that the running call
/// itself revealed, or is the probed cell `(sx, sy)`: reveals chain back to
/// the probe through zeros of this very cascade, not through zeros left by
/// earlier probes.
pub open spec fn has_fresh_zero_neighbour(
    pre: Game,
    cur: Game,
    sx: int,
    sy: int,
    i: int,
    j: int,
) -> bool {
    exists|a: int, b: int|
        cur.spec_in_bounds(a, b) && adjacent(i, j, a, b) && #[trigger] cur.spec_cell(a, b)
            == Cell::Open(0) && (pre.spec_cell(a, b) == Cell::Hidden || (a == sx && b == sy))
}

/// Every open zero cell that this call revealed has each of its neighbours
/// either already revealed or still on the work list.
pub open spec fn zero_frontier_ok(pre: Game, cur: Game, st: Seq<(usize, usize)>, i: int, j: int) -> bool {
    (pre.spec_cell(i, j) == Cell::Hidden && cur.spec_cell(i, j) == Cell::Open(0)) ==> forall|
        a: int,
        b: int,
    |
        cur.spec_in_bounds(a, b) && adjacent(i, j, a, b) ==> #[trigger] cur.spec_cell(a, b)
            != Cell::Hidden || holds_pair(st, a, b)
}

/// A freshly (re)built game: everything hidden, the counter at the full
/// mine count, the game not yet begun, the clock stopped at zero.
pub open spec fn fresh_outcome(post: Game) -> bool {
    &&& post.spec_state() == GameState::New
    &&& post.spec_mines_remaining() == post.spec_mines() as int
    &&& forall|i: int, j: int|
        post.spec_in_bounds(i, j) ==> #[trigger] post.spec_cell(i, j) == Cell::Hidden
    &&& !post.spec_timer().spec_is_running()
    &&& post.spec_timer().spec_excess() == 0
}

/// Everything a probe of `(x, y)` promises, from the state `pre` to the
/// state `post` with result `r`: each rejection leaves the game untouched;
/// a successful probe of a hidden cell reveals truthfully, cascades with
/// the stated confinement, starts the clock on a first probe, never loses a
/// first probe, wins exactly when every clear cell is open, and on an end
/// of the game discloses the whole board and stops the clock.
pub open spec fn probe_outcome(
    pre: Game,
    post: Game,
    r: Result<(), &'static str>,
    x: int,
    y: int,
) -> bool {
    &&& post.spec_settings() == pre.spec_settings()
    &&& (!pre.spec_in_bounds(x, y) ==> r == Err::<(), &'static str>("invalid coordinate") && post
        == pre)
    &&& (pre.spec_in_bounds(x, y) && (pre.spec_state() == GameState::Won || pre.spec_state()
        == GameState::Lost) ==> r == Err::<(), &'static str>("game is over") && post == pre)
    &&& (pre.spec_in_bounds(x, y) && pre.spec_state() != GameState::Won && pre.spec_state()
        != GameState::Lost ==> {
        &&& (pre.spec_cell(x, y) == Cell::Flag ==> r == Err::<(), &'static str>("cell is flagged")
            && post == pre)
        &&& (pre.spec_cell(x, y) is Open ==> r == Err::<(), &'static str>("cell is already open")
            && post == pre)
        &&& (pre.spec_cell(x, y) == Cell::Hidden ==> {
            &&& r == Ok::<(), &'static str>(())
            &&& post.spec_mines_remaining() == pre.spec_mines_remaining()
            &&& (pre.spec_state() == GameState::New ==> post.spec_state() != GameState::Lost)
            &&& (post.spec_state() == GameState::Playing ==> {
                &&& (pre.spec_state() == GameState::New ==> post.spec_timer().spec_is_running())
                &&& (pre.spec_state() == GameState::Playing ==> post.spec_timer()
                    == pre.spec_timer())
                &&& !post.spec_truth_mine(x, y)
                &&& post.spec_cell(x, y) == Cell::Open(post.spec_truth_count(x, y))
                &&& forall|i: int, j: int|
                    pre.spec_in_bounds(i, j) ==> #[trigger] revealed_from(pre, post, i, j)
                &&& forall|i: int, j: int|
                    pre.spec_in_bounds(i, j) && pre.spec_cell(i, j) == Cell::Hidden
                        && #[trigger] post.spec_cell(i, j) == Cell::Open(0)
                        ==> no_hidden_neighbour(post, i, j)
                &&& forall|i: int, j: int|
                    pre.spec_in_bounds(i, j) && pre.spec_cell(i, j) == Cell::Hidden
                        && #[trigger] post.spec_cell(i, j) != Cell::Hidden && !(i == x && j == y)
                        ==> has_fresh_zero_neighbour(pre, post, x, y, i, j)
            })
            &&& (post.spec_state() == GameState::Won ==> forall|i: int, j: int|
                pre.spec_in_bounds(i, j) ==> #[trigger] disclosed_from(pre, post, i, j))
            &&& (post.spec_state() == GameState::Lost ==> {
                &&& pre.spec_state() == GameState::Playing
                &&& pre.spec_truth_mine(x, y)
                &&& post.spec_cell(x, y) == Cell::TrippedMine
                &&& forall|i: int, j: int|
                    pre.spec_in_bounds(i, j) && !(i == x && j == y) ==> #[trigger] disclosed_from(
                        pre,
                        post,
                        i,
                        j,
                    )
            })
            &&& (post.spec_state() != GameState::Playing ==> !post.spec_timer().spec_is_running())
            &&& post.spec_state() != GameState::New
            &&& (post.spec_state() != GameState::Lost ==> ((post.spec_state() == GameState::Won)
                <==> (forall|i: int, j: int|
                post.spec_in_bounds(i, j) ==> (!(#[trigger] post.spec_truth_mine(i, j))
                    ==> post.spec_rules_opened(i, j)))))
        })
    })
}

/// Everything a flag toggle on `(x, y)` promises: the rules engine and the
/// clock are never touched, no other cell changes, a hidden cell gains a
/// flag and the counter drops, a flagged cell loses it and the counter
/// rises, and every rejection leaves the game untouched.
pub open spec fn flag_outcome(
    pre: Game,
    post: Game,
    r: Result<(), &'static str>,
    x: int,
    y: int,
) -> bool {
    &&& post.spec_settings() == pre.spec_settings()
    &&& post.spec_state() == pre.spec_state()
    &&& post.spec_rules() == pre.spec_rules()
    &&& post.spec_timer() == pre.spec_timer()
    &&& (!pre.spec_in_bounds(x, y) ==> r == Err::<(), &'static str>("invalid coordinate") && post
        == pre)
    &&& (pre.spec_in_bounds(x, y) && (pre.spec_state() == GameState::Won || pre.spec_state()
        == GameState::Lost) ==> r == Err::<(), &'static str>("game is over") && post == pre)
    &&& (pre.spec_in_bounds(x, y) && pre.spec_state() != GameState::Won && pre.spec_state()
        != GameState::Lost ==> {
        &&& forall|i: int, j: int|
            pre.spec_in_bounds(i, j) && !(i == x && j == y) ==> #[trigger] post.spec_cell(i, j)
                == pre.spec_cell(i, j)
        &&& (pre.spec_cell(x, y) == Cell::Hidden ==> r == Ok::<(), &'static str>(())
            && post.spec_cell(x, y) == Cell::Flag && post.spec_mines_remaining()
            == pre.spec_mines_remaining() - 1)
        &&& (pre.spec_cell(x, y) == Cell::Flag ==> r == Ok::<(), &'static str>(())
            && post.spec_cell(x, y) == Cell::Hidden && post.spec_mines_remaining()
            == pre.spec_mines_remaining() + 1)
        &&& (pre.spec_cell(x, y) != Cell::Hidden && pre.spec_cell(x, y) != Cell::Flag ==> r
            == Err::<(), &'static str>("cell not hidden") && post == pre)
    })
}

/// Everything a chord on `(x, y)` promises: each rejection leaves the game
/// untouched; an enabled chord opens every hidden neighbour, reveals only
/// truthfully with the cascade's confinement, and on a detonation loses the
/// game, marks the tripped mine and discloses the board.
pub open spec fn chord_outcome(
    pre: Game,
    post: Game,
    r: Result<(), &'static str>,
    x: int,
    y: int,
) -> bool {
    &&& post.spec_settings() == pre.spec_settings()
    &&& post.spec_mines_remaining() == pre.spec_mines_remaining()
    &&& (!pre.spec_in_bounds(x, y) ==> r == Err::<(), &'static str>("invalid coordinate") && post
        == pre)
    &&& (pre.spec_in_bounds(x, y) && (pre.spec_state() == GameState::Won || pre.spec_state()
        == GameState::Lost) ==> r == Err::<(), &'static str>("game is over") && post == pre)
    &&& (pre.spec_in_bounds(x, y) && pre.spec_state() != GameState::Won && pre.spec_state()
        != GameState::Lost ==> {
        &&& (pre.spec_cell(x, y) == Cell::Flag ==> r == Err::<(), &'static str>("cell is flagged")
            && post == pre)
        &&& (pre.spec_cell(x, y) == Cell::Hidden ==> r == Err::<(), &'static str>("cell is hidden")
            && post == pre)
        &&& (pre.spec_cell(x, y) == Cell::Open(0) ==> r == Err::<(), &'static str>(
            "zero cells auto-chord already",
        ) && post == pre)
        &&& (pre.spec_cell(x, y) is Open && pre.spec_cell(x, y) != Cell::Open(0) && !chord_enabled(
            pre,
            x,
            y,
        ) ==> r == Err::<(), &'static str>("incorrect number of flags") && post == pre)
        &&& (chord_enabled(pre, x, y) ==> {
            &&& forall|a: int, b: int|
                pre.spec_in_bounds(a, b) && adjacent(x, y, a, b) ==> #[trigger] post.spec_cell(
                    a,
                    b,
                ) != Cell::Hidden
            &&& post.spec_state() != GameState::New
            &&& (post.spec_state() == GameState::Playing ==> {
                &&& r == Ok::<(), &'static str>(())
                &&& post.spec_timer() == pre.spec_timer()
                &&& forall|i: int, j: int|
                    pre.spec_in_bounds(i, j) ==> #[trigger] revealed_from(pre, post, i, j)
                &&& forall|i: int, j: int|
                    pre.spec_in_bounds(i, j) && pre.spec_cell(i, j) == Cell::Hidden
                        && #[trigger] post.spec_cell(i, j) == Cell::Open(0)
                        ==> no_hidden_neighbour(post, i, j)
                &&& forall|i: int, j: int|
                    pre.spec_in_bounds(i, j) && pre.spec_cell(i, j) == Cell::Hidden
                        && #[trigger] post.spec_cell(i, j) != Cell::Hidden ==> adjacent(x, y, i, j)
                        || has_fresh_zero_neighbour(pre, post, x, y, i, j)
            })
            &&& (post.spec_state() == GameState::Won ==> r == Ok::<(), &'static str>(()) && !post.spec_timer().spec_is_running() && (forall|
                i: int,
                j: int,
            |
                pre.spec_in_bounds(i, j) ==> #[trigger] disclosed_from(pre, post, i, j)))
            &&& (post.spec_state() == GameState::Lost ==> {
                &&& r == Err::<(), &'static str>("Auto-tripped on mine.")
                &&& !post.spec_timer().spec_is_running()
                &&& exists|a: int, b: int|
                    pre.spec_in_bounds(a, b) && #[trigger] adjacent(x, y, a, b) && pre.spec_cell(
                        a,
                        b,
                    ) == Cell::Hidden && pre.spec_truth_mine(a, b) && post.spec_cell(a, b)
                        == Cell::TrippedMine
                &&& forall|i: int, j: int|
                    pre.spec_in_bounds(i, j) ==> #[trigger] disclosed_from(pre, post, i, j) || (
                    post.spec_cell(i, j) == Cell::TrippedMine && adjacent(x, y, i, j)
                        && pre.spec_cell(i, j) == Cell::Hidden && pre.spec_truth_mine(i, j))
            })
        })
    })
}

/// What `open_or_chord` promises: exactly a chord on an open cell, exactly
/// a probe on anything else.
pub open spec fn open_or_chord_outcome(
    pre: Game,
    post: Game,
    r: Result<(), &'static str>,
    x: int,
    y: int,
) -> bool {
    if pre.spec_in_bounds(x, y) && pre.spec_cell(x, y) is Open {
        chord_outcome(pre, post, r, x, y)
    } else {
        probe_outcome(pre, post, r, x, y)
    }
}

/// The player-facing game: the rules engine plus the overlay board, the
/// remaining-mine counter and the clock.
#[derive(Debug)]
pub struct Game {
    rules: rules::Game,
    timer: Timer,
    board: Vec<Vec<Cell>>,
    settings: Settings,
    mines_remaining: i64,
}

impl Game {
    /// The displayed board.
    pub closed spec fn spec_board(self) -> Seq<Seq<Cell>> {
        view_of(self.board)
    }

    /// The displayed cell at `(x, y)`.
    pub open spec fn spec_cell(self, x: int, y: int) -> Cell {
        self.spec_board()[y][x]
    }

    pub closed spec fn spec_state(self) -> GameState {
        self.rules.spec_state()
    }

    pub closed spec fn spec_settings(self) -> Settings {
        self.settings
    }

    pub closed spec fn spec_mines_remaining(self) -> i64 {
        self.mines_remaining
    }

    pub closed spec fn spec_timer(self) -> Timer {
        self.timer
    }

    /// The wrapped rules engine, whole: operations that never touch it can
    /// say so in one clause.
    pub closed spec fn spec_rules(self) -> rules::Game {
        self.rules
    }

    pub open spec fn spec_width(self) -> usize {
        self.spec_settings().difficulty.spec_width()
    }

    pub open spec fn spec_height(self) -> usize {
        self.spec_settings().difficulty.spec_height()
    }

    pub open spec fn spec_mines(self) -> usize {
        self.spec_settings().difficulty.spec_mines()
    }

    pub open spec fn spec_in_bounds(self, x: int, y: int) -> bool {
        0 <= x < self.spec_width() && 0 <= y < self.spec_height()
    }

    /// Whether the rules engine holds a mine under `(x, y)`.
    pub closed spec fn spec_truth_mine(self, x: int, y: int) -> bool {
        self.rules.spec_mine(x, y)
    }

    /// The true neighbour-mine count under `(x, y)`.
    pub closed spec fn spec_truth_count(self, x: int, y: int) -> u8 {
        self.rules.spec_count(x, y)
    }

    /// Whether the rules engine has `(x, y)` marked opened.
    pub closed spec fn spec_rules_opened(self, x: int, y: int) -> bool {
        self.rules.spec_opened(x, y)
    }

    /// Before the board exists nothing can be open: only hidden or flagged.
    pub open spec fn cell_ok_new(self, x: int, y: int) -> bool {
        self.spec_cell(x, y) == Cell::Hidden || self.spec_cell(x, y) == Cell::Flag
    }

    /// While playing, the overlay agrees with the rules engine cell by cell:
    /// hidden and flagged cells are unopened there, open cells are opened
    /// there, are not mines, and show the true neighbour count; the endgame
    /// markings do not appear.
    pub open spec fn cell_ok_live(self, x: int, y: int) -> bool {
        match self.spec_cell(x, y) {
            Cell::Hidden => !self.spec_rules_opened(x, y),
            Cell::Flag => !self.spec_rules_opened(x, y),
            Cell::Open(n) => self.spec_rules_opened(x, y) && !self.spec_truth_mine(x, y) && n
                == self.spec_truth_count(x, y),
            _ => false,
        }
    }

    /// Once the game is over the board is fully disclosed: nothing is hidden
    /// or flagged, every mine marking sits on a real mine, `FalseFlag` sits
    /// on a non-mine, and open cells show the true count.
    pub open spec fn cell_ok_final(self, x: int, y: int) -> bool {
        match self.spec_cell(x, y) {
            Cell::Hidden => false,
            Cell::Flag => false,
            Cell::Mine => self.spec_truth_mine(x, y),
            Cell::TrippedMine => self.spec_truth_mine(x, y),
            Cell::FalseFlag => !self.spec_truth_mine(x, y),
            Cell::Open(n) => !self.spec_truth_mine(x, y) && n == self.spec_truth_count(x, y),
        }
    }

    /// Before the endgame board is built, every cell is either still hidden
    /// or flagged, the tripped mine marking (if any) sits on a real mine,
    /// and every open cell already shows the truth.
    pub open spec fn cell_ok_pre_final(self, x: int, y: int) -> bool {
        match self.spec_cell(x, y) {
            Cell::Hidden => true,
            Cell::Flag => true,
            Cell::Mine => false,
            Cell::FalseFlag => false,
            Cell::TrippedMine => self.spec_truth_mine(x, y),
            Cell::Open(n) => !self.spec_truth_mine(x, y) && n == self.spec_truth_count(x, y),
        }
    }

    /// The overlay's well-formedness: the settings are valid, the rules
    /// engine is wed to them and well-formed itself, the board has the
    /// configured shape, the remaining-mine counter is the configured mine
    /// count less the flags placed (until the game ends and the counter
    /// freezes), and every cell is consistent with the rules engine for the
    /// current stage of the game.
    pub closed spec fn inv(self) -> bool {
        let w = self.spec_width() as int;
        let h = self.spec_height() as int;
        let m = self.spec_mines() as int;
        &&& self.settings.difficulty.spec_wf()
        &&& self.rules.inv()
        &&& self.rules.spec_width() as int == w
        &&& self.rules.spec_height() as int == h
        &&& self.rules.spec_num_mines() as int == m
        &&& dims_ok(self.spec_board(), w, h)
        &&& (self.spec_state() == GameState::New || self.spec_state() == GameState::Playing)
            ==> self.mines_remaining as int == m - board_flags(self.spec_board())
        &&& self.spec_state() == GameState::New ==> forall|x: int, y: int|
            self.spec_in_bounds(x, y) ==> #[trigger] self.cell_ok_new(x, y)
        &&& self.spec_state() == GameState::Playing ==> forall|x: int, y: int|
            self.spec_in_bounds(x, y) ==> #[trigger] self.cell_ok_live(x, y)
        &&& (self.spec_state() == GameState::Won || self.spec_state() == GameState::Lost)
            ==> forall|x: int, y: int|
            self.spec_in_bounds(x, y) ==> #[trigger] self.cell_ok_final(x, y)
    }

    /// The public consequences of the overlay's well-formedness: the board
    /// has the configured shape, while the game runs the remaining-mine
    /// counter is the mine count less the flags placed, before the board
    /// exists every cell is hidden or flagged, while playing every cell
    /// agrees with the rules engine (so open cells show the true count and
    /// the endgame markings do not appear), and once the game is over the
    /// board is fully disclosed.
    pub proof fn lemma_inv(self)
        requires
            self.inv(),
        ensures
            self.spec_settings().difficulty.spec_wf(),
            dims_ok(self.spec_board(), self.spec_width() as int, self.spec_height() as int),
            (self.spec_state() == GameState::New || self.spec_state() == GameState::Playing)
                ==> self.spec_mines_remaining() as int == self.spec_mines() as int - board_flags(
                self.spec_board(),
            ) && 0 <= board_flags(self.spec_board()) <= self.spec_width() as int * self.spec_height() as int,
            self.spec_state() == GameState::New ==> forall|x: int, y: int|
                self.spec_in_bounds(x, y) ==> #[trigger] self.cell_ok_new(x, y),
            self.spec_state() == GameState::Playing ==> forall|x: int, y: int|
                self.spec_in_bounds(x, y) ==> #[trigger] self.cell_ok_live(x, y),
            (self.spec_state() == GameState::Won || self.spec_state() == GameState::Lost)
                ==> forall|x: int, y: int|
                self.spec_in_bounds(x, y) ==> #[trigger] self.cell_ok_final(x, y),
    {
        lemma_rows_flags_bounds(
            self.spec_board(),
            self.spec_width() as int,
            self.spec_height() as int,
        );
    }

    /// A fresh game under the given settings: everything hidden, the counter
    /// at the full mine count, the clock stopped at zero.
    pub fn new(settings: Settings) -> (g: Game)
        requires
            settings.difficulty.spec_wf(),
        ensures
            g.inv(),
            g.spec_settings() == settings,
            fresh_outcome(g),
    {
        let width = settings.difficulty.width();
        let height = settings.difficulty.height();
        let mines = settings.difficulty.mines();
        proof {
            assert(width * height >= width && width * height >= height) by (nonlinear_arith)
                requires
                    1 <= width,
                    1 <= height,
            ;
        }
        let rules_game = rules::Game::new(width as u32, height as u32, mines as u32);
        let board = crate::grid::grid_of(width as u32, height as u32, Cell::Hidden);
        let g = Game {
            rules: rules_game,
            timer: Timer::new(),
            board,
            settings,
            mines_remaining: mines as i64,
        };
        proof {
            lemma_rows_flags_none(
                g.spec_board(),
                g.spec_width() as int,
                g.spec_height() as int,
            );
        }
        g
    }

    /// A fresh game whose board generator draws from the injected source,
    /// so a layout can be reproduced for testing.
    pub fn new_with(settings: Settings, randomizer: rules::Randomizer) -> (g: Game)
        requires
            settings.difficulty.spec_wf(),
        ensures
            g.inv(),
            g.spec_settings() == settings,
            fresh_outcome(g),
    {
        let mut g = Game::new(settings);
        let ghost pre = g;
        g.rules.reset_randomizer(randomizer);
        proof {
            assert forall|x: int, y: int|
                g.spec_in_bounds(x, y) implies #[trigger] g.spec_cell(x, y) == Cell::Hidden by {
                assert(pre.spec_cell(x, y) == Cell::Hidden);
            }
            assert forall|x: int, y: int|
                g.spec_in_bounds(x, y) implies #[trigger] g.cell_ok_new(x, y) by {}
            assert(g.inv());
        }
        g
    }

    pub fn state(&self) -> (s: GameState)
        ensures
            s == self.spec_state(),
    {
        self.rules.get_state()
    }

    pub fn settings(&self) -> (s: &Settings)
        ensures
            *s == self.spec_settings(),
    {
        &self.settings
    }

    /// The elapsed play time in whole seconds; frozen whenever the clock is
    /// stopped, and never below the frozen total's seconds.
    pub fn time_as_secs(&self) -> (s: u64)
        ensures
            !self.spec_timer().spec_is_running() ==> s == nanos_to_secs(
                self.spec_timer().spec_excess(),
            ),
            s >= nanos_to_secs(self.spec_timer().spec_excess()),
    {
        self.timer.time_as_secs()
    }

    /// The displayed cell at `(x, y)`.
    pub fn cell(&self, x: usize, y: usize) -> (c: Cell)
        requires
            self.inv(),
            self.spec_in_bounds(x as int, y as int),
        ensures
            c == self.spec_cell(x as int, y as int),
    {
        self.board[y][x]
    }

    /// The whole displayed board, row by row.
    pub fn board(&self) -> (b: &Vec<Vec<Cell>>)
        ensures
            view_of(*b) == self.spec_board(),
    {
        &self.board
    }

    pub fn width(&self) -> (w: usize)
        ensures
            w == self.spec_width(),
    {
        self.settings.difficulty.width()
    }

    pub fn height(&self) -> (h: usize)
        ensures
            h == self.spec_height(),
    {
        self.settings.difficulty.height()
    }

    pub fn mines(&self) -> (m: usize)
        ensures
            m == self.spec_mines(),
    {
        self.settings.difficulty.mines()
    }

    /// The advisory remaining-mine counter; negative when the player has
    /// placed more flags than there are mines.
    pub fn mines_remaining(&self) -> (m: i64)
        ensures
            m == self.spec_mines_remaining(),
    {
        self.mines_remaining
    }

    /// What changes and what carries over when exactly one board cell is
    /// rewritten and the rules engine and settings are untouched.
    proof fn lemma_one_cell_change(pre: Game, post: Game, x: int, y: int)
        requires
            pre.inv(),
            post.rules == pre.rules,
            post.settings == pre.settings,
            pre.spec_in_bounds(x, y),
            post.spec_board() == pre.spec_board().update(
                y,
                pre.spec_board()[y].update(x, post.spec_cell(x, y)),
            ),
        ensures
            dims_ok(post.spec_board(), post.spec_width() as int, post.spec_height() as int),
            forall|i: int, j: int|
                post.spec_in_bounds(i, j) && !(i == x && j == y) ==> #[trigger] post.spec_cell(i, j)
                    == pre.spec_cell(i, j),
            post.spec_state() == GameState::New ==> forall|i: int, j: int|
                post.spec_in_bounds(i, j) && !(i == x && j == y) ==> #[trigger] post.cell_ok_new(
                    i,
                    j,
                ),
            post.spec_state() == GameState::Playing ==> forall|i: int, j: int|
                post.spec_in_bounds(i, j) && !(i == x && j == y) ==> #[trigger] post.cell_ok_live(
                    i,
                    j,
                ),
            board_flags(post.spec_board()) == board_flags(pre.spec_board()) + delta_flags(
                pre.spec_cell(x, y),
                post.spec_cell(x, y),
            ),
            0 <= board_flags(pre.spec_board()) <= pre.spec_width() as int * pre.spec_height() as int,
    {
        let w = pre.spec_width() as int;
        let h = pre.spec_height() as int;
        lemma_rows_flags_update(pre.spec_board(), x, y, post.spec_cell(x, y), h);
        lemma_rows_flags_bounds(pre.spec_board(), w, h);
        assert forall|i: int, j: int|
            post.spec_in_bounds(i, j) && !(i == x && j == y) implies #[trigger] post.spec_cell(i, j)
            == pre.spec_cell(i, j) by {}
        if post.spec_state() == GameState::New {
            assert forall|i: int, j: int|
                post.spec_in_bounds(i, j) && !(i == x && j == y) implies #[trigger] post.cell_ok_new(
                i,
                j,
            ) by {
                assert(pre.cell_ok_new(i, j));
            }
        }
        if post.spec_state() == GameState::Playing {
            assert forall|i: int, j: int|
                post.spec_in_bounds(i, j) && !(i == x && j == y) implies #[trigger] post.cell_ok_live(
                i,
                j,
            ) by {
                assert(pre.cell_ok_live(i, j));
            }
        }
    }

    /// Toggle a flag on `(x, y)`: a hidden cell gains a flag and the counter
    /// drops by one, a flagged cell loses it and the counter rises by one.
    /// Nothing else is touched, and the rules engine never learns of it.
    /// Rejected off the board, once the game is over, and on any open cell.
    pub fn flag(&mut self, x: usize, y: usize) -> (r: Result<(), &'static str>)
        requires
            old(self).inv(),
        ensures
            final(self).inv(),
            flag_outcome(*old(self), *final(self), r, x as int, y as int),
    {
        if !self.valid_coord(x, y) {
            return Err("invalid coordinate");
        }
        match self.rules.get_state() {
            GameState::Won | GameState::Lost => {
                return Err("game is over");
            },
            _ => {},
        }
        let ghost pre = *self;
        match self.board[y][x] {
            Cell::Hidden => {
                crate::grid::set_cell(&mut self.board, x as u32, y as u32, Cell::Flag);
                proof {
                    Self::lemma_one_cell_change(pre, *self, x as int, y as int);
                }
                self.mines_remaining = self.mines_remaining - 1;
                proof {
                    Self::lemma_one_cell_change(pre, *self, x as int, y as int);
                    if self.spec_state() == GameState::New {
                        assert(pre.cell_ok_new(x as int, y as int));
                        assert(self.cell_ok_new(x as int, y as int));
                    }
                    if self.spec_state() == GameState::Playing {
                        assert(pre.cell_ok_live(x as int, y as int));
                        assert(self.cell_ok_live(x as int, y as int));
                    }
                    assert(self.inv());
                }
                Ok(())
            },
            Cell::Flag => {
                crate::grid::set_cell(&mut self.board, x as u32, y as u32, Cell::Hidden);
                proof {
                    Self::lemma_one_cell_change(pre, *self, x as int, y as int);
                }
                self.mines_remaining = self.mines_remaining + 1;
                proof {
                    Self::lemma_one_cell_change(pre, *self, x as int, y as int);
                    if self.spec_state() == GameState::New {
                        assert(pre.cell_ok_new(x as int, y as int));
                        assert(self.cell_ok_new(x as int, y as int));
                    }
                    if self.spec_state() == GameState::Playing {
                        assert(pre.cell_ok_live(x as int, y as int));
                        assert(self.cell_ok_live(x as int, y as int));
                    }
                    assert(self.inv());
                }
                Ok(())
            },
            _ => Err("cell not hidden"),
        }
    }

    /// Endgame reconciliation: copy the rules engine's now fully disclosed
    /// truth over every cell still hidden, and resolve every flag into a
    /// confirmed mine or a `FalseFlag`.  Runs exactly once, at the moment the
    /// game is won or lost.
    fn query_board(&mut self)
        requires
            old(self).settings.difficulty.spec_wf(),
            old(self).rules.inv(),
            old(self).rules.spec_width() as int == old(self).spec_width() as int,
            old(self).rules.spec_height() as int == old(self).spec_height() as int,
            old(self).spec_state() == GameState::Won || old(self).spec_state() == GameState::Lost,
            dims_ok(
                old(self).spec_board(),
                old(self).spec_width() as int,
                old(self).spec_height() as int,
            ),
            forall|i: int, j: int|
                old(self).spec_in_bounds(i, j) ==> #[trigger] old(self).cell_ok_pre_final(i, j),
        ensures
            final(self).rules == old(self).rules,
            final(self).settings == old(self).settings,
            final(self).timer == old(self).timer,
            final(self).mines_remaining == old(self).mines_remaining,
            dims_ok(
                final(self).spec_board(),
                old(self).spec_width() as int,
                old(self).spec_height() as int,
            ),
            forall|i: int, j: int|
                old(self).spec_in_bounds(i, j) ==> #[trigger] final(self).spec_cell(i, j)
                    == disclosed_cell(
                    old(self).spec_cell(i, j),
                    old(self).spec_truth_mine(i, j),
                    old(self).spec_truth_count(i, j),
                ),
            forall|i: int, j: int|
                final(self).spec_in_bounds(i, j) ==> #[trigger] final(self).cell_ok_final(i, j),
    {
        let ghost pre = *self;
        let w = self.width();
        let h = self.height();
        let mut y: usize = 0;
        while y < h
            invariant
                w == pre.spec_width(),
                h == pre.spec_height(),
                y <= h,
                pre.settings.difficulty.spec_wf(),
                pre.rules.inv(),
                pre.rules.spec_width() as int == w as int,
                pre.rules.spec_height() as int == h as int,
                pre.spec_state() == GameState::Won || pre.spec_state() == GameState::Lost,
                dims_ok(pre.spec_board(), w as int, h as int),
                forall|i: int, j: int|
                    pre.spec_in_bounds(i, j) ==> #[trigger] pre.cell_ok_pre_final(i, j),
                self.rules == pre.rules,
                self.settings == pre.settings,
                self.timer == pre.timer,
                self.mines_remaining == pre.mines_remaining,
                dims_ok(self.spec_board(), w as int, h as int),
                forall|i: int, j: int|
                    pre.spec_in_bounds(i, j) && j >= y ==> #[trigger] self.spec_cell(i, j)
                        == pre.spec_cell(i, j),
                forall|i: int, j: int|
                    pre.spec_in_bounds(i, j) && j < y ==> #[trigger] self.spec_cell(i, j)
                        == disclosed_cell(
                        pre.spec_cell(i, j),
                        pre.spec_truth_mine(i, j),
                        pre.spec_truth_count(i, j),
                    ),
            decreases h - y,
        {
            let mut x: usize = 0;
            while x < w
                invariant
                    w == pre.spec_width(),
                    h == pre.spec_height(),
                    y < h,
                    x <= w,
                    pre.settings.difficulty.spec_wf(),
                    pre.rules.inv(),
                    pre.rules.spec_width() as int == w as int,
                    pre.rules.spec_height() as int == h as int,
                    pre.spec_state() == GameState::Won || pre.spec_state() == GameState::Lost,
                    dims_ok(pre.spec_board(), w as int, h as int),
                    forall|i: int, j: int|
                        pre.spec_in_bounds(i, j) ==> #[trigger] pre.cell_ok_pre_final(i, j),
                    self.rules == pre.rules,
                    self.settings == pre.settings,
                    self.timer == pre.timer,
                    self.mines_remaining == pre.mines_remaining,
                    dims_ok(self.spec_board(), w as int, h as int),
                    forall|i: int, j: int|
                        pre.spec_in_bounds(i, j) && (j > y || (j == y && i >= x))
                            ==> #[trigger] self.spec_cell(i, j) == pre.spec_cell(i, j),
                    forall|i: int, j: int|
                        pre.spec_in_bounds(i, j) && (j < y || (j == y && i < x))
                            ==> #[trigger] self.spec_cell(i, j) == disclosed_cell(
                            pre.spec_cell(i, j),
                            pre.spec_truth_mine(i, j),
                            pre.spec_truth_count(i, j),
                        ),
                decreases w - x,
            {
                let ghost before = *self;
                let cur = self.board[y][x];
                match cur {
                    Cell::Hidden => {
                        let truth = self.rules.get_cell(x as u32, y as u32);
                        crate::grid::set_cell(&mut self.board, x as u32, y as u32, Cell::from(truth));
                    },
                    Cell::Flag => {
                        let resolved = if self.rules.get_cell(x as u32, y as u32).is_clear() {
                            Cell::FalseFlag
                        } else {
                            Cell::Mine
                        };
                        crate::grid::set_cell(&mut self.board, x as u32, y as u32, resolved);
                    },
                    _ => {},
                }
                proof {
                    assert forall|i: int, j: int|
                        pre.spec_in_bounds(i, j) && !(i == x as int && j == y as int) implies #[trigger] self.spec_cell(
                        i,
                        j,
                    ) == before.spec_cell(i, j) by {}
                    assert(before.spec_cell(x as int, y as int) == pre.spec_cell(x as int, y as int));
                    assert(cur == pre.spec_cell(x as int, y as int));
                    assert(self.spec_cell(x as int, y as int) == disclosed_cell(
                        pre.spec_cell(x as int, y as int),
                        pre.spec_truth_mine(x as int, y as int),
                        pre.spec_truth_count(x as int, y as int),
                    ));
                }
                x += 1;
            }
            y += 1;
        }
        proof {
            assert forall|i: int, j: int|
                final(self).spec_in_bounds(i, j) implies #[trigger] final(self).cell_ok_final(
                i,
                j,
            ) by {
                assert(pre.cell_ok_pre_final(i, j));
                assert(final(self).spec_cell(i, j) == disclosed_cell(
                    pre.spec_cell(i, j),
                    pre.spec_truth_mine(i, j),
                    pre.spec_truth_count(i, j),
                ));
            }
        }
    }

    /// What changes when the rules engine opens one clear cell and the board
    /// shows it: consistency survives, nothing else moves, and one fewer
    /// cell is hidden.
    proof fn lemma_open_one_clear(pre: Game, post: Game, cx: int, cy: int)
        requires
            pre.inv(),
            pre.spec_state() == GameState::Playing,
            post.spec_state() == GameState::Playing,
            post.settings == pre.settings,
            post.mines_remaining == pre.mines_remaining,
            pre.spec_in_bounds(cx, cy),
            pre.spec_cell(cx, cy) == Cell::Hidden,
            post.rules.inv(),
            post.rules.spec_width() == pre.rules.spec_width(),
            post.rules.spec_height() == pre.rules.spec_height(),
            post.rules.spec_num_mines() == pre.rules.spec_num_mines(),
            post.rules.spec_mines() == pre.rules.spec_mines(),
            post.rules.spec_counts() == pre.rules.spec_counts(),
            post.rules.spec_opened(cx, cy),
            forall|i: int, j: int|
                pre.spec_in_bounds(i, j) && !(i == cx && j == cy)
                    ==> #[trigger] post.rules.spec_opened(i, j) == pre.rules.spec_opened(i, j),
            !pre.spec_truth_mine(cx, cy),
            post.spec_board() == pre.spec_board().update(
                cy,
                pre.spec_board()[cy].update(cx, Cell::Open(pre.spec_truth_count(cx, cy))),
            ),
        ensures
            post.inv(),
            forall|i: int, j: int|
                post.spec_in_bounds(i, j) && !(i == cx && j == cy) ==> #[trigger] post.spec_cell(
                    i,
                    j,
                ) == pre.spec_cell(i, j),
            post.spec_cell(cx, cy) == Cell::Open(pre.spec_truth_count(cx, cy)),
            board_hidden(post.spec_board()) == board_hidden(pre.spec_board()) - 1,
    {
        let w = pre.spec_width() as int;
        let h = pre.spec_height() as int;
        lemma_rows_flags_update(
            pre.spec_board(),
            cx,
            cy,
            Cell::Open(pre.spec_truth_count(cx, cy)),
            h,
        );
        lemma_rows_hidden_update(
            pre.spec_board(),
            cx,
            cy,
            Cell::Open(pre.spec_truth_count(cx, cy)),
            h,
        );
        assert forall|i: int, j: int|
            post.spec_in_bounds(i, j) && !(i == cx && j == cy) implies #[trigger] post.spec_cell(
            i,
            j,
        ) == pre.spec_cell(i, j) by {}
        assert forall|i: int, j: int|
            post.spec_in_bounds(i, j) implies #[trigger] post.cell_ok_live(i, j) by {
            if !(i == cx && j == cy) {
                assert(pre.cell_ok_live(i, j));
            }
        }
    }

    /// Pop the work list: either the top pair comes off, or the list was
    /// empty.
    fn pop_pair(st: &mut Vec<(usize, usize)>) -> (p: Option<(usize, usize)>)
        ensures
            old(st)@.len() > 0 ==> p == Some(old(st)@.last()) && final(st)@ == old(st)@.subrange(
                0,
                old(st)@.len() - 1,
            ) && (forall|a: int, b: int| #[trigger]
                holds_pair(old(st)@, a, b) ==> holds_pair(final(st)@, a, b) || (old(st)@.last().0
                    == a && old(st)@.last().1 == b)) && (forall|a: int, b: int| #[trigger]
                holds_pair(final(st)@, a, b) ==> holds_pair(old(st)@, a, b)),
            old(st)@.len() == 0 ==> p == None::<(usize, usize)> && final(st)@ == old(st)@,
    {
        let p = st.pop();
        proof {
            if old(st)@.len() > 0 {
                lemma_holds_pair_shrink(old(st)@, st@);
            }
        }
        p
    }

    /// Open every still-hidden neighbour of `(x, y)`, cascading outward
    /// through zero-count cells with an explicit work list.
    ///
    /// Cells revealed here show their true count; revealing the last clear
    /// cell wins the game and disclosure follows.  A hidden neighbour that
    /// turns out to be a mine (possible only under a wrong flag count, when
    /// chording) loses the game, runs the same disclosure, marks that cell
    /// `TrippedMine` and reports the detonation.
    fn open_neighbors(&mut self, x: usize, y: usize) -> (r: Result<(), &'static str>)
        requires
            old(self).inv(),
            old(self).spec_in_bounds(x as int, y as int),
            old(self).spec_state() == GameState::Playing,
            old(self).spec_cell(x as int, y as int) is Open,
        ensures
            final(self).inv(),
            final(self).spec_settings() == old(self).spec_settings(),
            final(self).spec_mines_remaining() == old(self).spec_mines_remaining(),
            forall|i: int, j: int|
                old(self).spec_in_bounds(i, j) ==> #[trigger] final(self).spec_truth_mine(i, j)
                    == old(self).spec_truth_mine(i, j),
            forall|i: int, j: int|
                old(self).spec_in_bounds(i, j) ==> #[trigger] final(self).spec_truth_count(i, j)
                    == old(self).spec_truth_count(i, j),
            forall|a: int, b: int|
                old(self).spec_in_bounds(a, b) && adjacent(x as int, y as int, a, b)
                    ==> #[trigger] final(self).spec_cell(a, b) != Cell::Hidden,
            final(self).spec_state() == GameState::Playing ==> {
                &&& r == Ok::<(), &'static str>(())
                &&& forall|i: int, j: int|
                    old(self).spec_in_bounds(i, j) ==> #[trigger] cascade_step(
                        *old(self),
                        *final(self),
                        i,
                        j,
                    )
                &&& forall|i: int, j: int|
                    old(self).spec_in_bounds(i, j) && old(self).spec_cell(i, j) == Cell::Hidden
                        && #[trigger] final(self).spec_cell(i, j) == Cell::Open(0)
                        ==> no_hidden_neighbour(*final(self), i, j)
                &&& forall|i: int, j: int|
                    old(self).spec_in_bounds(i, j) && old(self).spec_cell(i, j) == Cell::Hidden
                        && #[trigger] final(self).spec_cell(i, j) != Cell::Hidden ==> adjacent(
                        x as int,
                        y as int,
                        i,
                        j,
                    ) || has_fresh_zero_neighbour(
                        *old(self),
                        *final(self),
                        x as int,
                        y as int,
                        i,
                        j,
                    )
            },
            final(self).spec_state() == GameState::Won ==> {
                &&& r == Ok::<(), &'static str>(())
                &&& forall|i: int, j: int|
                    old(self).spec_in_bounds(i, j) ==> #[trigger] final(self).spec_cell(i, j)
                        == disclosed_cell(
                        old(self).spec_cell(i, j),
                        old(self).spec_truth_mine(i, j),
                        old(self).spec_truth_count(i, j),
                    )
            },
            final(self).spec_state() == GameState::Lost ==> {
                &&& r == Err::<(), &'static str>("Auto-tripped on mine.")
                &&& exists|a: int, b: int|
                    old(self).spec_in_bounds(a, b) && #[trigger] adjacent(x as int, y as int, a, b)
                        && old(self).spec_cell(a, b) == Cell::Hidden && old(self).spec_truth_mine(
                        a,
                        b,
                    ) && final(self).spec_cell(a, b) == Cell::TrippedMine
                &&& forall|i: int, j: int|
                    old(self).spec_in_bounds(i, j) ==> #[trigger] final(self).spec_cell(i, j)
                        == disclosed_cell(
                        old(self).spec_cell(i, j),
                        old(self).spec_truth_mine(i, j),
                        old(self).spec_truth_count(i, j),
                    ) || (final(self).spec_cell(i, j) == Cell::TrippedMine && adjacent(
                        x as int,
                        y as int,
                        i,
                        j,
                    ) && old(self).spec_cell(i, j) == Cell::Hidden && old(self).spec_truth_mine(
                        i,
                        j,
                    ))
            },
            final(self).spec_state() != GameState::New,
            final(self).spec_state() == GameState::Playing ==> final(self).spec_timer() == old(self).spec_timer(),
            final(self).spec_state() != GameState::Playing ==> !final(self).spec_timer().spec_is_running(),
    {
        let ghost pre = *self;
        let w = self.width();
        let h = self.height();
        let mut stack = seed_neighbours(w, h, x, y);
        while stack.len() > 0
            invariant
                pre == *old(self),
                self.inv(),
                pre.inv(),
                self.settings == pre.settings,
                self.mines_remaining == pre.mines_remaining,
                w == pre.spec_width(),
                h == pre.spec_height(),
                x < w,
                y < h,
                pre.spec_state() == GameState::Playing,
                pre.spec_cell(x as int, y as int) is Open,
                self.rules.spec_width() == pre.rules.spec_width(),
                self.rules.spec_height() == pre.rules.spec_height(),
                self.rules.spec_num_mines() == pre.rules.spec_num_mines(),
                self.rules.spec_mines() == pre.rules.spec_mines(),
                self.rules.spec_counts() == pre.rules.spec_counts(),
                self.spec_state() != GameState::New,
                self.spec_state() != GameState::Lost,
                self.spec_state() == GameState::Playing ==> self.timer == pre.timer,
                self.spec_state() != GameState::Playing ==> !self.timer.spec_is_running(),
                forall|k: int|
                    0 <= k < stack@.len() ==> (#[trigger] stack@[k]).0 < w && stack@[k].1 < h && (
                    adjacent(x as int, y as int, stack@[k].0 as int, stack@[k].1 as int)
                        || has_fresh_zero_neighbour(
                        pre,
                        *self,
                        x as int,
                        y as int,
                        stack@[k].0 as int,
                        stack@[k].1 as int,
                    )),
                forall|a: int, b: int|
                    pre.spec_in_bounds(a, b) && adjacent(x as int, y as int, a, b)
                        ==> #[trigger] self.spec_cell(a, b) != Cell::Hidden || holds_pair(
                        stack@,
                        a,
                        b,
                    ),
                self.spec_state() == GameState::Playing ==> {
                    &&& forall|i: int, j: int|
                        pre.spec_in_bounds(i, j) ==> #[trigger] cascade_step(pre, *self, i, j)
                    &&& forall|i: int, j: int|
                        pre.spec_in_bounds(i, j) ==> #[trigger] zero_frontier_ok(
                            pre,
                            *self,
                            stack@,
                            i,
                            j,
                        )
                    &&& forall|i: int, j: int|
                        pre.spec_in_bounds(i, j) && pre.spec_cell(i, j) == Cell::Hidden
                            && #[trigger] self.spec_cell(i, j) != Cell::Hidden ==> adjacent(
                            x as int,
                            y as int,
                            i,
                            j,
                        ) || has_fresh_zero_neighbour(pre, *self, x as int, y as int, i, j)
                },
                self.spec_state() == GameState::Won ==> forall|i: int, j: int|
                    pre.spec_in_bounds(i, j) ==> #[trigger] self.spec_cell(i, j) == disclosed_cell(
                        pre.spec_cell(i, j),
                        pre.spec_truth_mine(i, j),
                        pre.spec_truth_count(i, j),
                    ),
            decreases board_hidden(self.spec_board()), stack@.len(),
        {
            let ghost stack_before = stack@;
            let popped = Self::pop_pair(&mut stack);
            let (cx, cy) = match popped {
                Some(p) => p,
                None => {
                    proof {
                        assert(false);
                    }
                    (0, 0)
                },
            };
            let ghost at_top = *self;
            let ghost stack_after_pop = stack@;
            if self.board[cy][cx] == Cell::Hidden {
                proof {
                    if self.spec_state() != GameState::Playing {
                        assert(self.cell_ok_final(cx as int, cy as int));
                        assert(false);
                    }
                    assert(self.cell_ok_live(cx as int, cy as int));
                }
                let info = match self.rules.open(cx as u32, cy as u32) {
                    Ok(info) => info,
                    Err(_) => {
                        proof {
                            assert(false);
                        }
                        rules::OpenInfo { state: GameState::Playing, cell: rules::Cell::Hidden }
                    },
                };
                let ghost mid = *self;
                match info.state {
                    GameState::Playing => {
                        crate::grid::set_cell(
                            &mut self.board,
                            cx as u32,
                            cy as u32,
                            Cell::from(info.cell),
                        );
                        proof {
                            Self::lemma_open_one_clear(at_top, *self, cx as int, cy as int);
                        }
                        if info.cell == rules::Cell::Clear(0) {
                            let mut more = seed_neighbours(w, h, cx, cy);
                            proof {
                                lemma_holds_pair_concat(stack_after_pop, more@);
                            }
                            stack.append(&mut more);
                        }
                        proof {
                            let gx = x as int;
                            let gy = y as int;
                            let gcx = cx as int;
                            let gcy = cy as int;
                            let opened_to = Cell::Open(pre.spec_truth_count(gcx, gcy));
                            assert(self.spec_cell(gcx, gcy) == opened_to);
                            // a fresh-zero witness survives the one-cell change
                            assert forall|i: int, j: int|
                                #[trigger] has_fresh_zero_neighbour(
                                    pre,
                                    at_top,
                                    gx,
                                    gy,
                                    i,
                                    j,
                                ) implies has_fresh_zero_neighbour(pre, *self, gx, gy, i, j) by {
                                let (a, b) = choose|a: int, b: int|
                                    at_top.spec_in_bounds(a, b) && adjacent(i, j, a, b)
                                        && #[trigger] at_top.spec_cell(a, b) == Cell::Open(0) && (
                                    pre.spec_cell(a, b) == Cell::Hidden || (a == gx && b == gy));
                                assert(self.spec_cell(a, b) == Cell::Open(0));
                                assert(has_fresh_zero_neighbour(pre, *self, gx, gy, i, j));
                            }
                            // every stack entry still carries its reason
                            assert forall|k: int|
                                0 <= k < stack@.len() implies (#[trigger] stack@[k]).0 < w
                                && stack@[k].1 < h && (adjacent(
                                gx,
                                gy,
                                stack@[k].0 as int,
                                stack@[k].1 as int,
                            ) || has_fresh_zero_neighbour(
                                pre,
                                *self,
                                gx,
                                gy,
                                stack@[k].0 as int,
                                stack@[k].1 as int,
                            )) by {
                                if k < stack_after_pop.len() {
                                    assert(stack@[k] == stack_after_pop[k]);
                                } else {
                                    assert(stack@[k].0 < w && stack@[k].1 < h && adjacent(
                                        gcx,
                                        gcy,
                                        stack@[k].0 as int,
                                        stack@[k].1 as int,
                                    ));
                                    assert(self.spec_cell(gcx, gcy) == Cell::Open(0));
                                    assert(cascade_step(pre, at_top, gcx, gcy));
                                    assert(pre.spec_cell(gcx, gcy) == Cell::Hidden);
                                    assert(has_fresh_zero_neighbour(
                                        pre,
                                        *self,
                                        gx,
                                        gy,
                                        stack@[k].0 as int,
                                        stack@[k].1 as int,
                                    ));
                                }
                            }
                            // seed coverage: a hidden neighbour of the chord or
                            // probe cell is still listed, unless it was just
                            // opened
                            assert forall|a: int, b: int|
                                pre.spec_in_bounds(a, b) && adjacent(gx, gy, a, b) implies #[trigger] self.spec_cell(
                                a,
                                b,
                            ) != Cell::Hidden || holds_pair(stack@, a, b) by {
                                if at_top.spec_cell(a, b) != Cell::Hidden {
                                    if !(a == gcx && b == gcy) {
                                        assert(self.spec_cell(a, b) == at_top.spec_cell(a, b));
                                    }
                                } else {
                                    if holds_pair(stack_after_pop, a, b) {
                                        assert(holds_pair(stack@, a, b));
                                    } else if !(a == gcx && b == gcy) {
                                        assert(false);
                                    }
                                }
                            }
                            // every change this call has made is a lawful reveal
                            assert forall|i: int, j: int|
                                pre.spec_in_bounds(i, j) implies #[trigger] cascade_step(
                                pre,
                                *self,
                                i,
                                j,
                            ) by {
                                assert(cascade_step(pre, at_top, i, j));
                                if !(i == gcx && j == gcy) {
                                    assert(self.spec_cell(i, j) == at_top.spec_cell(i, j));
                                }
                            }
                            // newly opened zero cells keep their neighbours on
                            // the list
                            assert forall|i: int, j: int|
                                pre.spec_in_bounds(i, j) implies #[trigger] zero_frontier_ok(
                                pre,
                                *self,
                                stack@,
                                i,
                                j,
                            ) by {
                                if pre.spec_cell(i, j) == Cell::Hidden && self.spec_cell(i, j)
                                    == Cell::Open(0) {
                                    if i == gcx && j == gcy {
                                        assert forall|a: int, b: int|
                                            self.spec_in_bounds(a, b) && adjacent(i, j, a, b) implies #[trigger] self.spec_cell(
                                            a,
                                            b,
                                        ) != Cell::Hidden || holds_pair(stack@, a, b) by {
                                            assert(holds_pair(stack@, a, b));
                                        }
                                    } else {
                                        assert(at_top.spec_cell(i, j) == Cell::Open(0));
                                        assert(zero_frontier_ok(pre, at_top, stack_before, i, j));
                                        assert forall|a: int, b: int|
                                            self.spec_in_bounds(a, b) && adjacent(i, j, a, b) implies #[trigger] self.spec_cell(
                                            a,
                                            b,
                                        ) != Cell::Hidden || holds_pair(stack@, a, b) by {
                                            if at_top.spec_cell(a, b) != Cell::Hidden {
                                                if !(a == gcx && b == gcy) {
                                                    assert(self.spec_cell(a, b) == at_top.spec_cell(
                                                        a,
                                                        b,
                                                    ));
                                                }
                                            } else {
                                                assert(holds_pair(stack_before, a, b));
                                                if holds_pair(stack_after_pop, a, b) {
                                                    assert(holds_pair(stack@, a, b));
                                                } else {
                                                    assert(a == gcx && b == gcy);
                                                    assert(self.spec_cell(a, b) != Cell::Hidden);
                                                }
                                            }
                                        }
                                    }
                                }
                            }
                            // every reveal is next to the seed cell or to an
                            // open zero cell
                            assert forall|i: int, j: int|
                                pre.spec_in_bounds(i, j) && pre.spec_cell(i, j) == Cell::Hidden
                                    && #[trigger] self.spec_cell(i, j) != Cell::Hidden implies adjacent(
                                gx,
                                gy,
                                i,
                                j,
                            ) || has_fresh_zero_neighbour(pre, *self, gx, gy, i, j) by {
                                if i == gcx && j == gcy {
                                    assert(adjacent(gx, gy, i, j) || has_fresh_zero_neighbour(
                                        pre,
                                        at_top,
                                        gx,
                                        gy,
                                        i,
                                        j,
                                    ));
                                } else {
                                    assert(self.spec_cell(i, j) == at_top.spec_cell(i, j));
                                }
                            }
                        }
                    },
                    GameState::Won | GameState::Lost => {
                        let tripped = match info.cell {
                            rules::Cell::Mine => true,
                            _ => false,
                        };
                        if tripped {
                            crate::grid::set_cell(
                                &mut self.board,
                                cx as u32,
                                cy as u32,
                                Cell::TrippedMine,
                            );
                            proof {
                                lemma_rows_flags_update(
                                    at_top.spec_board(),
                                    cx as int,
                                    cy as int,
                                    Cell::TrippedMine,
                                    h as int,
                                );
                                lemma_rows_hidden_update(
                                    at_top.spec_board(),
                                    cx as int,
                                    cy as int,
                                    Cell::TrippedMine,
                                    h as int,
                                );
                            }
                        }
                        let ghost before_q = *self;
                        proof {
                            let gcx = cx as int;
                            let gcy = cy as int;
                            assert(dims_ok(self.spec_board(), w as int, h as int));
                            assert forall|i: int, j: int|
                                self.spec_in_bounds(i, j) implies #[trigger] self.cell_ok_pre_final(
                                i,
                                j,
                            ) by {
                                if i == gcx && j == gcy {
                                    assert(at_top.spec_cell(i, j) == Cell::Hidden);
                                } else {
                                    assert(at_top.cell_ok_live(i, j));
                                    assert(self.spec_cell(i, j) == at_top.spec_cell(i, j));
                                }
                            }
                        }
                        self.query_board();
                        let ghost after_q = *self;
                        self.timer.stop();
                        proof {
                            let gx = x as int;
                            let gy = y as int;
                            let gcx = cx as int;
                            let gcy = cy as int;
                            assert forall|i: int, j: int|
                                self.spec_in_bounds(i, j) implies #[trigger] self.cell_ok_final(
                                i,
                                j,
                            ) by {
                                assert(after_q.cell_ok_final(i, j));
                            }
                            assert(self.inv());
                            // relate the disclosed board to the board this call
                            // started from
                            assert forall|i: int, j: int|
                                pre.spec_in_bounds(i, j) && !(i == gcx && j == gcy) implies #[trigger] self.spec_cell(
                                i,
                                j,
                            ) == disclosed_cell(
                                pre.spec_cell(i, j),
                                pre.spec_truth_mine(i, j),
                                pre.spec_truth_count(i, j),
                            ) by {
                                assert(cascade_step(pre, at_top, i, j));
                                assert(before_q.spec_cell(i, j) == at_top.spec_cell(i, j));
                                assert(after_q.spec_cell(i, j) == disclosed_cell(
                                    before_q.spec_cell(i, j),
                                    before_q.spec_truth_mine(i, j),
                                    before_q.spec_truth_count(i, j),
                                ));
                            }
                            if !tripped {
                                assert(before_q.spec_cell(gcx, gcy) == Cell::Hidden);
                                assert(cascade_step(pre, at_top, gcx, gcy));
                                assert(after_q.spec_cell(gcx, gcy) == disclosed_cell(
                                    before_q.spec_cell(gcx, gcy),
                                    before_q.spec_truth_mine(gcx, gcy),
                                    before_q.spec_truth_count(gcx, gcy),
                                ));
                                assert(self.spec_cell(gcx, gcy) == disclosed_cell(
                                    pre.spec_cell(gcx, gcy),
                                    pre.spec_truth_mine(gcx, gcy),
                                    pre.spec_truth_count(gcx, gcy),
                                ));
                            } else {
                                assert(before_q.spec_cell(gcx, gcy) == Cell::TrippedMine);
                                assert(after_q.spec_cell(gcx, gcy) == disclosed_cell(
                                    before_q.spec_cell(gcx, gcy),
                                    before_q.spec_truth_mine(gcx, gcy),
                                    before_q.spec_truth_count(gcx, gcy),
                                ));
                                assert(self.spec_cell(gcx, gcy) == Cell::TrippedMine);
                            }
                        }
                    },
                    GameState::New => {
                        proof {
                            assert(false);
                        }
                    },
                }
            }
            if self.board[cy][cx] == Cell::TrippedMine {
                proof {
                    let gx = x as int;
                    let gy = y as int;
                    let gcx = cx as int;
                    let gcy = cy as int;
                    // only a detonation in this very iteration leaves this mark
                    if self.spec_state() == GameState::Playing {
                        assert(self.cell_ok_live(gcx, gcy));
                        assert(false);
                    }
                    if self.spec_state() == GameState::Won {
                        assert(pre.cell_ok_live(gcx, gcy));
                        assert(self.spec_cell(gcx, gcy) == disclosed_cell(
                            pre.spec_cell(gcx, gcy),
                            pre.spec_truth_mine(gcx, gcy),
                            pre.spec_truth_count(gcx, gcy),
                        ));
                        assert(false);
                    }
                    assert(self.spec_state() == GameState::Lost);
                    // the detonated cell was a hidden seed over a real mine:
                    // a cell queued for its open zero neighbour cannot hold one
                    assert(at_top.spec_cell(gcx, gcy) == Cell::Hidden);
                    assert(cascade_step(pre, at_top, gcx, gcy));
                    assert(pre.spec_cell(gcx, gcy) == Cell::Hidden);
                    assert(pre.spec_truth_mine(gcx, gcy));
                    if !adjacent(gx, gy, gcx, gcy) {
                        assert(has_fresh_zero_neighbour(pre, at_top, gx, gy, gcx, gcy));
                        let (a, b) = choose|a: int, b: int|
                            at_top.spec_in_bounds(a, b) && adjacent(gcx, gcy, a, b)
                                && #[trigger] at_top.spec_cell(a, b) == Cell::Open(0) && (
                            pre.spec_cell(a, b) == Cell::Hidden || (a == gx && b == gy));
                        assert(at_top.cell_ok_live(a, b));
                        at_top.rules.lemma_inv();
                        lemma_zero_count_safe(
                            at_top.rules.spec_mines(),
                            at_top.rules.spec_width() as int,
                            at_top.rules.spec_height() as int,
                            a,
                            b,
                            gcx,
                            gcy,
                        );
                        assert(false);
                    }
                    assert forall|a: int, b: int|
                        pre.spec_in_bounds(a, b) && adjacent(gx, gy, a, b) implies #[trigger] self.spec_cell(
                        a,
                        b,
                    ) != Cell::Hidden by {
                        assert(self.cell_ok_final(a, b));
                    }
                }
                return Err("Auto-tripped on mine.");
            }
            proof {
                let gx = x as int;
                let gy = y as int;
                let gcx = cx as int;
                let gcy = cy as int;
                lemma_rows_hidden_bounds(
                    self.spec_board(),
                    self.spec_board().len() as int,
                );
                lemma_rows_hidden_bounds(
                    at_top.spec_board(),
                    at_top.spec_board().len() as int,
                );
                if self.spec_board() == at_top.spec_board() && *self == at_top {
                    // the cell was already revealed: the pop alone must keep
                    // every stated fact
                    assert(self.spec_cell(gcx, gcy) != Cell::Hidden);
                    assert forall|k: int|
                        0 <= k < stack@.len() implies (#[trigger] stack@[k]).0 < w && stack@[k].1
                        < h && (adjacent(gx, gy, stack@[k].0 as int, stack@[k].1 as int)
                        || has_fresh_zero_neighbour(
                        pre,
                        *self,
                        gx,
                        gy,
                        stack@[k].0 as int,
                        stack@[k].1 as int,
                    )) by {
                        assert(stack@[k] == stack_before[k]);
                    }
                    assert forall|a: int, b: int|
                        pre.spec_in_bounds(a, b) && adjacent(gx, gy, a, b) implies #[trigger] self.spec_cell(
                        a,
                        b,
                    ) != Cell::Hidden || holds_pair(stack@, a, b) by {
                        if self.spec_cell(a, b) == Cell::Hidden && holds_pair(stack_before, a, b) {
                            if !(holds_pair(stack@, a, b)) {
                                assert(a == gcx && b == gcy);
                            }
                        }
                    }
                    if self.spec_state() == GameState::Playing {
                        assert forall|i: int, j: int|
                            pre.spec_in_bounds(i, j) implies #[trigger] zero_frontier_ok(
                            pre,
                            *self,
                            stack@,
                            i,
                            j,
                        ) by {
                            assert(zero_frontier_ok(pre, *self, stack_before, i, j));
                            if pre.spec_cell(i, j) == Cell::Hidden && self.spec_cell(i, j)
                                == Cell::Open(0) {
                                assert forall|a: int, b: int|
                                    self.spec_in_bounds(a, b) && adjacent(i, j, a, b) implies #[trigger] self.spec_cell(
                                    a,
                                    b,
                                ) != Cell::Hidden || holds_pair(stack@, a, b) by {
                                    if self.spec_cell(a, b) == Cell::Hidden && holds_pair(
                                        stack_before,
                                        a,
                                        b,
                                    ) {
                                        if !(holds_pair(stack@, a, b)) {
                                            assert(a == gcx && b == gcy);
                                        }
                                    }
                                }
                            }
                        }
                    }
                }
                if (self.spec_state() == GameState::Won || self.spec_state() == GameState::Lost)
                    && at_top.spec_cell(gcx, gcy) == Cell::Hidden {
                    // disclosure revealed the popped cell and everything else
                    assert forall|i: int, j: int|
                        0 <= i < w && 0 <= j < h implies #[trigger] self.spec_board()[j][i]
                        != Cell::Hidden by {
                        assert(self.cell_ok_final(i, j));
                    }
                    lemma_rows_hidden_none(self.spec_board(), w as int, h as int);
                    lemma_rows_hidden_pos(at_top.spec_board(), gcx, gcy, h as int);
                }
                if self.spec_state() == GameState::Won {
                    // disclosure left no hidden cell and kept open cells, so
                    // the remaining work list entries stay justified
                    assert forall|k: int|
                        0 <= k < stack@.len() implies (#[trigger] stack@[k]).0 < w && stack@[k].1
                        < h && (adjacent(gx, gy, stack@[k].0 as int, stack@[k].1 as int)
                        || has_fresh_zero_neighbour(
                        pre,
                        *self,
                        gx,
                        gy,
                        stack@[k].0 as int,
                        stack@[k].1 as int,
                    )) by {
                        assert(stack@[k] == stack_after_pop[k]);
                        let sa = stack@[k].0 as int;
                        let sb = stack@[k].1 as int;
                        if !adjacent(gx, gy, sa, sb) {
                            assert(has_fresh_zero_neighbour(pre, at_top, gx, gy, sa, sb));
                            let (a, b) = choose|a: int, b: int|
                                at_top.spec_in_bounds(a, b) && adjacent(sa, sb, a, b)
                                    && #[trigger] at_top.spec_cell(a, b) == Cell::Open(0) && (
                                pre.spec_cell(a, b) == Cell::Hidden || (a == gx && b == gy));
                            if *self == at_top {
                                assert(self.spec_cell(a, b) == Cell::Open(0));
                            } else {
                                assert(cascade_step(pre, at_top, a, b));
                                assert(self.spec_cell(a, b) == disclosed_cell(
                                    pre.spec_cell(a, b),
                                    pre.spec_truth_mine(a, b),
                                    pre.spec_truth_count(a, b),
                                ));
                                assert(self.spec_cell(a, b) == Cell::Open(0));
                            }
                            assert(has_fresh_zero_neighbour(pre, *self, gx, gy, sa, sb));
                        }
                    }
                    assert forall|a: int, b: int|
                        pre.spec_in_bounds(a, b) && adjacent(gx, gy, a, b) implies #[trigger] self.spec_cell(
                        a,
                        b,
                    ) != Cell::Hidden || holds_pair(stack@, a, b) by {
                        assert(self.cell_ok_final(a, b));
                    }
                }
            }
        }
        proof {
            assert forall|a: int, b: int|
                pre.spec_in_bounds(a, b) && adjacent(x as int, y as int, a, b) implies #[trigger] self.spec_cell(
                a,
                b,
            ) != Cell::Hidden by {
                assert(!holds_pair(stack@, a, b));
            }
            if self.spec_state() == GameState::Playing {
                assert forall|i: int, j: int|
                    pre.spec_in_bounds(i, j) && pre.spec_cell(i, j) == Cell::Hidden
                        && #[trigger] self.spec_cell(i, j) == Cell::Open(0) implies no_hidden_neighbour(
                    *self,
                    i,
                    j,
                ) by {
                    assert(zero_frontier_ok(pre, *self, stack@, i, j));
                    assert forall|a: int, b: int|
                        self.spec_in_bounds(a, b) && adjacent(i, j, a, b) implies #[trigger] self.spec_cell(
                        a,
                        b,
                    ) != Cell::Hidden by {
                        assert(!holds_pair(stack@, a, b));
                    }
                }
            }
        }
        Ok(())
    }

    /// Probe cell `(x, y)`.
    ///
    /// Rejected off the board, once the game is over, and on a flagged or
    /// already open cell, each with its own message and no change.  A first
    /// probe builds the board with `(x, y)` kept clear, starts the clock and
    /// can never lose.  Probing a clear cell shows its true count and, on a
    /// zero, cascades outward through zero-count cells; probing a mine loses
    /// the game.  Either end of the game stops the clock and fully
    /// discloses the board; the probe itself still returns `Ok`.
    #[verifier::rlimit(100)]
    pub fn open(&mut self, x: usize, y: usize) -> (r: Result<(), &'static str>)
        requires
            old(self).inv(),
        ensures
            final(self).inv(),
            probe_outcome(*old(self), *final(self), r, x as int, y as int),
    {
        if !self.valid_coord(x, y) {
            return Err("invalid coordinate");
        }
        proof {
            assert(self.spec_width() * self.spec_height() >= self.spec_width()
                && self.spec_width() * self.spec_height() >= self.spec_height())
                by (nonlinear_arith)
                requires
                    1 <= self.spec_width(),
                    1 <= self.spec_height(),
            ;
        }
        match self.rules.get_state() {
            GameState::Won | GameState::Lost => {
                return Err("game is over");
            },
            _ => {},
        }
        let was_new = match self.rules.get_state() {
            GameState::New => true,
            _ => false,
        };
        match self.board[y][x] {
            Cell::Flag => Err("cell is flagged"),
            Cell::Open(_) => Err("cell is already open"),
            Cell::Hidden => {
                let ghost pre = *self;
                if was_new {
                    self.timer.start();
                }
                let info = match self.rules.open(x as u32, y as u32) {
                    Ok(info) => info,
                    Err(_) => {
                        proof {
                            assert(pre.spec_cell(x as int, y as int) == Cell::Hidden);
                            assert((x as u32) as int == x as int);
                            assert((y as u32) as int == y as int);
                            if pre.rules.spec_state() == GameState::Playing {
                                Self::lemma_hidden_unopened(pre, x as int, y as int);
                                assert(!pre.rules.spec_opened(x as int, y as int));
                            }
                            assert(false);
                        }
                        rules::OpenInfo { state: GameState::Playing, cell: rules::Cell::Hidden }
                    },
                };
                let ghost mid = *self;
                match info.state {
                    GameState::Playing => {
                        crate::grid::set_cell(
                            &mut self.board,
                            x as u32,
                            y as u32,
                            Cell::from(info.cell),
                        );
                        proof {
                            let gx = x as int;
                            let gy = y as int;
                            let wI = self.spec_width() as int;
                            let hI = self.spec_height() as int;
                            let shown = Cell::Open(self.spec_truth_count(gx, gy));
                            assert(self.spec_cell(gx, gy) == shown);
                            lemma_rows_flags_update(pre.spec_board(), gx, gy, shown, hI);
                            assert forall|i: int, j: int|
                                pre.spec_in_bounds(i, j) && !(i == gx && j == gy) implies #[trigger] self.spec_cell(
                                i,
                                j,
                            ) == pre.spec_cell(i, j) by {}
                            assert forall|i: int, j: int|
                                self.spec_in_bounds(i, j) implies #[trigger] self.cell_ok_live(
                                i,
                                j,
                            ) by {
                                if !(i == gx && j == gy) {
                                    if pre.spec_state() == GameState::New {
                                        assert(pre.cell_ok_new(i, j));
                                    } else {
                                        assert(pre.cell_ok_live(i, j));
                                    }
                                }
                            }
                            assert(self.inv());
                        }
                        let zero = match info.cell {
                            rules::Cell::Clear(0) => true,
                            _ => false,
                        };
                        let ghost opened = *self;
                        if zero {
                            let _ = self.open_neighbors(x, y);
                        }
                        proof {
                            let gx = x as int;
                            let gy = y as int;
                            if self.spec_state() == GameState::Lost {
                                // a cascade from a zero cell cannot detonate
                                let (a, b) = choose|a: int, b: int|
                                    opened.spec_in_bounds(a, b) && #[trigger] adjacent(gx, gy, a, b)
                                        && opened.spec_cell(a, b) == Cell::Hidden
                                        && opened.spec_truth_mine(a, b);
                                assert(opened.cell_ok_live(gx, gy));
                                opened.rules.lemma_inv();
                                rules::lemma_zero_count_safe(
                                    opened.rules.spec_mines(),
                                    opened.rules.spec_width() as int,
                                    opened.rules.spec_height() as int,
                                    gx,
                                    gy,
                                    a,
                                    b,
                                );
                                assert(false);
                            }
                            if self.spec_state() == GameState::Playing {
                                assert forall|i: int, j: int|
                                    pre.spec_in_bounds(i, j) implies #[trigger] revealed_from(
                                    pre,
                                    *self,
                                    i,
                                    j,
                                ) by {
                                    assert(opened.spec_in_bounds(i, j));
                                    assert(self.spec_truth_mine(i, j) == opened.spec_truth_mine(
                                        i,
                                        j,
                                    ) && self.spec_truth_count(i, j) == opened.spec_truth_count(
                                        i,
                                        j,
                                    ));
                                    if zero {
                                        assert(cascade_step(opened, *self, i, j));
                                    } else {
                                        assert(self.spec_cell(i, j) == opened.spec_cell(i, j));
                                    }
                                    if !(i == gx && j == gy) {
                                        assert(opened.spec_cell(i, j) == pre.spec_cell(i, j));
                                    } else {
                                        assert(opened.cell_ok_live(i, j));
                                    }
                                }
                                assert(opened.spec_in_bounds(gx, gy));
                                assert(self.spec_truth_mine(gx, gy) == opened.spec_truth_mine(
                                    gx,
                                    gy,
                                ) && self.spec_truth_count(gx, gy) == opened.spec_truth_count(
                                    gx,
                                    gy,
                                ));
                                assert(opened.cell_ok_live(gx, gy));
                                if zero {
                                    assert(cascade_step(opened, *self, gx, gy));
                                } else {
                                    assert(self.spec_cell(gx, gy) == opened.spec_cell(gx, gy));
                                }
                                assert(self.spec_cell(gx, gy) == Cell::Open(self.spec_truth_count(
                                    gx,
                                    gy,
                                )));
                                assert forall|i: int, j: int|
                                    pre.spec_in_bounds(i, j) && pre.spec_cell(i, j) == Cell::Hidden
                                        && #[trigger] self.spec_cell(i, j) == Cell::Open(0) implies no_hidden_neighbour(
                                    *self,
                                    i,
                                    j,
                                ) by {
                                    if i == gx && j == gy {
                                        assert(zero);
                                        assert forall|a: int, b: int|
                                            self.spec_in_bounds(a, b) && adjacent(i, j, a, b) implies #[trigger] self.spec_cell(
                                            a,
                                            b,
                                        ) != Cell::Hidden by {}
                                    } else {
                                        assert(opened.spec_cell(i, j) == pre.spec_cell(i, j));
                                        if zero {
                                        } else {
                                            assert(self.spec_cell(i, j) == opened.spec_cell(i, j));
                                            assert(false);
                                        }
                                    }
                                }
                                assert forall|i: int, j: int|
                                    pre.spec_in_bounds(i, j) && pre.spec_cell(i, j) == Cell::Hidden
                                        && #[trigger] self.spec_cell(i, j) != Cell::Hidden && !(i
                                        == gx && j == gy) implies has_fresh_zero_neighbour(
                                    pre,
                                    *self,
                                    gx,
                                    gy,
                                    i,
                                    j,
                                ) by {
                                    assert(opened.spec_cell(i, j) == pre.spec_cell(i, j));
                                    if zero {
                                        if adjacent(gx, gy, i, j) {
                                            assert(cascade_step(opened, *self, gx, gy));
                                            assert(self.spec_cell(gx, gy) == Cell::Open(0));
                                            assert(has_fresh_zero_neighbour(
                                                pre,
                                                *self,
                                                gx,
                                                gy,
                                                i,
                                                j,
                                            ));
                                        } else {
                                            assert(has_fresh_zero_neighbour(
                                                opened,
                                                *self,
                                                gx,
                                                gy,
                                                i,
                                                j,
                                            ));
                                            let (a, b) = choose|a: int, b: int|
                                                self.spec_in_bounds(a, b) && adjacent(i, j, a, b)
                                                    && #[trigger] self.spec_cell(a, b)
                                                    == Cell::Open(0) && (opened.spec_cell(a, b)
                                                    == Cell::Hidden || (a == gx && b == gy));
                                            if !(a == gx && b == gy) {
                                                assert(pre.spec_cell(a, b) == opened.spec_cell(
                                                    a,
                                                    b,
                                                ));
                                            }
                                            assert(has_fresh_zero_neighbour(
                                                pre,
                                                *self,
                                                gx,
                                                gy,
                                                i,
                                                j,
                                            ));
                                        }
                                    } else {
                                        assert(self.spec_cell(i, j) == opened.spec_cell(i, j));
                                        assert(false);
                                    }
                                }
                            }
                            if self.spec_state() == GameState::Won {
                                assert(zero);
                                assert forall|i: int, j: int|
                                    pre.spec_in_bounds(i, j) implies #[trigger] disclosed_from(
                                    pre,
                                    *self,
                                    i,
                                    j,
                                ) by {
                                    assert(self.spec_cell(i, j) == disclosed_cell(
                                        opened.spec_cell(i, j),
                                        opened.spec_truth_mine(i, j),
                                        opened.spec_truth_count(i, j),
                                    ));
                                    if !(i == gx && j == gy) {
                                        assert(opened.spec_cell(i, j) == pre.spec_cell(i, j));
                                    }
                                }
                            }
                            if self.spec_state() == GameState::Playing || self.spec_state()
                                == GameState::Won {
                                self.lemma_won_iff_all_cleared();
                            }
                        }
                        Ok(())
                    },
                    GameState::Won | GameState::Lost => {
                        let tripped = match info.cell {
                            rules::Cell::Mine => true,
                            _ => false,
                        };
                        if tripped {
                            crate::grid::set_cell(
                                &mut self.board,
                                x as u32,
                                y as u32,
                                Cell::TrippedMine,
                            );
                        }
                        let ghost before_q = *self;
                        proof {
                            let gx = x as int;
                            let gy = y as int;
                            let hI = self.spec_height() as int;
                            if tripped {
                                lemma_rows_flags_update(
                                    pre.spec_board(),
                                    gx,
                                    gy,
                                    Cell::TrippedMine,
                                    hI,
                                );
                            }
                            assert(dims_ok(
                                self.spec_board(),
                                self.spec_width() as int,
                                self.spec_height() as int,
                            ));
                            assert forall|i: int, j: int|
                                self.spec_in_bounds(i, j) implies #[trigger] self.cell_ok_pre_final(
                                i,
                                j,
                            ) by {
                                if !(i == gx && j == gy) {
                                    if pre.spec_state() == GameState::New {
                                        assert(pre.cell_ok_new(i, j));
                                    } else {
                                        assert(pre.cell_ok_live(i, j));
                                    }
                                    assert(self.spec_cell(i, j) == pre.spec_cell(i, j));
                                }
                            }
                        }
                        self.query_board();
                        let ghost after_q = *self;
                        self.timer.stop();
                        proof {
                            let gx = x as int;
                            let gy = y as int;
                            assert forall|i: int, j: int|
                                self.spec_in_bounds(i, j) implies #[trigger] self.cell_ok_final(
                                i,
                                j,
                            ) by {
                                assert(after_q.cell_ok_final(i, j));
                            }
                            assert(self.inv());
                            assert forall|i: int, j: int|
                                pre.spec_in_bounds(i, j) && !(i == gx && j == gy) implies #[trigger] disclosed_from(
                                pre,
                                *self,
                                i,
                                j,
                            ) by {
                                assert(before_q.spec_cell(i, j) == pre.spec_cell(i, j));
                                assert(after_q.spec_cell(i, j) == disclosed_cell(
                                    before_q.spec_cell(i, j),
                                    before_q.spec_truth_mine(i, j),
                                    before_q.spec_truth_count(i, j),
                                ));
                            }
                            if self.spec_state() == GameState::Lost {
                                assert(tripped);
                                assert(pre.spec_state() == GameState::Playing);
                                assert(before_q.spec_cell(gx, gy) == Cell::TrippedMine);
                                assert(after_q.spec_cell(gx, gy) == disclosed_cell(
                                    before_q.spec_cell(gx, gy),
                                    before_q.spec_truth_mine(gx, gy),
                                    before_q.spec_truth_count(gx, gy),
                                ));
                                assert(self.spec_cell(gx, gy) == Cell::TrippedMine);
                            }
                            if self.spec_state() == GameState::Won {
                                self.lemma_won_iff_all_cleared();
                                assert(!tripped);
                                assert(before_q.spec_cell(gx, gy) == pre.spec_cell(gx, gy));
                                assert(after_q.spec_cell(gx, gy) == disclosed_cell(
                                    before_q.spec_cell(gx, gy),
                                    before_q.spec_truth_mine(gx, gy),
                                    before_q.spec_truth_count(gx, gy),
                                ));
                                assert(disclosed_from(pre, *self, gx, gy));
                            }
                        }
                        Ok(())
                    },
                    GameState::New => {
                        proof {
                            assert(false);
                        }
                        Ok(())
                    },
                }
            },
            _ => {
                proof {
                    assert(self.cell_ok_new(x as int, y as int) || self.cell_ok_live(
                        x as int,
                        y as int,
                    ));
                    assert(false);
                }
                Err("cell is already open")
            },
        }
    }

    /// Winning means exactly that the rules engine has every clear cell
    /// opened: while the game is in play some clear cell is still closed,
    /// and once it is won none is.
    pub proof fn lemma_won_iff_all_cleared(self)
        requires
            self.inv(),
            self.spec_state() == GameState::Playing || self.spec_state() == GameState::Won,
        ensures
            (self.spec_state() == GameState::Won) <==> (forall|i: int, j: int|
                self.spec_in_bounds(i, j) ==> (!(#[trigger] self.spec_truth_mine(i, j))
                    ==> self.spec_rules_opened(i, j))),
    {
        self.rules.lemma_won_iff_cleared();
        if self.spec_state() == GameState::Won {
            assert forall|i: int, j: int|
                self.spec_in_bounds(i, j) implies (!(#[trigger] self.spec_truth_mine(i, j))
                ==> self.spec_rules_opened(i, j)) by {
                assert(!self.rules.spec_mine(i, j) ==> self.rules.spec_opened(i, j));
            }
        } else {
            if forall|i: int, j: int|
                self.spec_in_bounds(i, j) ==> (!(#[trigger] self.spec_truth_mine(i, j))
                    ==> self.spec_rules_opened(i, j)) {
                assert forall|i: int, j: int|
                    self.rules.spec_in_bounds(i, j) implies (!(#[trigger] self.rules.spec_mine(
                    i,
                    j,
                )) ==> self.rules.spec_opened(i, j)) by {
                    assert(!self.spec_truth_mine(i, j) ==> self.spec_rules_opened(i, j));
                }
                assert(false);
            }
        }
    }

    /// While playing, a cell shown as hidden is unopened in the rules
    /// engine.
    proof fn lemma_hidden_unopened(g: Game, x: int, y: int)
        requires
            g.inv(),
            g.spec_in_bounds(x, y),
            g.spec_state() == GameState::Playing,
            g.spec_cell(x, y) == Cell::Hidden,
        ensures
            !g.spec_rules_opened(x, y),
    {
        assert(g.cell_ok_live(x, y));
    }

    /// The number of flags among the up-to-8 neighbours of `(x, y)`.
    fn count_flags_around(&self, x: usize, y: usize) -> (c: u8)
        requires
            self.inv(),
            self.spec_in_bounds(x as int, y as int),
        ensures
            c as int == flags_around(*self, x as int, y as int),
    {
        let w = self.width();
        let h = self.height();
        let mut c: u8 = 0;
        if x > 0 && y > 0 && self.board[y - 1][x - 1] == Cell::Flag {
            c += 1;
        }
        if y > 0 && self.board[y - 1][x] == Cell::Flag {
            c += 1;
        }
        if x + 1 < w && y > 0 && self.board[y - 1][x + 1] == Cell::Flag {
            c += 1;
        }
        if x > 0 && self.board[y][x - 1] == Cell::Flag {
            c += 1;
        }
        if x + 1 < w && self.board[y][x + 1] == Cell::Flag {
            c += 1;
        }
        if x > 0 && y + 1 < h && self.board[y + 1][x - 1] == Cell::Flag {
            c += 1;
        }
        if y + 1 < h && self.board[y + 1][x] == Cell::Flag {
            c += 1;
        }
        if x + 1 < w && y + 1 < h && self.board[y + 1][x + 1] == Cell::Flag {
            c += 1;
        }
        c
    }

    /// Chord on the open numbered cell `(x, y)`: when exactly as many flags
    /// stand around it as its number, open all its hidden neighbours,
    /// cascading as a probe would.
    ///
    /// Chording trusts the flag count, not flag placement: a wrong flag
    /// beside a true mine makes the chord detonate that mine and lose the
    /// game, exactly as a direct probe of it would.  Rejected off the board,
    /// once the game is over, on flagged, hidden and zero cells, and when
    /// the flag count differs from the number.
    pub fn chord(&mut self, x: usize, y: usize) -> (r: Result<(), &'static str>)
        requires
            old(self).inv(),
        ensures
            final(self).inv(),
            chord_outcome(*old(self), *final(self), r, x as int, y as int),
    {
        if !self.valid_coord(x, y) {
            return Err("invalid coordinate");
        }
        match self.rules.get_state() {
            GameState::Won | GameState::Lost => {
                return Err("game is over");
            },
            _ => {},
        }
        match self.board[y][x] {
            Cell::Flag => Err("cell is flagged"),
            Cell::Hidden => Err("cell is hidden"),
            Cell::Open(mines) => {
                proof {
                    if self.spec_state() == GameState::New {
                        assert(self.cell_ok_new(x as int, y as int));
                        assert(false);
                    }
                }
                if mines == 0 {
                    return Err("zero cells auto-chord already");
                }
                let neighbouring_flags = self.count_flags_around(x, y);
                if neighbouring_flags == mines {
                    let ghost pre = *self;
                    let res = self.open_neighbors(x, y);
                    proof {
                        if self.spec_state() == GameState::Playing {
                            assert forall|i: int, j: int|
                                pre.spec_in_bounds(i, j) implies #[trigger] revealed_from(
                                pre,
                                *self,
                                i,
                                j,
                            ) by {
                                assert(cascade_step(pre, *self, i, j));
                                assert(self.spec_truth_mine(i, j) == pre.spec_truth_mine(i, j));
                                assert(self.spec_truth_count(i, j) == pre.spec_truth_count(i, j));
                            }
                        }
                        if self.spec_state() == GameState::Won {
                            assert forall|i: int, j: int|
                                pre.spec_in_bounds(i, j) implies #[trigger] disclosed_from(
                                pre,
                                *self,
                                i,
                                j,
                            ) by {
                                assert(self.spec_truth_mine(i, j) == pre.spec_truth_mine(i, j));
                                assert(self.spec_truth_count(i, j) == pre.spec_truth_count(i, j));
                                assert(self.spec_cell(i, j) == disclosed_cell(
                                    pre.spec_cell(i, j),
                                    pre.spec_truth_mine(i, j),
                                    pre.spec_truth_count(i, j),
                                ));
                            }
                        }
                        if self.spec_state() == GameState::Lost {
                            assert forall|i: int, j: int|
                                pre.spec_in_bounds(i, j) implies #[trigger] disclosed_from(
                                pre,
                                *self,
                                i,
                                j,
                            ) || (self.spec_cell(i, j) == Cell::TrippedMine && adjacent(
                                x as int,
                                y as int,
                                i,
                                j,
                            ) && pre.spec_cell(i, j) == Cell::Hidden && pre.spec_truth_mine(
                                i,
                                j,
                            )) by {
                                assert(self.spec_truth_mine(i, j) == pre.spec_truth_mine(i, j));
                                assert(self.spec_truth_count(i, j) == pre.spec_truth_count(i, j));
                            }
                        }
                    }
                    res
                } else {
                    Err("incorrect number of flags")
                }
            },
            _ => {
                proof {
                    if self.spec_state() == GameState::New {
                        assert(self.cell_ok_new(x as int, y as int));
                    } else {
                        assert(self.cell_ok_live(x as int, y as int));
                    }
                    assert(false);
                }
                Err("game is over")
            },
        }
    }

    /// Chord when the cell is already open, probe when it is not.
    pub fn open_or_chord(&mut self, x: usize, y: usize) -> (r: Result<(), &'static str>)
        requires
            old(self).inv(),
        ensures
            final(self).inv(),
            open_or_chord_outcome(*old(self), *final(self), r, x as int, y as int),
    {
        if !self.valid_coord(x, y) {
            return Err("invalid coordinate");
        }
        match self.board[y][x] {
            Cell::Open(_) => self.chord(x, y),
            _ => self.open(x, y),
        }
    }

    /// The engine can be rebuilt under the current settings: they are valid
    /// and the rules engine agrees with them.  Holds whenever the overlay is
    /// well-formed, and again right after the rules engine adopts a new
    /// shape.
    pub closed spec fn reset_ready(self) -> bool {
        &&& self.settings.difficulty.spec_wf()
        &&& self.rules.inv()
        &&& self.rules.spec_width() as int == self.spec_width() as int
        &&& self.rules.spec_height() as int == self.spec_height() as int
        &&& self.rules.spec_num_mines() as int == self.spec_mines() as int
    }

    /// A well-formed overlay can always be reset.
    pub proof fn lemma_inv_reset_ready(self)
        requires
            self.inv(),
        ensures
            self.reset_ready(),
    {
    }

    /// Back to a fresh board under the current settings: everything hidden,
    /// the counter reseeded, the clock back at zero.
    pub fn reset(&mut self) -> (r: Result<(), &'static str>)
        requires
            old(self).reset_ready(),
        ensures
            final(self).inv(),
            r == Ok::<(), &'static str>(()),
            final(self).spec_settings() == old(self).spec_settings(),
            fresh_outcome(*final(self)),
    {
        proof {
            assert(self.spec_width() * self.spec_height() >= self.spec_width()
                && self.spec_width() * self.spec_height() >= self.spec_height())
                by (nonlinear_arith)
                requires
                    1 <= self.spec_width(),
                    1 <= self.spec_height(),
            ;
        }
        self.timer.reset();
        let w = self.width();
        let h = self.height();
        let board = crate::grid::grid_of(w as u32, h as u32, Cell::Hidden);
        self.board = board;
        self.rules.clear();
        let m = self.mines();
        self.mines_remaining = m as i64;
        proof {
            assert forall|i: int, j: int|
                self.spec_in_bounds(i, j) implies #[trigger] self.spec_cell(i, j)
                == Cell::Hidden by {}
            assert forall|i: int, j: int|
                0 <= i < self.spec_width() && 0 <= j < self.spec_height() implies #[trigger] self.spec_board()[j][i]
                != Cell::Flag by {
                assert(self.spec_cell(i, j) == Cell::Hidden);
            }
            lemma_rows_flags_none(
                self.spec_board(),
                self.spec_width() as int,
                self.spec_height() as int,
            );
            assert forall|i: int, j: int|
                self.spec_in_bounds(i, j) implies #[trigger] self.cell_ok_new(i, j) by {}
            assert(self.inv());
        }
        Ok(())
    }

    /// Adopt new settings.  A change of difficulty rewires the rules engine
    /// and starts a fresh game; the same difficulty leaves the game as it
    /// stands.
    pub fn change_settings(&mut self, settings: Settings) -> (r: Result<(), &'static str>)
        requires
            old(self).inv(),
            settings.difficulty.spec_wf(),
        ensures
            final(self).inv(),
            r == Ok::<(), &'static str>(()),
            final(self).spec_settings() == settings,
            old(self).spec_settings().difficulty != settings.difficulty ==> fresh_outcome(
                *final(self),
            ),
            old(self).spec_settings().difficulty == settings.difficulty ==> *final(self) == *old(
                self,
            ),
    {
        let should_reset = self.settings.difficulty != settings.difficulty;
        self.settings = settings;
        if should_reset {
            proof {
                assert(self.spec_width() * self.spec_height() >= self.spec_width()
                    && self.spec_width() * self.spec_height() >= self.spec_height())
                    by (nonlinear_arith)
                    requires
                        1 <= self.spec_width(),
                        1 <= self.spec_height(),
                ;
            }
            let w = self.width();
            let h = self.height();
            let m = self.mines();
            self.rules.reset(w as u32, h as u32, m as u32);
            let res = self.reset();
            proof {
                assert(res == Ok::<(), &'static str>(()));
            }
            res
        } else {
            proof {
                assert(*self == *old(self));
            }
            Ok(())
        }
    }

    /// Carry out one player intent; `Quit` is not the engine's concern and
    /// is rejected.  Once the game is won or lost, every probing, flagging
    /// or chording intent is rejected and nothing changes.
    pub fn action(&mut self, action: Action) -> (r: Result<(), &'static str>)
        requires
            old(self).inv(),
            action matches Action::ChangeSettings(s) ==> s.difficulty.spec_wf(),
        ensures
            final(self).inv(),
            action == Action::Quit ==> r == Err::<(), &'static str>(
                "Quit should be processed by the engine.",
            ) && *final(self) == *old(self),
            (old(self).spec_state() == GameState::Won || old(self).spec_state() == GameState::Lost)
                && ((action matches Action::Open(_, _)) || (action matches Action::Flag(_, _)) || (
            action matches Action::Chord(_, _)) || (action matches Action::OpenOrChord(_, _)))
                ==> r is Err && *final(self) == *old(self),
            action matches Action::Open(x, y) ==> probe_outcome(
                *old(self),
                *final(self),
                r,
                x as int,
                y as int,
            ),
            action matches Action::Flag(x, y) ==> flag_outcome(
                *old(self),
                *final(self),
                r,
                x as int,
                y as int,
            ),
            action matches Action::Chord(x, y) ==> chord_outcome(
                *old(self),
                *final(self),
                r,
                x as int,
                y as int,
            ),
            action matches Action::OpenOrChord(x, y) ==> open_or_chord_outcome(
                *old(self),
                *final(self),
                r,
                x as int,
                y as int,
            ),
            action == Action::Reset ==> r == Ok::<(), &'static str>(()) && final(self).spec_settings() == old(self).spec_settings() && fresh_outcome(*final(self)),
            action matches Action::ChangeSettings(s) ==> r == Ok::<(), &'static str>(()) && final(self).spec_settings() == s && (old(self).spec_settings().difficulty != s.difficulty
                ==> fresh_outcome(*final(self))) && (old(self).spec_settings().difficulty
                == s.difficulty ==> *final(self) == *old(self)),
    {
        match action {
            Action::ChangeSettings(settings) => self.change_settings(settings),
            Action::Reset => self.reset(),
            Action::Open(x, y) => self.open(x, y),
            Action::Flag(x, y) => self.flag(x, y),
            Action::Quit => Err("Quit should be processed by the engine."),
            Action::Chord(x, y) => self.chord(x, y),
            Action::OpenOrChord(x, y) => self.open_or_chord(x, y),
        }
    }

    fn valid_coord(&self, x: usize, y: usize) -> (b: bool)
        ensures
            b == self.spec_in_bounds(x as int, y as int),
    {
        x < self.width() && y < self.height()
    }
}

impl Default for Game {
    /// A fresh game under the default settings.
    fn default() -> (g: Game)
        ensures
            g.inv(),
            g.spec_state() == GameState::New,
            g.spec_settings() == (Settings { difficulty: Difficulty::Easy }),
    {
        Game::new(Settings::default())
    }
}

} // verus!
