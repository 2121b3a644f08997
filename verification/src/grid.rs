//! Width x height grids stored row-major as vectors of rows, with the
//! counting functions and lemmas the board generator and the rules engine
//! share: how many cells of a boolean grid are set, and how many are free.

use vstd::prelude::*;

verus! {

/// The abstract value of a grid: the sequence of its rows.
pub open spec fn view_of<T>(g: Vec<Vec<T>>) -> Seq<Seq<T>> {
    g@.map_values(|r: Vec<T>| r@)
}

/// A grid's abstract value has one entry per stored row.
pub broadcast proof fn lemma_view_of_len<T>(g: Vec<Vec<T>>)
    ensures
        (#[trigger] view_of(g)).len() == g@.len(),
{
}

/// A row of the abstract value is the abstract value of the stored row.
pub broadcast proof fn lemma_view_of_index<T>(g: Vec<Vec<T>>, j: int)
    requires
        0 <= j < g@.len(),
    ensures
        view_of(g)[j] == (#[trigger] g@[j])@,
{
}

/// The grid has `h` rows of `w` cells each.
pub open spec fn dims_ok<T>(g: Seq<Seq<T>>, w: int, h: int) -> bool {
    &&& g.len() == h
    &&& forall|y: int| 0 <= y < h ==> (#[trigger] g[y]).len() == w
}

/// Number of set cells among the first `n` of a row.
pub open spec fn row_set(r: Seq<bool>, n: int) -> int
    decreases n,
{
    if n <= 0 {
        0
    } else {
        row_set(r, n - 1) + if r[n - 1] {
            1int
        } else {
            0int
        }
    }
}

/// Number of set cells in the first `k` full rows.
pub open spec fn rows_set(g: Seq<Seq<bool>>, k: int) -> int
    decreases k,
{
    if k <= 0 {
        0
    } else {
        rows_set(g, k - 1) + row_set(g[k - 1], g[k - 1].len() as int)
    }
}

/// Number of set cells in the whole grid.
pub open spec fn grid_set(g: Seq<Seq<bool>>) -> int {
    rows_set(g, g.len() as int)
}

/// Number of free (unset) cells among the first `n` of a row.
pub open spec fn row_free(r: Seq<bool>, n: int) -> int
    decreases n,
{
    if n <= 0 {
        0
    } else {
        row_free(r, n - 1) + if r[n - 1] {
            0int
        } else {
            1int
        }
    }
}

/// Number of free cells in the first `k` full rows.
pub open spec fn rows_free(g: Seq<Seq<bool>>, k: int) -> int
    decreases k,
{
    if k <= 0 {
        0
    } else {
        rows_free(g, k - 1) + row_free(g[k - 1], g[k - 1].len() as int)
    }
}

/// Number of free cells before cell `(x, y)` in row-major order.
pub open spec fn free_before(g: Seq<Seq<bool>>, x: int, y: int) -> int {
    rows_free(g, y) + row_free(g[y], x)
}

pub proof fn lemma_row_counts(r: Seq<bool>, n: int)
    requires
        0 <= n,
    ensures
        0 <= row_set(r, n) <= n,
        row_set(r, n) + row_free(r, n) == n,
    decreases n,
{
    if n > 0 {
        lemma_row_counts(r, n - 1);
    }
}

pub proof fn lemma_grid_counts(g: Seq<Seq<bool>>, w: int, k: int)
    requires
        0 <= k <= g.len(),
        0 <= w,
        forall|y: int| 0 <= y < g.len() ==> (#[trigger] g[y]).len() == w,
    ensures
        0 <= rows_set(g, k) <= k * w,
        rows_set(g, k) + rows_free(g, k) == k * w,
    decreases k,
{
    if k > 0 {
        lemma_grid_counts(g, w, k - 1);
        lemma_row_counts(g[k - 1], w);
        assert(k * w == (k - 1) * w + w) by (nonlinear_arith);
    }
}

/// Setting one cell of a row raises `row_set` by one and lowers `row_free`
/// by one on every prefix that contains the cell, and changes no shorter
/// prefix.
pub proof fn lemma_row_update(r: Seq<bool>, i: int, b: bool, n: int)
    requires
        0 <= i < r.len(),
        0 <= n <= r.len(),
    ensures
        n <= i ==> row_set(r.update(i, b), n) == row_set(r, n) && row_free(r.update(i, b), n)
            == row_free(r, n),
        n > i ==> row_set(r.update(i, b), n) == row_set(r, n) + delta_set(r[i], b) && row_free(
            r.update(i, b),
            n,
        ) == row_free(r, n) - delta_set(r[i], b),
    decreases n,
{
    if n > 0 {
        lemma_row_update(r, i, b, n - 1);
    }
}

/// The change in the number of set cells when a cell goes from `from` to `to`.
pub open spec fn delta_set(from: bool, to: bool) -> int {
    (if to {
        1int
    } else {
        0int
    }) - (if from {
        1int
    } else {
        0int
    })
}

/// Setting one cell of a grid changes `rows_set` and `rows_free` by the
/// cell's delta on every row prefix that contains the row, and changes no
/// shorter prefix.
pub proof fn lemma_grid_update(g: Seq<Seq<bool>>, x: int, y: int, b: bool, k: int)
    requires
        0 <= y < g.len(),
        0 <= x < g[y].len(),
        0 <= k <= g.len(),
    ensures
        k <= y ==> rows_set(g.update(y, g[y].update(x, b)), k) == rows_set(g, k) && rows_free(
            g.update(y, g[y].update(x, b)),
            k,
        ) == rows_free(g, k),
        k > y ==> rows_set(g.update(y, g[y].update(x, b)), k) == rows_set(g, k) + delta_set(
            g[y][x],
            b,
        ) && rows_free(g.update(y, g[y].update(x, b)), k) == rows_free(g, k) - delta_set(
            g[y][x],
            b,
        ),
    decreases k,
{
    let g2 = g.update(y, g[y].update(x, b));
    if k > 0 {
        lemma_grid_update(g, x, y, b, k - 1);
        if k - 1 == y {
            lemma_row_update(g[y], x, b, g[y].len() as int);
        }
    }
}

/// Write `val` into cell `(x, y)`; the grid's abstract value changes in
/// exactly that cell.
pub fn set_cell<T>(g: &mut Vec<Vec<T>>, x: u32, y: u32, val: T)
    requires
        (y as int) < old(g)@.len(),
        (x as int) < old(g)@[y as int]@.len(),
    ensures
        view_of(*final(g)) == view_of(*old(g)).update(
            y as int,
            view_of(*old(g))[y as int].update(x as int, val),
        ),
{
    let ghost gv0 = view_of(*g);
    let row = &mut g[y as usize];
    row[x as usize] = val;
    proof {
        assert(view_of(*g) =~= gv0.update(y as int, gv0[y as int].update(x as int, val)));
    }
}

/// A fresh grid of `h` rows of `w` copies of `val`.
pub fn grid_of<T: Copy>(w: u32, h: u32, val: T) -> (g: Vec<Vec<T>>)
    ensures
        dims_ok(view_of(g), w as int, h as int),
        forall|x: int, y: int|
            0 <= x < w && 0 <= y < h ==> #[trigger] view_of(g)[y][x] == val,
{
    let mut g: Vec<Vec<T>> = Vec::new();
    let mut y: u32 = 0;
    while y < h
        invariant
            y <= h,
            view_of(g).len() == y as int,
            forall|j: int| 0 <= j < y ==> (#[trigger] view_of(g)[j]).len() == w as int,
            forall|i: int, j: int|
                0 <= i < w && 0 <= j < y ==> #[trigger] view_of(g)[j][i] == val,
        decreases h - y,
    {
        let mut row: Vec<T> = Vec::new();
        let mut x: u32 = 0;
        while x < w
            invariant
                x <= w,
                row@.len() == x as int,
                forall|i: int| 0 <= i < x ==> row@[i] == val,
            decreases w - x,
        {
            row.push(val);
            x += 1;
        }
        let ghost prev = view_of(g);
        g.push(row);
        proof {
            assert forall|j: int| 0 <= j < y + 1 implies #[trigger] view_of(g)[j] == (if j < y {
                prev[j]
            } else {
                row@
            }) by {
                assert(g@[j] == if j < y {
                    g@.subrange(0, y as int)[j]
                } else {
                    g@[y as int]
                });
            }
        }
        y += 1;
    }
    g
}

/// An all-free grid has as many free cells as it has cells.
pub proof fn lemma_all_free(g: Seq<Seq<bool>>, w: int, h: int)
    requires
        dims_ok(g, w, h),
        0 <= w,
        forall|x: int, y: int| 0 <= x < w && 0 <= y < h ==> !(#[trigger] g[y][x]),
    ensures
        grid_set(g) == 0,
{
    lemma_rows_all_free(g, w, h);
}

proof fn lemma_rows_all_free(g: Seq<Seq<bool>>, w: int, k: int)
    requires
        0 <= k <= g.len(),
        0 <= w,
        forall|y: int| 0 <= y < g.len() ==> (#[trigger] g[y]).len() == w,
        forall|x: int, y: int| 0 <= x < w && 0 <= y < g.len() ==> !(#[trigger] g[y][x]),
    ensures
        rows_set(g, k) == 0,
    decreases k,
{
    if k > 0 {
        lemma_rows_all_free(g, w, k - 1);
        lemma_row_all_free(g[k - 1], w);
    }
}

proof fn lemma_row_all_free(r: Seq<bool>, n: int)
    requires
        0 <= n <= r.len(),
        forall|i: int| 0 <= i < r.len() ==> !(#[trigger] r[i]),
    ensures
        row_set(r, n) == 0,
    decreases n,
{
    if n > 0 {
        lemma_row_all_free(r, n - 1);
    }
}

/// The free count is monotone in the prefix length.
pub proof fn lemma_row_free_mono(r: Seq<bool>, a: int, b: int)
    requires
        0 <= a <= b,
    ensures
        row_free(r, a) <= row_free(r, b),
    decreases b,
{
    if b > a {
        lemma_row_free_mono(r, a, b - 1);
    }
}

/// A free cell strictly raises the free count of every longer prefix.
pub proof fn lemma_row_free_strict(r: Seq<bool>, i: int, b: int)
    requires
        0 <= i < b,
        !r[i],
    ensures
        row_free(r, b) >= row_free(r, i) + 1,
    decreases b,
{
    if b > i + 1 {
        lemma_row_free_strict(r, i, b - 1);
    }
}

pub proof fn lemma_rows_free_mono(g: Seq<Seq<bool>>, a: int, b: int)
    requires
        0 <= a <= b <= g.len(),
    ensures
        rows_free(g, a) <= rows_free(g, b),
    decreases b,
{
    if b > a {
        lemma_rows_free_mono(g, a, b - 1);
        lemma_row_counts(g[b - 1], g[b - 1].len() as int);
    }
}

/// In row-major order an earlier free cell has a strictly smaller rank.
pub proof fn lemma_free_before_strict(
    g: Seq<Seq<bool>>,
    w: int,
    h: int,
    x1: int,
    y1: int,
    x2: int,
    y2: int,
)
    requires
        dims_ok(g, w, h),
        0 <= x1 < w,
        0 <= y1 < h,
        0 <= x2 < w,
        0 <= y2 < h,
        !g[y1][x1],
        y1 < y2 || (y1 == y2 && x1 < x2),
    ensures
        free_before(g, x1, y1) < free_before(g, x2, y2),
{
    if y1 == y2 {
        lemma_row_free_strict(g[y1], x1, x2);
    } else {
        lemma_row_free_strict(g[y1], x1, w);
        lemma_rows_free_mono(g, y1 + 1, y2);
        lemma_row_counts(g[y2], x2);
    }
}

/// The rank of a free cell in row-major order pins the cell.
pub proof fn lemma_free_before_unique(
    g: Seq<Seq<bool>>,
    w: int,
    h: int,
    x1: int,
    y1: int,
    x2: int,
    y2: int,
)
    requires
        dims_ok(g, w, h),
        0 <= x1 < w,
        0 <= y1 < h,
        0 <= x2 < w,
        0 <= y2 < h,
        !g[y1][x1],
        !g[y2][x2],
        free_before(g, x1, y1) == free_before(g, x2, y2),
    ensures
        x1 == x2 && y1 == y2,
{
    if y1 < y2 || (y1 == y2 && x1 < x2) {
        lemma_free_before_strict(g, w, h, x1, y1, x2, y2);
    } else if y2 < y1 || (y2 == y1 && x2 < x1) {
        lemma_free_before_strict(g, w, h, x2, y2, x1, y1);
    }
}

proof fn lemma_row_disjoint_count(a: Seq<bool>, b: Seq<bool>, n: int)
    requires
        0 <= n <= a.len(),
        n <= b.len(),
        forall|i: int| 0 <= i < n ==> (#[trigger] a[i] ==> !b[i]),
    ensures
        row_set(a, n) <= row_free(b, n),
    decreases n,
{
    if n > 0 {
        lemma_row_disjoint_count(a, b, n - 1);
    }
}

/// When the set cells of `a` all sit on free cells of `b`, `a` has no more
/// set cells than `b` has free ones.
pub proof fn lemma_rows_disjoint_count(a: Seq<Seq<bool>>, b: Seq<Seq<bool>>, w: int, k: int)
    requires
        0 <= k <= a.len(),
        a.len() == b.len(),
        forall|y: int| 0 <= y < a.len() ==> (#[trigger] a[y]).len() == w && b[y].len() == w,
        forall|x: int, y: int|
            0 <= x < w && 0 <= y < a.len() ==> (#[trigger] a[y][x] ==> !b[y][x]),
    ensures
        rows_set(a, k) <= rows_free(b, k),
    decreases k,
{
    if k > 0 {
        lemma_rows_disjoint_count(a, b, w, k - 1);
        lemma_row_disjoint_count(a[k - 1], b[k - 1], w);
    }
}

proof fn lemma_row_cover_count(a: Seq<bool>, b: Seq<bool>, n: int)
    requires
        0 <= n <= a.len(),
        n <= b.len(),
        forall|i: int| 0 <= i < n ==> (!(#[trigger] b[i]) ==> a[i]),
    ensures
        row_free(b, n) <= row_set(a, n),
    decreases n,
{
    if n > 0 {
        lemma_row_cover_count(a, b, n - 1);
    }
}

/// When every free cell of `b` is set in `a`, `b` has no more free cells
/// than `a` has set ones.
pub proof fn lemma_rows_cover_count(a: Seq<Seq<bool>>, b: Seq<Seq<bool>>, w: int, k: int)
    requires
        0 <= k <= a.len(),
        a.len() == b.len(),
        forall|y: int| 0 <= y < a.len() ==> (#[trigger] a[y]).len() == w && b[y].len() == w,
        forall|x: int, y: int|
            0 <= x < w && 0 <= y < a.len() ==> (!(#[trigger] b[y][x]) ==> a[y][x]),
    ensures
        rows_free(b, k) <= rows_set(a, k),
    decreases k,
{
    if k > 0 {
        lemma_rows_cover_count(a, b, w, k - 1);
        lemma_row_cover_count(a[k - 1], b[k - 1], w);
    }
}

/// Counting pigeonhole: when the set cells of `a` all sit on free cells of
/// `b` and the counts agree, `a` covers every free cell of `b`.
pub proof fn lemma_disjoint_equal_cover(a: Seq<Seq<bool>>, b: Seq<Seq<bool>>, w: int, h: int)
    requires
        dims_ok(a, w, h),
        dims_ok(b, w, h),
        forall|x: int, y: int| 0 <= x < w && 0 <= y < h ==> (#[trigger] a[y][x] ==> !b[y][x]),
        rows_set(a, h) == rows_free(b, h),
    ensures
        forall|x: int, y: int| 0 <= x < w && 0 <= y < h ==> (!(#[trigger] b[y][x]) ==> a[y][x]),
{
    assert forall|x: int, y: int|
        0 <= x < w && 0 <= y < h implies (!(#[trigger] b[y][x]) ==> a[y][x]) by {
        if !b[y][x] && !a[y][x] {
            let a2 = a.update(y, a[y].update(x, true));
            lemma_grid_update(a, x, y, true, h);
            assert forall|i: int, j: int|
                0 <= i < w && 0 <= j < h implies (#[trigger] a2[j][i] ==> !b[j][i]) by {
                if !(i == x && j == y) {
                    assert(a2[j][i] == a[j][i]);
                }
            }
            assert forall|j: int| 0 <= j < h implies (#[trigger] a2[j]).len() == w && b[j].len()
                == w by {}
            lemma_rows_disjoint_count(a2, b, w, h);
            assert(false);
        }
    }
}

} // verus!
