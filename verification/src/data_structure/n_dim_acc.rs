use crate::utils::{range_to_tuple, IndexRange};
use vstd::prelude::*;

verus! {

/// The sum of column `b` of `grid` over the rows `li..ri`.
pub open spec fn strip_sum(grid: Seq<Seq<isize>>, li: int, ri: int, b: int) -> int
    decreases ri - li,
{
    if ri <= li {
        0
    } else {
        strip_sum(grid, li, ri - 1, b) + grid[ri - 1][b]
    }
}

/// The sum of the entries of `grid` in the rows `li..ri` and the columns
/// `lj..rj`.
pub open spec fn box_sum(grid: Seq<Seq<isize>>, li: int, ri: int, lj: int, rj: int) -> int
    decreases rj - lj,
{
    if rj <= lj {
        0
    } else {
        box_sum(grid, li, ri, lj, rj - 1) + strip_sum(grid, li, ri, rj - 1)
    }
}

/// `x` is the value of an `isize`.
pub open spec fn fits(x: int) -> bool {
    isize::MIN <= x <= isize::MAX
}

/// The rows of `v` as sequences.
pub open spec fn grid_of(v: Seq<Vec<isize>>) -> Seq<Seq<isize>> {
    Seq::new(v.len(), |a: int| v[a]@)
}

/// A sum over rows splits at any row in between.
pub proof fn lemma_strip_split(grid: Seq<Seq<isize>>, li: int, mid: int, ri: int, b: int)
    requires
        li <= mid <= ri,
    ensures
        strip_sum(grid, li, ri, b) == strip_sum(grid, li, mid, b) + strip_sum(grid, mid, ri, b),
    decreases ri - mid,
{
    if mid < ri {
        lemma_strip_split(grid, li, mid, ri - 1, b);
    }
}

/// A sum over a box splits at any row in between.
pub proof fn lemma_box_split_rows(
    grid: Seq<Seq<isize>>,
    li: int,
    mid: int,
    ri: int,
    lj: int,
    rj: int,
)
    requires
        li <= mid <= ri,
    ensures
        box_sum(grid, li, ri, lj, rj) == box_sum(grid, li, mid, lj, rj) + box_sum(
            grid,
            mid,
            ri,
            lj,
            rj,
        ),
    decreases rj - lj,
{
    if lj < rj {
        lemma_box_split_rows(grid, li, mid, ri, lj, rj - 1);
        lemma_strip_split(grid, li, mid, ri, rj - 1);
    }
}

/// A sum over a box splits at any column in between.
pub proof fn lemma_box_split_cols(
    grid: Seq<Seq<isize>>,
    li: int,
    ri: int,
    lj: int,
    mid: int,
    rj: int,
)
    requires
        lj <= mid <= rj,
    ensures
        box_sum(grid, li, ri, lj, rj) == box_sum(grid, li, ri, lj, mid) + box_sum(
            grid,
            li,
            ri,
            mid,
            rj,
        ),
    decreases rj - mid,
{
    if mid < rj {
        lemma_box_split_cols(grid, li, ri, lj, mid, rj - 1);
    }
}

/// A box without rows has the sum 0.
pub proof fn lemma_box_no_rows(grid: Seq<Seq<isize>>, li: int, lj: int, rj: int)
    ensures
        box_sum(grid, li, li, lj, rj) == 0,
    decreases rj - lj,
{
    if lj < rj {
        lemma_box_no_rows(grid, li, lj, rj - 1);
    }
}

/// The sum over a box from the sums over the four boxes that start at the
/// first row and the first column.
pub proof fn lemma_box_from_prefixes(grid: Seq<Seq<isize>>, li: int, ri: int, lj: int, rj: int)
    requires
        0 <= li <= ri,
        0 <= lj <= rj,
    ensures
        box_sum(grid, li, ri, lj, rj) == box_sum(grid, 0, ri, 0, rj) + box_sum(
            grid,
            0,
            li,
            0,
            lj,
        ) - box_sum(grid, 0, ri, 0, lj) - box_sum(grid, 0, li, 0, rj),
{
    lemma_box_split_rows(grid, 0, li, ri, 0, rj);
    lemma_box_split_cols(grid, li, ri, 0, lj, rj);
    lemma_box_split_rows(grid, 0, li, ri, 0, lj);
}

/// The sums over the boxes of a grid of numbers that start at the first
/// row and the first column, from which the sum over any box is read.
pub struct Acc2d {
    acc: Vec<Vec<isize>>,
    source: Ghost<Seq<Seq<isize>>>,
}

impl Acc2d {
    /// The grid that the sums were taken of.
    pub closed spec fn grid(&self) -> Seq<Seq<isize>> {
        self.source@
    }

    /// The number of rows.
    pub closed spec fn rows(&self) -> int {
        self.acc@.len() - 1
    }

    /// What stands for the upper end of a range that has none: the number
    /// of rows and one more.
    pub open spec fn limit(&self) -> int {
        self.rows() + 1
    }

    /// The number of columns.
    pub closed spec fn cols(&self) -> int {
        self.acc@[0]@.len() - 1
    }

    /// The table holds the sum over each box that starts at the first row
    /// and the first column.
    pub closed spec fn wf(&self) -> bool {
        &&& self.acc@.len() >= 1
        &&& self.acc@[0]@.len() >= 1
        &&& forall|i: int|
            0 <= i < self.acc@.len() ==> (#[trigger] self.acc@[i])@.len() == self.acc@[0]@.len()
        &&& forall|i: int, j: int|
            0 <= i < self.acc@.len() && 0 <= j < self.acc@[0]@.len() ==> (
            #[trigger] self.acc@[i]@[j]) == box_sum(self.source@, 0, i, 0, j)
    }

    /// The sums of the grid `v`, of which only the columns of the first row
    /// count.
    pub fn new(v: &[Vec<isize>]) -> (table: Self)
        requires
            1 <= v@.len() < usize::MAX,
            v@[0]@.len() < usize::MAX,
            forall|a: int| 0 <= a < v@.len() ==> (#[trigger] v@[a])@.len() >= v@[0]@.len(),
            forall|i: int, b: int|
                0 <= i <= v@.len() && 0 <= b < v@[0]@.len() ==> fits(
                    #[trigger] strip_sum(grid_of(v@), 0, i, b),
                ),
            forall|i: int, j: int|
                0 <= i <= v@.len() && 0 <= j <= v@[0]@.len() ==> fits(
                    #[trigger] box_sum(grid_of(v@), 0, i, 0, j),
                ),
        ensures
            table.wf(),
            table.grid() == grid_of(v@),
            table.rows() == v@.len(),
            table.cols() == v@[0]@.len(),
    {
        let n = v.len();
        let m = v[0].len();
        let ghost grid = grid_of(v@);
        let mut acc: Vec<Vec<isize>> = Vec::new();
        let mut i: usize = 0;
        while i <= n
            invariant
                i <= n + 1,
                n < usize::MAX,
                m < usize::MAX,
                acc@.len() == i,
                forall|a: int| 0 <= a < i ==> (#[trigger] acc@[a])@.len() == m + 1,
                forall|a: int, b: int|
                    0 <= a < i && 0 <= b <= m ==> (#[trigger] acc@[a]@[b]) == 0,
            decreases n + 1 - i,
        {
            let row: Vec<isize> = vec![0; m + 1];
            acc.push(row);
            i += 1;
        }
        let mut i: usize = 1;
        while i <= n
            invariant
                1 <= i <= n + 1,
                n == v@.len() < usize::MAX,
                m == v@[0]@.len() < usize::MAX,
                grid == grid_of(v@),
                acc@.len() == n + 1,
                forall|a: int| 0 <= a < v@.len() ==> (#[trigger] v@[a])@.len() >= m,
                forall|a: int| 0 <= a <= n ==> (#[trigger] acc@[a])@.len() == m + 1,
                forall|a: int, b: int|
                    0 <= a <= n && 0 <= b < m ==> fits(#[trigger] strip_sum(grid, 0, a, b)),
                forall|a: int, b: int|
                    0 <= a < i && 1 <= b <= m ==> (#[trigger] acc@[a]@[b]) == strip_sum(
                        grid,
                        0,
                        a,
                        b - 1,
                    ),
                forall|a: int| 0 <= a <= n ==> (#[trigger] acc@[a])@[0] == 0,
                forall|a: int, b: int|
                    i <= a <= n && 0 <= b <= m ==> (#[trigger] acc@[a]@[b]) == 0,
            decreases n + 1 - i,
        {
            let mut j: usize = 1;
            while j <= m
                invariant
                    1 <= i <= n,
                    1 <= j <= m + 1,
                    n == v@.len() < usize::MAX,
                    m == v@[0]@.len() < usize::MAX,
                    grid == grid_of(v@),
                    acc@.len() == n + 1,
                    forall|a: int| 0 <= a < v@.len() ==> (#[trigger] v@[a])@.len() >= m,
                    forall|a: int| 0 <= a <= n ==> (#[trigger] acc@[a])@.len() == m + 1,
                    forall|a: int, b: int|
                        0 <= a <= n && 0 <= b < m ==> fits(#[trigger] strip_sum(grid, 0, a, b)),
                    forall|a: int, b: int|
                        0 <= a < i && 1 <= b <= m ==> (#[trigger] acc@[a]@[b]) == strip_sum(
                            grid,
                            0,
                            a,
                            b - 1,
                        ),
                    forall|b: int|
                        1 <= b < j ==> (#[trigger] acc@[i as int]@[b]) == strip_sum(
                            grid,
                            0,
                            i as int,
                            b - 1,
                        ),
                    forall|b: int| j <= b <= m ==> (#[trigger] acc@[i as int]@[b]) == 0,
                    forall|a: int| 0 <= a <= n ==> (#[trigger] acc@[a])@[0] == 0,
                    forall|a: int, b: int|
                        i < a <= n && 0 <= b <= m ==> (#[trigger] acc@[a]@[b]) == 0,
                decreases m + 1 - j,
            {
                proof {
                    assert(fits(strip_sum(grid, 0, i as int, j - 1)));
                    assert(acc@[i - 1]@[j as int] == strip_sum(grid, 0, i - 1, j - 1));
                    assert(grid[i - 1] == v@[i - 1]@);
                }
                let x = acc[i - 1][j] + v[i - 1][j - 1];
                acc[i][j] = x;
                j += 1;
            }
            i += 1;
        }
        let mut j: usize = 1;
        while j <= m
            invariant
                1 <= j <= m + 1,
                n == v@.len() < usize::MAX,
                m == v@[0]@.len() < usize::MAX,
                grid == grid_of(v@),
                acc@.len() == n + 1,
                forall|a: int| 0 <= a <= n ==> (#[trigger] acc@[a])@.len() == m + 1,
                forall|a: int, b: int|
                    0 <= a <= n && 0 <= b <= m ==> fits(#[trigger] box_sum(grid, 0, a, 0, b)),
                forall|a: int, b: int|
                    0 <= a <= n && 0 <= b < j ==> (#[trigger] acc@[a]@[b]) == box_sum(
                        grid,
                        0,
                        a,
                        0,
                        b,
                    ),
                forall|a: int, b: int|
                    0 <= a <= n && j <= b <= m ==> (#[trigger] acc@[a]@[b]) == strip_sum(
                        grid,
                        0,
                        a,
                        b - 1,
                    ),
            decreases m + 1 - j,
        {
            proof {
                lemma_box_no_rows(grid, 0, 0, j as int);
            }
            let mut i: usize = 1;
            while i <= n
                invariant
                    1 <= j <= m,
                    1 <= i <= n + 1,
                    n == v@.len() < usize::MAX,
                    m == v@[0]@.len() < usize::MAX,
                    grid == grid_of(v@),
                    acc@.len() == n + 1,
                    forall|a: int| 0 <= a <= n ==> (#[trigger] acc@[a])@.len() == m + 1,
                    forall|a: int, b: int|
                        0 <= a <= n && 0 <= b <= m ==> fits(#[trigger] box_sum(grid, 0, a, 0, b)),
                    forall|a: int, b: int|
                        0 <= a <= n && 0 <= b < j ==> (#[trigger] acc@[a]@[b]) == box_sum(
                            grid,
                            0,
                            a,
                            0,
                            b,
                        ),
                    forall|a: int|
                        0 <= a < i ==> (#[trigger] acc@[a])@[j as int] == box_sum(
                            grid,
                            0,
                            a,
                            0,
                            j as int,
                        ),
                    forall|a: int|
                        i <= a <= n ==> (#[trigger] acc@[a])@[j as int] == strip_sum(
                            grid,
                            0,
                            a,
                            j - 1,
                        ),
                    forall|a: int, b: int|
                        0 <= a <= n && j < b <= m ==> (#[trigger] acc@[a]@[b]) == strip_sum(
                            grid,
                            0,
                            a,
                            b - 1,
                        ),
                decreases n + 1 - i,
            {
                proof {
                    assert(fits(box_sum(grid, 0, i as int, 0, j as int)));
                    assert(acc@[i as int]@[j - 1] == box_sum(grid, 0, i as int, 0, j - 1));
                }
                let x = acc[i][j] + acc[i][j - 1];
                acc[i][j] = x;
                i += 1;
            }
            j += 1;
        }
        Acc2d { acc, source: Ghost(grid) }
    }

    /// The sum of the entries in the rows of `range_i` and the columns of
    /// `range_j`. A range without an upper end runs to the number of rows
    /// and one more.
    pub fn fold<R: IndexRange>(&self, range_i: R, range_j: R) -> (sum: isize)
        requires
            self.wf(),
            0 <= range_i.lower() <= range_i.upper(self.limit()) <= self.rows(),
            0 <= range_j.lower() <= range_j.upper(self.limit()) <= self.cols(),
            fits(
                box_sum(
                    self.grid(),
                    0,
                    range_i.upper(self.limit()),
                    0,
                    range_j.upper(self.limit()),
                ) + box_sum(self.grid(), 0, range_i.lower(), 0, range_j.lower()),
            ),
            fits(
                box_sum(
                    self.grid(),
                    0,
                    range_i.upper(self.limit()),
                    0,
                    range_j.upper(self.limit()),
                ) + box_sum(self.grid(), 0, range_i.lower(), 0, range_j.lower()) - box_sum(
                    self.grid(),
                    0,
                    range_i.upper(self.limit()),
                    0,
                    range_j.lower(),
                ),
            ),
            fits(
                box_sum(
                    self.grid(),
                    range_i.lower(),
                    range_i.upper(self.limit()),
                    range_j.lower(),
                    range_j.upper(self.limit()),
                ),
            ),
        ensures
            sum == box_sum(
                self.grid(),
                range_i.lower(),
                range_i.upper(self.limit()),
                range_j.lower(),
                range_j.upper(self.limit()),
            ),
    {
        let (li, ri) = range_to_tuple(range_i, self.acc.len());
        proof {
            assert(self.acc@[0].len() <= usize::MAX);
        }
        let (lj, rj) = range_to_tuple(range_j, self.acc.len());
        proof {
            lemma_box_from_prefixes(self.source@, li as int, ri as int, lj as int, rj as int);
            assert(self.acc@[ri as int]@[rj as int] == box_sum(
                self.source@,
                0,
                ri as int,
                0,
                rj as int,
            ));
            assert(self.acc@[li as int]@[lj as int] == box_sum(
                self.source@,
                0,
                li as int,
                0,
                lj as int,
            ));
            assert(self.acc@[ri as int]@[lj as int] == box_sum(
                self.source@,
                0,
                ri as int,
                0,
                lj as int,
            ));
            assert(self.acc@[li as int]@[rj as int] == box_sum(
                self.source@,
                0,
                li as int,
                0,
                rj as int,
            ));
        }
        self.acc[ri][rj] + self.acc[li][lj] - self.acc[ri][lj] - self.acc[li][rj]
    }
}

/// The sum of the entries `cube[a][b][c]` over `a` in `li..ri`.
pub open spec fn line_sum(cube: Seq<Seq<Seq<isize>>>, li: int, ri: int, b: int, c: int) -> int
    decreases ri - li,
{
    if ri <= li {
        0
    } else {
        line_sum(cube, li, ri - 1, b, c) + cube[ri - 1][b][c]
    }
}

/// The sum of the entries `cube[a][b][c]` over `a` in `li..ri` and `b` in
/// `lj..rj`.
pub open spec fn sheet_sum(
    cube: Seq<Seq<Seq<isize>>>,
    li: int,
    ri: int,
    lj: int,
    rj: int,
    c: int,
) -> int
    decreases rj - lj,
{
    if rj <= lj {
        0
    } else {
        sheet_sum(cube, li, ri, lj, rj - 1, c) + line_sum(cube, li, ri, rj - 1, c)
    }
}

/// The sum of the entries `cube[a][b][c]` over `a` in `li..ri`, `b` in
/// `lj..rj` and `c` in `lk..rk`.
pub open spec fn block_sum(
    cube: Seq<Seq<Seq<isize>>>,
    li: int,
    ri: int,
    lj: int,
    rj: int,
    lk: int,
    rk: int,
) -> int
    decreases rk - lk,
{
    if rk <= lk {
        0
    } else {
        block_sum(cube, li, ri, lj, rj, lk, rk - 1) + sheet_sum(cube, li, ri, lj, rj, rk - 1)
    }
}

/// The entries of `v` as sequences of sequences of sequences.
pub open spec fn cube_of(v: Seq<Vec<Vec<isize>>>) -> Seq<Seq<Seq<isize>>> {
    Seq::new(v.len(), |a: int| Seq::new(v[a]@.len(), |b: int| v[a]@[b]@))
}

/// What the table holds at `(a, b, c)` after the sums have been taken in
/// the first `pass` directions.
pub open spec fn cell(cube: Seq<Seq<Seq<isize>>>, pass: int, a: int, b: int, c: int) -> int {
    if a <= 0 || b <= 0 || c <= 0 || pass <= 0 {
        0
    } else if pass == 1 {
        line_sum(cube, 0, a, b - 1, c - 1)
    } else if pass == 2 {
        sheet_sum(cube, 0, a, 0, b, c - 1)
    } else {
        block_sum(cube, 0, a, 0, b, 0, c)
    }
}

/// `(a, b, c)` comes before `(i, j, k)` in the order in which the table is
/// walked.
pub open spec fn walked(a: int, b: int, c: int, i: int, j: int, k: int) -> bool {
    a < i || (a == i && (b < j || (b == j && c < k)))
}

/// The table of `n + 1` by `m + 1` by `w + 1` entries during the pass
/// `pass`, with the walk at `(i, j, k)`: the entries walked hold the sums of
/// this pass, the others those of the pass before.
pub open spec fn swept(
    acc: Seq<Vec<Vec<isize>>>,
    cube: Seq<Seq<Seq<isize>>>,
    n: int,
    m: int,
    w: int,
    pass: int,
    i: int,
    j: int,
    k: int,
) -> bool {
    &&& acc.len() == n + 1
    &&& forall|a: int| 0 <= a <= n ==> (#[trigger] acc[a])@.len() == m + 1
    &&& forall|a: int, b: int| 0 <= a <= n && 0 <= b <= m ==> (#[trigger] acc[a]@[b])@.len() == w + 1
    &&& forall|a: int, b: int, c: int|
        0 <= a <= n && 0 <= b <= m && 0 <= c <= w ==> (#[trigger] acc[a]@[b]@[c]) == (if walked(
            a,
            b,
            c,
            i,
            j,
            k,
        ) {
            cell(cube, pass, a, b, c)
        } else {
            cell(cube, pass - 1, a, b, c)
        })
}

/// Every sum that the passes form is the value of an `isize`.
pub open spec fn cells_fit(cube: Seq<Seq<Seq<isize>>>, n: int, m: int, w: int) -> bool {
    forall|pass: int, a: int, b: int, c: int|
        1 <= pass <= 3 && 0 <= a <= n && 0 <= b <= m && 0 <= c <= w ==> fits(
            #[trigger] cell(cube, pass, a, b, c),
        )
}

/// A sum over a block without sheets, or without lines, is 0.
pub proof fn lemma_block_empty(
    cube: Seq<Seq<Seq<isize>>>,
    li: int,
    ri: int,
    lj: int,
    rj: int,
    lk: int,
    rk: int,
)
    requires
        ri <= li || rj <= lj,
    ensures
        block_sum(cube, li, ri, lj, rj, lk, rk) == 0,
        forall|c: int| sheet_sum(cube, li, ri, lj, rj, c) == 0,
    decreases rk - lk,
{
    assert forall|c: int| sheet_sum(cube, li, ri, lj, rj, c) == 0 by {
        lemma_sheet_empty(cube, li, ri, lj, rj, c);
    }
    if lk < rk {
        lemma_block_empty(cube, li, ri, lj, rj, lk, rk - 1);
    }
}

/// A sum over a sheet without lines, or of empty lines, is 0.
pub proof fn lemma_sheet_empty(cube: Seq<Seq<Seq<isize>>>, li: int, ri: int, lj: int, rj: int, c: int)
    requires
        ri <= li || rj <= lj,
    ensures
        sheet_sum(cube, li, ri, lj, rj, c) == 0,
    decreases rj - lj,
{
    if lj < rj {
        lemma_sheet_empty(cube, li, ri, lj, rj - 1, c);
    }
}

/// A line splits at any row in between.
pub proof fn lemma_line_split(
    cube: Seq<Seq<Seq<isize>>>,
    li: int,
    mid: int,
    ri: int,
    b: int,
    c: int,
)
    requires
        li <= mid <= ri,
    ensures
        line_sum(cube, li, ri, b, c) == line_sum(cube, li, mid, b, c) + line_sum(
            cube,
            mid,
            ri,
            b,
            c,
        ),
    decreases ri - mid,
{
    if mid < ri {
        lemma_line_split(cube, li, mid, ri - 1, b, c);
    }
}

/// A sheet splits at any row and at any column in between.
pub proof fn lemma_sheet_split(
    cube: Seq<Seq<Seq<isize>>>,
    li: int,
    mi: int,
    ri: int,
    lj: int,
    mj: int,
    rj: int,
    c: int,
)
    requires
        li <= mi <= ri,
        lj <= mj <= rj,
    ensures
        sheet_sum(cube, li, ri, lj, rj, c) == sheet_sum(cube, li, mi, lj, rj, c) + sheet_sum(
            cube,
            mi,
            ri,
            lj,
            rj,
            c,
        ),
        sheet_sum(cube, li, ri, lj, rj, c) == sheet_sum(cube, li, ri, lj, mj, c) + sheet_sum(
            cube,
            li,
            ri,
            mj,
            rj,
            c,
        ),
    decreases rj - lj,
{
    if lj < rj {
        if mj < rj {
            lemma_sheet_split(cube, li, mi, ri, lj, mj, rj - 1, c);
        } else {
            lemma_sheet_split(cube, li, mi, ri, lj, lj, rj - 1, c);
        }
        lemma_line_split(cube, li, mi, ri, rj - 1, c);
    }
}

/// A block splits at any row, at any column and at any layer in between.
pub proof fn lemma_block_split(
    cube: Seq<Seq<Seq<isize>>>,
    li: int,
    mi: int,
    ri: int,
    lj: int,
    mj: int,
    rj: int,
    lk: int,
    mk: int,
    rk: int,
)
    requires
        li <= mi <= ri,
        lj <= mj <= rj,
        lk <= mk <= rk,
    ensures
        block_sum(cube, li, ri, lj, rj, lk, rk) == block_sum(cube, li, mi, lj, rj, lk, rk)
            + block_sum(cube, mi, ri, lj, rj, lk, rk),
        block_sum(cube, li, ri, lj, rj, lk, rk) == block_sum(cube, li, ri, lj, mj, lk, rk)
            + block_sum(cube, li, ri, mj, rj, lk, rk),
        block_sum(cube, li, ri, lj, rj, lk, rk) == block_sum(cube, li, ri, lj, rj, lk, mk)
            + block_sum(cube, li, ri, lj, rj, mk, rk),
    decreases rk - lk,
{
    if lk < rk {
        if mk < rk {
            lemma_block_split(cube, li, mi, ri, lj, mj, rj, lk, mk, rk - 1);
        } else {
            lemma_block_split(cube, li, mi, ri, lj, mj, rj, lk, lk, rk - 1);
        }
        lemma_sheet_split(cube, li, mi, ri, lj, mj, rj, rk - 1);
    }
}

/// After the third pass the table holds the sums over the blocks that
/// start at the first entry.
pub proof fn lemma_cell_block(cube: Seq<Seq<Seq<isize>>>, a: int, b: int, c: int)
    requires
        0 <= a,
        0 <= b,
        0 <= c,
    ensures
        cell(cube, 3, a, b, c) == block_sum(cube, 0, a, 0, b, 0, c),
{
    if a == 0 || b == 0 {
        lemma_block_empty(cube, 0, a, 0, b, 0, c);
    }
}

/// One step of a pass: the entry at `(i, j, k)` gets the sum of this pass,
/// and the walk moves on.
pub proof fn lemma_sweep_step(
    acc: Seq<Vec<Vec<isize>>>,
    after: Seq<Vec<Vec<isize>>>,
    cube: Seq<Seq<Seq<isize>>>,
    n: int,
    m: int,
    w: int,
    pass: int,
    i: int,
    j: int,
    k: int,
)
    requires
        swept(acc, cube, n, m, w, pass, i, j, k),
        1 <= i <= n,
        1 <= j <= m,
        1 <= k <= w,
        after.len() == n + 1,
        forall|a: int| 0 <= a <= n ==> (#[trigger] after[a])@.len() == m + 1,
        forall|a: int, b: int|
            0 <= a <= n && 0 <= b <= m ==> (#[trigger] after[a]@[b])@.len() == w + 1,
        forall|a: int, b: int, c: int|
            0 <= a <= n && 0 <= b <= m && 0 <= c <= w && !(a == i && b == j && c == k) ==> (
            #[trigger] after[a]@[b]@[c]) == acc[a]@[b]@[c],
        after[i]@[j]@[k] == cell(cube, pass, i, j, k),
    ensures
        swept(after, cube, n, m, w, pass, i, j, k + 1),
        k == w ==> swept(after, cube, n, m, w, pass, i, j + 1, 1),
        k == w && j == m ==> swept(after, cube, n, m, w, pass, i + 1, 1, 1),
{
    assert forall|a: int, b: int, c: int|
        0 <= a <= n && 0 <= b <= m && 0 <= c <= w implies (#[trigger] after[a]@[b]@[c]) == (
    if walked(a, b, c, i, j, k + 1) {
        cell(cube, pass, a, b, c)
    } else {
        cell(cube, pass - 1, a, b, c)
    }) by {
        if !(a == i && b == j && c == k) {
            assert(after[a]@[b]@[c] == acc[a]@[b]@[c]);
        }
    }
}

/// Between two passes: the table after a whole pass is the table at the
/// start of the next.
pub proof fn lemma_sweep_next(
    acc: Seq<Vec<Vec<isize>>>,
    cube: Seq<Seq<Seq<isize>>>,
    n: int,
    m: int,
    w: int,
    pass: int,
)
    requires
        swept(acc, cube, n, m, w, pass, n + 1, 1, 1),
        0 <= pass,
    ensures
        swept(acc, cube, n, m, w, pass + 1, 1, 1, 1),
{
}

/// The sums over the blocks of a three-dimensional grid of numbers that
/// start at the first entry, from which the sum over any block is read.
pub struct Acc3d {
    acc: Vec<Vec<Vec<isize>>>,
    source: Ghost<Seq<Seq<Seq<isize>>>>,
}

impl Acc3d {
    /// The grid that the sums were taken of.
    pub closed spec fn grid(&self) -> Seq<Seq<Seq<isize>>> {
        self.source@
    }

    /// The sizes of the grid in the three directions.
    pub closed spec fn sizes(&self) -> (int, int, int) {
        (self.acc@.len() - 1, self.acc@[0]@.len() - 1, self.acc@[0]@[0]@.len() - 1)
    }

    /// The table holds the sum over each block that starts at the first
    /// entry.
    pub closed spec fn wf(&self) -> bool {
        &&& self.acc@.len() >= 1
        &&& self.acc@[0]@.len() >= 1
        &&& self.acc@[0]@[0]@.len() >= 1
        &&& swept(
            self.acc@,
            self.source@,
            self.sizes().0,
            self.sizes().1,
            self.sizes().2,
            3,
            self.sizes().0 + 1,
            1,
            1,
        )
    }

    /// The sums of the grid `v`, of which only the sizes of the first row
    /// and of its first line count.
    pub fn new(v: &[Vec<Vec<isize>>]) -> (table: Self)
        requires
            1 <= v@.len() < usize::MAX,
            1 <= v@[0]@.len() < usize::MAX,
            v@[0]@[0]@.len() < usize::MAX,
            forall|a: int| 0 <= a < v@.len() ==> (#[trigger] v@[a])@.len() >= v@[0]@.len(),
            forall|a: int, b: int|
                0 <= a < v@.len() && 0 <= b < v@[0]@.len() ==> (#[trigger] v@[a]@[b])@.len()
                    >= v@[0]@[0]@.len(),
            cells_fit(
                cube_of(v@),
                v@.len() as int,
                v@[0]@.len() as int,
                v@[0]@[0]@.len() as int,
            ),
        ensures
            table.wf(),
            table.grid() == cube_of(v@),
            table.sizes() == (v@.len() as int, v@[0]@.len() as int, v@[0]@[0]@.len() as int),
    {
        let n = v.len();
        let m = v[0].len();
        let w = v[0][0].len();
        let ghost cube = cube_of(v@);
        let mut acc: Vec<Vec<Vec<isize>>> = Vec::new();
        let mut i: usize = 0;
        while i <= n
            invariant
                i <= n + 1,
                n < usize::MAX,
                m < usize::MAX,
                w < usize::MAX,
                acc@.len() == i,
                forall|a: int| 0 <= a < i ==> (#[trigger] acc@[a])@.len() == m + 1,
                forall|a: int, b: int|
                    0 <= a < i && 0 <= b <= m ==> (#[trigger] acc@[a]@[b])@.len() == w + 1,
                forall|a: int, b: int, c: int|
                    0 <= a < i && 0 <= b <= m && 0 <= c <= w ==> (#[trigger] acc@[a]@[b]@[c])
                        == 0,
            decreases n + 1 - i,
        {
            let mut sheet: Vec<Vec<isize>> = Vec::new();
            let mut j: usize = 0;
            while j <= m
                invariant
                    j <= m + 1,
                    m < usize::MAX,
                    w < usize::MAX,
                    sheet@.len() == j,
                    forall|b: int| 0 <= b < j ==> (#[trigger] sheet@[b])@.len() == w + 1,
                    forall|b: int, c: int|
                        0 <= b < j && 0 <= c <= w ==> (#[trigger] sheet@[b]@[c]) == 0,
                decreases m + 1 - j,
            {
                let line: Vec<isize> = vec![0; w + 1];
                sheet.push(line);
                j += 1;
            }
            acc.push(sheet);
            i += 1;
        }
        let mut pass: usize = 1;
        while pass <= 3
            invariant
                1 <= pass <= 4,
                n == v@.len() < usize::MAX,
                m == v@[0]@.len() < usize::MAX,
                w == v@[0]@[0]@.len() < usize::MAX,
                cube == cube_of(v@),
                forall|a: int| 0 <= a < v@.len() ==> (#[trigger] v@[a])@.len() >= m,
                forall|a: int, b: int|
                    0 <= a < v@.len() && 0 <= b < m ==> (#[trigger] v@[a]@[b])@.len() >= w,
                cells_fit(cube, n as int, m as int, w as int),
                swept(acc@, cube, n as int, m as int, w as int, pass as int, 1, 1, 1),
            decreases 4 - pass,
        {
            let mut i: usize = 1;
            while i <= n
                invariant
                    1 <= pass <= 3,
                    1 <= i <= n + 1,
                    n == v@.len() < usize::MAX,
                    m == v@[0]@.len() < usize::MAX,
                    w == v@[0]@[0]@.len() < usize::MAX,
                    cube == cube_of(v@),
                    forall|a: int| 0 <= a < v@.len() ==> (#[trigger] v@[a])@.len() >= m,
                    forall|a: int, b: int|
                        0 <= a < v@.len() && 0 <= b < m ==> (#[trigger] v@[a]@[b])@.len() >= w,
                    cells_fit(cube, n as int, m as int, w as int),
                    swept(acc@, cube, n as int, m as int, w as int, pass as int, i as int, 1, 1),
                decreases n + 1 - i,
            {
                let mut j: usize = 1;
                while j <= m
                    invariant
                        1 <= pass <= 3,
                        1 <= i <= n,
                        1 <= j <= m + 1,
                        n == v@.len() < usize::MAX,
                        m == v@[0]@.len() < usize::MAX,
                        w == v@[0]@[0]@.len() < usize::MAX,
                        cube == cube_of(v@),
                        forall|a: int| 0 <= a < v@.len() ==> (#[trigger] v@[a])@.len() >= m,
                        forall|a: int, b: int|
                            0 <= a < v@.len() && 0 <= b < m ==> (#[trigger] v@[a]@[b])@.len() >= w,
                        cells_fit(cube, n as int, m as int, w as int),
                        j <= m ==> swept(
                            acc@,
                            cube,
                            n as int,
                            m as int,
                            w as int,
                            pass as int,
                            i as int,
                            j as int,
                            1,
                        ),
                        j == m + 1 ==> swept(
                            acc@,
                            cube,
                            n as int,
                            m as int,
                            w as int,
                            pass as int,
                            i + 1,
                            1,
                            1,
                        ),
                    decreases m + 1 - j,
                {
                    let mut k: usize = 1;
                    while k <= w
                        invariant
                            1 <= pass <= 3,
                            1 <= i <= n,
                            1 <= j <= m,
                            1 <= k <= w + 1,
                            n == v@.len() < usize::MAX,
                            m == v@[0]@.len() < usize::MAX,
                            w == v@[0]@[0]@.len() < usize::MAX,
                            cube == cube_of(v@),
                            forall|a: int| 0 <= a < v@.len() ==> (#[trigger] v@[a])@.len() >= m,
                            forall|a: int, b: int|
                                0 <= a < v@.len() && 0 <= b < m ==> (#[trigger] v@[a]@[b])@.len()
                                    >= w,
                            cells_fit(cube, n as int, m as int, w as int),
                            k <= w ==> swept(
                                acc@,
                                cube,
                                n as int,
                                m as int,
                                w as int,
                                pass as int,
                                i as int,
                                j as int,
                                k as int,
                            ),
                            k == w + 1 && j < m ==> swept(
                                acc@,
                                cube,
                                n as int,
                                m as int,
                                w as int,
                                pass as int,
                                i as int,
                                j + 1,
                                1,
                            ),
                            k == w + 1 && j == m ==> swept(
                                acc@,
                                cube,
                                n as int,
                                m as int,
                                w as int,
                                pass as int,
                                i + 1,
                                1,
                                1,
                            ),
                        decreases w + 1 - k,
                    {
                        let ghost before = acc@;
                        proof {
                            assert(fits(cell(cube, pass as int, i as int, j as int, k as int)));
                            assert(before[i as int]@[j as int]@[k as int] == cell(
                                cube,
                                pass - 1,
                                i as int,
                                j as int,
                                k as int,
                            ));
                            assert(before[i - 1]@[j as int]@[k as int] == cell(
                                cube,
                                pass as int,
                                i - 1,
                                j as int,
                                k as int,
                            ));
                            assert(before[i as int]@[j - 1]@[k as int] == cell(
                                cube,
                                pass as int,
                                i as int,
                                j - 1,
                                k as int,
                            ));
                            assert(before[i as int]@[j as int]@[k - 1] == cell(
                                cube,
                                pass as int,
                                i as int,
                                j as int,
                                k - 1,
                            ));
                            assert(cube[i - 1][j - 1][k - 1] == v@[i - 1]@[j - 1]@[k - 1]);
                            if pass == 1 {
                                assert(line_sum(cube, 0, i as int, j - 1, k - 1) == line_sum(
                                    cube,
                                    0,
                                    i - 1,
                                    j - 1,
                                    k - 1,
                                ) + cube[i - 1][j - 1][k - 1]);
                                assert(line_sum(cube, 0, 0, j - 1, k - 1) == 0);
                            } else if pass == 2 {
                                assert(sheet_sum(cube, 0, i as int, 0, j as int, k - 1)
                                    == sheet_sum(cube, 0, i as int, 0, j - 1, k - 1) + line_sum(
                                    cube,
                                    0,
                                    i as int,
                                    j - 1,
                                    k - 1,
                                ));
                                assert(sheet_sum(cube, 0, i as int, 0, 0, k - 1) == 0);
                            } else {
                                assert(block_sum(cube, 0, i as int, 0, j as int, 0, k as int)
                                    == block_sum(cube, 0, i as int, 0, j as int, 0, k - 1)
                                    + sheet_sum(cube, 0, i as int, 0, j as int, k - 1));
                                assert(block_sum(cube, 0, i as int, 0, j as int, 0, 0) == 0);
                            }
                        }
                        let x = if pass == 1 {
                            acc[i - 1][j][k] + v[i - 1][j - 1][k - 1]
                        } else if pass == 2 {
                            acc[i][j][k] + acc[i][j - 1][k]
                        } else {
                            acc[i][j][k] + acc[i][j][k - 1]
                        };
                        acc[i][j][k] = x;
                        proof {
                            lemma_sweep_step(
                                before,
                                acc@,
                                cube,
                                n as int,
                                m as int,
                                w as int,
                                pass as int,
                                i as int,
                                j as int,
                                k as int,
                            );
                        }
                        k += 1;
                    }
                    j += 1;
                }
                i += 1;
            }
            proof {
                lemma_sweep_next(acc@, cube, n as int, m as int, w as int, pass as int);
            }
            pass += 1;
        }
        Acc3d { acc, source: Ghost(cube) }
    }

    /// Every difference that `fold` forms on the way to the sum over the
    /// block is the value of an `isize`.
    pub open spec fn fold_fits(&self, li: int, ri: int, lj: int, rj: int, lk: int, rk: int) -> bool {
        &&& fits(block_sum(self.grid(), 0, ri, 0, rj, lk, rk))
        &&& fits(block_sum(self.grid(), 0, ri, 0, lj, lk, rk))
        &&& fits(block_sum(self.grid(), 0, li, 0, rj, lk, rk))
        &&& fits(block_sum(self.grid(), 0, li, 0, lj, lk, rk))
        &&& fits(block_sum(self.grid(), 0, ri, lj, rj, lk, rk))
        &&& fits(block_sum(self.grid(), 0, li, lj, rj, lk, rk))
        &&& fits(block_sum(self.grid(), li, ri, lj, rj, lk, rk))
    }

    /// The sum up to `(i, j)` over the layers `lk..rk`.
    fn sum_k(&self, i: usize, j: usize, lk: usize, rk: usize) -> (sum: isize)
        requires
            self.wf(),
            i <= self.sizes().0,
            j <= self.sizes().1,
            lk <= rk <= self.sizes().2,
            fits(block_sum(self.grid(), 0, i as int, 0, j as int, lk as int, rk as int)),
        ensures
            sum == block_sum(self.grid(), 0, i as int, 0, j as int, lk as int, rk as int),
    {
        proof {
            lemma_cell_block(self.source@, i as int, j as int, rk as int);
            lemma_cell_block(self.source@, i as int, j as int, lk as int);
            lemma_block_split(
                self.source@,
                0,
                0,
                i as int,
                0,
                0,
                j as int,
                0,
                lk as int,
                rk as int,
            );
            assert(self.acc@[i as int]@[j as int]@[rk as int] == cell(
                self.source@,
                3,
                i as int,
                j as int,
                rk as int,
            ));
            assert(self.acc@[i as int]@[j as int]@[lk as int] == cell(
                self.source@,
                3,
                i as int,
                j as int,
                lk as int,
            ));
        }
        self.acc[i][j][rk] - self.acc[i][j][lk]
    }

    /// The sum up to `i` over the columns `lj..rj` and the layers `lk..rk`.
    fn sum_jk(&self, i: usize, lj: usize, rj: usize, lk: usize, rk: usize) -> (sum: isize)
        requires
            self.wf(),
            i <= self.sizes().0,
            lj <= rj <= self.sizes().1,
            lk <= rk <= self.sizes().2,
            fits(block_sum(self.grid(), 0, i as int, 0, rj as int, lk as int, rk as int)),
            fits(block_sum(self.grid(), 0, i as int, 0, lj as int, lk as int, rk as int)),
            fits(block_sum(self.grid(), 0, i as int, lj as int, rj as int, lk as int, rk as int)),
        ensures
            sum == block_sum(self.grid(), 0, i as int, lj as int, rj as int, lk as int, rk as int),
    {
        proof {
            lemma_block_split(
                self.source@,
                0,
                0,
                i as int,
                0,
                lj as int,
                rj as int,
                lk as int,
                lk as int,
                rk as int,
            );
        }
        self.sum_k(i, rj, lk, rk) - self.sum_k(i, lj, lk, rk)
    }

    /// The sum of the entries in the rows of `range_i`, the columns of
    /// `range_j` and the layers of `range_k`. A range without an upper end
    /// runs to the size in its direction and one more.
    pub fn fold<R: IndexRange>(&self, range_i: R, range_j: R, range_k: R) -> (sum: isize)
        requires
            self.wf(),
            0 <= range_i.lower() <= range_i.upper(self.sizes().0 + 1) <= self.sizes().0,
            0 <= range_j.lower() <= range_j.upper(self.sizes().1 + 1) <= self.sizes().1,
            0 <= range_k.lower() <= range_k.upper(self.sizes().2 + 1) <= self.sizes().2,
            self.fold_fits(
                range_i.lower(),
                range_i.upper(self.sizes().0 + 1),
                range_j.lower(),
                range_j.upper(self.sizes().1 + 1),
                range_k.lower(),
                range_k.upper(self.sizes().2 + 1),
            ),
        ensures
            sum == block_sum(
                self.grid(),
                range_i.lower(),
                range_i.upper(self.sizes().0 + 1),
                range_j.lower(),
                range_j.upper(self.sizes().1 + 1),
                range_k.lower(),
                range_k.upper(self.sizes().2 + 1),
            ),
    {
        proof {
            assert(self.acc@[0].len() <= usize::MAX);
            assert(self.acc@[0]@[0].len() <= usize::MAX);
        }
        let (li, ri) = range_to_tuple(range_i, self.acc.len());
        let (lj, rj) = range_to_tuple(range_j, self.acc[0].len());
        let (lk, rk) = range_to_tuple(range_k, self.acc[0][0].len());
        proof {
            lemma_block_split(
                self.source@,
                0,
                li as int,
                ri as int,
                lj as int,
                lj as int,
                rj as int,
                lk as int,
                lk as int,
                rk as int,
            );
        }
        self.sum_jk(ri, lj, rj, lk, rk) - self.sum_jk(li, lj, rj, lk, rk)
    }
}

} // verus!
