use vstd::prelude::*;

verus! {

/// The larger of `a` and `b`.
pub open spec fn larger(a: int, b: int) -> int {
    if a >= b {
        a
    } else {
        b
    }
}

/// The entry of the table for the first `i` kinds of items and the weight
/// `j`: 0 for nothing at all, -1 for a weight without items, and otherwise
/// the largest of -1, the entry without the kind `i`, and, where the weight
/// allows one more item of the kind `i`, the entry for the weight less that
/// of the item plus its value. An item without weight adds its value to -1.
pub open spec fn knapsack_entry(vw: Seq<(isize, usize)>, i: int, j: int) -> int
    decreases i, j,
{
    if i <= 0 {
        if j == 0 {
            0
        } else {
            -1
        }
    } else {
        let (vi, wi) = vw[i - 1];
        if j < wi {
            larger(-1, knapsack_entry(vw, i - 1, j))
        } else if wi == 0 {
            larger(-1, larger(knapsack_entry(vw, i - 1, j), -1 + vi))
        } else {
            larger(-1, larger(knapsack_entry(vw, i - 1, j), knapsack_entry(vw, i, j - wi) + vi))
        }
    }
}

/// The largest of the entries of the row `i` for the weights up to `j`.
pub open spec fn knapsack_best(vw: Seq<(isize, usize)>, i: int, j: int) -> int
    decreases j,
{
    if j <= 0 {
        knapsack_entry(vw, i, 0)
    } else {
        larger(knapsack_best(vw, i, j - 1), knapsack_entry(vw, i, j))
    }
}

/// Every sum that the table takes is the value of an `isize`.
pub open spec fn knapsack_fits(vw: Seq<(isize, usize)>, w: int) -> bool {
    &&& forall|i: int, j: int|
        1 <= i <= vw.len() && 0 <= j <= w && j >= vw[i - 1].1 > 0 ==> isize::MIN <= (
        #[trigger] knapsack_entry(vw, i, j - vw[i - 1].1)) + vw[i - 1].0 <= isize::MAX
    &&& forall|i: int| 1 <= i <= vw.len() && (#[trigger] vw[i - 1]).1 == 0 ==> vw[i - 1].0 > isize::MIN
}

/// The knapsack without a limit on the number of items of a kind: the best
/// entry of the last row of the table for the items `vw`, each a value and
/// a weight, and the weights up to `w`.
pub fn knapsack(vw: &[(isize, usize)], w: usize) -> (best: isize)
    requires
        w < usize::MAX,
        vw@.len() < usize::MAX,
        knapsack_fits(vw@, w as int),
    ensures
        best == knapsack_best(vw@, vw@.len() as int, w as int),
{
    let n = vw.len();
    let mut dp: Vec<Vec<isize>> = Vec::new();
    let mut i: usize = 0;
    while i <= n
        invariant
            i <= n + 1,
            n < usize::MAX,
            w < usize::MAX,
            dp@.len() == i,
            forall|a: int| 0 <= a < i ==> (#[trigger] dp@[a])@.len() == w + 1,
            forall|a: int, b: int| 0 <= a < i && 0 <= b <= w ==> (#[trigger] dp@[a]@[b]) == -1,
        decreases n + 1 - i,
    {
        let row: Vec<isize> = vec![-1; w + 1];
        dp.push(row);
        i += 1;
    }
    dp[0][0] = 0;
    let mut i: usize = 1;
    while i <= n
        invariant
            1 <= i <= n + 1,
            n == vw@.len() < usize::MAX,
            w < usize::MAX,
            knapsack_fits(vw@, w as int),
            dp@.len() == n + 1,
            forall|a: int| 0 <= a <= n ==> (#[trigger] dp@[a])@.len() == w + 1,
            forall|a: int, b: int|
                0 <= a < i && 0 <= b <= w ==> (#[trigger] dp@[a]@[b]) == knapsack_entry(vw@, a, b),
            forall|a: int, b: int| i <= a <= n && 0 <= b <= w ==> (#[trigger] dp@[a]@[b]) == -1,
        decreases n + 1 - i,
    {
        let mut j: usize = 0;
        while j <= w
            invariant
                1 <= i <= n,
                j <= w + 1,
                n == vw@.len() < usize::MAX,
                w < usize::MAX,
                knapsack_fits(vw@, w as int),
                dp@.len() == n + 1,
                forall|a: int| 0 <= a <= n ==> (#[trigger] dp@[a])@.len() == w + 1,
                forall|a: int, b: int|
                    0 <= a < i && 0 <= b <= w ==> (#[trigger] dp@[a]@[b]) == knapsack_entry(
                        vw@,
                        a,
                        b,
                    ),
                forall|b: int|
                    0 <= b < j ==> (#[trigger] dp@[i as int]@[b]) == knapsack_entry(
                        vw@,
                        i as int,
                        b,
                    ),
                forall|b: int| j <= b <= w ==> (#[trigger] dp@[i as int]@[b]) == -1,
                forall|a: int, b: int| i < a <= n && 0 <= b <= w ==> (#[trigger] dp@[a]@[b]) == -1,
            decreases w + 1 - j,
        {
            let (vi, wi) = vw[i - 1];
            proof {
                assert(dp@[i - 1]@[j as int] == knapsack_entry(vw@, i - 1, j as int));
                assert(vw@[i - 1] == (vi, wi));
                if j >= wi {
                    if wi > 0 {
                        assert(isize::MIN <= knapsack_entry(vw@, i as int, j - wi) + vi
                            <= isize::MAX);
                        assert(dp@[i as int]@[j - wi] == knapsack_entry(vw@, i as int, j - wi));
                    } else {
                        assert(dp@[i as int]@[j as int] == -1);
                    }
                }
            }
            let x = if j < wi {
                larger_of(dp[i][j], dp[i - 1][j])
            } else {
                larger_of(dp[i][j], larger_of(dp[i - 1][j], dp[i][j - wi] + vi))
            };
            dp[i][j] = x;
            j += 1;
        }
        i += 1;
    }
    let mut best: isize = dp[n][0];
    let mut j: usize = 1;
    while j <= w
        invariant
            1 <= j <= w + 1,
            w < usize::MAX,
            dp@.len() == n + 1,
            dp@[n as int]@.len() == w + 1,
            forall|b: int|
                0 <= b <= w ==> (#[trigger] dp@[n as int]@[b]) == knapsack_entry(vw@, n as int, b),
            best == knapsack_best(vw@, n as int, j - 1),
        decreases w + 1 - j,
    {
        best = larger_of(best, dp[n][j]);
        j += 1;
    }
    best
}

/// The larger of `a` and `b`.
fn larger_of(a: isize, b: isize) -> (m: isize)
    ensures
        m == larger(a as int, b as int),
{
    if a >= b {
        a
    } else {
        b
    }
}

/// The entry of the handing-on table for the row `i` and the weight `j`,
/// as it stands when the walk over the table comes to it: what the row
/// starts with, and, where the item of the row has a weight and fits, the
/// entry for the weight less that of the item plus its value, if that is
/// larger. A row starts with what the row before hands on, and -1 at
/// least; the first row starts with 0 for the weight 0 and with -1.
pub open spec fn handed_entry(vw: Seq<(isize, usize)>, i: int, j: int) -> int
    decreases i, j,
{
    let start = if i <= 0 {
        if j == 0 {
            0
        } else {
            -1
        }
    } else {
        larger(-1, handed_entry(vw, i - 1, j))
    };
    if 0 <= i < vw.len() && 0 < vw[i].1 <= j {
        larger(start, handed_entry(vw, i, j - vw[i].1) + vw[i].0)
    } else {
        start
    }
}

/// What the row `i` of the handing-on table starts with at the weight `j`.
pub open spec fn handed_start(vw: Seq<(isize, usize)>, i: int, j: int) -> int {
    if i <= 0 {
        if j == 0 {
            0
        } else {
            -1
        }
    } else {
        larger(-1, handed_entry(vw, i - 1, j))
    }
}

/// The largest of what the row `i` starts with for the weights up to `j`.
pub open spec fn handed_best(vw: Seq<(isize, usize)>, i: int, j: int) -> int
    decreases j,
{
    if j <= 0 {
        handed_start(vw, i, 0)
    } else {
        larger(handed_best(vw, i, j - 1), handed_start(vw, i, j))
    }
}

/// Every sum that the handing-on table takes is the value of an `isize`.
pub open spec fn handed_fits(vw: Seq<(isize, usize)>, w: int) -> bool {
    forall|i: int, j: int|
        0 <= i < vw.len() && 0 <= j && j + vw[i].1 <= w ==> isize::MIN <= (
        #[trigger] handed_entry(vw, i, j)) + vw[i].0 <= isize::MAX
}

/// The knapsack without a limit on the number of items of a kind, with a
/// table in which each entry hands its value on: the best of what the last
/// row starts with, for the items `vw`, each a value and a weight, and the
/// weights up to `w`.
pub fn kubaru(vw: &[(isize, usize)], w: usize) -> (best: isize)
    requires
        w < usize::MAX,
        vw@.len() < usize::MAX,
        handed_fits(vw@, w as int),
    ensures
        best == handed_best(vw@, vw@.len() as int, w as int),
{
    let n = vw.len();
    let mut dp: Vec<Vec<isize>> = Vec::new();
    let mut i: usize = 0;
    while i <= n
        invariant
            i <= n + 1,
            n < usize::MAX,
            w < usize::MAX,
            dp@.len() == i,
            forall|a: int| 0 <= a < i ==> (#[trigger] dp@[a])@.len() == w + 1,
            forall|a: int, b: int| 0 <= a < i && 0 <= b <= w ==> (#[trigger] dp@[a]@[b]) == -1,
        decreases n + 1 - i,
    {
        let row: Vec<isize> = vec![-1; w + 1];
        dp.push(row);
        i += 1;
    }
    dp[0][0] = 0;
    let mut i: usize = 0;
    while i < n
        invariant
            i <= n,
            n == vw@.len() < usize::MAX,
            w < usize::MAX,
            handed_fits(vw@, w as int),
            dp@.len() == n + 1,
            forall|a: int| 0 <= a <= n ==> (#[trigger] dp@[a])@.len() == w + 1,
            forall|b: int|
                0 <= b <= w ==> (#[trigger] dp@[i as int]@[b]) == handed_start(vw@, i as int, b),
            forall|a: int, b: int| i < a <= n && 0 <= b <= w ==> (#[trigger] dp@[a]@[b]) == -1,
        decreases n - i,
    {
        let mut j: usize = 0;
        while j <= w
            invariant
                i < n,
                j <= w + 1,
                n == vw@.len() < usize::MAX,
                w < usize::MAX,
                handed_fits(vw@, w as int),
                dp@.len() == n + 1,
                forall|a: int| 0 <= a <= n ==> (#[trigger] dp@[a])@.len() == w + 1,
                forall|b: int|
                    j <= b <= w ==> (#[trigger] dp@[i as int]@[b]) == (if 0 < vw@[i as int].1 <= b
                        && b - vw@[i as int].1 < j {
                        handed_entry(vw@, i as int, b)
                    } else {
                        handed_start(vw@, i as int, b)
                    }),
                forall|b: int|
                    0 <= b < j ==> (#[trigger] dp@[i + 1]@[b]) == handed_start(vw@, i + 1, b),
                forall|b: int| j <= b <= w ==> (#[trigger] dp@[i + 1]@[b]) == -1,
                forall|a: int, b: int|
                    i + 1 < a <= n && 0 <= b <= w ==> (#[trigger] dp@[a]@[b]) == -1,
            decreases w + 1 - j,
        {
            let (vi, wi) = vw[i];
            proof {
                assert(vw@[i as int] == (vi, wi));
                assert(dp@[i as int]@[j as int] == handed_entry(vw@, i as int, j as int));
            }
            let x = larger_of(dp[i + 1][j], dp[i][j]);
            dp[i + 1][j] = x;
            if wi <= w - j {
                let nj = j + wi;
                proof {
                    assert(isize::MIN <= handed_entry(vw@, i as int, j as int) + vi <= isize::MAX);
                    assert(dp@[i as int]@[nj as int] == handed_start(vw@, i as int, nj as int)
                        || wi == 0);
                }
                let y = larger_of(dp[i][nj], dp[i][j] + vi);
                dp[i][nj] = y;
            }
            j += 1;
        }
        i += 1;
    }
    let mut best: isize = dp[n][0];
    let mut j: usize = 1;
    while j <= w
        invariant
            1 <= j <= w + 1,
            w < usize::MAX,
            dp@.len() == n + 1,
            dp@[n as int]@.len() == w + 1,
            forall|b: int|
                0 <= b <= w ==> (#[trigger] dp@[n as int]@[b]) == handed_start(vw@, n as int, b),
            best == handed_best(vw@, n as int, j - 1),
        decreases w + 1 - j,
    {
        best = larger_of(best, dp[n][j]);
        j += 1;
    }
    best
}

} // verus!
