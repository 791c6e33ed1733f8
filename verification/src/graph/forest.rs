use vstd::prelude::*;

verus! {

/// `par` is a forest of parent pointers: each node points into the range,
/// and every node that is not its own parent lies lower than its parent by
/// the heights `height`, which are at most `bound`.
pub open spec fn is_forest(par: Seq<usize>, height: Seq<int>, bound: int) -> bool {
    &&& height.len() == par.len()
    &&& forall|x: int|
        0 <= x < par.len() ==> {
            &&& 0 <= (#[trigger] par[x]) < par.len()
            &&& 0 <= height[x] <= bound
            &&& height[par[x] as int] <= bound
            &&& par[x] != x ==> height[par[x] as int] > height[x]
        }
}

/// The root of the tree that holds `x`: the node reached from `x` by
/// following the parent pointers.
pub open spec fn find(par: Seq<usize>, height: Seq<int>, bound: int, x: int) -> int
    decreases bound - height[x],
    when is_forest(par, height, bound) && 0 <= x < par.len()
{
    if par[x] == x {
        x
    } else {
        find(par, height, bound, par[x] as int)
    }
}

/// The root of a tree is a node that is its own parent, and lies at least
/// as high as every node of the tree.
pub proof fn lemma_find_is_root(par: Seq<usize>, height: Seq<int>, bound: int, x: int)
    requires
        is_forest(par, height, bound),
        0 <= x < par.len(),
    ensures
        0 <= find(par, height, bound, x) < par.len(),
        par[find(par, height, bound, x)] == find(par, height, bound, x),
        find(par, height, bound, find(par, height, bound, x)) == find(par, height, bound, x),
        height[find(par, height, bound, x)] >= height[x],
        par[x] != x ==> height[find(par, height, bound, x)] > height[x],
        find(par, height, bound, par[x] as int) == find(par, height, bound, x),
    decreases bound - height[x],
{
    if par[x] != x {
        lemma_find_is_root(par, height, bound, par[x] as int);
    }
}

/// Pointing a node straight at the root of its tree keeps the forest and
/// every root.
pub proof fn lemma_compress(par: Seq<usize>, height: Seq<int>, bound: int, x: int, z: int)
    requires
        is_forest(par, height, bound),
        0 <= x < par.len(),
        0 <= z < par.len(),
    ensures
        is_forest(par.update(x, find(par, height, bound, x) as usize), height, bound),
        find(par.update(x, find(par, height, bound, x) as usize), height, bound, z) == find(
            par,
            height,
            bound,
            z,
        ),
    decreases bound - height[z],
{
    let r = find(par, height, bound, x);
    let par2 = par.update(x, r as usize);
    lemma_find_is_root(par, height, bound, x);
    assert(is_forest(par2, height, bound)) by {
        assert forall|y: int| 0 <= y < par2.len() implies {
            &&& 0 <= (#[trigger] par2[y]) < par2.len()
            &&& 0 <= height[y] <= bound
            &&& height[par2[y] as int] <= bound
            &&& par2[y] != y ==> height[par2[y] as int] > height[y]
        } by {
            assert(0 <= par[y] < par.len());
            assert(0 <= par[r] < par.len());
        }
    }
    if par[z] != z {
        lemma_compress(par, height, bound, x, par[z] as int);
        lemma_find_is_root(par, height, bound, z);
        if z == x {
            lemma_compress(par, height, bound, x, r);
        }
    }
}

/// Hanging the root `b` below the root `a` keeps the forest, with `a`
/// raised above `b`; the nodes of the tree of `b` get the root `a`, and no
/// other root changes.
pub proof fn lemma_link(par: Seq<usize>, height: Seq<int>, bound: int, a: int, b: int, z: int)
    requires
        is_forest(par, height, bound),
        0 <= a < par.len(),
        0 <= b < par.len(),
        a != b,
        par[a] == a,
        par[b] == b,
        0 <= z < par.len(),
    ensures
        is_forest(par.update(b, a as usize), raised(height, a, b), bound + 1),
        find(par.update(b, a as usize), raised(height, a, b), bound + 1, z) == (if find(
            par,
            height,
            bound,
            z,
        ) == b {
            a
        } else {
            find(par, height, bound, z)
        }),
    decreases bound - height[z],
{
    let par2 = par.update(b, a as usize);
    let height2 = raised(height, a, b);
    assert(is_forest(par2, height2, bound + 1)) by {
        assert forall|y: int| 0 <= y < par2.len() implies {
            &&& 0 <= (#[trigger] par2[y]) < par2.len()
            &&& 0 <= height2[y] <= bound + 1
            &&& height2[par2[y] as int] <= bound + 1
            &&& par2[y] != y ==> height2[par2[y] as int] > height2[y]
        } by {
            assert(0 <= par[y] < par.len());
            assert(0 <= par[a] < par.len());
            assert(0 <= par[b] < par.len());
        }
    }
    if z == b {
        assert(find(par2, height2, bound + 1, a) == a);
    } else if par[z] != z {
        lemma_link(par, height, bound, a, b, par[z] as int);
    }
}

/// The heights after the root `b` has been hung below the root `a`.
pub open spec fn raised(height: Seq<int>, a: int, b: int) -> Seq<int> {
    if height[a] > height[b] {
        height
    } else {
        height.update(a, height[b] + 1)
    }
}

/// The nodes of `0..n` whose root is `r`.
pub open spec fn class(par: Seq<usize>, height: Seq<int>, bound: int, r: int) -> Set<int> {
    Set::new(|z: int| 0 <= z < par.len() && find(par, height, bound, z) == r)
}

/// A set of numbers below `n` is finite and has at most `n` elements.
pub proof fn lemma_bounded_set(s: Set<int>, n: int)
    requires
        n >= 0,
        forall|z: int| s.contains(z) ==> 0 <= z < n,
    ensures
        s.finite(),
        s.len() <= n,
{
    vstd::set_lib::lemma_int_range(0, n);
    let range = vstd::set_lib::set_int_range(0, n);
    assert(s.subset_of(range));
    vstd::set_lib::lemma_len_subset(s, range);
}

/// Each root holds the size of its class.
pub open spec fn sizes_kept(par: Seq<usize>, height: Seq<int>, bound: int, size: Seq<usize>) -> bool {
    &&& size.len() == par.len()
    &&& forall|r: int|
        0 <= r < par.len() && par[r] == r ==> #[trigger] size[r] == class(par, height, bound, r).len()
}

/// Pointing a node straight at the root of its tree keeps the forest, every
/// root and the sizes of the classes.
pub proof fn lemma_compress_all(
    par: Seq<usize>,
    height: Seq<int>,
    bound: int,
    size: Seq<usize>,
    x: int,
)
    requires
        is_forest(par, height, bound),
        sizes_kept(par, height, bound, size),
        0 <= x < par.len(),
    ensures
        is_forest(par.update(x, find(par, height, bound, x) as usize), height, bound),
        sizes_kept(par.update(x, find(par, height, bound, x) as usize), height, bound, size),
        forall|z: int|
            0 <= z < par.len() ==> #[trigger] find(
                par.update(x, find(par, height, bound, x) as usize),
                height,
                bound,
                z,
            ) == find(par, height, bound, z),
{
    let par2 = par.update(x, find(par, height, bound, x) as usize);
    lemma_compress(par, height, bound, x, x);
    lemma_find_is_root(par, height, bound, x);
    assert forall|z: int| 0 <= z < par.len() implies #[trigger] find(par2, height, bound, z)
        == find(par, height, bound, z) by {
        lemma_compress(par, height, bound, x, z);
    }
    assert forall|r: int| 0 <= r < par2.len() && par2[r] == r implies #[trigger] size[r] == class(
        par2,
        height,
        bound,
        r,
    ).len() by {
        assert(par[r] == r);
        assert(class(par2, height, bound, r) =~= class(par, height, bound, r));
    }
}

/// Hanging the root `b` below the root `a`, and adding the size kept at
/// `b` to that kept at `a`, keeps the forest and the sizes of the classes;
/// the class of `b` joins that of `a`, and no other class changes.
pub proof fn lemma_link_all(
    par: Seq<usize>,
    height: Seq<int>,
    bound: int,
    size: Seq<usize>,
    a: int,
    b: int,
)
    requires
        is_forest(par, height, bound),
        sizes_kept(par, height, bound, size),
        par.len() <= usize::MAX,
        0 <= a < par.len(),
        0 <= b < par.len(),
        a != b,
        par[a] == a,
        par[b] == b,
    ensures
        size[a] + size[b] <= par.len(),
        is_forest(par.update(b, a as usize), raised(height, a, b), bound + 1),
        sizes_kept(
            par.update(b, a as usize),
            raised(height, a, b),
            bound + 1,
            size.update(a, (size[a] + size[b]) as usize),
        ),
        forall|z: int|
            0 <= z < par.len() ==> #[trigger] find(
                par.update(b, a as usize),
                raised(height, a, b),
                bound + 1,
                z,
            ) == (if find(par, height, bound, z) == b {
                a
            } else {
                find(par, height, bound, z)
            }),
{
    let par2 = par.update(b, a as usize);
    let height2 = raised(height, a, b);
    let size2 = size.update(a, (size[a] + size[b]) as usize);
    lemma_link(par, height, bound, a, b, a);
    assert forall|z: int| 0 <= z < par.len() implies #[trigger] find(par2, height2, bound + 1, z)
        == (if find(par, height, bound, z) == b {
        a
    } else {
        find(par, height, bound, z)
    }) by {
        lemma_link(par, height, bound, a, b, z);
    }
    let ca = class(par, height, bound, a);
    let cb = class(par, height, bound, b);
    lemma_bounded_set(ca, par.len() as int);
    lemma_bounded_set(cb, par.len() as int);
    lemma_bounded_set(ca + cb, par.len() as int);
    assert(ca.disjoint(cb));
    vstd::set_lib::lemma_set_disjoint_lens(ca, cb);
    assert(size[a] == ca.len());
    assert(size[b] == cb.len());
    assert forall|r: int| 0 <= r < par2.len() && par2[r] == r implies #[trigger] size2[r] == class(
        par2,
        height2,
        bound + 1,
        r,
    ).len() by {
        assert(par[r] == r);
        if r == a {
            assert(class(par2, height2, bound + 1, r) =~= ca + cb);
        } else {
            assert(class(par2, height2, bound + 1, r) =~= class(par, height, bound, r));
        }
    }
}

} // verus!
