use crate::graph::forest::{find, is_forest, lemma_compress, lemma_find_is_root, lemma_link, raised};
use crate::traits::Monoid;
use vstd::prelude::*;

verus! {

/// The potential of `x` against the root of its tree: the product of the
/// differences kept along the path from `x` up to the root, that of `x`
/// first. The root itself has the identity.
pub open spec fn potential<T: Monoid>(
    par: Seq<usize>,
    height: Seq<int>,
    bound: int,
    diff: Seq<T::S>,
    x: int,
) -> T::S
    decreases bound - height[x],
    when is_forest(par, height, bound) && 0 <= x < par.len()
{
    if par[x] == x {
        T::e_spec()
    } else {
        T::op_spec(diff[x], potential::<T>(par, height, bound, diff, par[x] as int))
    }
}

/// Pointing a node straight at the root of its tree, and keeping its whole
/// potential as its difference, keeps every potential.
pub proof fn lemma_potential_compress<T: Monoid>(
    par: Seq<usize>,
    height: Seq<int>,
    bound: int,
    diff: Seq<T::S>,
    x: int,
    z: int,
)
    requires
        is_forest(par, height, bound),
        diff.len() == par.len(),
        0 <= x < par.len(),
        0 <= z < par.len(),
        par[x] != x,
    ensures
        potential::<T>(
            par.update(x, find(par, height, bound, x) as usize),
            height,
            bound,
            diff.update(x, potential::<T>(par, height, bound, diff, x)),
            z,
        ) == potential::<T>(par, height, bound, diff, z),
    decreases bound - height[z],
{
    let r = find(par, height, bound, x);
    let par2 = par.update(x, r as usize);
    let diff2 = diff.update(x, potential::<T>(par, height, bound, diff, x));
    lemma_compress(par, height, bound, x, z);
    lemma_find_is_root(par, height, bound, x);
    if z == x {
        assert(par2[r] == r);
        assert(potential::<T>(par2, height, bound, diff2, r) == T::e_spec());
        T::right_identity(potential::<T>(par, height, bound, diff, x));
    } else if par[z] != z {
        lemma_potential_compress::<T>(par, height, bound, diff, x, par[z] as int);
    }
}

/// Hanging the root `b` below the root `a` with the difference `w` puts
/// `w` behind the potential of every node of the tree of `b`, and changes
/// no other potential.
pub proof fn lemma_potential_link<T: Monoid>(
    par: Seq<usize>,
    height: Seq<int>,
    bound: int,
    diff: Seq<T::S>,
    a: int,
    b: int,
    w: T::S,
    z: int,
)
    requires
        is_forest(par, height, bound),
        diff.len() == par.len(),
        0 <= a < par.len(),
        0 <= b < par.len(),
        a != b,
        par[a] == a,
        par[b] == b,
        0 <= z < par.len(),
    ensures
        potential::<T>(
            par.update(b, a as usize),
            raised(height, a, b),
            bound + 1,
            diff.update(b, w),
            z,
        ) == (if find(par, height, bound, z) == b {
            T::op_spec(potential::<T>(par, height, bound, diff, z), w)
        } else {
            potential::<T>(par, height, bound, diff, z)
        }),
    decreases bound - height[z],
{
    let par2 = par.update(b, a as usize);
    let height2 = raised(height, a, b);
    let diff2 = diff.update(b, w);
    lemma_link(par, height, bound, a, b, z);
    lemma_link(par, height, bound, a, b, a);
    if z == b {
        assert(potential::<T>(par2, height2, bound + 1, diff2, a) == T::e_spec());
        T::right_identity(w);
        T::left_identity(w);
    } else if par[z] != z {
        lemma_potential_link::<T>(par, height, bound, diff, a, b, w, par[z] as int);
        lemma_find_is_root(par, height, bound, z);
        T::associative(diff[z], potential::<T>(par, height, bound, diff, par[z] as int), w);
    }
}

/// A forest in which every node keeps a difference to its parent, and
/// every root the identity.
pub open spec fn is_weighted_forest<T: Monoid>(
    par: Seq<usize>,
    height: Seq<int>,
    bound: int,
    diff: Seq<T::S>,
) -> bool {
    &&& is_forest(par, height, bound)
    &&& diff.len() == par.len()
    &&& forall|r: int| 0 <= r < par.len() && #[trigger] par[r] == r ==> diff[r] == T::e_spec()
}

/// In a weighted forest, a node below a root whose parent keeps its whole
/// potential can be pointed straight at the root, with the product of both
/// differences as its own: the roots and the potentials stay, and the node
/// keeps its whole potential.
pub proof fn lemma_weighted_compress<T: Monoid>(
    par: Seq<usize>,
    height: Seq<int>,
    bound: int,
    diff: Seq<T::S>,
    x: int,
)
    requires
        is_weighted_forest::<T>(par, height, bound, diff),
        0 <= x < par.len(),
        par[x] != x,
        diff[par[x] as int] == potential::<T>(par, height, bound, diff, par[x] as int),
    ensures
        T::op_spec(diff[x], diff[par[x] as int]) == potential::<T>(par, height, bound, diff, x),
        is_weighted_forest::<T>(
            par.update(x, find(par, height, bound, x) as usize),
            height,
            bound,
            diff.update(x, T::op_spec(diff[x], diff[par[x] as int])),
        ),
        forall|z: int|
            0 <= z < par.len() ==> #[trigger] find(
                par.update(x, find(par, height, bound, x) as usize),
                height,
                bound,
                z,
            ) == find(par, height, bound, z),
        forall|z: int|
            0 <= z < par.len() ==> #[trigger] potential::<T>(
                par.update(x, find(par, height, bound, x) as usize),
                height,
                bound,
                diff.update(x, T::op_spec(diff[x], diff[par[x] as int])),
                z,
            ) == potential::<T>(par, height, bound, diff, z),
{
    let r = find(par, height, bound, x);
    let par2 = par.update(x, r as usize);
    let diff2 = diff.update(x, T::op_spec(diff[x], diff[par[x] as int]));
    lemma_compress(par, height, bound, x, x);
    lemma_find_is_root(par, height, bound, x);
    assert forall|z: int| 0 <= z < par.len() implies #[trigger] find(par2, height, bound, z)
        == find(par, height, bound, z) by {
        lemma_compress(par, height, bound, x, z);
    }
    assert forall|z: int| 0 <= z < par.len() implies #[trigger] potential::<T>(
        par2,
        height,
        bound,
        diff2,
        z,
    ) == potential::<T>(par, height, bound, diff, z) by {
        lemma_potential_compress::<T>(par, height, bound, diff, x, z);
    }
    assert forall|q: int| 0 <= q < par2.len() && #[trigger] par2[q] == q implies diff2[q]
        == T::e_spec() by {
        assert(par[q] == q);
    }
}

/// In a weighted forest the root `b` can be hung below the root `a` with
/// the difference `w`: the tree of `b` joins that of `a`, `w` is put behind
/// the potential of each of its nodes, and nothing else changes.
pub proof fn lemma_weighted_link<T: Monoid>(
    par: Seq<usize>,
    height: Seq<int>,
    bound: int,
    diff: Seq<T::S>,
    a: int,
    b: int,
    w: T::S,
)
    requires
        is_weighted_forest::<T>(par, height, bound, diff),
        0 <= a < par.len(),
        0 <= b < par.len(),
        a != b,
        par[a] == a,
        par[b] == b,
    ensures
        is_weighted_forest::<T>(
            par.update(b, a as usize),
            raised(height, a, b),
            bound + 1,
            diff.update(b, w),
        ),
        forall|z: int|
            0 <= z < par.len() ==> #[trigger] find(
                par.update(b, a as usize),
                raised(height, a, b),
                bound + 1,
                z,
            ) == (if find(par, height, bound, z) == b {
                a
            } else {
                find(par, height, bound, z)
            }),
        forall|z: int|
            0 <= z < par.len() ==> #[trigger] potential::<T>(
                par.update(b, a as usize),
                raised(height, a, b),
                bound + 1,
                diff.update(b, w),
                z,
            ) == (if find(par, height, bound, z) == b {
                T::op_spec(potential::<T>(par, height, bound, diff, z), w)
            } else {
                potential::<T>(par, height, bound, diff, z)
            }),
{
    let par2 = par.update(b, a as usize);
    let height2 = raised(height, a, b);
    let diff2 = diff.update(b, w);
    lemma_link(par, height, bound, a, b, a);
    assert forall|z: int| 0 <= z < par.len() implies #[trigger] find(par2, height2, bound + 1, z)
        == (if find(par, height, bound, z) == b {
        a
    } else {
        find(par, height, bound, z)
    }) by {
        lemma_link(par, height, bound, a, b, z);
    }
    assert forall|z: int| 0 <= z < par.len() implies #[trigger] potential::<T>(
        par2,
        height2,
        bound + 1,
        diff2,
        z,
    ) == (if find(par, height, bound, z) == b {
        T::op_spec(potential::<T>(par, height, bound, diff, z), w)
    } else {
        potential::<T>(par, height, bound, diff, z)
    }) by {
        lemma_potential_link::<T>(par, height, bound, diff, a, b, w, z);
    }
    assert forall|q: int| 0 <= q < par2.len() && #[trigger] par2[q] == q implies diff2[q]
        == T::e_spec() by {
        assert(par[q] == q);
    }
}

} // verus!
