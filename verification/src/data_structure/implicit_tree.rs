use crate::algebra::{lemma_product_last, lemma_product_one, lemma_product_split, lemma_product_identities, product};
use crate::traits::Monoid;
use vstd::prelude::*;

verus! {

/// `n` is one of 1, 2, 4, 8, ...
pub open spec fn is_power_of_two(n: int) -> bool
    decreases n,
{
    n == 1 || (n > 1 && n % 2 == 0 && is_power_of_two(n / 2))
}

/// Node `i` holds the product of its two children.
pub open spec fn balanced_at<T: Monoid>(nodes: Seq<T::S>, i: int) -> bool {
    nodes[i] == T::op_spec(nodes[2 * i], nodes[2 * i + 1])
}

/// `nodes` is a complete binary tree with `size` leaves, stored with the
/// root at index 1 and the children of `i` at `2 * i` and `2 * i + 1`, in
/// which every internal node holds the product of its two children.
pub open spec fn balanced<T: Monoid>(nodes: Seq<T::S>, size: int) -> bool {
    &&& size >= 1
    &&& nodes.len() == 2 * size
    &&& forall|i: int| 1 <= i < size ==> #[trigger] balanced_at::<T>(nodes, i)
}

/// Index of the leftmost leaf below node `i`.
pub open spec fn first_leaf(i: int, size: int) -> int
    decreases
            (if i < size {
                size - i
            } else {
                0
            }),
{
    if 1 <= i < size {
        first_leaf(2 * i, size)
    } else {
        i
    }
}

/// One past the index of the rightmost leaf below node `i`.
pub open spec fn end_leaf(i: int, size: int) -> int
    decreases
            (if i < size {
                size - i
            } else {
                0
            }),
{
    if 1 <= i < size {
        end_leaf(2 * i + 1, size)
    } else {
        i + 1
    }
}

/// The leaves below a node form a non-empty range of the leaf level, made
/// of the leaves below its left child followed by those below its right
/// child.
pub proof fn lemma_leaf_range(i: int, size: int)
    requires
        is_power_of_two(size),
        1 <= i < 2 * size,
    ensures
        size <= first_leaf(i, size) < end_leaf(i, size) <= 2 * size,
        i < size ==> first_leaf(i, size) == first_leaf(2 * i, size),
        i < size ==> end_leaf(i, size) == end_leaf(2 * i + 1, size),
        i < size ==> end_leaf(2 * i, size) == first_leaf(2 * i + 1, size),
    decreases 2 * size - i,
{
    if i < size {
        lemma_leaf_range(2 * i, size);
        lemma_leaf_range(2 * i + 1, size);
        lemma_adjacent(2 * i, size);
    }
}

/// The leaves below `x + 1` start where the leaves below `x` end, unless
/// `x` is the last node of its level.
pub proof fn lemma_adjacent(x: int, size: int)
    requires
        is_power_of_two(size),
        1 <= x < 2 * size,
        x >= size || !is_power_of_two(x + 1),
    ensures
        first_leaf(x + 1, size) == end_leaf(x, size),
    decreases 2 * size - x,
{
    if x < size {
        assert(x + 1 < size);
        assert(is_power_of_two(2 * x + 2) == is_power_of_two(x + 1));
        lemma_adjacent(2 * x + 1, size);
    }
}

/// In a balanced tree a product over the children `[2a, 2b)` equals the
/// product over their parents `[a, b)`.
pub proof fn lemma_pairs<T: Monoid>(nodes: Seq<T::S>, size: int, a: int, b: int)
    requires
        balanced::<T>(nodes, size),
        1 <= a <= b <= size,
    ensures
        product::<T>(nodes.subrange(2 * a, 2 * b)) == product::<T>(nodes.subrange(a, b)),
    decreases b - a,
{
    if a < b {
        lemma_pairs::<T>(nodes, size, a, b - 1);
        assert(balanced_at::<T>(nodes, b - 1));
        lemma_product_last::<T>(nodes, a, b);
        lemma_product_last::<T>(nodes, 2 * a, 2 * b);
        lemma_product_last::<T>(nodes, 2 * a, 2 * b - 1);
        T::associative(
            product::<T>(nodes.subrange(2 * a, 2 * b - 2)),
            nodes[2 * b - 2],
            nodes[2 * b - 1],
        );
    } else {
        assert(nodes.subrange(2 * a, 2 * b) =~= nodes.subrange(a, b));
    }
}

/// In a balanced tree every node holds the product of the leaves below it.
pub proof fn lemma_subtree<T: Monoid>(nodes: Seq<T::S>, size: int, i: int)
    requires
        balanced::<T>(nodes, size),
        is_power_of_two(size),
        1 <= i < 2 * size,
    ensures
        size <= first_leaf(i, size) < end_leaf(i, size) <= 2 * size,
        nodes[i] == product::<T>(nodes.subrange(first_leaf(i, size), end_leaf(i, size))),
    decreases 2 * size - i,
{
    lemma_leaf_range(i, size);
    if i < size {
        lemma_subtree::<T>(nodes, size, 2 * i);
        lemma_subtree::<T>(nodes, size, 2 * i + 1);
        lemma_adjacent(2 * i, size);
        assert(balanced_at::<T>(nodes, i));
        lemma_product_split::<T>(
            nodes,
            first_leaf(i, size),
            end_leaf(2 * i, size),
            end_leaf(i, size),
        );
    } else {
        assert(nodes.subrange(i, i + 1) =~= seq![nodes[i]]);
        lemma_product_one::<T>(nodes[i]);
    }
}

/// In a balanced tree a node whose leaves all hold the identity holds the
/// identity.
pub proof fn lemma_subtree_identity<T: Monoid>(nodes: Seq<T::S>, size: int, i: int, from: int)
    requires
        balanced::<T>(nodes, size),
        is_power_of_two(size),
        1 <= i < 2 * size,
        from <= first_leaf(i, size),
        forall|k: int| from <= k < 2 * size ==> nodes[k] == T::e_spec(),
    ensures
        nodes[i] == T::e_spec(),
{
    lemma_subtree::<T>(nodes, size, i);
    lemma_product_identities::<T>(nodes.subrange(first_leaf(i, size), end_leaf(i, size)));
}

} // verus!

verus! {

/// Node `x` is `q` itself or one of its ancestors.
pub open spec fn is_descendant(q: int, x: int) -> bool
    decreases q,
{
    q == x || (q > x && q > 0 && is_descendant(q / 2, x))
}

/// Node `x` is a proper ancestor of node `q`.
pub open spec fn is_below(q: int, x: int) -> bool {
    1 <= x < q && is_descendant(q / 2, x)
}

/// Every internal node is balanced, except possibly the proper ancestors
/// of `a` and of `b`.
pub open spec fn balanced_except<T: Monoid>(nodes: Seq<T::S>, size: int, a: int, b: int) -> bool {
    &&& size >= 1
    &&& nodes.len() == 2 * size
    &&& forall|i: int|
        1 <= i < size ==> #[trigger] balanced_at::<T>(nodes, i) || is_below(a, i) || is_below(b, i)
}

/// Recomputing the parent of `a` leaves only the proper ancestors of that
/// parent unbalanced.
pub proof fn lemma_recompute_parent<T: Monoid>(nodes: Seq<T::S>, size: int, a: int, b: int)
    requires
        balanced_except::<T>(nodes, size, a, b),
        2 <= a < 2 * size,
    ensures
        balanced_except::<T>(
            nodes.update(a / 2, T::op_spec(nodes[2 * (a / 2)], nodes[2 * (a / 2) + 1])),
            size,
            a / 2,
            b,
        ),
{
    let p = a / 2;
    let after = nodes.update(p, T::op_spec(nodes[2 * p], nodes[2 * p + 1]));
    assert forall|i: int| 1 <= i < size implies #[trigger] balanced_at::<T>(after, i) || is_below(
        p,
        i,
    ) || is_below(b, i) by {
        assert(balanced_at::<T>(nodes, i) || is_below(a, i) || is_below(b, i));
        if i == p {
            assert(balanced_at::<T>(after, i));
        } else if is_below(a, i) {
            assert(is_below(p, i));
        } else if is_below(b, i) {
        } else if 2 * i == p || 2 * i + 1 == p {
            assert(i == p / 2);
            assert(is_descendant(p / 2, i));
            assert(is_below(p, i));
        } else {
            assert(balanced_at::<T>(after, i));
        }
    }
}

} // verus!

verus! {

/// Between a power of two and the next one there is no other.
pub proof fn lemma_power_of_two_gap(a: int, b: int)
    requires
        is_power_of_two(a),
        is_power_of_two(b),
        a < b,
    ensures
        2 * a <= b,
    decreases b,
{
    if a > 1 {
        lemma_power_of_two_gap(a / 2, b / 2);
    }
}

/// The last node of a level ends with the last leaf.
pub proof fn lemma_last_of_level(x: int, size: int)
    requires
        is_power_of_two(size),
        1 <= x < 2 * size,
        is_power_of_two(x + 1),
    ensures
        end_leaf(x, size) == 2 * size,
    decreases 2 * size - x,
{
    if x < size {
        assert(is_power_of_two(2 * x + 2) == is_power_of_two(x + 1));
        lemma_last_of_level(2 * x + 1, size);
    } else {
        assert(is_power_of_two(2 * size) == is_power_of_two(size));
        if x + 1 < 2 * size {
            lemma_power_of_two_gap(x + 1, 2 * size);
            if size < x + 1 {
                lemma_power_of_two_gap(size, x + 1);
            }
        }
    }
}

/// The first node of a level starts with the first leaf.
pub proof fn lemma_first_of_level(x: int, size: int)
    requires
        is_power_of_two(size),
        1 <= x < 2 * size,
        is_power_of_two(x),
    ensures
        first_leaf(x, size) == size,
    decreases 2 * size - x,
{
    if x < size {
        assert(is_power_of_two(2 * x) == is_power_of_two(x));
        lemma_first_of_level(2 * x, size);
    } else if size < x {
        lemma_power_of_two_gap(size, x);
    }
}

/// Extending a product that ends where node `i` starts by the value of
/// node `i` gives the product up to where node `i` ends.
pub proof fn lemma_absorb_right<T: Monoid>(nodes: Seq<T::S>, size: int, from: int, i: int)
    requires
        balanced::<T>(nodes, size),
        is_power_of_two(size),
        1 <= i < 2 * size,
        0 <= from <= first_leaf(i, size),
    ensures
        T::op_spec(product::<T>(nodes.subrange(from, first_leaf(i, size))), nodes[i]) == product::<T>(
            nodes.subrange(from, end_leaf(i, size)),
        ),
{
    lemma_subtree::<T>(nodes, size, i);
    lemma_product_split::<T>(nodes, from, first_leaf(i, size), end_leaf(i, size));
}

/// Extending a product that starts where node `i` ends by the value of
/// node `i` gives the product from where node `i` starts.
pub proof fn lemma_absorb_left<T: Monoid>(nodes: Seq<T::S>, size: int, i: int, to: int)
    requires
        balanced::<T>(nodes, size),
        is_power_of_two(size),
        1 <= i < 2 * size,
        end_leaf(i, size) <= to <= 2 * size,
    ensures
        T::op_spec(nodes[i], product::<T>(nodes.subrange(end_leaf(i, size), to))) == product::<T>(
            nodes.subrange(first_leaf(i, size), to),
        ),
{
    lemma_subtree::<T>(nodes, size, i);
    lemma_product_split::<T>(nodes, first_leaf(i, size), end_leaf(i, size), to);
}

/// `x & (x - 1) == 0` tells the powers of two from the other positive
/// numbers.
proof fn lemma_power_of_two_bits(x: u64)
    requires
        x >= 1,
    ensures
        (x & ((x - 1) as u64) == 0) == is_power_of_two(x as int),
    decreases x,
{
    if x > 1 {
        let h: u64 = x / 2;
        assert((x & ((x - 1) as u64) == 0) == (x % 2 == 0 && ((x / 2) & (((x / 2) - 1) as u64)
            == 0))) by (bit_vector)
            requires
                x > 1,
        ;
        lemma_power_of_two_bits(h);
    } else {
        assert(1u64 & 0u64 == 0) by (bit_vector);
    }
}

/// Whether `x` is a power of two.
pub fn is_pow2(x: usize) -> (b: bool)
    requires
        x >= 1,
    ensures
        b == is_power_of_two(x as int),
{
    let y: u64 = x as u64;
    proof {
        lemma_power_of_two_bits(y);
    }
    y & (y - 1) == 0
}

} // verus!

verus! {

/// `x` with its factors of two taken out: the node reached from `x` by
/// going up as long as the node is a left child.
pub open spec fn odd_part(x: int) -> int
    decreases x,
{
    if x > 0 && x % 2 == 0 {
        odd_part(x / 2)
    } else {
        x
    }
}

/// The node reached from `x` by going up as long as the node is a right
/// child.
pub open spec fn left_turn(x: int) -> int
    decreases x,
{
    if x > 1 && x % 2 == 1 {
        left_turn(x / 2)
    } else {
        x
    }
}

/// `x` with its factors of two taken out.
pub fn odd_part_of(x: usize) -> (r: usize)
    ensures
        r == odd_part(x as int),
        r <= x,
        x >= 1 ==> r >= 1,
        x >= 1 && x % 2 == 0 ==> 2 * r <= x,
{
    let mut r = x;
    while r > 0 && r % 2 == 0
        invariant
            odd_part(r as int) == odd_part(x as int),
            r <= x,
            x >= 1 ==> r >= 1,
            x >= 1 && x % 2 == 0 ==> 2 * r <= x || r == x,
        decreases r,
    {
        r = r / 2;
    }
    r
}

} // verus!

verus! {

/// The odd part of a positive number is positive and not larger.
pub proof fn lemma_odd_part_bounds(x: int)
    requires
        x >= 1,
    ensures
        1 <= odd_part(x) <= x,
    decreases x,
{
    if x % 2 == 0 {
        lemma_odd_part_bounds(x / 2);
    }
}

/// An ancestor of an ancestor is an ancestor.
pub proof fn lemma_descendant_transitive(a: int, b: int, c: int)
    requires
        is_descendant(a, b),
        is_descendant(b, c),
    ensures
        is_descendant(a, c),
    decreases a,
{
    if a != b {
        lemma_descendant_transitive(a / 2, b, c);
    }
}

/// A proper ancestor of a proper ancestor is a proper ancestor.
pub proof fn lemma_below_transitive(a: int, b: int, c: int)
    requires
        is_below(a, b),
        is_below(b, c),
    ensures
        is_below(a, c),
{
    assert(is_descendant(b, c));
    lemma_descendant_transitive(a / 2, b, c);
}

/// The parent of the odd part of `y` is a proper ancestor of `y - 1`.
pub proof fn lemma_chain_next(y: int)
    requires
        y >= 2,
    ensures
        odd_part(y) <= 1 || is_below(y - 1, odd_part(y) / 2),
    decreases y,
{
    if y % 2 == 0 {
        if y / 2 >= 2 {
            lemma_chain_next(y / 2);
            let z = odd_part(y) / 2;
            if odd_part(y) > 1 {
                assert(is_below(y / 2 - 1, z));
                assert(is_descendant(y / 2 - 1, z));
                assert((y - 1) / 2 == y / 2 - 1);
            }
        } else {
            assert(odd_part(y / 2) == 1);
        }
    } else {
        assert(odd_part(y) == y);
        assert(y / 2 == (y - 1) / 2);
        assert(is_descendant((y - 1) / 2, y / 2));
    }
}

/// The parent of the node before the odd part of `y` is a proper ancestor
/// of `y`.
pub proof fn lemma_chain_before(y: int)
    requires
        y >= 1,
    ensures
        odd_part(y) - 1 <= 1 || is_below(y, (odd_part(y) - 1) / 2),
    decreases y,
{
    if y % 2 == 0 {
        lemma_chain_before(y / 2);
        let z = (odd_part(y) - 1) / 2;
        if odd_part(y) - 1 > 1 {
            assert(is_below(y / 2, z));
            assert(is_descendant(y / 2, z));
        }
    } else if y >= 3 {
        assert(is_descendant(y / 2, y / 2));
    }
}

/// Some node of `l..r` is `q` or an ancestor of `q`.
pub open spec fn covered(q: int, l: int, r: int) -> bool
    decreases q,
{
    q >= 1 && ((l <= q < r) || covered(q / 2, l, r))
}

/// A node before the range is not covered by it.
pub proof fn lemma_covered_before(q: int, l: int, r: int)
    requires
        q < l,
    ensures
        !covered(q, l, r),
    decreases q,
{
    if q >= 1 {
        lemma_covered_before(q / 2, l, r);
    }
}

/// An empty range covers nothing.
pub proof fn lemma_covered_empty(q: int, l: int, r: int)
    requires
        l >= r,
    ensures
        !covered(q, l, r),
    decreases q,
{
    if q >= 1 {
        lemma_covered_empty(q / 2, l, r);
    }
}

/// On the leaf level a range covers its own leaves.
pub proof fn lemma_covered_leaf(q: int, l: int, r: int, size: int)
    requires
        1 <= size <= q < 2 * size,
        size <= l,
    ensures
        covered(q, l, r) == (l <= q < r),
{
    lemma_covered_before(q / 2, l, r);
}

/// Taking the first node `l` out of a range of one level uncovers the
/// nodes below `l` and no other.
pub proof fn lemma_covered_take_first(q: int, l: int, r: int)
    requires
        1 <= l < r <= 2 * l,
    ensures
        is_descendant(q, l) ==> covered(q, l, r) && !covered(q, l + 1, r),
        !is_descendant(q, l) ==> covered(q, l, r) == covered(q, l + 1, r),
    decreases q,
{
    if q >= 1 {
        if q == l {
            lemma_covered_before(q / 2, l + 1, r);
        } else {
            lemma_covered_take_first(q / 2, l, r);
        }
    }
}

/// Taking the last node `r - 1` out of a range of one level uncovers the
/// nodes below `r - 1` and no other.
pub proof fn lemma_covered_take_last(q: int, l: int, r: int)
    requires
        1 <= l < r <= 2 * l,
    ensures
        is_descendant(q, r - 1) ==> covered(q, l, r) && !covered(q, l, r - 1),
        !is_descendant(q, r - 1) ==> covered(q, l, r) == covered(q, l, r - 1),
    decreases q,
{
    if q >= 1 {
        if q == r - 1 {
            lemma_covered_before(q / 2, l, r - 1);
        } else {
            lemma_covered_take_last(q / 2, l, r);
        }
    }
}

/// A range of left and right children covers what the range of their
/// parents covers.
pub proof fn lemma_covered_halve(q: int, l: int, r: int)
    requires
        2 <= l <= r,
        l % 2 == 0,
        r % 2 == 0,
        q >= r / 2,
    ensures
        covered(q, l, r) == covered(q, l / 2, r / 2),
    decreases q,
{
    if q >= 1 {
        if l <= q < r {
            assert(covered(q / 2, l / 2, r / 2));
        } else if q / 2 >= r / 2 {
            lemma_covered_halve(q / 2, l, r);
        } else {
            lemma_covered_before(q / 2, l, r);
            lemma_covered_before(q / 2, l / 2, r / 2);
        }
    }
}

} // verus!
