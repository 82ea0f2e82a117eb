//! Array arithmetic for the left-balanced binary tree.
//!
//! A tree with `n` leaves occupies `2n - 1` array slots.  Leaves sit at the
//! even positions; a parent node at an odd position `x` has a level equal to
//! the number of trailing one bits of `x`, and its subtree spans the slots
//! whose positions share the bits of `x` above that level.  The functions
//! here recover parents, children, siblings and the two path sequences every
//! other component walks: the direct path (ancestors up to the root) and the
//! copath (the siblings of the chain, the resolution targets for path
//! encryption).

use vstd::prelude::*;
use vstd::arithmetic::power2::{pow2, lemma2_to64, lemma_pow2_adds, lemma_pow2_pos, lemma_pow2_strictly_increases, lemma_pow2_unfold};
use vstd::arithmetic::div_mod::{lemma_fundamental_div_mod, lemma_fundamental_div_mod_converse};

use crate::errors::TreeError;
use crate::index::{LeafIndex, NodeIndex};

verus! {

/// The largest leaf count the engine accepts; keeps every array position,
/// and every intermediate climb position, comfortably inside `u32`.
pub const MAX_LEAVES: u32 = 0x4000_0000;

/// Number of array slots occupied by a tree with `n` leaves.
pub open spec fn node_width(n: int) -> int {
    2 * n - 1
}

/// A usable tree size: at least one leaf, bounded by the machine limit.
pub open spec fn valid_leaf_count(n: int) -> bool {
    1 <= n <= MAX_LEAVES
}

/// The level of an array position: the number of trailing one bits.
/// Leaves (even positions) have level 0.
pub open spec fn level_spec(x: int) -> nat
    decreases x,
{
    if x <= 0 || x % 2 == 0 {
        0
    } else {
        1 + level_spec(x / 2)
    }
}

/// The position of a node among the nodes of its level: `x` with level `k`
/// can be written `m * 2^(k+1) + 2^k - 1`, and this is `m`.
pub open spec fn lvl_m(x: int) -> int {
    (x + 1) / (pow2(level_spec(x) + 1) as int)
}

/// Floor of the base-two logarithm.
pub open spec fn lg(w: int) -> nat
    decreases w,
{
    if w < 2 {
        0
    } else {
        1 + lg(w / 2)
    }
}

/// The root of a tree with `w` slots: the unique in-range position of
/// maximal level.
pub open spec fn root_spec(w: int) -> int {
    pow2(lg(w)) as int - 1
}

/// One step towards the parent in the unbounded (complete) tree: the other
/// child of the result lies on the side of the missing bit.
pub open spec fn parent_step_spec(x: int) -> int {
    if lvl_m(x) % 2 == 0 {
        x + pow2(level_spec(x)) as int
    } else {
        x - pow2(level_spec(x)) as int
    }
}

/// The left child of a parent node.
pub open spec fn left_spec(x: int) -> int {
    x - pow2((level_spec(x) - 1) as nat) as int
}

/// One step towards the right child in the unbounded tree.
pub open spec fn right_step_spec(x: int) -> int {
    x + pow2((level_spec(x) - 1) as nat) as int
}

/// `pow2(lg(w) + 1) <= pow2(31)` holds for all tree widths the engine
/// accepts, so climbs stay inside this bound.
pub open spec fn climb_ok(p: int, w: int) -> bool {
    1 <= w && 0 <= p <= pow2(lg(w) + 1) - 2
}

/// Climbing from an out-of-range position to the first in-range ancestor:
/// positions past the width denote nodes absent from the left-balanced
/// array, and their parent takes their place.
pub open spec fn parent_climb(p: int, w: int) -> int
    decreases lg(w) - level_spec(p),
    via parent_climb_decreases
{
    if p < w {
        p
    } else if level_spec(p) >= lg(w) {
        p
    } else {
        parent_climb(parent_step_spec(p), w)
    }
}

/// The parent of `x` in a tree with `w` slots.
pub open spec fn parent_spec(x: int, w: int) -> int {
    parent_climb(parent_step_spec(x), w)
}

/// Descending leftwards from an out-of-range right child to the first
/// in-range node.
pub open spec fn right_desc(r: int, w: int) -> int
    decreases level_spec(r),
    via right_desc_decreases
{
    if r < w {
        r
    } else if level_spec(r) == 0 {
        r
    } else {
        right_desc(left_spec(r), w)
    }
}

/// The right child of `x` in a tree with `w` slots.
pub open spec fn right_spec(x: int, w: int) -> int {
    right_desc(right_step_spec(x), w)
}

/// The sibling of `x`: the other child of its parent.
pub open spec fn sibling_spec(x: int, w: int) -> int {
    if x < parent_spec(x, w) {
        right_spec(parent_spec(x, w), w)
    } else {
        left_spec(parent_spec(x, w))
    }
}

/// The direct path of `x`: its ancestors, from its parent up to and
/// including the root.
pub open spec fn dpath(x: int, w: int) -> Seq<int>
    decreases lg(w) - level_spec(x),
    via dpath_decreases
{
    if !(1 <= w && 0 <= x < w) || x == root_spec(w) {
        Seq::empty()
    } else {
        seq![parent_spec(x, w)] + dpath(parent_spec(x, w), w)
    }
}

/// The copath of `x`: the sibling of `x` followed by the siblings of each
/// direct-path node below the root.
pub open spec fn cpath(x: int, w: int) -> Seq<int>
    decreases lg(w) - level_spec(x),
    via cpath_decreases
{
    if !(1 <= w && 0 <= x < w) || x == root_spec(w) {
        Seq::empty()
    } else {
        seq![sibling_spec(x, w)] + cpath(parent_spec(x, w), w)
    }
}

// ---------------------------------------------------------------------------
// Structural lemmas: every position decomposes as m * 2^(k+1) + 2^k - 1.
// ---------------------------------------------------------------------------

/// A position determines its level decomposition.
pub proof fn lemma_decomp(x: int)
    requires
        0 <= x,
    ensures
        x + 1 == lvl_m(x) * pow2(level_spec(x) + 1) + pow2(level_spec(x)),
        0 <= lvl_m(x),
    decreases x,
{
    let k = level_spec(x);
    lemma_pow2_pos(k);
    lemma_pow2_pos(k + 1);
    if x % 2 == 0 {
        // level 0: x + 1 is odd, so (x + 1) % 2 == 1.
        assert(k == 0);
        assert(pow2(1) == 2 && pow2(0) == 1) by {
            lemma2_to64();
        }
        assert((x + 1) % 2 == 1);
        lemma_fundamental_div_mod(x + 1, 2);
        assert(x + 1 == lvl_m(x) * 2 + 1);
    } else {
        let y = x / 2;
        lemma_fundamental_div_mod(x, 2);
        assert(x == 2 * y + 1);
        lemma_decomp(y);
        let ky = level_spec(y);
        assert(k == ky + 1);
        let m = lvl_m(y);
        assert(y + 1 == m * pow2(ky + 1) + pow2(ky));
        // x + 1 == 2 * (y + 1) == m * 2^(k+1) + 2^k
        assert(pow2(ky + 2) == 2 * pow2(ky + 1) && pow2(ky + 1) == 2 * pow2(ky)) by {
            lemma_pow2_unfold(ky + 2);
            lemma_pow2_unfold(ky + 1);
        }
        assert(x + 1 == 2 * (y + 1));
        assert(2 * (m * pow2(ky + 1)) == m * pow2(ky + 2)) by (nonlinear_arith)
            requires pow2(ky + 2) == 2 * pow2(ky + 1);
        assert(x + 1 == m * pow2(k + 1) + pow2(k));
        lemma_pow2_strictly_increases(k, k + 1);
        lemma_fundamental_div_mod_converse(x + 1, pow2(k + 1) as int, m, pow2(k) as int);
        assert(lvl_m(x) == m);
    }
}

/// The decomposition determines the level: a position congruent to
/// `2^k - 1` modulo `2^(k+1)` has level exactly `k`.
pub proof fn lemma_level_unique(x: int, k: nat, m: int)
    requires
        0 <= x,
        0 <= m,
        x + 1 == m * pow2(k + 1) + pow2(k),
    ensures
        level_spec(x) == k,
        lvl_m(x) == m,
    decreases k,
{
    lemma_pow2_pos(k);
    lemma_pow2_pos(k + 1);
    if k == 0 {
        assert(pow2(1) == 2 && pow2(0) == 1) by {
            lemma2_to64();
        }
        assert(x + 1 == m * 2 + 1);
        assert(x == 2 * m);
        assert(x % 2 == 0) by (nonlinear_arith)
            requires x == 2 * m, 0 <= m;
        assert(level_spec(x) == 0);
        lemma_fundamental_div_mod_converse(x + 1, 2, m, 1);
    } else {
        assert(pow2(k + 1) == 2 * pow2(k) && pow2(k) == 2 * pow2((k - 1) as nat)) by {
            lemma_pow2_unfold(k + 1);
            lemma_pow2_unfold(k);
        }
        // x + 1 is even and positive, so x is odd.
        let y = (x - 1) / 2;
        assert(x + 1 == 2 * (m * pow2(k) + pow2((k - 1) as nat))) by (nonlinear_arith)
            requires
                x + 1 == m * pow2(k + 1) + pow2(k),
                pow2(k + 1) == 2 * pow2(k),
                pow2(k) == 2 * pow2((k - 1) as nat);
        let h = m * pow2(k) + pow2((k - 1) as nat);
        assert(x == 2 * h - 1);
        assert(h >= 1) by (nonlinear_arith)
            requires h == m * pow2(k) + pow2((k - 1) as nat), m >= 0, pow2(k) >= 1, pow2((k - 1) as nat) >= 1;
        assert(x % 2 == 1) by (nonlinear_arith)
            requires x == 2 * h - 1, h >= 1;
        assert(x / 2 == h - 1) by (nonlinear_arith)
            requires x == 2 * h - 1, h >= 1;
        assert((h - 1) + 1 == m * pow2(((k - 1) as nat) + 1) + pow2((k - 1) as nat));
        lemma_level_unique(h - 1, (k - 1) as nat, m);
        assert(level_spec(x) == 1 + level_spec(x / 2));
        assert(level_spec(x) == k);
        lemma_fundamental_div_mod_converse(x + 1, pow2(k + 1) as int, m, pow2(k) as int);
    }
}

/// One parent step raises the level by one and halves the position-in-level.
pub proof fn lemma_parent_step(x: int)
    requires
        0 <= x,
    ensures
        0 <= parent_step_spec(x),
        level_spec(parent_step_spec(x)) == level_spec(x) + 1,
        lvl_m(parent_step_spec(x)) == lvl_m(x) / 2,
        parent_step_spec(x) + 1 <= x + 1 + pow2(level_spec(x)),
        x + 1 <= parent_step_spec(x) + 1 + pow2(level_spec(x)),
{
    let k = level_spec(x);
    let m = lvl_m(x);
    let p = parent_step_spec(x);
    lemma_decomp(x);
    lemma_pow2_pos(k);
    lemma_pow2_pos(k + 1);
    lemma_pow2_pos(k + 2);
    assert(pow2(k + 1) == 2 * pow2(k) && pow2(k + 2) == 2 * pow2(k + 1)) by {
        lemma_pow2_unfold(k + 1);
        lemma_pow2_unfold(k + 2);
    }
    if m % 2 == 0 {
        let t = m / 2;
        lemma_fundamental_div_mod(m, 2);
        assert(m == 2 * t);
        assert(p == x + pow2(k));
        assert(p + 1 == m * pow2(k + 1) + pow2(k) + pow2(k));
        assert(m * pow2(k + 1) == t * pow2(k + 2)) by (nonlinear_arith)
            requires m == 2 * t, pow2(k + 2) == 2 * pow2(k + 1);
        assert(p + 1 == t * pow2((k + 1) + 1) + pow2(k + 1));
        lemma_level_unique(p, k + 1, t);
    } else {
        let t = m / 2;
        lemma_fundamental_div_mod(m, 2);
        assert(m == 2 * t + 1);
        assert(p == x - pow2(k));
        assert(p + 1 == m * pow2(k + 1));
        assert(m * pow2(k + 1) == t * pow2(k + 2) + pow2(k + 1)) by (nonlinear_arith)
            requires m == 2 * t + 1, pow2(k + 2) == 2 * pow2(k + 1);
        assert(p + 1 == t * pow2((k + 1) + 1) + pow2(k + 1));
        assert(t >= 0);
        lemma_level_unique(p, k + 1, t);
    }
}

/// The left child sits one level down, at an even position-in-level, and
/// one parent step returns from it.
pub proof fn lemma_left(x: int)
    requires
        0 <= x,
        level_spec(x) >= 1,
    ensures
        0 <= left_spec(x) < x,
        level_spec(left_spec(x)) == level_spec(x) - 1,
        lvl_m(left_spec(x)) == 2 * lvl_m(x),
        parent_step_spec(left_spec(x)) == x,
{
    let k = level_spec(x);
    let m = lvl_m(x);
    let l = left_spec(x);
    lemma_decomp(x);
    lemma_pow2_pos((k - 1) as nat);
    lemma_pow2_pos(k);
    assert(pow2(k) == 2 * pow2((k - 1) as nat) && pow2(k + 1) == 2 * pow2(k)) by {
        lemma_pow2_unfold(k);
        lemma_pow2_unfold(k + 1);
    }
    assert(l + 1 == m * pow2(k + 1) + pow2(k) - pow2((k - 1) as nat));
    assert(m * pow2(k + 1) == (2 * m) * pow2(k)) by (nonlinear_arith)
        requires pow2(k + 1) == 2 * pow2(k);
    assert(l + 1 == (2 * m) * pow2(((k - 1) as nat) + 1) + pow2((k - 1) as nat));
    lemma_level_unique(l, (k - 1) as nat, 2 * m);
    assert((2 * m) % 2 == 0) by (nonlinear_arith)
        requires m >= 0;
    assert(parent_step_spec(l) == l + pow2((k - 1) as nat));
}

/// The right-child step also sits one level down, at an odd
/// position-in-level, and one parent step returns from it.
pub proof fn lemma_right_step(x: int)
    requires
        0 <= x,
        level_spec(x) >= 1,
    ensures
        x < right_step_spec(x),
        level_spec(right_step_spec(x)) == level_spec(x) - 1,
        lvl_m(right_step_spec(x)) == 2 * lvl_m(x) + 1,
        parent_step_spec(right_step_spec(x)) == x,
{
    let k = level_spec(x);
    let m = lvl_m(x);
    let r = right_step_spec(x);
    lemma_decomp(x);
    lemma_pow2_pos((k - 1) as nat);
    lemma_pow2_pos(k);
    assert(pow2(k) == 2 * pow2((k - 1) as nat) && pow2(k + 1) == 2 * pow2(k)) by {
        lemma_pow2_unfold(k);
        lemma_pow2_unfold(k + 1);
    }
    assert(r + 1 == m * pow2(k + 1) + pow2(k) + pow2((k - 1) as nat));
    assert(m * pow2(k + 1) + pow2(k) == (2 * m + 1) * pow2(k)) by (nonlinear_arith)
        requires pow2(k + 1) == 2 * pow2(k);
    assert(r + 1 == (2 * m + 1) * pow2(((k - 1) as nat) + 1) + pow2((k - 1) as nat));
    lemma_level_unique(r, (k - 1) as nat, 2 * m + 1);
    assert((2 * m + 1) % 2 == 1) by (nonlinear_arith)
        requires m >= 0;
    assert(parent_step_spec(r) == r - pow2((k - 1) as nat));
}

#[via_fn]
proof fn parent_climb_decreases(p: int, w: int) {
    if p >= w && level_spec(p) < lg(w) {
        assert(w >= 2);
        lemma_parent_step(p);
    }
}

#[via_fn]
proof fn right_desc_decreases(r: int, w: int) {
    if r >= w && level_spec(r) != 0 {
        assert(r >= 1);
        lemma_left(r);
    }
}

#[via_fn]
proof fn dpath_decreases(x: int, w: int) {
    if 1 <= w && 0 <= x < w && x != root_spec(w) {
        lemma_parent_props(x, w);
        if level_spec(parent_spec(x, w)) > lg(w) {
            lemma_root_unique(parent_spec(x, w), w);
        }
    }
}

#[via_fn]
proof fn cpath_decreases(x: int, w: int) {
    if 1 <= w && 0 <= x < w && x != root_spec(w) {
        lemma_parent_props(x, w);
        if level_spec(parent_spec(x, w)) > lg(w) {
            lemma_root_unique(parent_spec(x, w), w);
        }
    }
}

// ---------------------------------------------------------------------------
// Bounds on the logarithm and the root.
// ---------------------------------------------------------------------------

/// `lg` is the floor logarithm.
pub proof fn lemma_lg_bounds(w: int)
    requires
        1 <= w,
    ensures
        pow2(lg(w)) <= w < pow2(lg(w) + 1),
    decreases w,
{
    if w < 2 {
        assert(pow2(0) == 1 && pow2(1) == 2) by {
            lemma2_to64();
        }
    } else {
        lemma_lg_bounds(w / 2);
        let l = lg(w / 2);
        assert(pow2(l + 1) == 2 * pow2(l) && pow2(l + 2) == 2 * pow2(l + 1)) by {
            lemma_pow2_unfold(l + 1);
            lemma_pow2_unfold(l + 2);
        }
        lemma_fundamental_div_mod(w, 2);
    }
}

/// The root has the maximal level, and is the only in-range position with
/// a level that high.
pub proof fn lemma_root(w: int)
    requires
        1 <= w,
    ensures
        0 <= root_spec(w) < w,
        level_spec(root_spec(w)) == lg(w),
        lvl_m(root_spec(w)) == 0,
{
    lemma_lg_bounds(w);
    lemma_pow2_pos(lg(w));
    assert(root_spec(w) + 1 == 0 * pow2(lg(w) + 1) + pow2(lg(w)));
    lemma_level_unique(root_spec(w), lg(w), 0);
}

/// Any in-range position of level at least `lg(w)` is the root.
pub proof fn lemma_root_unique(x: int, w: int)
    requires
        1 <= w,
        0 <= x < w,
        level_spec(x) >= lg(w),
    ensures
        x == root_spec(w),
        level_spec(x) == lg(w),
{
    let k = level_spec(x);
    let m = lvl_m(x);
    lemma_decomp(x);
    lemma_lg_bounds(w);
    lemma_pow2_pos(k);
    lemma_pow2_pos(k + 1);
    if k > lg(w) {
        if k > lg(w) + 1 {
            lemma_pow2_strictly_increases(lg(w) + 1, k);
        }
        assert(pow2(k) >= pow2(lg(w) + 1));
        assert(x + 1 >= pow2(k)) by (nonlinear_arith)
            requires x + 1 == m * pow2(k + 1) + pow2(k), m >= 0, pow2(k + 1) >= 1;
        assert(false);
    }
    if m >= 1 {
        assert(x + 1 >= pow2(k + 1) + pow2(k)) by (nonlinear_arith)
            requires x + 1 == m * pow2(k + 1) + pow2(k), m >= 1, pow2(k + 1) >= 1;
        assert(false);
    }
    assert(m * pow2(k + 1) == 0) by (nonlinear_arith)
        requires m == 0;
    assert(x == pow2(lg(w)) as int - 1);
}

// ---------------------------------------------------------------------------
// Properties of the climb, the parent, the children and the sibling.
// ---------------------------------------------------------------------------

/// The climb lands strictly inside the array without losing level.
pub proof fn lemma_climb_props(p: int, w: int)
    requires
        climb_ok(p, w),
    ensures
        parent_climb(p, w) < w,
        level_spec(parent_climb(p, w)) >= level_spec(p),
        0 <= parent_climb(p, w),
        p >= w ==> level_spec(parent_climb(p, w)) > level_spec(p),
    decreases lg(w) - level_spec(p),
{
    let k = level_spec(p);
    if p < w {
    } else {
        lemma_decomp(p);
        lemma_lg_bounds(w);
        // level(p) < lg(w): a level-lg(w) position within the climb bound is
        // the complete root, which is already in range.
        if k >= lg(w) {
            let m = lvl_m(p);
            lemma_pow2_pos(k);
            lemma_pow2_pos(k + 1);
            if k > lg(w) {
                if k > lg(w) + 1 {
                    lemma_pow2_strictly_increases(lg(w) + 1, k);
                }
                assert(pow2(k) >= pow2(lg(w) + 1));
                assert(p + 1 >= pow2(k)) by (nonlinear_arith)
                    requires p + 1 == m * pow2(k + 1) + pow2(k), m >= 0, pow2(k + 1) >= 1;
                assert(false);
            }
            if m >= 1 {
                assert(p + 1 >= pow2(k + 1) + pow2(k)) by (nonlinear_arith)
                    requires p + 1 == m * pow2(k + 1) + pow2(k), m >= 1, pow2(k) >= 1;
                assert(false);
            }
            // m == 0 and k == lg(w): p is the root, in range.
            assert(m * pow2(k + 1) == 0) by (nonlinear_arith)
                requires m == 0;
            assert(p == pow2(lg(w)) as int - 1);
            assert(false);
        }
        lemma_climb_step_bound(p, w);
        lemma_parent_step(p);
        lemma_climb_props(parent_step_spec(p), w);
    }
}

/// The in-range positions below the root have in-range parents one or more
/// levels up.
pub proof fn lemma_parent_props(x: int, w: int)
    requires
        1 <= w,
        0 <= x < w,
        x != root_spec(w),
    ensures
        0 <= parent_spec(x, w) < w,
        level_spec(parent_spec(x, w)) > level_spec(x),
        parent_spec(x, w) != x,
{
    lemma_lg_bounds(w);
    lemma_root(w);
    if level_spec(x) >= lg(w) {
        lemma_root_unique(x, w);
        assert(false);
    }
    lemma_pow2_strictly_increases(lg(w), lg(w) + 1);
    assert(climb_ok(x, w));
    lemma_climb_step_bound(x, w);
    lemma_parent_step(x);
    lemma_climb_props(parent_step_spec(x), w);
    if parent_spec(x, w) == x {
        // impossible: the climb only raises the level
        assert(level_spec(parent_spec(x, w)) > level_spec(x));
    }
}

/// Any position at or past the width, but within the climb bound, sits
/// strictly below the root level.
proof fn lemma_outofrange_level(p: int, w: int)
    requires
        climb_ok(p, w),
        p >= w,
    ensures
        level_spec(p) < lg(w),
{
    let k = level_spec(p);
    let m = lvl_m(p);
    lemma_decomp(p);
    lemma_lg_bounds(w);
    if k >= lg(w) {
        lemma_pow2_pos(k);
        lemma_pow2_pos(k + 1);
        if k > lg(w) {
            if k > lg(w) + 1 {
                lemma_pow2_strictly_increases(lg(w) + 1, k);
            }
            assert(pow2(k) >= pow2(lg(w) + 1));
            assert(p + 1 >= pow2(k)) by (nonlinear_arith)
                requires p + 1 == m * pow2(k + 1) + pow2(k), m >= 0, pow2(k + 1) >= 1;
            assert(false);
        }
        if m >= 1 {
            assert(p + 1 >= pow2(k + 1) + pow2(k)) by (nonlinear_arith)
                requires p + 1 == m * pow2(k + 1) + pow2(k), m >= 1, pow2(k) >= 1;
            assert(false);
        }
        assert(m * pow2(k + 1) == 0) by (nonlinear_arith)
            requires m == 0;
        assert(p == pow2(lg(w)) as int - 1);
        assert(false);
    }
}

/// The floor logarithm is pinned by its bounding powers.
pub proof fn lemma_lg_unique(w: int, j: nat)
    requires
        1 <= w,
        pow2(j) <= w < pow2(j + 1),
    ensures
        lg(w) == j,
    decreases j,
{
    lemma2_to64();
    if j == 0 {
    } else {
        lemma_pow2_unfold(j);
        lemma_pow2_unfold(j + 1);
        lemma_fundamental_div_mod(w, 2);
        lemma_pow2_pos((j - 1) as nat);
        assert(pow2((j - 1) as nat) <= w / 2 < pow2(j));
        lemma_lg_unique(w / 2, (j - 1) as nat);
    }
}

/// For widths that fit the engine's limit the climb bound fits in `u32`.
pub proof fn lemma_lg_small(w: int)
    requires
        1 <= w <= 0x7fff_ffff,
    ensures
        lg(w) <= 30,
        pow2(lg(w) + 1) <= 0x8000_0000,
{
    lemma_lg_bounds(w);
    lemma2_to64();
    if lg(w) > 30 {
        if lg(w) > 31 {
            lemma_pow2_strictly_increases(31, lg(w));
        }
        assert(pow2(lg(w)) >= pow2(31));
        assert(false);
    }
    if lg(w) + 1 <= 30 {
        lemma_pow2_strictly_increases(lg(w) + 1, 31);
    }
    assert(pow2(lg(w) + 1) <= pow2(31));
}

/// In-range positions have level at most the root's, and sit within the
/// climb bound together with their whole subtree.
pub proof fn lemma_inrange(x: int, w: int)
    requires
        1 <= w,
        0 <= x < w,
    ensures
        level_spec(x) <= lg(w),
        x + pow2(level_spec(x)) - 1 <= pow2(lg(w) + 1) - 2,
        climb_ok(x, w),
{
    let k = level_spec(x);
    let m = lvl_m(x);
    lemma_decomp(x);
    lemma_lg_bounds(w);
    lemma_pow2_pos(k);
    lemma_pow2_pos(k + 1);
    if k > lg(w) {
        lemma_root_unique(x, w);
        assert(false);
    }
    // m + 1 <= 2^(lg - k), so the subtree maximum x + 2^k - 1 stays in bound.
    lemma_pow2_adds((lg(w) - k) as nat, k + 1);
    lemma_pow2_pos((lg(w) - k) as nat);
    let c = pow2((lg(w) - k) as nat) as int;
    assert(c * pow2(k + 1) == pow2(lg(w) + 1)) by (nonlinear_arith)
        requires pow2((lg(w) - k) as nat) * pow2(k + 1) == pow2(lg(w) + 1), c == pow2((lg(w) - k) as nat);
    assert(m < c) by (nonlinear_arith)
        requires
            m * pow2(k + 1) + pow2(k) <= pow2(lg(w) + 1) - 1,
            c * pow2(k + 1) == pow2(lg(w) + 1),
            pow2(k) >= 1,
            pow2(k + 1) >= 1,
            m >= 0,
            c >= 1;
    assert((m + 1) * pow2(k + 1) <= pow2(lg(w) + 1)) by (nonlinear_arith)
        requires m + 1 <= c, c * pow2(k + 1) == pow2(lg(w) + 1), pow2(k + 1) >= 1;
    assert((m + 1) * pow2(k + 1) == m * pow2(k + 1) + pow2(k + 1)) by (nonlinear_arith);
    assert(pow2(k + 1) == 2 * pow2(k)) by {
        lemma_pow2_unfold(k + 1);
    }
    assert(x + pow2(k) - 1 == m * pow2(k + 1) + pow2(k + 1) - 2);
}

/// The left child climbs straight back to its parent.
pub proof fn lemma_left_child(p: int, w: int)
    requires
        1 <= w,
        0 <= p < w,
        level_spec(p) >= 1,
    ensures
        0 <= left_spec(p) < p,
        level_spec(left_spec(p)) == level_spec(p) - 1,
        parent_spec(left_spec(p), w) == p,
{
    lemma_left(p);
    assert(parent_climb(p, w) == p);
}

/// The descent from an out-of-range right child reaches an in-range node
/// without leaving the subtree, and climbs back to where the descent
/// started from.
proof fn lemma_right_desc(r: int, w: int)
    requires
        climb_ok(r, w),
        r + 1 - pow2(level_spec(r)) < w,
    ensures
        0 <= right_desc(r, w) < w,
        r + 1 - pow2(level_spec(r)) <= right_desc(r, w) <= r,
        level_spec(right_desc(r, w)) <= level_spec(r),
        parent_climb(parent_step_spec(right_desc(r, w)), w) == parent_climb(parent_step_spec(r), w),
    decreases level_spec(r),
{
    lemma_pow2_pos(level_spec(r));
    lemma2_to64();
    if r < w {
    } else {
        lemma_outofrange_level(r, w);
        // level 0 is impossible: the position itself would be its leftmost
        // leaf, which is in range.
        assert(level_spec(r) >= 1);
        lemma_left(r);
        let l = left_spec(r);
        assert(pow2(level_spec(r)) == 2 * pow2((level_spec(r) - 1) as nat)) by {
            lemma_pow2_unfold(level_spec(r));
        }
        assert(l + 1 - pow2(level_spec(l)) == r + 1 - pow2(level_spec(r)));
        lemma_right_desc(l, w);
        // climbing from the descent result passes through r itself
        assert(parent_climb(r, w) == parent_climb(parent_step_spec(r), w));
    }
}

/// The right child of an in-range parent exists, lies strictly between the
/// parent and the subtree maximum, and climbs back to the parent.
pub proof fn lemma_right_child(p: int, w: int)
    requires
        1 <= w,
        w % 2 == 1,
        0 <= p < w,
        level_spec(p) >= 1,
    ensures
        p < right_spec(p, w),
        right_spec(p, w) < w,
        level_spec(right_spec(p, w)) < level_spec(p),
        parent_spec(right_spec(p, w), w) == p,
{
    let k = level_spec(p);
    let r0 = right_step_spec(p);
    lemma_right_step(p);
    lemma_inrange(p, w);
    lemma_pow2_pos((k - 1) as nat);
    lemma_pow2_pos(k);
    assert(pow2(k) == 2 * pow2((k - 1) as nat)) by {
        lemma_pow2_unfold(k);
    }
    // p is odd, w is odd, so p + 1 < w.
    assert(p % 2 == 1);
    assert(p + 1 < w);
    assert(r0 + 1 - pow2(level_spec(r0)) == p + 1);
    assert(climb_ok(r0, w));
    lemma_right_desc(r0, w);
    assert(parent_climb(parent_step_spec(r0), w) == parent_climb(p, w));
    assert(parent_climb(p, w) == p);
}

/// The sibling of a non-root node shares its parent and differs from it.
pub proof fn lemma_sibling(x: int, w: int)
    requires
        1 <= w,
        w % 2 == 1,
        0 <= x < w,
        x != root_spec(w),
    ensures
        0 <= sibling_spec(x, w) < w,
        sibling_spec(x, w) != x,
        parent_spec(sibling_spec(x, w), w) == parent_spec(x, w),
        level_spec(sibling_spec(x, w)) < level_spec(parent_spec(x, w)),
{
    let p = parent_spec(x, w);
    lemma_parent_props(x, w);
    if x < p {
        lemma_right_child(p, w);
    } else {
        lemma_left_child(p, w);
    }
}

/// The node chain of `x`: the node itself followed by its ancestors.
pub open spec fn chain_spec(x: int, w: int) -> Seq<int> {
    seq![x] + dpath(x, w)
}

/// The root's parent step leaves the array: climbing from the root never
/// returns an in-range position.
pub proof fn lemma_root_climb(w: int)
    requires
        1 <= w,
    ensures
        parent_spec(root_spec(w), w) >= w,
{
    let g = lg(w);
    let r = root_spec(w);
    lemma_root(w);
    lemma_lg_bounds(w);
    lemma_pow2_pos(g);
    lemma_pow2_pos(g + 1);
    assert(pow2(g + 1) == 2 * pow2(g)) by {
        lemma_pow2_unfold(g + 1);
    }
    assert(lvl_m(r) % 2 == 0);
    let q = parent_step_spec(r);
    assert(q == pow2(g + 1) as int - 1);
    assert(0 * pow2(g + 2) == 0) by (nonlinear_arith);
    assert(q + 1 == 0 * pow2(g + 2) + pow2(g + 1));
    lemma_level_unique(q, g + 1, 0);
    assert(q >= w);
    assert(parent_climb(q, w) == q);
}

/// The chain of any in-range node climbs to the root with strictly rising
/// levels, and the copath records the sibling of each chain node below the
/// root.
pub proof fn lemma_chain(x: int, w: int)
    requires
        1 <= w,
        w % 2 == 1,
        0 <= x < w,
    ensures
        chain_spec(x, w).len() == cpath(x, w).len() + 1,
        chain_spec(x, w).last() == root_spec(w),
        chain_spec(x, w)[0] == x,
        forall|i: int| 0 <= i < chain_spec(x, w).len() ==> 0 <= #[trigger] chain_spec(x, w)[i] < w,
        forall|i: int| 0 <= i < chain_spec(x, w).len() - 1 ==> parent_spec(#[trigger] chain_spec(x, w)[i], w) == chain_spec(x, w)[i + 1],
        forall|i: int| 0 <= i < chain_spec(x, w).len() - 1 ==> level_spec(#[trigger] chain_spec(x, w)[i]) < level_spec(chain_spec(x, w)[i + 1]),
        forall|i: int| 0 <= i < cpath(x, w).len() ==> #[trigger] cpath(x, w)[i] == sibling_spec(chain_spec(x, w)[i], w),
    decreases lg(w) - level_spec(x),
{
    let ch = chain_spec(x, w);
    let cp = cpath(x, w);
    if x == root_spec(w) {
        assert(dpath(x, w) =~= Seq::<int>::empty());
        assert(cp =~= Seq::<int>::empty());
        assert(ch.len() == 1);
    } else {
        let p = parent_spec(x, w);
        lemma_parent_props(x, w);
        if level_spec(p) > lg(w) {
            lemma_root_unique(p, w);
        }
        lemma_chain(p, w);
        let chp = chain_spec(p, w);
        assert(dpath(x, w) == seq![p] + dpath(p, w));
        assert(cpath(x, w) == seq![sibling_spec(x, w)] + cpath(p, w));
        assert(ch =~= seq![x] + chp);
        assert forall|i: int| 0 <= i < ch.len() implies 0 <= #[trigger] ch[i] < w by {
            if i >= 1 {
                assert(ch[i] == chp[i - 1]);
            }
        }
        assert forall|i: int| 0 <= i < ch.len() - 1 implies parent_spec(#[trigger] ch[i], w) == ch[i + 1] by {
            if i >= 1 {
                assert(ch[i] == chp[i - 1] && ch[i + 1] == chp[i]);
            }
        }
        assert forall|i: int| 0 <= i < ch.len() - 1 implies level_spec(#[trigger] ch[i]) < level_spec(ch[i + 1]) by {
            if i >= 1 {
                assert(ch[i] == chp[i - 1] && ch[i + 1] == chp[i]);
            }
        }
        assert forall|i: int| 0 <= i < cp.len() implies #[trigger] cp[i] == sibling_spec(ch[i], w) by {
            if i >= 1 {
                assert(cp[i] == cpath(p, w)[i - 1]);
                assert(ch[i] == chp[i - 1]);
            }
        }
    }
}

/// Levels rise strictly along the whole chain, so its entries are distinct.
pub proof fn lemma_chain_mono(x: int, w: int, i: int, j: int)
    requires
        1 <= w,
        w % 2 == 1,
        0 <= x < w,
        0 <= i < j < chain_spec(x, w).len(),
    ensures
        level_spec(chain_spec(x, w)[i]) < level_spec(chain_spec(x, w)[j]),
        chain_spec(x, w)[i] != chain_spec(x, w)[j],
    decreases j - i,
{
    lemma_chain(x, w);
    if j == i + 1 {
    } else {
        lemma_chain_mono(x, w, i, j - 1);
    }
}

/// The direct path, the node itself and the copath are pairwise disjoint
/// and duplicate-free: together they partition the node's ancestors and
/// their siblings, terminating at the root.
///
/// The direct path is by construction the ancestor chain from the node's
/// parent up to the root, and each copath entry is the sibling of the
/// corresponding chain node, so the three parts cover exactly the
/// ancestors-and-their-siblings of the node.
pub proof fn lemma_path_partition(x: int, w: int)
    requires
        1 <= w,
        w % 2 == 1,
        0 <= x < w,
    ensures
        dpath(x, w).len() == cpath(x, w).len(),
        x != root_spec(w) ==> dpath(x, w).len() >= 1 && dpath(x, w).last() == root_spec(w),
        forall|i: int| 0 <= i < dpath(x, w).len() ==> #[trigger] dpath(x, w)[i] != x,
        forall|i: int| 0 <= i < cpath(x, w).len() ==> #[trigger] cpath(x, w)[i] != x,
        forall|i: int, j: int| 0 <= i < j < dpath(x, w).len() ==> dpath(x, w)[i] != dpath(x, w)[j],
        forall|i: int, j: int| 0 <= i < j < cpath(x, w).len() ==> cpath(x, w)[i] != cpath(x, w)[j],
        forall|i: int, j: int| 0 <= i < dpath(x, w).len() && 0 <= j < cpath(x, w).len() ==> dpath(x, w)[i] != cpath(x, w)[j],
        forall|i: int| 0 <= i < cpath(x, w).len() ==> #[trigger] cpath(x, w)[i] == sibling_spec(chain_spec(x, w)[i], w),
{
    let ch = chain_spec(x, w);
    let dp = dpath(x, w);
    let cp = cpath(x, w);
    let len = ch.len();
    lemma_chain(x, w);
    lemma_root(w);
    lemma_root_climb(w);
    assert(forall|i: int| 0 <= i < dp.len() ==> #[trigger] dp[i] == ch[i + 1]);
    // Chain nodes below the last are not the root, and their siblings exist.
    assert forall|i: int| 0 <= i < len - 1 implies #[trigger] ch[i] != root_spec(w) by {
        lemma_chain_mono(x, w, i, len - 1);
    }
    assert forall|i: int| 0 <= i < cp.len() implies 0 <= #[trigger] cp[i] < w && cp[i] != ch[i]
        && parent_spec(cp[i], w) == ch[i + 1] by {
        lemma_sibling(ch[i], w);
    }
    // The node itself is below every direct-path entry.
    assert forall|i: int| 0 <= i < dp.len() implies #[trigger] dp[i] != x by {
        lemma_chain_mono(x, w, 0, i + 1);
    }
    // Distinct direct-path entries.
    assert forall|i: int, j: int| 0 <= i < j < dp.len() implies dp[i] != dp[j] by {
        lemma_chain_mono(x, w, i + 1, j + 1);
    }
    // A copath entry equal to a chain entry would give its parent two
    // distinct values.
    assert forall|i: int, j: int| 0 <= i < cp.len() && 0 <= j < len implies #[trigger] cp[i] != #[trigger] ch[j] by {
        lemma_sibling(ch[i], w);
        if cp[i] == ch[j] {
            if j == len - 1 {
                // the root's climb leaves the array, the sibling's does not
                assert(parent_spec(ch[j], w) >= w);
                assert(parent_spec(cp[i], w) == ch[i + 1] < w);
            } else {
                assert(parent_spec(ch[j], w) == ch[j + 1]);
                assert(ch[i + 1] == ch[j + 1]);
                if i + 1 < j + 1 {
                    lemma_chain_mono(x, w, i + 1, j + 1);
                } else if j + 1 < i + 1 {
                    lemma_chain_mono(x, w, j + 1, i + 1);
                }
                // hence i == j, contradicting that a sibling differs
                assert(cp[i] != ch[i]);
            }
        }
    }
    // Distinct copath entries: their parents are distinct chain nodes.
    assert forall|i: int, j: int| 0 <= i < j < cp.len() implies cp[i] != cp[j] by {
        lemma_sibling(ch[i], w);
        lemma_sibling(ch[j], w);
        if cp[i] == cp[j] {
            assert(parent_spec(cp[i], w) == ch[i + 1]);
            assert(parent_spec(cp[j], w) == ch[j + 1]);
            lemma_chain_mono(x, w, i + 1, j + 1);
        }
    }
    assert forall|i: int, j: int| 0 <= i < dp.len() && 0 <= j < cp.len() implies dp[i] != cp[j] by {
        assert(dp[i] == ch[i + 1]);
        assert(cp[j] != ch[i + 1]);
    }
    assert forall|i: int| 0 <= i < cp.len() implies #[trigger] cp[i] != x by {
        assert(cp[i] != ch[0]);
    }
}

/// Helper: one parent step from an in-bound position stays in bound.
proof fn lemma_climb_step_bound(p: int, w: int)
    requires
        1 <= w,
        0 <= p <= pow2(lg(w) + 1) - 2,
        level_spec(p) < lg(w),
    ensures
        0 <= parent_step_spec(p) <= pow2(lg(w) + 1) - 2,
{
    let k = level_spec(p);
    let m = lvl_m(p);
    let q = parent_step_spec(p);
    let t = lvl_m(q);
    lemma_parent_step(p);
    lemma_decomp(p);
    lemma_decomp(q);
    lemma_pow2_pos(k);
    lemma_pow2_pos(k + 1);
    lemma_pow2_pos(k + 2);
    lemma_pow2_pos((lg(w) - k) as nat);
    lemma_pow2_pos(((lg(w) - k) as nat - 1) as nat);
    assert(pow2(k + 1) == 2 * pow2(k) && pow2(k + 2) == 2 * pow2(k + 1)) by {
        lemma_pow2_unfold(k + 1);
        lemma_pow2_unfold(k + 2);
    }
    lemma_pow2_adds((lg(w) - k) as nat, k + 1);
    let c = pow2((lg(w) - k) as nat) as int;
    assert(c * pow2(k + 1) == pow2(lg(w) + 1)) by (nonlinear_arith)
        requires pow2((lg(w) - k) as nat) * pow2(k + 1) == pow2(lg(w) + 1), c == pow2((lg(w) - k) as nat);
    assert(m < c) by (nonlinear_arith)
        requires
            m * pow2(k + 1) + pow2(k) <= pow2(lg(w) + 1) - 1,
            c * pow2(k + 1) == pow2(lg(w) + 1),
            pow2(k) >= 1,
            pow2(k + 1) >= 1,
            m >= 0,
            c >= 1;
    lemma_fundamental_div_mod(m, 2);
    assert(t <= (c - 1) / 2);
    assert((lg(w) - k) as nat >= 1);
    lemma_pow2_unfold((lg(w) - k) as nat);
    let c2 = pow2(((lg(w) - k) as nat - 1) as nat) as int;
    assert(c == 2 * c2);
    assert(t <= c2 - 1) by (nonlinear_arith)
        requires t <= (c - 1) / 2, c == 2 * c2, c2 >= 1;
    lemma_pow2_adds(((lg(w) - k) as nat - 1) as nat, k + 2);
    assert(c2 * pow2(k + 2) == pow2(lg(w) + 1)) by (nonlinear_arith)
        requires pow2(((lg(w) - k) as nat - 1) as nat) * pow2(k + 2) == pow2(lg(w) + 1), c2 == pow2(((lg(w) - k) as nat - 1) as nat);
    assert(q + 1 <= pow2(lg(w) + 1) - pow2(k + 2) + pow2(k + 1)) by (nonlinear_arith)
        requires
            q + 1 == t * pow2(k + 2) + pow2(k + 1),
            t <= c2 - 1,
            c2 * pow2(k + 2) == pow2(lg(w) + 1);
}

// ---------------------------------------------------------------------------
// Executable tree addressing.
// ---------------------------------------------------------------------------

/// Levels of `u32` positions fit in six bits.
pub proof fn lemma_level_bound(x: int)
    requires
        0 <= x <= 0xffff_ffff,
    ensures
        level_spec(x) <= 32,
{
    let k = level_spec(x);
    lemma_decomp(x);
    lemma_pow2_pos(k + 1);
    if k > 32 {
        lemma2_to64();
        if k > 33 {
            lemma_pow2_strictly_increases(33, k);
        }
        assert(pow2(33) == 0x2_0000_0000) by {
            lemma_pow2_unfold(33);
        }
        assert(pow2(k) >= pow2(33));
        assert(x + 1 >= pow2(k)) by (nonlinear_arith)
            requires x + 1 == lvl_m(x) * pow2(k + 1) + pow2(k), lvl_m(x) >= 0, pow2(k + 1) >= 1;
        assert(false);
    }
}

/// Positions below `2^31 - 1` have level at most 30.
pub proof fn lemma_level_small(x: int)
    requires
        0 <= x <= 0x7fff_fffe,
    ensures
        level_spec(x) <= 30,
{
    let k = level_spec(x);
    lemma_decomp(x);
    lemma_pow2_pos(k + 1);
    if k > 30 {
        lemma2_to64();
        if k > 31 {
            lemma_pow2_strictly_increases(31, k);
        }
        assert(pow2(k) >= pow2(31));
        assert(x + 1 >= pow2(k)) by (nonlinear_arith)
            requires x + 1 == lvl_m(x) * pow2(k + 1) + pow2(k), lvl_m(x) >= 0, pow2(k + 1) >= 1;
        assert(false);
    }
}

/// The level of a position: its number of trailing one bits.
fn level(x: u32) -> (r: u32)
    ensures
        r as int == level_spec(x as int),
{
    let mut v: u32 = x;
    let mut k: u32 = 0;
    proof {
        lemma_level_bound(x as int);
    }
    while v % 2 == 1
        invariant
            k as int + level_spec(v as int) == level_spec(x as int),
            level_spec(x as int) <= 32,
            v <= x,
        decreases v,
    {
        v = v / 2;
        k = k + 1;
    }
    k
}

/// `2^k` for exponents that fit.
fn pow2_exec(k: u32) -> (r: u32)
    requires
        k <= 31,
    ensures
        r as int == pow2(k as nat),
{
    let mut r: u32 = 1;
    let mut i: u32 = 0;
    proof {
        lemma2_to64();
    }
    while i < k
        invariant
            i <= k <= 31,
            r as int == pow2(i as nat),
            pow2(k as nat) <= 0x8000_0000,
        decreases k - i,
    {
        proof {
            if (i as nat) + 1 <= k as nat && (i as nat) + 1 < k as nat {
                lemma_pow2_strictly_increases((i as nat) + 1, k as nat);
            }
            lemma_pow2_unfold((i as nat) + 1);
        }
        r = 2 * r;
        i = i + 1;
    }
    r
}

/// One step towards the parent in the unbounded tree.
fn parent_step(x: u32) -> (r: u32)
    requires
        x <= 0x7fff_fffe,
    ensures
        r as int == parent_step_spec(x as int),
{
    let k = level(x);
    proof {
        lemma_level_small(x as int);
        lemma_decomp(x as int);
        lemma_pow2_unfold((k as nat) + 1);
        lemma_pow2_pos(k as nat);
        if k as nat + 1 < 31 {
            lemma_pow2_strictly_increases(k as nat + 1, 31);
        }
        lemma2_to64();
    }
    let p2k = pow2_exec(k);
    let b = ((x + 1) / (2 * p2k)) % 2;
    proof {
        assert(2 * p2k as int == pow2(k as nat + 1));
        assert(b as int == lvl_m(x as int) % 2);
        if b as int % 2 != 0 {
            // the subtracting branch has a predecessor at this level
            assert(lvl_m(x as int) >= 1);
            assert(x as int + 1 >= pow2(k as nat + 1) + pow2(k as nat)) by (nonlinear_arith)
                requires
                    x as int + 1 == lvl_m(x as int) * pow2(k as nat + 1) + pow2(k as nat),
                    lvl_m(x as int) >= 1,
                    pow2(k as nat + 1) >= 1;
        }
    }
    if b == 0 {
        x + p2k
    } else {
        x - p2k
    }
}

/// The root of the tree with `size` leaves.
pub fn root(size: LeafIndex) -> (r: NodeIndex)
    requires
        valid_leaf_count(size.0 as int),
    ensures
        r.0 as int == root_spec(node_width(size.0 as int)),
{
    let w: u32 = 2 * size.0 - 1;
    let ghost wi = w as int;
    let mut p: u32 = 1;
    let ghost mut j: nat = 0;
    proof {
        lemma2_to64();
    }
    while 2 * p <= w
        invariant
            1 <= p,
            p as int == pow2(j),
            p <= w,
            w == node_width(size.0 as int),
            valid_leaf_count(size.0 as int),
        decreases w - p,
    {
        proof {
            lemma_pow2_unfold(j + 1);
            lemma_pow2_pos(j + 1);
        }
        p = 2 * p;
        proof {
            j = j + 1;
        }
    }
    proof {
        lemma_pow2_unfold(j + 1);
        lemma_lg_unique(w as int, j);
    }
    NodeIndex(p - 1)
}

/// The parent of a node.  Fails with `InvalidIndex` at the root and past
/// the tree bound.
pub fn parent(index: NodeIndex, size: LeafIndex) -> (r: Result<NodeIndex, TreeError>)
    requires
        valid_leaf_count(size.0 as int),
    ensures
        (index.0 as int >= node_width(size.0 as int) || index.0 as int == root_spec(node_width(size.0 as int)))
            <==> (r matches Err(e) && e == TreeError::InvalidIndex),
        ((index.0 as int) < node_width(size.0 as int) && index.0 as int != root_spec(node_width(size.0 as int)))
            ==> (r matches Ok(p) && p.0 as int == parent_spec(index.0 as int, node_width(size.0 as int))),
{
    let w: u32 = 2 * size.0 - 1;
    let ghost wi = w as int;
    if index.0 >= w {
        return Err(TreeError::InvalidIndex);
    }
    let root_ix = root(size);
    if index.0 == root_ix.0 {
        return Err(TreeError::InvalidIndex);
    }
    proof {
        lemma_inrange(index.0 as int, wi);
        lemma_lg_small(wi);
        if level_spec(index.0 as int) >= lg(wi) {
            lemma_root_unique(index.0 as int, wi);
        }
        lemma_climb_step_bound(index.0 as int, wi);
    }
    let mut p: u32 = parent_step(index.0);
    while p >= w
        invariant
            climb_ok(p as int, wi),
            parent_climb(p as int, wi) == parent_spec(index.0 as int, wi),
            wi == node_width(size.0 as int),
            1 <= wi <= 0x7fff_ffff,
            w == wi,
            pow2(lg(wi) + 1) <= 0x8000_0000,
        decreases lg(wi) - level_spec(p as int),
    {
        proof {
            lemma_outofrange_level(p as int, wi);
            lemma_climb_step_bound(p as int, wi);
            lemma_parent_step(p as int);
        }
        p = parent_step(p);
    }
    Ok(NodeIndex(p))
}

/// The left child of a parent node.  Fails with `InvalidIndex` on a leaf.
pub fn left_child(index: NodeIndex) -> (r: Result<NodeIndex, TreeError>)
    ensures
        index.0 % 2 == 0 <==> (r matches Err(e) && e == TreeError::InvalidIndex),
        index.0 % 2 == 1 ==> (r matches Ok(c) && c.0 as int == left_spec(index.0 as int)),
{
    if index.0 % 2 == 0 {
        return Err(TreeError::InvalidIndex);
    }
    let k = level(index.0);
    proof {
        lemma_level_bound(index.0 as int);
        lemma_decomp(index.0 as int);
        lemma_pow2_pos((k as nat - 1) as nat);
        lemma_pow2_pos(k as nat + 1);
        lemma_pow2_unfold(k as nat);
        lemma_pow2_unfold(k as nat + 1);
        assert(index.0 as int + 1 >= pow2(k as nat)) by (nonlinear_arith)
            requires
                index.0 as int + 1 == lvl_m(index.0 as int) * pow2(k as nat + 1) + pow2(k as nat),
                lvl_m(index.0 as int) >= 0,
                pow2(k as nat + 1) >= 1;
    }
    let half = pow2_exec(k - 1);
    Ok(NodeIndex(index.0 - half))
}

/// The right child of a parent node in a tree with `size` leaves.  Fails
/// with `InvalidIndex` on a leaf or past the tree bound.
pub fn right_child(index: NodeIndex, size: LeafIndex) -> (r: Result<NodeIndex, TreeError>)
    requires
        valid_leaf_count(size.0 as int),
    ensures
        (index.0 % 2 == 0 || index.0 as int >= node_width(size.0 as int))
            <==> (r matches Err(e) && e == TreeError::InvalidIndex),
        (index.0 % 2 == 1 && (index.0 as int) < node_width(size.0 as int))
            ==> (r matches Ok(c) && c.0 as int == right_spec(index.0 as int, node_width(size.0 as int))),
{
    let w: u32 = 2 * size.0 - 1;
    let ghost wi = w as int;
    if index.0 % 2 == 0 || index.0 >= w {
        return Err(TreeError::InvalidIndex);
    }
    let x = index.0;
    let k = level(x);
    proof {
        lemma_inrange(x as int, wi);
        lemma_lg_small(wi);
        lemma_right_step(x as int);
        lemma_decomp(x as int);
        lemma_pow2_pos((k as nat - 1) as nat);
        lemma_pow2_pos(k as nat + 1);
        lemma_pow2_unfold(k as nat);
        assert(x as int + 1 >= pow2(k as nat)) by (nonlinear_arith)
            requires
                x as int + 1 == lvl_m(x as int) * pow2(k as nat + 1) + pow2(k as nat),
                lvl_m(x as int) >= 0,
                pow2(k as nat + 1) >= 1;
        lemma_level_bound(x as int);
    }
    let half = pow2_exec(k - 1);
    let mut r: u32 = x + half;
    proof {
        assert(r as int == right_step_spec(x as int));
        assert(r as int + 1 - pow2(level_spec(r as int)) == x as int + 1);
        assert(x as int % 2 == 1);
        assert(x as int + 1 < wi);
        assert(climb_ok(r as int, wi));
    }
    while r >= w
        invariant
            climb_ok(r as int, wi),
            r as int + 1 - pow2(level_spec(r as int)) < wi,
            right_desc(r as int, wi) == right_spec(index.0 as int, wi),
            wi == node_width(size.0 as int),
            w == wi,
            1 <= wi <= 0x7fff_ffff,
            pow2(lg(wi) + 1) <= 0x8000_0000,
        decreases level_spec(r as int),
    {
        proof {
            lemma_outofrange_level(r as int, wi);
            lemma2_to64();
            assert(level_spec(r as int) >= 1);
            lemma_left(r as int);
            lemma_pow2_unfold(level_spec(r as int));
            lemma_level_bound(r as int);
        }
        let kr = level(r);
        let halfr = pow2_exec(kr - 1);
        r = r - halfr;
    }
    Ok(NodeIndex(r))
}

/// The sibling of a node: the other child of its parent.  Fails with
/// `InvalidIndex` at the root and past the tree bound.
pub fn sibling(index: NodeIndex, size: LeafIndex) -> (r: Result<NodeIndex, TreeError>)
    requires
        valid_leaf_count(size.0 as int),
    ensures
        (index.0 as int >= node_width(size.0 as int) || index.0 as int == root_spec(node_width(size.0 as int)))
            <==> (r matches Err(e) && e == TreeError::InvalidIndex),
        ((index.0 as int) < node_width(size.0 as int) && index.0 as int != root_spec(node_width(size.0 as int)))
            ==> (r matches Ok(s) && s.0 as int == sibling_spec(index.0 as int, node_width(size.0 as int))),
{
    let ghost wi = node_width(size.0 as int);
    let p = match parent(index, size) {
        Ok(p) => p,
        Err(e) => {
            return Err(e);
        },
    };
    proof {
        lemma_parent_props(index.0 as int, wi);
        if (index.0 as int) < p.0 as int {
            lemma_right_child(p.0 as int, wi);
        } else {
            lemma_left_child(p.0 as int, wi);
        }
        assert(level_spec(p.0 as int) >= 1);
    }
    if index.0 < p.0 {
        right_child(p, size)
    } else {
        left_child(p)
    }
}

/// The array positions of a sequence of node indices.
pub open spec fn ixs(s: Seq<NodeIndex>) -> Seq<int> {
    s.map(|i: int, n: NodeIndex| n.0 as int)
}

/// The direct path of a leaf: its ancestors from its parent up to and
/// including the root.  Fails with `InvalidIndex` past the tree bound.
pub fn direct_path(leaf: LeafIndex, size: LeafIndex) -> (r: Result<Vec<NodeIndex>, TreeError>)
    requires
        valid_leaf_count(size.0 as int),
    ensures
        leaf.0 >= size.0 <==> (r matches Err(e) && e == TreeError::InvalidIndex),
        leaf.0 < size.0 ==> (r matches Ok(v) && ixs(v@) == dpath(2 * leaf.0 as int, node_width(size.0 as int))),
{
    let w: u32 = 2 * size.0 - 1;
    let ghost wi = w as int;
    if leaf.0 >= size.0 {
        return Err(TreeError::InvalidIndex);
    }
    let root_ix = root(size);
    let x0: u32 = 2 * leaf.0;
    let mut v: Vec<NodeIndex> = Vec::new();
    let mut cur: u32 = x0;
    proof {
        assert(ixs(v@) =~= Seq::<int>::empty());
        assert(ixs(v@) + dpath(cur as int, wi) =~= dpath(x0 as int, wi));
    }
    while cur != root_ix.0
        invariant
            valid_leaf_count(size.0 as int),
            w == wi,
            wi == node_width(size.0 as int),
            root_ix.0 as int == root_spec(wi),
            0 <= (cur as int) < wi,
            ixs(v@) + dpath(cur as int, wi) == dpath(x0 as int, wi),
        decreases lg(wi) - level_spec(cur as int),
    {
        let p = match parent(NodeIndex(cur), size) {
            Ok(p) => p,
            Err(e) => {
                return Err(e);
            },
        };
        proof {
            lemma_parent_props(cur as int, wi);
            if level_spec(p.0 as int) > lg(wi) {
                lemma_root_unique(p.0 as int, wi);
            }
            assert(dpath(cur as int, wi) == seq![p.0 as int] + dpath(p.0 as int, wi));
        }
        v.push(p);
        cur = p.0;
        proof {
            assert(ixs(v@) + dpath(cur as int, wi) =~= dpath(x0 as int, wi));
        }
    }
    proof {
        assert(dpath(cur as int, wi) =~= Seq::<int>::empty());
        assert(ixs(v@) =~= ixs(v@) + dpath(cur as int, wi));
    }
    Ok(v)
}

/// The copath of a leaf: the sibling of each node of its chain below the
/// root — the resolution targets for path encryption.  Fails with
/// `InvalidIndex` past the tree bound.
pub fn copath(leaf: LeafIndex, size: LeafIndex) -> (r: Result<Vec<NodeIndex>, TreeError>)
    requires
        valid_leaf_count(size.0 as int),
    ensures
        leaf.0 >= size.0 <==> (r matches Err(e) && e == TreeError::InvalidIndex),
        leaf.0 < size.0 ==> (r matches Ok(v) && ixs(v@) == cpath(2 * leaf.0 as int, node_width(size.0 as int))),
{
    let w: u32 = 2 * size.0 - 1;
    let ghost wi = w as int;
    if leaf.0 >= size.0 {
        return Err(TreeError::InvalidIndex);
    }
    let root_ix = root(size);
    let x0: u32 = 2 * leaf.0;
    let mut v: Vec<NodeIndex> = Vec::new();
    let mut cur: u32 = x0;
    proof {
        assert(ixs(v@) =~= Seq::<int>::empty());
        assert(ixs(v@) + cpath(cur as int, wi) =~= cpath(x0 as int, wi));
    }
    while cur != root_ix.0
        invariant
            valid_leaf_count(size.0 as int),
            w == wi,
            wi == node_width(size.0 as int),
            root_ix.0 as int == root_spec(wi),
            0 <= (cur as int) < wi,
            ixs(v@) + cpath(cur as int, wi) == cpath(x0 as int, wi),
        decreases lg(wi) - level_spec(cur as int),
    {
        let s = match sibling(NodeIndex(cur), size) {
            Ok(s) => s,
            Err(e) => {
                return Err(e);
            },
        };
        let p = match parent(NodeIndex(cur), size) {
            Ok(p) => p,
            Err(e) => {
                return Err(e);
            },
        };
        proof {
            lemma_parent_props(cur as int, wi);
            if level_spec(p.0 as int) > lg(wi) {
                lemma_root_unique(p.0 as int, wi);
            }
            assert(cpath(cur as int, wi) == seq![sibling_spec(cur as int, wi)] + cpath(p.0 as int, wi));
        }
        v.push(s);
        cur = p.0;
        proof {
            assert(ixs(v@) + cpath(cur as int, wi) =~= cpath(x0 as int, wi));
        }
    }
    proof {
        assert(cpath(cur as int, wi) =~= Seq::<int>::empty());
        assert(ixs(v@) =~= ixs(v@) + cpath(cur as int, wi));
    }
    Ok(v)
}

} // verus!
