//! The range-sum tree itself: a flat buffer of `2 * capacity` cells whose
//! second half holds the stored values and whose first half holds, at every
//! index `i >= 1`, the sum of the two cells at `2 * i` and `2 * i + 1`.

use vstd::prelude::*;

use crate::sums::in_i32_range;
use crate::sums::int_values;
use crate::sums::is_power_of_two;
use crate::sums::lemma_next_pow2_ge;
use crate::sums::lemma_next_pow2_is_power_of_two;
use crate::sums::lemma_next_pow2_minimal;
use crate::sums::lemma_pow2_64;
use crate::sums::lemma_pow2_mono;
use crate::sums::lemma_pow2_pos;
use crate::sums::lemma_power_of_two_gap;
use crate::sums::lemma_range_sum_split;
use crate::sums::lemma_range_sum_subrange;
use crate::sums::next_pow2;
use crate::sums::padded;
use crate::sums::pow2;
use crate::sums::range_sum;

verus! {

/// A fixed-capacity binary tree over integers, stored in level order in a
/// flat buffer, supporting inclusive range-sum queries and point updates.
pub struct SegmentTree {
    tree: Vec<i32>,
    n: usize,
}

/// The heap-sum invariant: every internal cell of `b` in `[1, n)` holds the
/// sum of its two children.
pub open spec fn heap_ok(b: Seq<int>, n: nat) -> bool {
    forall|i: int| 1 <= i < n ==> #[trigger] b[i] == b[2 * i] + b[2 * i + 1]
}

/// The value that cell `i` of a buffer over the stored sequence `leaves`
/// must hold: the stored value itself for leaf cells, and the sum of the
/// two child cells for internal ones.
pub open spec fn node_val(leaves: Seq<int>, i: int) -> int
    decreases 2 * leaves.len() - i,
{
    let n = leaves.len() as int;
    if i < 1 || i >= 2 * n {
        0
    } else if i >= n {
        leaves[i - n]
    } else {
        node_val(leaves, 2 * i) + node_val(leaves, 2 * i + 1)
    }
}

/// Every cell of the buffer over the stored sequence `leaves` fits in an
/// `i32`; what construction and updates need to stay free of overflow.
pub open spec fn tree_fits_i32(leaves: Seq<int>) -> bool {
    forall|i: int| 1 <= i < 2 * leaves.len() ==> in_i32_range(#[trigger] node_val(leaves, i))
}

/// `i` lies on the upward path from cell `j` to the root (cell 1),
/// endpoints included.
pub open spec fn on_path(i: int, j: int) -> bool
    decreases j,
{
    if i < 1 || j < 1 {
        false
    } else if i == j {
        true
    } else if j <= i {
        false
    } else {
        on_path(i, j / 2)
    }
}

impl SegmentTree {
    /// The whole backing buffer as mathematical integers; cell 0 is unused.
    pub closed spec fn buffer(self) -> Seq<int> {
        self.tree@.map_values(|v: i32| v as int)
    }

    /// The number of value slots; a power of two, fixed at construction.
    pub closed spec fn capacity(self) -> nat {
        self.n as nat
    }

    /// Structural well-formedness: a power-of-two capacity, a buffer of
    /// twice that length, and the heap-sum invariant on every internal cell.
    pub open spec fn wf(self) -> bool {
        &&& self.capacity() >= 1
        &&& is_power_of_two(self.capacity())
        &&& self.buffer().len() == 2 * self.capacity()
        &&& heap_ok(self.buffer(), self.capacity())
    }
}

impl View for SegmentTree {
    type V = Seq<int>;

    /// The stored values: the second half of the buffer.
    open spec fn view(&self) -> Seq<int> {
        self.buffer().subrange(self.capacity() as int, (2 * self.capacity()) as int)
    }
}

/// Under the heap-sum invariant, every cell of the buffer holds exactly
/// `node_val` of the stored sequence.
pub proof fn lemma_heap_cells_are_node_vals(b: Seq<int>, n: nat, i: int)
    requires
        n >= 1,
        b.len() == 2 * n,
        heap_ok(b, n),
        1 <= i < 2 * n,
    ensures
        b[i] == node_val(b.subrange(n as int, 2 * n as int), i),
    decreases 2 * n - i,
{
    let leaves = b.subrange(n as int, 2 * n as int);
    assert(leaves.len() == n);
    if i >= n {
        assert(leaves[i - n] == b[i]);
    } else {
        lemma_heap_cells_are_node_vals(b, n, 2 * i);
        lemma_heap_cells_are_node_vals(b, n, 2 * i + 1);
    }
}

/// Everything on a path lies at or below the path's lower endpoint.
proof fn lemma_on_path_le(i: int, j: int)
    requires
        on_path(i, j),
    ensures
        1 <= i <= j,
    decreases j,
{
    if i != j {
        lemma_on_path_le(i, j / 2);
    }
}

/// A path cell strictly below the endpoint is already on the shortened path.
proof fn lemma_on_path_half(i: int, j: int)
    requires
        on_path(i, j),
        i < j,
    ensures
        on_path(i, j / 2),
        i <= j / 2,
{
    lemma_on_path_le(i, j / 2);
}

/// The parent of a path cell other than the root is on the path too.
proof fn lemma_on_path_parent(i: int, j: int)
    requires
        on_path(i, j),
        2 <= i,
    ensures
        on_path(i / 2, j),
    decreases j,
{
    if i == j {
        assert(on_path(i / 2, j / 2));
    } else {
        lemma_on_path_parent(i, j / 2);
    }
}

/// An internal path cell passes the path on to exactly one of its children.
proof fn lemma_on_path_child(i: int, j: int)
    requires
        on_path(i, j),
        1 <= i < j,
    ensures
        on_path(2 * i, j) != on_path(2 * i + 1, j),
    decreases j,
{
    if j == 2 * i {
        assert(on_path(2 * i, j));
        assert(!on_path(2 * i + 1, j));
    } else if j == 2 * i + 1 {
        assert(on_path(2 * i + 1, j));
        assert(on_path(2 * i, j) == on_path(2 * i, i));
        assert(!on_path(2 * i, i));
    } else {
        assert(on_path(i, j / 2));
        lemma_on_path_le(i, j / 2);
        lemma_on_path_child(i, j / 2);
        assert(on_path(2 * i, j) == on_path(2 * i, j / 2));
        assert(on_path(2 * i + 1, j) == on_path(2 * i + 1, j / 2));
    }
}

/// Two cells on the same upward path are ordered by ancestry.
proof fn lemma_on_path_total(i: int, j: int, l: int)
    requires
        on_path(i, l),
        on_path(j, l),
    ensures
        on_path(i, j) || on_path(j, i),
    decreases l,
{
    if i == l || j == l {
    } else {
        lemma_on_path_total(i, j, l / 2);
    }
}

/// Replacing stored value `k` by `v` shifts `node_val` by `v - leaves[k]`
/// on every cell on the path from leaf cell `len + k` to the root, and on
/// no other cell.
pub proof fn lemma_node_val_update(leaves: Seq<int>, k: int, v: int, i: int)
    requires
        0 <= k < leaves.len(),
        1 <= i < 2 * leaves.len(),
    ensures
        node_val(leaves.update(k, v), i) == node_val(leaves, i) + (if on_path(
            i,
            leaves.len() + k,
        ) {
            v - leaves[k]
        } else {
            0
        }),
    decreases 2 * leaves.len() - i,
{
    let n = leaves.len() as int;
    let lf = n + k;
    if i >= n {
        if i == lf {
        } else if i > lf {
            assert(!on_path(i, lf));
        } else {
            assert(on_path(i, lf) == on_path(i, lf / 2));
            assert(lf / 2 < n <= i);
            assert(!on_path(i, lf / 2));
        }
    } else {
        lemma_node_val_update(leaves, k, v, 2 * i);
        lemma_node_val_update(leaves, k, v, 2 * i + 1);
        if on_path(i, lf) {
            lemma_on_path_child(i, lf);
        } else {
            if on_path(2 * i, lf) {
                lemma_on_path_parent(2 * i, lf);
            }
            if on_path(2 * i + 1, lf) {
                lemma_on_path_parent(2 * i + 1, lf);
            }
        }
    }
}

/// Under the heap-sum invariant, cell `i` covers the buffer positions
/// `[i * pow2(e), (i + 1) * pow2(e))` — all of them in the leaf half — and
/// holds exactly their sum.
proof fn lemma_cell_covers(b: Seq<int>, n: nat, i: int, e: nat)
    requires
        n >= 1,
        b.len() == 2 * n,
        heap_ok(b, n),
        1 <= i,
        n <= i * pow2(e),
        (i + 1) * pow2(e) <= 2 * n,
    ensures
        b[i] == range_sum(b, i * pow2(e), (i + 1) * pow2(e) - 1),
    decreases e,
{
    let p = pow2(e) as int;
    lemma_pow2_pos(e);
    assert(i * p + p == (i + 1) * p && i * p <= (i + 1) * p) by (nonlinear_arith)
        requires
            p >= 1,
    ;
    if e == 0 {
        assert(p == 1);
        assert(range_sum(b, i + 1, i) == 0);
        assert(range_sum(b, i, i) == b[i]);
        assert(i * p == i && (i + 1) * p == i + 1) by (nonlinear_arith)
            requires
                p == 1,
        ;
    } else {
        let h = pow2((e - 1) as nat) as int;
        lemma_pow2_pos((e - 1) as nat);
        assert(p == 2 * h);
        assert(i < n) by (nonlinear_arith)
            requires
                (i + 1) * p <= 2 * n,
                p >= 2,
                i >= 1,
                n >= 1,
        ;
        assert((2 * i) * h == i * p && (2 * i + 1) * h == i * p + h && (2 * i + 2) * h == (i + 1)
            * p && h <= p) by (nonlinear_arith)
            requires
                p == 2 * h,
                h >= 1,
                i >= 1,
        ;
        lemma_cell_covers(b, n, 2 * i, (e - 1) as nat);
        lemma_cell_covers(b, n, 2 * i + 1, (e - 1) as nat);
        lemma_range_sum_split(b, i * p, i * p + h - 1, (i + 1) * p - 1);
    }
}

/// The smallest power of two that is at least `len`, computed by doubling.
fn next_power_of_two_usize(len: usize) -> (n: usize)
    requires
        2 * next_pow2(len as nat) <= usize::MAX,
    ensures
        n as nat == next_pow2(len as nat),
{
    proof {
        lemma_next_pow2_ge(len as nat);
        lemma_next_pow2_is_power_of_two(len as nat);
    }
    let mut p: usize = 1;
    while p < len
        invariant
            1 <= p,
            is_power_of_two(p as nat),
            p as nat <= next_pow2(len as nat),
            next_pow2(len as nat) >= len as nat,
            is_power_of_two(next_pow2(len as nat)),
            2 * next_pow2(len as nat) <= usize::MAX,
        decreases 2 * next_pow2(len as nat) - p,
    {
        proof {
            lemma_power_of_two_gap(p as nat, next_pow2(len as nat));
        }
        p = p * 2;
    }
    proof {
        lemma_next_pow2_minimal(len as nat, p as nat);
    }
    p
}

impl SegmentTree {
    /// Builds the tree over `vals`: the capacity is the smallest power of
    /// two at least `vals.len()`, the stored sequence is `vals` padded with
    /// zeros up to that capacity, and every internal cell is filled with the
    /// sum of its children, from the bottom level upward.
    ///
    /// The preconditions are machine limits only: the buffer's length
    /// `2 * capacity` must be addressable, and every cell's sum must fit in
    /// an `i32`, since that is what the buffer stores.
    pub fn new(vals: Vec<i32>) -> (t: SegmentTree)
        requires
            2 * next_pow2(vals@.len()) <= usize::MAX,
            tree_fits_i32(padded(int_values(vals@), next_pow2(vals@.len()))),
        ensures
            t.wf(),
            t.capacity() == next_pow2(vals@.len()),
            t@ == padded(int_values(vals@), next_pow2(vals@.len())),
    {
        let ghost cap = next_pow2(vals@.len());
        let ghost leaves = padded(int_values(vals@), cap);
        proof {
            lemma_next_pow2_ge(vals@.len());
            lemma_next_pow2_is_power_of_two(vals@.len());
            assert(leaves.len() == cap);
        }
        let n = next_power_of_two_usize(vals.len());
        let mut tree: Vec<i32> = Vec::new();
        let mut z: usize = 0;
        while z < 2 * n
            invariant
                tree@.len() == z,
                z <= 2 * n,
                n as nat == cap,
                2 * cap <= usize::MAX,
                forall|j: int| 0 <= j < z ==> tree@[j] == 0i32,
            decreases 2 * n - z,
        {
            tree.push(0);
            z = z + 1;
        }
        let mut j: usize = 0;
        while j < vals.len()
            invariant
                j <= vals@.len(),
                n as nat == cap,
                vals@.len() <= cap,
                2 * cap <= usize::MAX,
                tree@.len() == 2 * n,
                forall|q: int| 0 <= q < j ==> tree@[n + q] == vals@[q],
                forall|q: int| 0 <= q < 2 * n && !(n <= q < n + j) ==> tree@[q] == 0i32,
            decreases vals@.len() - j,
        {
            let v = vals[j];
            tree[n + j] = v;
            j = j + 1;
        }
        assert forall|q: int| n <= q < 2 * n implies tree@[q] as int == leaves[q - n] by {
            assert(leaves[q - n] == if q - n < vals@.len() {
                vals@[q - n] as int
            } else {
                0
            });
        }
        let mut i: usize = n;
        while i > 1
            invariant
                1 <= i <= n,
                n as nat == cap,
                cap >= 1,
                2 * cap <= usize::MAX,
                tree@.len() == 2 * n,
                leaves.len() == cap,
                tree_fits_i32(leaves),
                forall|q: int| n <= q < 2 * n ==> tree@[q] as int == leaves[q - n],
                forall|q: int| i <= q < n ==> tree@[q] as int == node_val(leaves, q),
            decreases i,
        {
            i = i - 1;
            proof {
                assert(tree@[2 * i as int] as int == node_val(leaves, 2 * i as int));
                assert(tree@[2 * i + 1 as int] as int == node_val(leaves, 2 * i + 1));
                assert(node_val(leaves, i as int) == node_val(leaves, 2 * i as int) + node_val(
                    leaves,
                    2 * i + 1,
                ));
                assert(in_i32_range(node_val(leaves, i as int)));
            }
            let s = tree[2 * i] + tree[2 * i + 1];
            tree[i] = s;
        }
        let t = SegmentTree { tree, n };
        proof {
            assert forall|q: int| 0 <= q < 2 * cap implies t.buffer()[q] == tree@[q] as int by {}
            assert(heap_ok(t.buffer(), cap)) by {
                assert forall|q: int| 1 <= q < cap implies #[trigger] t.buffer()[q] == t.buffer()[2
                    * q] + t.buffer()[2 * q + 1] by {
                    assert(node_val(leaves, q) == node_val(leaves, 2 * q) + node_val(
                        leaves,
                        2 * q + 1,
                    ));
                }
            }
            assert(t@ =~= leaves);
        }
        t
    }

    /// Adds `delta` to the stored value at `position` (any slot below the
    /// capacity, padding included) and refreshes every cell on the path to
    /// the root, so the heap-sum invariant holds again afterwards; no other
    /// stored value changes.
    ///
    /// A `position` at or above the capacity is rejected by precondition
    /// rather than tolerated, as is a `delta` that would push any cell's
    /// sum out of the `i32` range.
    pub fn add(&mut self, position: usize, delta: i32)
        requires
            old(self).wf(),
            position < old(self).capacity(),
            tree_fits_i32(
                old(self)@.update(position as int, old(self)@[position as int] + delta as int),
            ),
        ensures
            final(self).wf(),
            final(self).capacity() == old(self).capacity(),
            final(self)@ == old(self)@.update(
                position as int,
                old(self)@[position as int] + delta as int,
            ),
    {
        let ghost b0 = old(self).buffer();
        let ghost cap = old(self).capacity();
        let ghost leaves0 = old(self)@;
        let ghost lf = cap + position as int;
        let ghost new_leaves = leaves0.update(position as int, leaves0[position as int] + delta);
        proof {
            assert(leaves0.len() == cap);
            assert forall|q: int| 1 <= q < 2 * cap implies b0[q] == node_val(leaves0, q) by {
                lemma_heap_cells_are_node_vals(b0, cap, q);
            }
            assert forall|q: int| 1 <= q < 2 * cap implies node_val(new_leaves, q) == node_val(
                leaves0,
                q,
            ) + (if on_path(q, lf) {
                delta as int
            } else {
                0
            }) by {
                lemma_node_val_update(
                    leaves0,
                    position as int,
                    leaves0[position as int] + delta,
                    q,
                );
            }
        }
        // The buffer length is a usize, so 2 * capacity is addressable.
        let _cells = self.tree.len();
        let start = position + self.n;
        proof {
            assert(on_path(lf, lf));
            assert(in_i32_range(node_val(new_leaves, lf)));
            assert(node_val(new_leaves, lf) == new_leaves[lf - cap]);
            assert(b0[lf] == node_val(leaves0, lf));
            assert(node_val(leaves0, lf) == leaves0[lf - cap]);
            assert(self.buffer()[lf] == self.tree@[lf] as int);
        }
        let v = self.tree[start];
        self.tree[start] = v + delta;
        let mut j = start / 2;
        proof {
            if start >= 2 {
                lemma_on_path_parent(lf, lf);
            }
            assert forall|q: int|
                1 <= q < 2 * cap && on_path(q, lf) && q > j as int && q != lf implies false by {
                lemma_on_path_le(q, lf);
                lemma_on_path_half(q, lf);
            }
        }
        while j >= 1
            invariant
                self.n as nat == cap,
                cap >= 1,
                2 * cap <= usize::MAX,
                self.buffer().len() == 2 * cap,
                j < cap,
                j as int == 0 || on_path(j as int, lf),
                cap <= lf < 2 * cap,
                leaves0.len() == cap,
                new_leaves == leaves0.update(
                    position as int,
                    leaves0[position as int] + delta as int,
                ),
                position < cap,
                heap_ok(b0, cap),
                b0.len() == 2 * cap,
                self.buffer()[0] == b0[0],
                forall|q: int|
                    1 <= q < 2 * cap ==> #[trigger] self.buffer()[q] == b0[q] + (if on_path(q, lf)
                        && q > j as int {
                        delta as int
                    } else {
                        0
                    }),
                forall|q: int| 1 <= q < 2 * cap ==> b0[q] == node_val(leaves0, q),
                forall|q: int|
                    1 <= q < 2 * cap ==> node_val(new_leaves, q) == node_val(leaves0, q) + (if
                    on_path(q, lf) {
                        delta as int
                    } else {
                        0
                    }),
                tree_fits_i32(new_leaves),
            decreases j,
        {
            proof {
                lemma_on_path_child(j as int, lf);
                assert(new_leaves.len() == cap);
                assert(in_i32_range(node_val(new_leaves, j as int)));
                assert(self.buffer()[2 * j as int] == self.tree@[2 * j as int] as int);
                assert(self.buffer()[2 * j + 1] == self.tree@[2 * j + 1] as int);
                assert(b0[j as int] == b0[2 * j as int] + b0[2 * j + 1]);
                if on_path(2 * j as int, lf) {
                    assert(self.buffer()[2 * j as int] == b0[2 * j as int] + delta as int);
                    assert(self.buffer()[2 * j + 1] == b0[2 * j + 1]);
                } else {
                    assert(self.buffer()[2 * j as int] == b0[2 * j as int]);
                    assert(self.buffer()[2 * j + 1] == b0[2 * j + 1] + delta as int);
                }
                let bj = b0[j as int];
                assert(self.tree@[2 * j as int] as int + self.tree@[2 * j + 1] as int == bj
                    + delta as int);
                assert(node_val(new_leaves, j as int) == b0[j as int] + delta as int);
            }
            let a = self.tree[2 * j] + self.tree[2 * j + 1];
            let ghost prev = self.buffer();
            self.tree[j] = a;
            proof {
                if j >= 2 {
                    lemma_on_path_parent(j as int, lf);
                }
                assert forall|q: int| 1 <= q < 2 * cap implies #[trigger] self.buffer()[q] == b0[q]
                    + (if on_path(q, lf) && q > j as int / 2 {
                    delta as int
                } else {
                    0
                }) by {
                    assert(self.buffer()[q] == self.tree@[q] as int);
                    if q == j as int {
                        assert(self.buffer()[q] == a as int);
                    } else {
                        assert(self.buffer()[q] == prev[q]);
                        if on_path(q, lf) && q > j as int / 2 && q < j as int {
                            lemma_on_path_total(q, j as int, lf);
                            if on_path(q, j as int) {
                                lemma_on_path_half(q, j as int);
                            } else {
                                lemma_on_path_le(j as int, q);
                            }
                        }
                    }
                }
            }
            j = j / 2;
        }
        proof {
            assert forall|q: int| 1 <= q < 2 * cap implies #[trigger] self.buffer()[q] == b0[q] + (
            if on_path(q, lf) {
                delta as int
            } else {
                0
            }) by {
                if on_path(q, lf) {
                    lemma_on_path_le(q, lf);
                }
            }
            assert(heap_ok(self.buffer(), cap)) by {
                assert forall|q: int| 1 <= q < cap implies #[trigger] self.buffer()[q]
                    == self.buffer()[2 * q] + self.buffer()[2 * q + 1] by {
                    if on_path(q, lf) {
                        lemma_on_path_child(q, lf);
                    } else {
                        if on_path(2 * q, lf) {
                            lemma_on_path_parent(2 * q, lf);
                        }
                        if on_path(2 * q + 1, lf) {
                            lemma_on_path_parent(2 * q + 1, lf);
                        }
                    }
                }
            }
            assert forall|q: int| cap <= q < 2 * cap implies self.buffer()[q] == new_leaves[q
                - cap] by {
                if q != lf {
                    if q > lf {
                        assert(!on_path(q, lf));
                    } else {
                        assert(on_path(q, lf) == on_path(q, lf / 2));
                        assert(lf / 2 < cap <= q);
                    }
                }
            }
            assert(self@ =~= new_leaves);
        }
    }

    /// The sum of the stored values at positions `l ..= r` (slots below the
    /// capacity, so zero padding past the original input is included when
    /// the range reaches it).
    ///
    /// Inverted ranges (`l > r`) and bounds at or above the capacity are
    /// rejected by precondition rather than tolerated, and the range's sum
    /// must fit in the returned `i32`.
    pub fn sum(&self, l: usize, r: usize) -> (s: i32)
        requires
            self.wf(),
            l <= r < self.capacity(),
            in_i32_range(range_sum(self@, l as int, r as int)),
        ensures
            s as int == range_sum(self@, l as int, r as int),
    {
        let ghost b = self.buffer();
        let ghost cap = self.capacity();
        let ghost lo0 = cap + l as int;
        let ghost hi0 = cap + r as int;
        // The buffer length is a usize, so 2 * capacity is addressable.
        let _cells = self.tree.len();
        let mut lo = l + self.n;
        let mut hi = r + self.n;
        let mut acc: i64 = 0;
        let ghost mut e: nat = 0;
        proof {
            lemma_pow2_64();
            let p0 = pow2(0) as int;
            assert(p0 == 1);
            assert(lo as int * p0 == lo as int && (hi as int + 1) * p0 == hi as int + 1)
                by (nonlinear_arith)
                requires
                    p0 == 1,
            ;
            assert(range_sum(b, lo0, lo0 - 1) == 0);
            assert(range_sum(b, hi0 + 1, hi0) == 0);
        }
        while lo <= hi
            invariant
                self.wf(),
                b == self.buffer(),
                cap == self.capacity(),
                b.len() == 2 * cap,
                2 * cap <= usize::MAX,
                cap <= lo0 <= hi0 < 2 * cap,
                1 <= lo,
                hi < 2 * cap,
                lo <= hi + 1,
                cap <= lo as int * pow2(e),
                (hi + 1) * pow2(e) <= 2 * cap,
                lo0 <= lo as int * pow2(e),
                (hi + 1) * pow2(e) <= hi0 + 1,
                acc as int == range_sum(b, lo0, lo as int * pow2(e) - 1) + range_sum(
                    b,
                    (hi + 1) * pow2(e),
                    hi0,
                ),
                -(e as int) * 0x1_0000_0000 <= acc as int <= (e as int) * 0x1_0000_0000,
                usize::MAX as int + 1 <= pow2(64),
            decreases hi,
        {
            let ghost p = pow2(e) as int;
            proof {
                lemma_pow2_pos(e);
                assert(p <= 2 * cap) by (nonlinear_arith)
                    requires
                        1 <= lo as int,
                        lo <= hi,
                        (hi + 1) * p <= 2 * cap,
                        p >= 1,
                ;
                assert(e <= 64) by {
                    if e > 64 {
                        lemma_pow2_mono(64, e);
                    }
                }
            }
            if lo % 2 == 1 {
                proof {
                    assert((lo as int + 1) * p == lo as int * p + p) by (nonlinear_arith);
                    assert((lo as int + 1) * p <= (hi as int + 1) * p) by (nonlinear_arith)
                        requires
                            lo <= hi,
                            p >= 1,
                    ;
                    lemma_cell_covers(b, cap, lo as int, e);
                    lemma_range_sum_split(b, lo0, lo as int * p - 1, (lo + 1) * p - 1);
                }
                acc = acc + (self.tree[lo] as i64);
                lo = lo + 1;
            }
            if hi % 2 == 0 {
                proof {
                    assert(lo % 2 == 0);
                    assert(lo <= hi);
                    assert(hi as int * p == (hi as int + 1) * p - p) by (nonlinear_arith);
                    assert(lo as int * p <= hi as int * p) by (nonlinear_arith)
                        requires
                            lo <= hi,
                            p >= 1,
                    ;
                    lemma_cell_covers(b, cap, hi as int, e);
                    lemma_range_sum_split(b, hi as int * p, (hi + 1) * p - 1, hi0);
                }
                acc = acc + (self.tree[hi] as i64);
                hi = hi - 1;
            }
            proof {
                assert(lo % 2 == 0 && hi % 2 == 1);
                let a2 = lo as int / 2;
                let c2 = hi as int / 2;
                assert(lo == 2 * a2);
                assert(hi == 2 * c2 + 1);
                assert(a2 * (2 * p) == lo as int * p) by (nonlinear_arith)
                    requires
                        lo == 2 * a2,
                ;
                assert((c2 + 1) * (2 * p) == (hi as int + 1) * p) by (nonlinear_arith)
                    requires
                        hi == 2 * c2 + 1,
                ;
                e = e + 1;
                assert(pow2(e) == 2 * p);
            }
            lo = lo / 2;
            hi = hi / 2;
        }
        proof {
            assert(lo == hi + 1);
            assert(lo as int * pow2(e) == (hi + 1) * pow2(e));
            lemma_range_sum_split(b, lo0, lo as int * pow2(e) - 1, hi0);
            assert(acc as int == range_sum(b, lo0, hi0));
            assert(self@ == b.subrange(cap as int, 2 * cap as int));
            lemma_range_sum_subrange(b, cap as int, 2 * cap as int, l as int, r as int);
        }
        acc as i32
    }
}

impl SegmentTree {
    /// The number of buffer cells, `2 * capacity`.
    pub(crate) fn cell_count(&self) -> (c: usize)
        ensures
            c as nat == self.buffer().len(),
    {
        self.tree.len()
    }

    /// The value held in buffer cell `i`.
    pub(crate) fn cell(&self, i: usize) -> (v: i32)
        requires
            i < self.buffer().len(),
        ensures
            v as int == self.buffer()[i as int],
    {
        self.tree[i]
    }

    /// The capacity as a machine word.
    pub(crate) fn capacity_value(&self) -> (c: usize)
        ensures
            c as nat == self.capacity(),
    {
        self.n
    }
}

/// Construction from a stored-value count that is already a power of two
/// keeps exactly that capacity (`SegmentTree::new` guarantees the capacity
/// `next_pow2(vals.len())`, and on powers of two `next_pow2` is the
/// identity).
pub proof fn lemma_capacity_unchanged_for_power_of_two(t: SegmentTree, len: nat)
    requires
        is_power_of_two(len),
        t.capacity() == next_pow2(len),
    ensures
        t.capacity() == len,
{
    crate::sums::lemma_next_pow2_of_power_of_two(len);
}

/// Reading is idempotent: `sum` pins its result to `range_sum` of the
/// stored values alone, so two calls with the same bounds on an unchanged
/// tree return the same integer.
pub proof fn lemma_sum_repeatable(t: SegmentTree, l: int, r: int, s1: int, s2: int)
    requires
        s1 == range_sum(t@, l, r),
        s2 == range_sum(t@, l, r),
    ensures
        s1 == s2,
{
}

} // verus!
