//! Where the walk down a branch ends.

use vstd::prelude::*;
use vstd::set_lib::*;

use crate::ancestry;
use crate::blocks as tree;
use crate::blocks::{BlockEntry, NONE_REF};
use crate::chain_heads as tips;
use crate::chain_heads::Anchor;

verus! {

/// Whether the walk down from `start` passes `n` blocks of the tree, no two of
/// them the same, and ends there: the last one is linked to no parent, or to an
/// empty slot of the tree.
pub open spec fn path(s: Seq<BlockEntry>, start: u32, n: nat) -> bool {
    &&& n >= 1
    &&& s.len() <= NONE_REF
    &&& forall|i: nat|
        i < n ==> tree::present(s, #[trigger] ancestry::ancestor(s, start, i))
    &&& forall|i: nat, j: nat|
        i < j < n ==> #[trigger] ancestry::ancestor(s, start, i) != #[trigger] ancestry::ancestor(
            s,
            start,
            j,
        )
    &&& ends_open(s, start, n) || ancestry::ancestor(s, start, n) == NONE_REF
}

/// Whether the last of `n` blocks below `start` is linked to an empty slot of the
/// tree.
pub open spec fn ends_open(s: Seq<BlockEntry>, start: u32, n: nat) -> bool {
    &&& ancestry::ancestor(s, start, n) < s.len()
    &&& !tree::present(s, ancestry::ancestor(s, start, n))
}

/// A path is no longer than the tree has slots, and shorter where it ends at an
/// empty one.
proof fn lemma_path_length(s: Seq<BlockEntry>, start: u32, n: nat)
    requires
        path(s, start, n),
    ensures
        n <= s.len(),
        ends_open(s, start, n) ==> n + 1 <= s.len(),
{
    let m = if ends_open(s, start, n) {
        n + 1
    } else {
        n
    };
    let w = Seq::new(m, |i: int| ancestry::ancestor(s, start, i as nat) as int);
    assert forall|i: int, j: int| 0 <= i < w.len() && 0 <= j < w.len() && i != j implies w[i]
        != w[j] by {
        let a = ancestry::ancestor(s, start, i as nat);
        let b = ancestry::ancestor(s, start, j as nat);
        if i < j {
            assert(tree::present(s, a));
        } else {
            assert(tree::present(s, b));
        }
    }
    assert forall|v: int| w.to_set().contains(v) implies set_int_range(0, s.len() as int).contains(
        v,
    ) by {
        let i = choose|i: int| 0 <= i < w.len() && w[i] == v;
        if i < n {
            assert(tree::present(s, ancestry::ancestor(s, start, i as nat)));
        }
    }
    w.unique_seq_to_set();
    lemma_int_range(0, s.len() as int);
    lemma_len_subset(w.to_set(), set_int_range(0, s.len() as int));
}

/// Whether the `k`-th block below `start` is the first, from the `i`-th on, that
/// is on the active chain.
pub open spec fn first_active(s: Seq<BlockEntry>, start: u32, i: nat, k: nat) -> bool {
    &&& i <= k
    &&& s[ancestry::ancestor(s, start, k) as int].active()
    &&& forall|j: nat|
        i <= j < k ==> !s[#[trigger] ancestry::ancestor(s, start, j) as int].active()
}

proof fn lemma_walk(
    s: Seq<BlockEntry>,
    start: u32,
    n: nat,
    i: nat,
    last: u32,
    steps: nat,
)
    requires
        path(s, start, n),
        i < n,
        steps >= n - i,
        ends_open(s, start, n) ==> steps >= n - i + 1,
    ensures
        match tips::anchor_of(s, ancestry::ancestor(s, start, i), last, steps) {
            Anchor::Connection(idx) => exists|k: nat|
                k < n && #[trigger] first_active(s, start, i, k) && idx == ancestry::ancestor(
                    s,
                    start,
                    k,
                ),
            Anchor::Tail(idx) => {
                &&& idx == ancestry::ancestor(s, start, (n - 1) as nat)
                &&& forall|j: nat|
                    i <= j < n ==> !s[#[trigger] ancestry::ancestor(s, start, j) as int].active()
            },
        },
        tree::reaches_active(s, ancestry::ancestor(s, start, i), steps) == (tips::anchor_of(
            s,
            ancestry::ancestor(s, start, i),
            last,
            steps,
        ) is Connection),
    decreases n - i,
{
    let cur = ancestry::ancestor(s, start, i);
    assert(tree::present(s, cur));
    let next = ancestry::ancestor(s, start, i + 1);
    assert(next == s[cur as int].parent_ref);
    if s[cur as int].active() {
        assert(first_active(s, start, i, i));
    } else if i + 1 < n {
        assert(tree::present(s, next));
        assert(next != NONE_REF);
        lemma_walk(s, start, n, i + 1, cur, (steps - 1) as nat);
        match tips::anchor_of(s, next, cur, (steps - 1) as nat) {
            Anchor::Connection(idx) => {
                let k = choose|k: nat|
                    k < n && #[trigger] first_active(s, start, i + 1, k) && idx
                        == ancestry::ancestor(s, start, k);
                assert(first_active(s, start, i, k)) by {
                    assert forall|j: nat| i <= j < k implies !s[#[trigger] ancestry::ancestor(
                        s,
                        start,
                        j,
                    ) as int].active() by {
                        if j == i {
                            assert(ancestry::ancestor(s, start, j) == cur);
                        }
                    }
                }
            },
            Anchor::Tail(idx) => {
                assert forall|j: nat| i <= j < n implies !s[#[trigger] ancestry::ancestor(
                    s,
                    start,
                    j,
                ) as int].active() by {
                    if j == i {
                        assert(ancestry::ancestor(s, start, j) == cur);
                    }
                }
            },
        }
    } else {
        assert forall|j: nat| i <= j < n implies !s[#[trigger] ancestry::ancestor(
            s,
            start,
            j,
        ) as int].active() by {
            assert(j == i);
        }
        if s[cur as int].parent_ref != NONE_REF {
            assert(!tree::present(s, next));
            assert(!tree::reaches_active(s, next, (steps - 1) as nat));
        }
    }
}

/// The walk down an acyclic path of `n` blocks, whose links stay in the range of
/// the tree, ends at the first block of the path that is on the active chain;
/// that is what `walks_to_active_chain` looks for. Where no block of the path is
/// on the active chain, it ends at the last one.
pub proof fn walk_ends_at_the_active_chain_or_the_last_block(
    s: Seq<BlockEntry>,
    start: u32,
    n: nat,
)
    requires
        path(s, start, n),
    ensures
        match tips::tip_anchor(s, start) {
            Anchor::Connection(idx) => exists|k: nat|
                k < n && #[trigger] first_active(s, start, 0, k) && idx == ancestry::ancestor(
                    s,
                    start,
                    k,
                ),
            Anchor::Tail(idx) => {
                &&& idx == ancestry::ancestor(s, start, (n - 1) as nat)
                &&& forall|j: nat|
                    j < n ==> !s[#[trigger] ancestry::ancestor(s, start, j) as int].active()
            },
        },
        tips::tip_anchor(s, start) is Connection <==> tree::reaches_active(s, start, s.len()),
{
    lemma_path_length(s, start, n);
    assert(ancestry::ancestor(s, start, 0) == start);
    lemma_walk(s, start, n, 0, start, s.len());
    match tips::tip_anchor(s, start) {
        Anchor::Connection(idx) => {},
        Anchor::Tail(idx) => {
            assert forall|j: nat| j < n implies !s[#[trigger] ancestry::ancestor(
                s,
                start,
                j,
            ) as int].active() by {
                assert(0 <= j);
            }
        },
    }
}

/// The walk from a slot that holds no block ends where it began.
pub proof fn walk_from_an_empty_slot_ends_there(s: Seq<BlockEntry>, start: u32)
    requires
        !tree::present(s, start),
    ensures
        tips::tip_anchor(s, start) == Anchor::Tail(start),
        !tree::reaches_active(s, start, s.len()),
{
}

} // verus!
