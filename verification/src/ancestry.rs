//! Ancestry in the block-tree.
//!
//! A walk along parent links is cut off after as many blocks as the tree has
//! room for. That loses nothing: a walk that meets its goal at all meets it
//! within that many steps.

use vstd::prelude::*;
use vstd::set_lib::*;

use crate::blocks as tree;
use crate::blocks::{BlockEntry, NONE_REF};

verus! {

/// The `n`-th ancestor of `idx`, itself for `0`.
pub open spec fn ancestor(s: Seq<BlockEntry>, idx: u32, n: nat) -> u32
    decreases n,
{
    if n == 0 {
        idx
    } else {
        s[ancestor(s, idx, (n - 1) as nat) as int].parent_ref
    }
}

proof fn lemma_descends_monotone(s: Seq<BlockEntry>, idx: u32, target: u32, few: nat, many: nat)
    requires
        few <= many,
        tree::descends(s, idx, target, few),
    ensures
        tree::descends(s, idx, target, many),
    decreases few,
{
    if idx != target && s[idx as int].parent_ref != NONE_REF {
        lemma_descends_monotone(
            s,
            s[idx as int].parent_ref,
            target,
            (few - 1) as nat,
            (many - 1) as nat,
        );
    }
}

/// The fewest steps in which the walk from `idx` meets `target`.
spec fn is_distance(s: Seq<BlockEntry>, idx: u32, target: u32, k: nat) -> bool {
    forall|m: nat| #[trigger] tree::descends(s, idx, target, m) <==> m >= k
}

proof fn lemma_distance_exists(s: Seq<BlockEntry>, idx: u32, target: u32, steps: nat) -> (k: nat)
    requires
        tree::descends(s, idx, target, steps),
    ensures
        1 <= k <= steps,
        is_distance(s, idx, target, k),
    decreases steps,
{
    if tree::descends(s, idx, target, (steps - 1) as nat) {
        lemma_distance_exists(s, idx, target, (steps - 1) as nat)
    } else {
        assert forall|m: nat| #[trigger] tree::descends(s, idx, target, m) <==> m >= steps by {
            if m >= steps {
                lemma_descends_monotone(s, idx, target, steps, m);
            } else if tree::descends(s, idx, target, m) {
                lemma_descends_monotone(s, idx, target, m, (steps - 1) as nat);
            }
        }
        steps
    }
}

proof fn lemma_distance_of_ancestor(s: Seq<BlockEntry>, idx: u32, target: u32, k: nat, i: nat)
    requires
        is_distance(s, idx, target, k),
        i < k,
    ensures
        is_distance(s, ancestor(s, idx, i), target, (k - i) as nat),
        tree::present(s, ancestor(s, idx, i)),
    decreases i,
{
    if i > 0 {
        let before = (i - 1) as nat;
        let a = ancestor(s, idx, before);
        lemma_distance_of_ancestor(s, idx, target, k, before);
        let left = (k - before) as nat;
        assert(tree::descends(s, a, target, left));
        assert(!tree::descends(s, a, target, 1nat));
        let b = s[a as int].parent_ref;
        assert forall|m: nat| #[trigger] tree::descends(s, b, target, m) <==> m >= left - 1 by {
            assert(tree::descends(s, a, target, m + 1) <==> m + 1 >= left);
        }
    }
    assert(tree::descends(s, ancestor(s, idx, i), target, (k - i) as nat));
}

/// The slots that the walk from `idx` passes.
spec fn walk(s: Seq<BlockEntry>, idx: u32, k: nat) -> Seq<int> {
    Seq::new(k, |i: int| ancestor(s, idx, i as nat) as int)
}

proof fn lemma_walk(s: Seq<BlockEntry>, idx: u32, target: u32, k: nat)
    requires
        is_distance(s, idx, target, k),
    ensures
        walk(s, idx, k).no_duplicates(),
        walk(s, idx, k).to_set().subset_of(set_int_range(0, s.len() as int)),
        walk(s, idx, k).to_set().len() == k,
        k <= s.len(),
{
    let w = walk(s, idx, k);
    assert forall|i: int, j: int| 0 <= i < w.len() && 0 <= j < w.len() && i != j implies w[i]
        != w[j] by {
        lemma_distance_of_ancestor(s, idx, target, k, i as nat);
        lemma_distance_of_ancestor(s, idx, target, k, j as nat);
        if w[i] == w[j] {
            let a = ancestor(s, idx, i as nat);
            assert(tree::descends(s, a, target, (k - i) as nat));
            assert(tree::descends(s, a, target, (k - j) as nat));
        }
    }
    assert forall|v: int| w.to_set().contains(v) implies set_int_range(0, s.len() as int).contains(
        v,
    ) by {
        let i = choose|i: int| 0 <= i < w.len() && w[i] == v;
        lemma_distance_of_ancestor(s, idx, target, k, i as nat);
    }
    w.unique_seq_to_set();
    lemma_int_range(0, s.len() as int);
    lemma_len_subset(w.to_set(), set_int_range(0, s.len() as int));
}

/// A walk that meets its goal meets it within as many steps as the tree has
/// slots.
pub proof fn bounded_walks_suffice(s: Seq<BlockEntry>, idx: u32, target: u32, steps: nat)
    requires
        tree::descends(s, idx, target, steps),
    ensures
        tree::descends(s, idx, target, s.len()),
{
    let k = lemma_distance_exists(s, idx, target, steps);
    lemma_walk(s, idx, target, k);
}

/// A subtree is closed under children: a block whose parent is in it is in it
/// too.
pub proof fn subtree_is_closed(s: Seq<BlockEntry>, child: u32, target: u32)
    requires
        tree::present(s, child),
        s[child as int].parent_ref != NONE_REF,
        tree::descends(s, s[child as int].parent_ref, target, s.len()),
    ensures
        tree::descends(s, child, target, s.len()),
{
    assert(tree::descends(s, child, target, s.len() + 1));
    bounded_walks_suffice(s, child, target, s.len() + 1);
}

} // verus!
