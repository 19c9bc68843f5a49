//! What an acquisition does next: which candidate it examines, when it tries
//! again, when it commits, and when the node becomes ready.

use vstd::prelude::*;

use crate::acquisition;
use crate::acquisition::{AcquisitionEvent, ActionView, RunView, StageView};
use crate::api::NodeView;
use crate::block_data::ChainBlock;
use crate::blocks as tree;
use crate::blocks::{BlockEntry, NONE_REF};
use crate::config_state::ConfigView;
use crate::derivation;
use crate::derivation::{CheckView, ProcessingError, ValidationReason};
use crate::lifecycle::LifecyclePhase;
use crate::processing;
use crate::recovery;
use crate::request_laws as requests;
use crate::retry_laws;

verus! {

// -- Chains of blocks --------------------------------------------------------

/// Whether the block at position `i` of the chain is in the tree and the one after
/// it is its parent; the last one has no parent in the tree.
pub open spec fn leads_on(s: Seq<BlockEntry>, chain: Seq<u32>, i: int) -> bool {
    &&& requests::holds_block(s, chain[i])
    &&& s[chain[i] as int].parent_ref == if i + 1 < chain.len() {
        chain[i + 1]
    } else {
        NONE_REF
    }
}

/// Whether `chain` leads from `tip` down along the parents to a block whose parent
/// is not in the tree.
pub open spec fn is_chain(s: Seq<BlockEntry>, chain: Seq<u32>, tip: u32) -> bool {
    &&& chain.len() > 0
    &&& chain[0] == tip
    &&& forall|i: int| 0 <= i < chain.len() ==> #[trigger] leads_on(s, chain, i)
}

/// The payload type of the block.
pub open spec fn type_of(entry: BlockEntry) -> u8 {
    entry.flags >> 3
}

proof fn lemma_segment(s: Seq<BlockEntry>, cur: u32, steps: nat, above: Seq<u32>)
    ensures
        processing::segment_below(s, cur, steps, above) matches Ok(segment) ==> {
            &&& segment.len() > above.len()
            &&& segment.take(above.len() as int) == above
            &&& is_chain(s, segment.skip(above.len() as int), cur)
        },
    decreases steps,
{
    if steps > 0 && tree::present(s, cur) {
        if s[cur as int].parent_ref == NONE_REF {
            let segment = above.push(cur);
            assert(segment.take(above.len() as int) =~= above);
            let chain = segment.skip(above.len() as int);
            assert(chain =~= seq![cur]);
            assert(leads_on(s, chain, 0));
        } else {
            let parent = s[cur as int].parent_ref;
            lemma_segment(s, parent, (steps - 1) as nat, above.push(cur));
            if let Ok(segment) = processing::segment_below(s, cur, steps, above) {
                let n = above.len() as int;
                assert(segment.take(n) =~= segment.take(n + 1).take(n));
                assert(above.push(cur).take(n) =~= above);
                assert(segment.take(n + 1)[n] == cur);
                let chain = segment.skip(n);
                let rest = segment.skip(n + 1);
                assert(chain[0] == cur);
                assert forall|i: int| 0 <= i < chain.len() implies #[trigger] leads_on(
                    s,
                    chain,
                    i,
                ) by {
                    if i > 0 {
                        assert(leads_on(s, rest, i - 1));
                        assert(chain[i] == rest[i - 1]);
                        if i + 1 < chain.len() {
                            assert(chain[i + 1] == rest[i]);
                        }
                    } else {
                        assert(chain[1] == rest[0]);
                    }
                }
            }
        }
    }
}

proof fn lemma_chain_found(s: Seq<BlockEntry>, chain: Seq<u32>, tip: u32, j: int, steps: nat)
    requires
        s.len() <= NONE_REF,
        is_chain(s, chain, tip),
        0 <= j < chain.len(),
        chain.len() - j <= steps,
    ensures
        processing::segment_below(s, chain[j], steps, chain.take(j)) == Ok::<
            Seq<u32>,
            ProcessingError,
        >(chain),
    decreases chain.len() - j,
{
    assert(leads_on(s, chain, j));
    assert(chain.take(j).push(chain[j]) =~= chain.take(j + 1));
    if j + 1 < chain.len() {
        assert(leads_on(s, chain, j + 1));
        lemma_chain_found(s, chain, tip, j + 1, (steps - 1) as nat);
    } else {
        assert(chain.take(j + 1) =~= chain);
    }
}

/// The candidate that ends in a tip is the chain from the tip down, in full.
pub proof fn candidates_are_chains(s: Seq<BlockEntry>, tip: u32, chain: Seq<u32>)
    requires
        s.len() <= NONE_REF,
    ensures
        processing::candidate(s, tip) matches Ok(segment) ==> is_chain(s, segment, tip),
        is_chain(s, chain, tip) && chain.len() <= s.len() ==> processing::candidate(s, tip)
            == Ok::<Seq<u32>, ProcessingError>(chain),
{
    lemma_segment(s, tip, s.len(), Seq::empty());
    if let Ok(segment) = processing::candidate(s, tip) {
        assert(segment.skip(0) =~= segment);
    }
    if is_chain(s, chain, tip) && chain.len() <= s.len() {
        assert(chain.take(0) =~= Seq::<u32>::empty());
        lemma_chain_found(s, chain, tip, 0, s.len());
    }
}

// -- Which candidate ---------------------------------------------------------

/// Whether the tip at `slot` stands for a candidate: its branch goes down to the
/// first block of the chain, or is at least `window` blocks long.
pub open spec fn stands_for_a_candidate(node: NodeView, window: u32, slot: int) -> bool {
    let head = node.heads[slot];
    let tip = node.blocks[head.head_idx as int].sequence;
    let low = node.blocks[head.tail_or_connection_idx as int].sequence;
    &&& 0 <= slot < node.heads.len()
    &&& head.head_idx != NONE_REF
    &&& requests::holds_block(node.blocks, head.head_idx)
    &&& requests::holds_block(node.blocks, head.tail_or_connection_idx)
    &&& low == 0 || window <= 1 || tip + 1 >= low + window
}

/// Whether the block at `a` is preferred to the one at `b`: higher, or equally
/// high with the smaller hash.
pub open spec fn preferred(s: Seq<BlockEntry>, a: u32, b: u32) -> bool {
    ||| s[a as int].sequence > s[b as int].sequence
    ||| s[a as int].sequence == s[b as int].sequence && requests::hash_before(
        s[a as int].hash,
        s[b as int].hash,
    )
}

/// Whether the candidate that ends in `tip` is the one to examine: it is one, and
/// no other is preferred to it.
pub open spec fn best_candidate(node: NodeView, window: u32, tip: u32) -> bool {
    &&& exists|slot: int| #[trigger]
        stands_for_a_candidate(node, window, slot) && node.heads[slot].head_idx == tip
    &&& forall|slot: int| #[trigger]
        stands_for_a_candidate(node, window, slot) ==> !preferred(
            node.blocks,
            node.heads[slot].head_idx,
            tip,
        )
}

/// Whether any tip stands for a candidate.
pub open spec fn has_candidate(node: NodeView, window: u32) -> bool {
    exists|slot: int| #[trigger] stands_for_a_candidate(node, window, slot)
}

proof fn lemma_stands(node: NodeView, window: u32, slot: int)
    requires
        0 <= slot < node.heads.len(),
    ensures
        acquisition::qualifies(node.blocks, node.heads[slot], window) == stands_for_a_candidate(
            node,
            window,
            slot,
        ),
{
}

/// Looking for a candidate finds the best one wherever there is one, and the node
/// then asks for its blocks, from the tip down; where there is none, the
/// acquisition is over and nothing has changed.
pub proof fn searches_find_the_best_candidate(node: NodeView, window: u32, run: RunView)
    requires
        node.blocks.len() <= NONE_REF,
    ensures
        ({
            let next = node.sought(window, run);
            &&& next.run.retries == run.retries
            &&& next.run.adopt_retries == run.adopt_retries
            &&& has_candidate(node, window) ==> {
                &&& next.run.stage matches StageView::Examining { tip }
                &&& best_candidate(node, window, tip)
                &&& next.node == (NodeView { phase: LifecyclePhase::Processing, ..node })
                &&& next.action matches ActionView::Examine { segment }
                &&& segment.len() > 0 ==> is_chain(node.blocks, segment, tip)
                &&& forall|chain: Seq<u32>|
                    #[trigger] is_chain(node.blocks, chain, tip) && chain.len()
                        <= node.blocks.len() ==> segment == chain
            }
            &&& !has_candidate(node, window) ==> {
                &&& next.action is Done
                &&& next.run.stage is Finished
                &&& next.node == node
            }
        }),
{
    acquisition::dominant_candidate_is_undominated(node.blocks, node.heads, window);
    let found = acquisition::dominant(node.blocks, node.heads, window);
    if has_candidate(node, window) {
        let slot = choose|slot: int| #[trigger] stands_for_a_candidate(node, window, slot);
        lemma_stands(node, window, slot);
        assert(acquisition::qualifies(node.blocks, node.heads[slot], window));
        assert(found is Some);
    }
    if let Some(tip) = found {
        let slot = choose|i: int|
            0 <= i < node.heads.len() && acquisition::qualifies(
                node.blocks,
                #[trigger] node.heads[i],
                window,
            ) && node.heads[i].head_idx == tip;
        lemma_stands(node, window, slot);
        assert(stands_for_a_candidate(node, window, slot));
        assert forall|other: int| #[trigger]
            stands_for_a_candidate(node, window, other) implies !preferred(
            node.blocks,
            node.heads[other].head_idx,
            tip,
        ) by {
            lemma_stands(node, window, other);
            assert(acquisition::qualifies(node.blocks, node.heads[other], window));
            requests::hashes_are_ordered_by_their_first_difference(
                node.blocks[node.heads[other].head_idx as int].hash,
                node.blocks[tip as int].hash,
            );
        }
        candidates_are_chains(node.blocks, tip, Seq::empty());
        assert forall|chain: Seq<u32>|
            #[trigger] is_chain(node.blocks, chain, tip) && chain.len()
                <= node.blocks.len() implies acquisition::slots_to_read(node.blocks, tip)
            == chain by {
            candidates_are_chains(node.blocks, tip, chain);
        }
    }
}

// -- After a pass ------------------------------------------------------------

/// What speaks against the candidate once its signatures are verified: the first
/// signature that does not hold, before anything else that was found.
pub open spec fn verdict_on(
    checks: Seq<CheckView>,
    failure: Option<ProcessingError>,
    verdicts: Seq<bool>,
    error: Option<ProcessingError>,
) -> bool {
    if exists|i: int| 0 <= i < verdicts.len() && !(#[trigger] verdicts[i]) {
        exists|i: int| {
            &&& 0 <= i < verdicts.len()
            &&& !(#[trigger] verdicts[i])
            &&& forall|j: int| 0 <= j < i ==> #[trigger] verdicts[j]
            &&& error == Some(
                ProcessingError::Invalid {
                    block_idx: checks[i].block_idx,
                    reason: checks[i].reason,
                },
            )
        }
    } else {
        error == failure
    }
}

proof fn lemma_refuted(verdicts: Seq<bool>, from: int)
    requires
        0 <= from,
    ensures
        match processing::first_refuted(verdicts, from) {
            Some(i) => {
                &&& from <= i < verdicts.len()
                &&& !verdicts[i]
                &&& forall|j: int| from <= j < i ==> #[trigger] verdicts[j]
            },
            None => forall|j: int| from <= j < verdicts.len() ==> #[trigger] verdicts[j],
        },
    decreases verdicts.len() - from,
{
    if from < verdicts.len() && verdicts[from] {
        lemma_refuted(verdicts, from + 1);
    }
}

/// The first signature that does not hold condemns its block, whatever else was
/// found; without one, what was found stands. The tree loses no block by it, but
/// nothing that was derived remains: no node is known and nothing is spent.
pub proof fn the_first_refuted_signature_decides(
    node: NodeView,
    segment: Seq<u32>,
    checks: Seq<CheckView>,
    failure: Option<ProcessingError>,
    verdicts: Seq<bool>,
)
    ensures
        ({
            let (settled, error) = node.settled(segment, checks, failure, verdicts);
            &&& verdict_on(checks, failure, verdicts, error)
            &&& settled == (NodeView { info: settled.info, blocks: settled.blocks, ..node })
            &&& (forall|i: int| 0 <= i < verdicts.len() ==> #[trigger] verdicts[i]) ==> settled
                == node
            &&& (exists|i: int| 0 <= i < verdicts.len() && !#[trigger] verdicts[i]) ==> {
                &&& settled.info.max_known_node_id == 0
                &&& settled.info.seeds.len() == node.info.seeds.len()
                &&& forall|id: int|
                    0 <= id < node.info.seeds.len() ==> #[trigger] settled.info.seeds[id]
                        == NONE_REF
                &&& forall|k: int|
                    0 <= k < segment.len() && requests::holds_block(
                        node.blocks,
                        #[trigger] segment[k],
                    ) ==> settled.blocks[segment[k] as int].spent_bits
                        == tree::no_spent_bits()
            }
        }),
{
    lemma_refuted(verdicts, 0);
    if let Some(i) = processing::first_refuted(verdicts, 0) {
        assert(!verdicts[i]);
        retry_laws::lemma_cleared(node.blocks, segment, 0);
        assert forall|k: int|
            0 <= k < segment.len() && requests::holds_block(
                node.blocks,
                #[trigger] segment[k],
            ) implies processing::spent_cleared(
            node.blocks,
            segment,
            0,
        )[segment[k] as int].spent_bits == tree::no_spent_bits() by {
            assert(tree::present(node.blocks, segment[k]));
        }
    }
}

/// Whether a failure leaves reason to try what remains: a block was found to break
/// a rule, and not merely the candidate to lack a configuration.
pub open spec fn leaves_something_to_try(error: ProcessingError) -> bool {
    error matches ProcessingError::Invalid { block_idx, reason } && !(reason
        is MissingChainConfigBlock)
}

/// After a pass that fails because a block breaks a rule, whichever one but that
/// the candidate lacks a configuration, the node recovers and, with a retry left
/// and a configuration still held, tries again in the same call: if some tip of
/// the recovered tree stands for a candidate, the next action is to examine the
/// best one. In every other case the acquisition ends with the recovery, and the
/// node collects. (A candidate whose configuration can be held in place of the
/// tentative one is another matter.)
pub proof fn failed_candidates_are_tried_again(
    node: NodeView,
    window: u32,
    run: RunView,
    tip: u32,
    reads: Seq<Option<ChainBlock>>,
    segment: Seq<u32>,
    error: ProcessingError,
)
    requires
        node.blocks.len() <= NONE_REF,
        !node.adoptable(run, tip, reads, segment, error),
    ensures
        ({
            let next = node.failed(window, run, tip, reads, segment, error);
            let left = node.recovered(error, tip);
            let again = leaves_something_to_try(error) && run.retries > 0 && !(left.config
                is Unloaded);
            &&& again && has_candidate(left, window) ==> {
                &&& next.action is Examine
                &&& next.run.stage matches StageView::Examining { tip: other }
                &&& best_candidate(left, window, other)
                &&& next.run.retries == run.retries - 1
                &&& next.run.adopt_retries == run.adopt_retries
                &&& next.node == (NodeView { phase: LifecyclePhase::Processing, ..left })
            }
            &&& !(again && has_candidate(left, window)) ==> {
                &&& next.action is Done
                &&& next.run.stage is Finished
                &&& next.node == left
            }
            &&& left.phase == LifecyclePhase::Collecting
        }),
{
    let left = node.recovered(error, tip);
    recovery::recovery_is_exact(node, error, tip);
    searches_find_the_best_candidate(
        left,
        window,
        RunView { retries: (run.retries - 1) as u8, ..run },
    );
}

/// Only a mismatch of the configuration is a reason to hold another one, and only
/// while none is locked; every other failure leads to the recovery.
pub proof fn only_a_mismatch_is_adopted(
    node: NodeView,
    run: RunView,
    tip: u32,
    reads: Seq<Option<ChainBlock>>,
    segment: Seq<u32>,
    error: ProcessingError,
)
    requires
        node.adoptable(run, tip, reads, segment, error),
    ensures
        error matches ProcessingError::Invalid { block_idx, reason }
            && reason == ValidationReason::ChainConfigMismatch,
        !(node.config is Durable),
        run.adopt_retries > 0,
{
}

// -- What stands on a candidate ----------------------------------------------

/// Whether the block at position `k` is the lowest one of the type on the chain.
pub open spec fn lowest_of_type(s: Seq<BlockEntry>, chain: Seq<u32>, kind: u8, k: int) -> bool {
    &&& 0 <= k < chain.len()
    &&& type_of(s[chain[k] as int]) == kind
    &&& forall|j: int|
        k < j < chain.len() ==> type_of(s[#[trigger] chain[j] as int]) != kind
}

/// Whether no block of the chain is of the type.
pub open spec fn none_of_type(s: Seq<BlockEntry>, chain: Seq<u32>, kind: u8) -> bool {
    forall|j: int| 0 <= j < chain.len() ==> type_of(s[#[trigger] chain[j] as int]) != kind
}

/// The lowest block of the type is the one that is found.
pub proof fn lowest_block_of_a_type_is_found(
    s: Seq<BlockEntry>,
    chain: Seq<u32>,
    kind: u8,
    end: nat,
)
    requires
        end <= chain.len(),
        forall|j: int|
            end <= j < chain.len() ==> type_of(s[#[trigger] chain[j] as int]) != kind,
    ensures
        match processing::last_of_kind(s, chain, kind, end) {
            Some(k) => lowest_of_type(s, chain, kind, k),
            None => none_of_type(s, chain, kind),
        },
    decreases end,
{
    if end > 0 && s[chain[end - 1] as int].kind() != kind {
        assert forall|j: int| end - 1 <= j < chain.len() implies type_of(
            s[#[trigger] chain[j] as int],
        ) != kind by {}
        lowest_block_of_a_type_is_found(s, chain, kind, (end - 1) as nat);
    }
}

proof fn lemma_scan(
    s: Seq<BlockEntry>,
    chain: Seq<u32>,
    tip: u32,
    j: int,
    probe: u32,
    steps: nat,
    first: u32,
    seen: bool,
)
    requires
        s.len() <= NONE_REF,
        is_chain(s, chain, tip),
        0 <= j < chain.len(),
        chain.len() - j <= steps,
    ensures
        ({
            let (found, passed) = recovery::config_scan(s, chain[j], probe, steps, first, seen);
            &&& (forall|k: int|
                j <= k < chain.len() ==> type_of(s[#[trigger] chain[k] as int]) != 3) ==> found
                == first
            &&& forall|k: int|
                j <= k && #[trigger] lowest_of_type(s, chain, 3, k) ==> found == chain[k]
            &&& passed == (seen || exists|k: int| j <= k < chain.len() && #[trigger] chain[k] == probe)
        }),
    decreases chain.len() - j,
{
    assert(leads_on(s, chain, j));
    let found = if type_of(s[chain[j] as int]) == 3 {
        chain[j]
    } else {
        first
    };
    if j + 1 < chain.len() {
        assert(leads_on(s, chain, j + 1));
        lemma_scan(
            s,
            chain,
            tip,
            j + 1,
            probe,
            (steps - 1) as nat,
            found,
            seen || chain[j] == probe,
        );
        let result = recovery::config_scan(s, chain[j], probe, steps, first, seen);
        assert forall|k: int| j <= k && #[trigger] lowest_of_type(s, chain, 3, k) implies result.0
            == chain[k] by {
            if k == j {
                assert forall|l: int| j + 1 <= l < chain.len() implies type_of(
                    s[#[trigger] chain[l] as int],
                ) != 3 by {}
            }
        }
        if exists|k: int| j <= k < chain.len() && #[trigger] chain[k] == probe {
            let k = choose|k: int| j <= k < chain.len() && #[trigger] chain[k] == probe;
            if k > j {
                assert(chain[k] == probe && j + 1 <= k);
            }
        }
    } else {
        assert forall|k: int| j <= k && #[trigger] lowest_of_type(s, chain, 3, k) implies k == j by {}
    }
}

/// The configuration block of a candidate is the lowest one on it, and a block is
/// on the candidate exactly if it is one of the chain.
pub proof fn configuration_of_a_candidate_is_the_lowest(
    node: NodeView,
    chain: Seq<u32>,
    tip: u32,
    probe: u32,
    k: int,
)
    requires
        node.blocks.len() <= NONE_REF,
        is_chain(node.blocks, chain, tip),
        chain.len() <= node.blocks.len(),
    ensures
        lowest_of_type(node.blocks, chain, 3, k) ==> node.scanned(tip, probe).0 == chain[k],
        none_of_type(node.blocks, chain, 3) ==> node.scanned(tip, probe).0 == NONE_REF,
        node.scanned(tip, probe).1 == chain.contains(probe),
{
    lemma_scan(node.blocks, chain, tip, 0, probe, node.blocks.len(), NONE_REF, false);
}

proof fn lemma_oversized(
    s: Seq<BlockEntry>,
    chain: Seq<u32>,
    tip: u32,
    j: int,
    limit: u16,
    steps: nat,
    offender: Option<u32>,
)
    requires
        s.len() <= NONE_REF,
        is_chain(s, chain, tip),
        0 <= j < chain.len(),
        chain.len() - j <= steps,
    ensures
        ({
            let found = recovery::oversized(s, chain[j], limit, steps, offender);
            &&& (forall|k: int|
                j <= k < chain.len() ==> s[#[trigger] chain[k] as int].len <= limit) ==> found
                == offender
            &&& forall|k: int|
                j <= k && #[trigger] lowest_above(s, chain, limit, k) ==> found == Some(chain[k])
        }),
    decreases chain.len() - j,
{
    assert(leads_on(s, chain, j));
    let found = if s[chain[j] as int].len > limit {
        Some(chain[j])
    } else {
        offender
    };
    if j + 1 < chain.len() {
        assert(leads_on(s, chain, j + 1));
        lemma_oversized(s, chain, tip, j + 1, limit, (steps - 1) as nat, found);
        let result = recovery::oversized(s, chain[j], limit, steps, offender);
        assert forall|k: int| j <= k && #[trigger] lowest_above(s, chain, limit, k) implies result
            == Some(chain[k]) by {
            if k == j {
                assert forall|l: int| j + 1 <= l < chain.len() implies s[#[trigger] chain[l] as int].len
                    <= limit by {}
            }
        }
    } else {
        assert forall|k: int| j <= k && #[trigger] lowest_above(s, chain, limit, k) implies k == j by {}
    }
}

/// Whether the block at position `k` is the lowest one of the chain above the
/// limit.
pub open spec fn lowest_above(s: Seq<BlockEntry>, chain: Seq<u32>, limit: u16, k: int) -> bool {
    &&& 0 <= k < chain.len()
    &&& s[chain[k] as int].len > limit
    &&& forall|j: int| k < j < chain.len() ==> s[#[trigger] chain[j] as int].len <= limit
}

// -- After a pass that succeeded ---------------------------------------------

/// A candidate that passes under a locked configuration makes the node ready, with
/// the candidate's tip as its active head. Under one that is not locked, the lowest
/// block above the limit that the candidate's configuration declares condemns
/// itself and what stands on it; without one, the candidate's lowest configuration
/// block is to be committed; a candidate without a configuration is given up, and
/// no block is lost.
pub proof fn passing_candidates_are_accepted(
    node: NodeView,
    run: RunView,
    chain: Seq<u32>,
    tip: u32,
    k: int,
    c: int,
)
    requires
        node.blocks.len() <= NONE_REF,
        is_chain(node.blocks, chain, tip),
        chain.len() <= node.blocks.len(),
        !(node.config is Unloaded),
    ensures
        ({
            let next = node.accepted(run, tip);
            let limit = (requests::parameters_of(node.config)->0).block_size_limit;
            let fits = forall|j: int|
                0 <= j < chain.len() ==> node.blocks[#[trigger] chain[j] as int].len <= limit;
            &&& node.config is Durable ==> {
                &&& next.action is Done
                &&& next.run.stage is Finished
                &&& next.node.phase == LifecyclePhase::Ready
                &&& next.node.active_head == tip
                &&& next.node.config == node.config
                &&& next.node.info == node.info
                &&& next.node.heads == node.heads
            }
            &&& node.config is Tentative && lowest_above(node.blocks, chain, limit, k) ==> {
                &&& next.action is Done
                &&& next.node == node.recovered(
                    ProcessingError::Invalid {
                        block_idx: chain[k],
                        reason: ValidationReason::BlockTooLarge,
                    },
                    tip,
                )
            }
            &&& node.config is Tentative && fits && lowest_of_type(node.blocks, chain, 3, c) ==> {
                &&& next.action == (ActionView::Commit { block_idx: chain[c] })
                &&& next.run.stage == (StageView::Committing { tip })
                &&& next.node == node
            }
            &&& node.config is Tentative && fits && none_of_type(node.blocks, chain, 3) ==> {
                &&& next.action is Done
                &&& next.node == node.abandoned()
            }
        }),
{
    configuration_of_a_candidate_is_the_lowest(node, chain, tip, NONE_REF, c);
    let limit = node.declared_limit();
    lemma_oversized(node.blocks, chain, tip, 0, limit, node.blocks.len(), None);
    if lowest_of_type(node.blocks, chain, 3, c) {
        assert(leads_on(node.blocks, chain, c));
    }
}

/// A candidate that is given up leaves the node collecting, with every block, every
/// tip and the configuration as they were; nothing of what was derived remains.
pub proof fn abandoned_candidates_leave_the_tree(node: NodeView, i: int, id: int)
    ensures
        ({
            let after = node.abandoned();
            &&& after.phase == LifecyclePhase::Collecting
            &&& after.config == node.config
            &&& after.heads == node.heads
            &&& after.active_head == node.active_head
            &&& after.vote_reset
            &&& after.blocks.len() == node.blocks.len()
            &&& 0 <= i < node.blocks.len() && node.blocks[i].sequence != NONE_REF ==> {
                &&& after.blocks[i] == (BlockEntry {
                    spent_bits: after.blocks[i].spent_bits,
                    ..node.blocks[i]
                })
                &&& forall|b: int| 0 <= b < 32 ==> #[trigger] after.blocks[i].spent_bits@[b] == 0
            }
            &&& 0 <= id < node.info.seeds.len() ==> after.info.seeds[id] == NONE_REF
                && after.info.balances[id] == 0
            &&& after.info.max_known_node_id == 0
        }),
{
}

/// Whether the block read back carries the content that is held tentatively.
pub open spec fn carries_what_is_held(node: NodeView, block: Option<ChainBlock>) -> bool {
    &&& block is Some
    &&& (block->0).payload is ChainConfig
    &&& node.config matches ConfigView::Tentative { content, parameters } && content == (
    (block->0).payload->ChainConfig_0).content@
}

/// The configuration is locked exactly if the block that carries it was written
/// and says what is held. Then the node is ready on the candidate, with what it
/// held locked; otherwise the candidate is given up, and nothing is locked.
pub proof fn configurations_are_locked_when_written(
    node: NodeView,
    run: RunView,
    tip: u32,
    block: Option<ChainBlock>,
    written: bool,
    contents: Seq<Option<Seq<u8>>>,
)
    requires
        !(node.config is Durable),
    ensures
        ({
            let next = node.concluded(run, tip, block, written, contents);
            &&& next.action is Done
            &&& next.run.stage is Finished
            &&& carries_what_is_held(node, block) && written ==> {
                &&& next.node.phase == LifecyclePhase::Ready
                &&& node.config matches ConfigView::Tentative { content, parameters }
                    && next.node.config == (ConfigView::Durable { content, parameters })
            }
            &&& !(carries_what_is_held(node, block) && written) ==> next.node == node.abandoned()
        }),
{
    if carries_what_is_held(node, block) && written {
        let active = node.committed().activated(tip);
        let end = active.blocks.len() as int;
        acquisition::lemma_mismatches_frame(active, contents, 0, end);
        acquisition::lemma_oversized_frame(
            active.mismatches_deleted(contents, 0, end),
            active.enforceable_limit(),
            0,
            end,
        );
    }
}

// -- Holding another configuration -------------------------------------------

/// Whether the candidate's lowest configuration block can be held in place of what
/// the node holds: nothing is locked, it was read, node #0 signed it and the
/// registry takes it.
pub open spec fn can_be_held_instead(
    node: NodeView,
    chain: Seq<u32>,
    reads: Seq<Option<ChainBlock>>,
    c: int,
) -> bool {
    &&& !(node.config is Durable)
    &&& lowest_of_type(node.blocks, chain, 3, c)
    &&& reads[c] is Some
    &&& (reads[c]->0).payload is ChainConfig
    &&& ((reads[c]->0).payload->ChainConfig_0).signature_valid
    &&& ((reads[c]->0).payload->ChainConfig_0).accepted is Some
}

/// A candidate that fails because its lowest configuration block differs from what
/// the node holds tentatively is not condemned, while a retry for that is left and
/// its content can be held: the node holds that instead, and seeks again in the
/// same call. The block behind the previous one is deleted, unless it is on the
/// candidate.
pub proof fn candidates_may_bring_their_configuration(
    node: NodeView,
    window: u32,
    run: RunView,
    chain: Seq<u32>,
    tip: u32,
    reads: Seq<Option<ChainBlock>>,
    c: int,
)
    requires
        node.blocks.len() <= NONE_REF,
        is_chain(node.blocks, chain, tip),
        chain.len() <= node.blocks.len(),
        can_be_held_instead(node, chain, reads, c),
        run.adopt_retries > 0,
    ensures
        ({
            let error = ProcessingError::Invalid {
                block_idx: chain[c],
                reason: ValidationReason::ChainConfigMismatch,
            };
            let next = node.failed(window, run, tip, reads, chain, error);
            let envelope = (reads[c]->0).payload->ChainConfig_0;
            let source = node.config_source;
            let loaded = NodeView {
                config: ConfigView::Tentative {
                    content: envelope.content@,
                    parameters: envelope.accepted->0,
                },
                config_source: chain[c],
                vote_reset: true,
                phase: LifecyclePhase::Collecting,
                ..node
            };
            let left = if source != NONE_REF && !chain.contains(source) {
                loaded.subtree_deleted(source)
            } else {
                loaded
            };
            let fewer = RunView { adopt_retries: (run.adopt_retries - 1) as u8, ..run };
            next == left.sought(window, fewer)
        }),
{
    let error = ProcessingError::Invalid {
        block_idx: chain[c],
        reason: ValidationReason::ChainConfigMismatch,
    };
    configuration_of_a_candidate_is_the_lowest(node, chain, tip, NONE_REF, c);
    configuration_of_a_candidate_is_the_lowest(node, chain, tip, node.config_source, c);
    lowest_block_of_a_type_is_found(node.blocks, chain, 3, chain.len());
    let found = processing::last_of_kind(node.blocks, chain, 3, chain.len());
    assert(found is Some) by {
        if found is None {
            assert(type_of(node.blocks[chain[c] as int]) != 3);
        }
    }
    let k = found->0;
    assert(k == c) by {
        if k < c {
            assert(type_of(node.blocks[chain[c] as int]) != 3);
        }
        if c < k {
            assert(type_of(node.blocks[chain[k] as int]) != 3);
        }
    }
    assert(node.adoptable(run, tip, reads, chain, error));
    if node.config_source == chain[c] {
        assert(chain.contains(node.config_source));
    }
}

/// In every other case a mismatch leads to the recovery.
pub proof fn other_mismatches_are_not_adopted(
    node: NodeView,
    run: RunView,
    chain: Seq<u32>,
    tip: u32,
    reads: Seq<Option<ChainBlock>>,
    error: ProcessingError,
    c: int,
)
    requires
        node.blocks.len() <= NONE_REF,
        is_chain(node.blocks, chain, tip),
        chain.len() <= node.blocks.len(),
        node.adoptable(run, tip, reads, chain, error),
        lowest_of_type(node.blocks, chain, 3, c),
    ensures
        can_be_held_instead(node, chain, reads, c),
        run.adopt_retries > 0,
        error == (ProcessingError::Invalid {
            block_idx: chain[c],
            reason: ValidationReason::ChainConfigMismatch,
        }),
{
    configuration_of_a_candidate_is_the_lowest(node, chain, tip, NONE_REF, c);
    lowest_block_of_a_type_is_found(node.blocks, chain, 3, chain.len());
    let found = processing::last_of_kind(node.blocks, chain, 3, chain.len());
    if found is None {
        assert(type_of(node.blocks[chain[c] as int]) != 3);
    }
    let k = found->0;
    if k < c {
        assert(type_of(node.blocks[chain[c] as int]) != 3);
    }
    if c < k {
        assert(type_of(node.blocks[chain[k] as int]) != 3);
    }
}

// -- One step ----------------------------------------------------------------

/// Each answer leads on: the beginning to a search, the blocks that were read to a
/// pass over them that takes every signature to hold for now and stops where the
/// vote engine did, the verdicts to the acceptance or the failure of the candidate,
/// and the outcome of the write to the end.
pub proof fn every_answer_leads_on(
    node: NodeView,
    window: u32,
    run: RunView,
    event: AcquisitionEvent,
)
    ensures
        ({
            let next = node.advanced(window, run, event);
            match (run.stage, event) {
                (StageView::Start, AcquisitionEvent::Begin) => next == node.sought(window, run),
                (
                    StageView::Examining { tip },
                    AcquisitionEvent::Examined { reads, vote_failure },
                ) => {
                    let stop = match vote_failure {
                        Some((position, error)) => Some((position as int, error)),
                        None => None,
                    };
                    let pass = node.passed(tip, reads@, stop, derivation::all_hold());
                    &&& forall|check: CheckView| #[trigger] (derivation::all_hold())(check)
                    &&& next.node == pass.node
                    &&& next.action is Verify
                    &&& next.run.stage matches StageView::Verifying {
                        tip: same,
                        reads: kept,
                        segment,
                        checks,
                        failure,
                    }
                    &&& same == tip
                    &&& kept == reads@
                    &&& segment == pass.segment
                    &&& checks == pass.checks
                    &&& failure == pass.failure
                    &&& next.run.retries == run.retries
                    &&& next.run.adopt_retries == run.adopt_retries
                },
                (
                    StageView::Verifying { tip, reads, segment, checks, failure },
                    AcquisitionEvent::Verified { verdicts },
                ) => {
                    let (settled, error) = node.settled(segment, checks, failure, verdicts@);
                    next == match error {
                        None => settled.accepted(run, tip),
                        Some(e) => settled.failed(window, run, tip, reads, segment, e),
                    }
                },
                (
                    StageView::Committing { tip },
                    AcquisitionEvent::Committed { block, written, contents },
                ) => {
                    let read = recovery::content_views(contents@);
                    &&& next == node.concluded(run, tip, block, written, read)
                    &&& read.len() == contents@.len()
                    &&& forall|i: int|
                        0 <= i < read.len() ==> {
                            &&& (#[trigger] read[i]) is Some == contents@[i] is Some
                            &&& read[i] is Some ==> read[i]->0 == (contents@[i]->0)@
                        }
                },
                _ => next.node == node && next.action is Done,
            }
        }),
{
}

} // verus!
