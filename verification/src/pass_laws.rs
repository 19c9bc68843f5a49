//! What a pass over a candidate looks at, in which order, and what stops it.

use vstd::prelude::*;

use crate::acquisition_laws as steps;
use crate::api::NodeView;
use crate::block_data::ChainBlock;
use crate::blocks as tree;
use crate::blocks::{BlockEntry, NONE_REF};
use crate::config_state::ConfigView;
use crate::derivation as walk;
use crate::derivation::{
    BlockContext, CheckView, Derivation, PassView, ProcessingError, Step, ValidationReason,
    VoteEngineError,
};
use crate::hash::BlockHash;
use crate::node_info::InfoView;
use crate::processing;
use crate::request_laws as requests;
use crate::retry_laws;
use crate::roster_laws as roster;

verus! {

// -- One block ---------------------------------------------------------------

/// The signature that the block has to carry: over all of its bytes with the 64 in
/// front of the payload blank, by the key of its creator.
pub open spec fn signs_block(check: CheckView, block: ChainBlock, idx: u32, key: Seq<u8>) -> bool {
    &&& check.block_idx == idx
    &&& check.reason == ValidationReason::CreatorSignatureInvalid
    &&& check.public_key == key
    &&& check.signature == block.bytes@.subrange(58, 122)
    &&& check.message.len() == block.bytes@.len()
    &&& forall|i: int|
        0 <= i < block.bytes@.len() ==> #[trigger] check.message[i] == if 58 <= i < 122 {
            0
        } else {
            block.bytes@[i]
        }
}

/// Whether the key of the creator is known: that of node #0 always is.
pub open spec fn creator_known(info: InfoView, block: ChainBlock) -> bool {
    block.creator == 0 || roster::has_key(info, block.creator)
}

/// The key that the creator signs with.
pub open spec fn key_of_creator(ctx: PassView, info: InfoView, block: ChainBlock) -> Seq<u8> {
    if block.creator == 0 {
        ctx.anchor_key
    } else {
        info.keys[block.creator as int]
    }
}

/// Whether the signature of the block, if it can be checked, holds.
pub open spec fn signature_holds(
    d: Derivation,
    ctx: PassView,
    block: ChainBlock,
    idx: u32,
) -> bool {
    creator_known(d.info, block) ==> exists|check: CheckView| #[trigger]
        signs_block(check, block, idx, key_of_creator(ctx, d.info, block)) && (ctx.holds)(check)
}

proof fn lemma_creator_check(block: ChainBlock, idx: u32, key: Seq<u8>)
    requires
        block.bytes@.len() >= 122,
    ensures
        signs_block(walk::creator_check(block, idx, key), block, idx, key),
        forall|other: CheckView| #[trigger]
            signs_block(other, block, idx, key) ==> other == walk::creator_check(block, idx, key),
{
    let check = walk::creator_check(block, idx, key);
    assert forall|other: CheckView| #[trigger] signs_block(other, block, idx, key) implies other
        == check by {
        assert(other.message =~= check.message) by {
            assert forall|i: int| 0 <= i < block.bytes@.len() implies other.message[i]
                == check.message[i] by {}
        }
        assert(other =~= check);
    }
}

/// The header of a block is in order exactly if the block fits the limit, follows
/// the one below it, and is signed by its creator; where a chain starts at its
/// first block, the creator of every later one must be known. A block that is not
/// is named as the one that breaks the rule; where several are broken, the size
/// comes before the order and that before the creator. Nothing but the signature
/// is recorded.
pub proof fn headers_must_be_in_order(
    d: Derivation,
    ctx: PassView,
    block: ChainBlock,
    idx: u32,
    position: int,
    prev_hash: Option<BlockHash>,
)
    requires
        roster::sound(d.info),
        block.bytes@.len() >= 122,
    ensures
        ({
            let (checked, failure) = walk::header_checked(d, ctx, block, idx, prev_hash);
            let too_large = block.bytes@.len() > ctx.size_limit;
            let misplaced = prev_hash is Some && block.previous_hash != prev_hash->0;
            let unknown = ctx.genesis_anchored && block.sequence != 0 && !creator_known(
                d.info,
                block,
            );
            &&& failure == if too_large {
                Some(ValidationReason::BlockTooLarge)
            } else if misplaced {
                Some(ValidationReason::PreviousHashMismatch)
            } else if unknown {
                Some(ValidationReason::UnseededActor)
            } else if !signature_holds(d, ctx, block, idx) {
                Some(ValidationReason::CreatorSignatureInvalid)
            } else {
                None
            }
            &&& checked == (Derivation { checks: checked.checks, ..d })
            &&& failure is None && creator_known(d.info, block) ==> {
                &&& checked.checks.len() == d.checks.len() + 1
                &&& checked.checks.drop_last() == d.checks
                &&& signs_block(
                    checked.checks.last(),
                    block,
                    idx,
                    key_of_creator(ctx, d.info, block),
                )
            }
            &&& failure matches Some(reason) ==> walk::block_derived(
                d,
                ctx,
                block,
                idx,
                position,
                prev_hash,
            ).1 == Some(ProcessingError::Invalid { block_idx: idx, reason })
        }),
{
    let (checked, failure) = walk::header_checked(d, ctx, block, idx, prev_hash);
    if block.creator != 0 && block.creator < d.info.keys.len() {
        let key = d.info.keys[block.creator as int];
        if !crate::node_info::key_absent(key) {
            let i = choose|i: int| 0 <= i < key.len() && #[trigger] key[i] != 0;
            assert(d.info.keys[block.creator as int][i] != 0);
        }
    }
    assert((walk::creator_key(ctx, d.info, block.creator) is Some) == creator_known(d.info, block));
    if creator_known(d.info, block) {
        let key = key_of_creator(ctx, d.info, block);
        assert(walk::creator_key(ctx, d.info, block.creator) == Some(key));
        lemma_creator_check(block, idx, key);
        assert(d.checks.push(walk::creator_check(block, idx, key)).drop_last() =~= d.checks);
    }
}

/// A configuration block passes exactly if it carries what the node holds, where
/// the node holds anything; a block that does not read as its type breaks a rule;
/// an approval block changes nothing.
pub proof fn payloads_are_looked_at_by_type(
    s: Step,
    ctx: PassView,
    at: BlockContext,
    block: ChainBlock,
)
    requires
        s.broken is None,
    ensures
        ({
            let after = walk::payload_applied(s, ctx, at, block);
            &&& block.payload_type == 3 ==> {
                let same = block.payload is ChainConfig && ctx.held == Some(
                    (block.payload->ChainConfig_0).content@,
                );
                after == if ctx.held is Some && !same {
                    Step { broken: Some(ValidationReason::ChainConfigMismatch), ..s }
                } else {
                    s
                }
            }
            &&& block.payload_type == 1 && !(block.payload is Transactions) ==> after == (Step {
                broken: Some(ValidationReason::MalformedPayload),
                ..s
            })
            &&& block.payload_type == 2 && !(block.payload is Balances) ==> after == (Step {
                broken: Some(ValidationReason::MalformedPayload),
                ..s
            })
            &&& block.payload_type == 4 ==> after == s
        }),
{
}

/// A block that breaks a rule is named with it; the refusal of the vote engine
/// stops the pass at its block and nowhere else.
pub proof fn failing_blocks_are_named(
    d: Derivation,
    ctx: PassView,
    block: ChainBlock,
    idx: u32,
    position: int,
    prev_hash: Option<BlockHash>,
)
    ensures
        ({
            let at = BlockContext { sequence: block.sequence, idx };
            let (checked, failure) = walk::header_checked(d, ctx, block, idx, prev_hash);
            let s = walk::payload_applied(
                (Step { d: checked, fees: 0, broken: None }),
                ctx,
                at,
                block,
            );
            let (after, error) = walk::block_derived(d, ctx, block, idx, position, prev_hash);
            &&& failure is None && s.broken is Some ==> error == Some(
                ProcessingError::Invalid { block_idx: idx, reason: s.broken->0 },
            )
            &&& failure is None && s.broken is None ==> error == match ctx.vote_failure {
                Some((stop, engine)) if stop == position => Some(ProcessingError::Vote(engine)),
                _ => None,
            }
        }),
{
}

// -- The whole candidate -----------------------------------------------------

/// The hash that the block at `k` has to follow: that of the block below it.
pub open spec fn hash_below(ctx: PassView, k: int) -> Option<BlockHash> {
    if k + 1 < ctx.reads.len() && ctx.reads[k + 1] is Some {
        Some((ctx.reads[k + 1]->0).hash)
    } else {
        None
    }
}

/// Whether `states` are the states of a walk: each block, from the lowest one up,
/// leads from the state below it to the one above.
pub open spec fn derived_in_turn(ctx: PassView, states: Seq<Derivation>, low: int) -> bool {
    &&& states.len() == ctx.marked.len() + 1
    &&& forall|k: int|
        low <= k < ctx.marked.len() ==> {
            &&& (#[trigger] ctx.reads[k]) is Some
            &&& walk::block_derived(
                states[k + 1],
                ctx,
                ctx.reads[k]->0,
                ctx.marked[k],
                ctx.marked.len() - 1 - k,
                hash_below(ctx, k),
            ) == (states[k], None::<ProcessingError>)
        }
}

proof fn lemma_states(
    ctx: PassView,
    states: Seq<Derivation>,
    left: nat,
) -> (all: Seq<Derivation>)
    requires
        ctx.reads.len() == ctx.marked.len(),
        left <= ctx.marked.len(),
        derived_in_turn(ctx, states, left as int),
    ensures
        ({
            let prev = if left < ctx.marked.len() {
                hash_below(ctx, left - 1)
            } else {
                None
            };
            let (after, failure) = walk::segment_derived(states[left as int], ctx, left, prev);
            &&& all.len() == states.len()
            &&& forall|k: int| left <= k < states.len() ==> #[trigger] all[k] == states[k]
            &&& failure is None ==> derived_in_turn(ctx, all, 0) && all[0] == after
            &&& failure is Some ==> exists|k: int| {
                &&& 0 <= k < left
                &&& #[trigger] derived_in_turn(ctx, all, k + 1)
                &&& stops_at(ctx, all[k + 1], k, after, failure->0)
            }
        }),
    decreases left,
{
    if left == 0 {
        states
    } else {
        let i = left - 1;
        let prev = hash_below(ctx, i);
        if left < ctx.marked.len() {
            assert(ctx.reads[left as int] is Some);
        }
        let before = states[left as int];
        match ctx.reads[i] {
            None => {
                assert(stops_at(ctx, states[i + 1], i, before, ProcessingError::StorageRead));
                assert(derived_in_turn(ctx, states, i + 1));
                states
            },
            Some(block) => {
                let (next, failure) = walk::block_derived(
                    before,
                    ctx,
                    block,
                    ctx.marked[i],
                    ctx.marked.len() - left,
                    prev,
                );
                if failure is Some {
                    assert(stops_at(ctx, states[i + 1], i, next, failure->0));
                    assert(derived_in_turn(ctx, states, i + 1));
                    states
                } else {
                    let more = states.update(i, next);
                    assert forall|k: int| i <= k < ctx.marked.len() implies {
                        &&& (#[trigger] ctx.reads[k]) is Some
                        &&& walk::block_derived(
                            more[k + 1],
                            ctx,
                            ctx.reads[k]->0,
                            ctx.marked[k],
                            ctx.marked.len() - 1 - k,
                            hash_below(ctx, k),
                        ) == (more[k], None::<ProcessingError>)
                    } by {
                        if k > i {
                            assert(more[k + 1] == states[k + 1]);
                            assert(more[k] == states[k]);
                        }
                    }
                    assert(derived_in_turn(ctx, more, i));
                    lemma_states(ctx, more, i as nat)
                }
            },
        }
    }
}

/// Whether the walk stops at the block at `k`: it could not be read, or it is
/// refused.
pub open spec fn stops_at(
    ctx: PassView,
    before: Derivation,
    k: int,
    after: Derivation,
    failure: ProcessingError,
) -> bool {
    match ctx.reads[k] {
        None => failure == ProcessingError::StorageRead && after == before,
        Some(block) => walk::block_derived(
            before,
            ctx,
            block,
            ctx.marked[k],
            ctx.marked.len() - 1 - k,
            hash_below(ctx, k),
        ) == (after, Some(failure)),
    }
}

/// A walk derives every block of the candidate, from the lowest one to its tip,
/// each from what the one below it left, and it stops at the first that is refused
/// or cannot be read.
pub proof fn walks_derive_every_block_in_turn(start: Derivation, ctx: PassView) -> (states: Seq<
    Derivation,
>)
    requires
        ctx.reads.len() == ctx.marked.len(),
    ensures
        ({
            let (after, failure) = walk::segment_derived(start, ctx, ctx.marked.len(), None);
            &&& states.len() == ctx.marked.len() + 1
            &&& states.last() == start
            &&& failure is None ==> derived_in_turn(ctx, states, 0) && states[0] == after
            &&& failure is Some ==> exists|k: int| {
                &&& 0 <= k < ctx.marked.len()
                &&& #[trigger] derived_in_turn(ctx, states, k + 1)
                &&& stops_at(ctx, states[k + 1], k, after, failure->0)
            }
        }),
{
    let first = Seq::new(ctx.marked.len() + 1, |i: int| start);
    let states = lemma_states(ctx, first, ctx.marked.len());
    assert(states[ctx.marked.len() as int] == first[ctx.marked.len() as int]);
    states
}

/// What a pass starts from and goes by. It knows no node and has nothing spent on
/// the candidate; only how many nodes there are may be known, from the lowest
/// balance block, where the candidate does not start at the first block. The size
/// limit counts only once it is locked.
pub proof fn passes_start_from_nothing(
    node: NodeView,
    chain: Seq<u32>,
    tip: u32,
    reads: Seq<Option<ChainBlock>>,
    vote_failure: Option<(int, VoteEngineError)>,
    holds: spec_fn(CheckView) -> bool,
    b: int,
    i: int,
    j: int,
)
    requires
        node.blocks.len() <= NONE_REF,
        steps::is_chain(node.blocks, chain, tip),
        chain.len() <= node.blocks.len(),
    ensures
        ({
            let start = node.pass_start(chain, reads);
            let ctx = node.pass_view(chain, reads, vote_failure, holds);
            let founded = node.blocks[chain.last() as int].sequence == 0;
            &&& 0 <= i < node.info.seeds.len() ==> {
                &&& start.info.seeds[i] == NONE_REF
                &&& start.info.balances[i] == 0
            }
            &&& roster::sound(start.info)
            &&& start.info.seeds.len() == node.info.seeds.len()
            &&& steps::lowest_of_type(node.blocks, chain, 2, b) && !founded && reads[b] is Some
                && (reads[b]->0).payload is Balances ==> start.info.max_known_node_id == ((
            reads[b]->0).payload->Balances_0).max_node_id
            &&& founded || steps::none_of_type(node.blocks, chain, 2)
                ==> start.info.max_known_node_id == 0
            &&& 0 <= j < chain.len() ==> forall|n: int|
                0 <= n < 32 ==> #[trigger] start.blocks[chain[j] as int].spent_bits@[n] == 0
            &&& !start.saw_balance
            &&& start.checks.len() == 0
            &&& ctx.marked == chain
            &&& ctx.reads == reads
            &&& ctx.genesis_anchored == founded
            &&& steps::none_of_type(node.blocks, chain, 2) ==> ctx.roster_bounded == founded
            &&& steps::lowest_of_type(node.blocks, chain, 2, b) ==> ctx.roster_bounded
            &&& ctx.size_limit == match node.config {
                ConfigView::Durable { content, parameters } => parameters.block_size_limit,
                _ => 2016,
            }
            &&& ctx.held == match node.config {
                ConfigView::Unloaded => None,
                ConfigView::Tentative { content, parameters } => Some(content),
                ConfigView::Durable { content, parameters } => Some(content),
            }
            &&& ctx.anchor_key == node.anchor_key
            &&& ctx.registration_size == node.registration_size
            &&& ctx.vote_failure == vote_failure
            &&& ctx.holds == holds
        }),
{
    steps::lowest_block_of_a_type_is_found(node.blocks, chain, 2, chain.len());
    let found = processing::last_of_kind(node.blocks, chain, 2, chain.len());
    if steps::lowest_of_type(node.blocks, chain, 2, b) {
        if found is None {
            assert(steps::type_of(node.blocks[chain[b] as int]) != 2);
        }
        let k = found->0;
        if k < b {
            assert(steps::type_of(node.blocks[chain[b] as int]) != 2);
        }
        if b < k {
            assert(steps::type_of(node.blocks[chain[k] as int]) != 2);
        }
    }
    if steps::none_of_type(node.blocks, chain, 2) && found is Some {
        assert(steps::type_of(node.blocks[chain[found->0] as int]) != 2);
    }
    assert forall|k: int| 0 <= k < chain.len() implies tree::present(
        node.blocks,
        #[trigger] chain[k],
    ) by {
        assert(steps::leads_on(node.blocks, chain, k));
    }
    retry_laws::lemma_cleared(node.blocks, chain, 0);
}

/// Whether the candidate may be processed under the configuration that is held:
/// where one is, the candidate carries one, and its lowest one is the same.
pub open spec fn configuration_verdict(
    node: NodeView,
    chain: Seq<u32>,
    tip: u32,
    reads: Seq<Option<ChainBlock>>,
    c: int,
) -> Option<ProcessingError> {
    let own = match node.config {
        ConfigView::Unloaded => None,
        ConfigView::Tentative { content, parameters } => Some(content),
        ConfigView::Durable { content, parameters } => Some(content),
    };
    if own is None {
        None
    } else if steps::none_of_type(node.blocks, chain, 3) {
        Some(
            ProcessingError::Invalid {
                block_idx: tip,
                reason: ValidationReason::MissingChainConfigBlock,
            },
        )
    } else if reads[c] is None || !((reads[c]->0).payload is ChainConfig) {
        Some(ProcessingError::StorageRead)
    } else if ((reads[c]->0).payload->ChainConfig_0).content@ != own->0 {
        Some(
            ProcessingError::Invalid {
                block_idx: chain[c],
                reason: ValidationReason::ChainConfigMismatch,
            },
        )
    } else {
        None
    }
}

/// A pass over a candidate first compares configurations, and fails with what
/// speaks against it there; otherwise it comes to what the walk over the candidate
/// comes to. Only a pass that succeeds leaves anything spent.
pub proof fn passes_compare_configurations_and_then_walk(
    node: NodeView,
    chain: Seq<u32>,
    tip: u32,
    reads: Seq<Option<ChainBlock>>,
    vote_failure: Option<(int, VoteEngineError)>,
    holds: spec_fn(CheckView) -> bool,
    c: int,
)
    requires
        node.blocks.len() <= NONE_REF,
        steps::is_chain(node.blocks, chain, tip),
        chain.len() <= node.blocks.len(),
        steps::lowest_of_type(node.blocks, chain, 3, c) || steps::none_of_type(
            node.blocks,
            chain,
            3,
        ),
    ensures
        ({
            let pass = node.passed(tip, reads, vote_failure, holds);
            let first = configuration_verdict(node, chain, tip, reads, c);
            let (d, failure) = walk::segment_derived(
                node.pass_start(chain, reads),
                node.pass_view(chain, reads, vote_failure, holds),
                chain.len(),
                None,
            );
            &&& pass.segment == chain
            &&& pass.node == (NodeView {
                info: pass.node.info,
                blocks: pass.node.blocks,
                vote_reset: false,
                ..node
            })
            &&& first is Some ==> pass.failure == first && pass.checks.len() == 0
            &&& first is None ==> {
                &&& pass.failure == failure
                &&& pass.checks == d.checks
                &&& pass.node.info == d.info
                &&& failure is None ==> pass.node.blocks == d.blocks
            }
        }),
{
    steps::candidates_are_chains(node.blocks, tip, chain);
    steps::lowest_block_of_a_type_is_found(node.blocks, chain, 3, chain.len());
    let found = processing::last_of_kind(node.blocks, chain, 3, chain.len());
    if steps::none_of_type(node.blocks, chain, 3) {
        if found is Some {
            assert(steps::type_of(node.blocks[chain[found->0] as int]) != 3);
        }
    } else {
        if found is None {
            assert(steps::type_of(node.blocks[chain[c] as int]) != 3);
        }
        let k = found->0;
        if k < c {
            assert(steps::type_of(node.blocks[chain[c] as int]) != 3);
        }
        if c < k {
            assert(steps::type_of(node.blocks[chain[k] as int]) != 3);
        }
    }
}

/// Whether `chain` leads from `tip` down along the parents to a block whose parent
/// should be in the tree and is not.
pub open spec fn breaks_off(s: Seq<BlockEntry>, chain: Seq<u32>, tip: u32) -> bool {
    &&& chain.len() > 0
    &&& chain[0] == tip
    &&& forall|k: int|
        0 <= k < chain.len() - 1 ==> {
            &&& requests::holds_block(s, #[trigger] chain[k])
            &&& s[chain[k] as int].parent_ref != NONE_REF
            &&& s[chain[k] as int].parent_ref == chain[k + 1]
        }
    &&& !requests::holds_block(s, chain.last())
}

proof fn lemma_breaks_off(
    s: Seq<BlockEntry>,
    chain: Seq<u32>,
    tip: u32,
    k: int,
    bound: nat,
    above: Seq<u32>,
)
    requires
        breaks_off(s, chain, tip),
        0 <= k < chain.len(),
        chain.len() - k <= bound,
    ensures
        processing::segment_below(s, chain[k], bound, above) == Err::<Seq<u32>, ProcessingError>(
            ProcessingError::MissingBlock,
        ),
    decreases chain.len() - k,
{
    if k < chain.len() - 1 {
        assert(requests::holds_block(s, chain[k]));
        lemma_breaks_off(s, chain, tip, k + 1, (bound - 1) as nat, above.push(chain[k]));
    } else {
        assert(chain[k] == chain.last());
    }
}

/// A pass over a candidate that breaks off fails for want of the missing block. It
/// derives nothing and asks for no signature.
pub proof fn candidates_must_be_whole(
    node: NodeView,
    chain: Seq<u32>,
    tip: u32,
    reads: Seq<Option<ChainBlock>>,
    vote_failure: Option<(int, VoteEngineError)>,
    holds: spec_fn(CheckView) -> bool,
    id: int,
)
    requires
        breaks_off(node.blocks, chain, tip),
        chain.len() <= node.blocks.len(),
    ensures
        ({
            let pass = node.passed(tip, reads, vote_failure, holds);
            &&& pass.failure == Some(ProcessingError::MissingBlock)
            &&& pass.checks.len() == 0
            &&& pass.segment.len() == 0
            &&& 0 <= id < node.info.seeds.len() ==> pass.node.info.seeds[id] == NONE_REF
        }),
{
    lemma_breaks_off(node.blocks, chain, tip, 0, node.blocks.len(), Seq::empty());
}

} // verus!
