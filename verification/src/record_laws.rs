//! What the records of the node say: how a block's marks are kept in its flags,
//! which outputs are spent, what is known of a node, and which configuration is
//! held.

use vstd::prelude::*;

use crate::api::NodeView;
use crate::blocks as tree;
use crate::blocks::{BlockEntry, NONE_REF};
use crate::chain_config;
use crate::chain_config::ChainConfigError;
use crate::config_state::{ConfigParameters, ConfigStateError, ConfigView};
use crate::hash::BlockHash;
use crate::intake;
use crate::intake::WindowVerdict;
use crate::node_info;
use crate::node_info::InfoView;
use crate::prng;
use crate::staged_validation::BlockStatus;

verus! {

// -- Blocks ------------------------------------------------------------------

/// The number that stands for a status.
pub open spec fn status_number(status: BlockStatus) -> u8 {
    match status {
        BlockStatus::Stored => 0,
        BlockStatus::Connected => 1,
        BlockStatus::Active => 2,
    }
}

/// Whether two records differ in their flags alone.
pub open spec fn same_but_flags(a: BlockEntry, b: BlockEntry) -> bool {
    &&& a.hash == b.hash
    &&& a.parent_ref == b.parent_ref
    &&& a.sequence == b.sequence
    &&& a.spent_bits == b.spent_bits
    &&& a.head_ref_count == b.head_ref_count
    &&& a.len == b.len
}

/// The lowest bit of the flags tells whether a block is on the active chain, the
/// two above it its status, and the rest its payload type. Each is written without
/// disturbing the others or anything else of the record; a payload type beyond 31
/// is written as 0.
pub proof fn marks_are_kept_apart(entry: BlockEntry, on: bool, status: BlockStatus, kind: u8)
    ensures
        entry.active() == (entry.flags & 1 == 1),
        status_number(entry.stage()) == (entry.flags >> 1) & 3 || (entry.flags >> 1) & 3 == 3,
        (entry.flags >> 1) & 3 == 3 ==> entry.stage() == BlockStatus::Stored,
        entry.kind() == entry.flags >> 3,
        ({
            let marked = entry.with_active(on);
            &&& same_but_flags(marked, entry)
            &&& marked.flags & 1 == if on {
                1
            } else {
                0u8
            }
            &&& marked.flags >> 1 == entry.flags >> 1
        }),
        ({
            let staged = entry.with_stage(status);
            &&& same_but_flags(staged, entry)
            &&& (staged.flags >> 1) & 3 == status_number(status)
            &&& staged.flags & 1 == entry.flags & 1
            &&& staged.flags >> 3 == entry.flags >> 3
        }),
        ({
            let typed = entry.with_kind(kind);
            &&& same_but_flags(typed, entry)
            &&& typed.flags >> 3 == if kind <= 31 {
                kind
            } else {
                0
            }
            &&& typed.flags & 7 == entry.flags & 7
        }),
{
    let f = entry.flags;
    assert((f & 1 != 0) == (f & 1 == 1)) by (bit_vector);
    assert((f & 0b110) >> 1u8 == (f >> 1) & 3) by (bit_vector);
    assert((f >> 1) & 3 <= 3) by (bit_vector);
    assert((f | 1) & 1 == 1 && (f | 1) >> 1 == f >> 1 && (f & !1u8) & 1 == 0 && (f & !1u8) >> 1
        == f >> 1) by (bit_vector);
    let b = status_number(status);
    assert(b <= 2 ==> ((((f & !0b110u8) | ((b << 1u8) & 0b110)) >> 1) & 3 == b && ((f & !0b110u8)
        | ((b << 1u8) & 0b110)) & 1 == f & 1 && ((f & !0b110u8) | ((b << 1u8) & 0b110)) >> 3 == f
        >> 3)) by (bit_vector);
    assert(kind <= 31 ==> (((f & 7) | (kind << 3u8)) >> 3 == kind && ((f & 7) | (kind << 3u8)) & 7
        == f & 7)) by (bit_vector);
    assert((f & 7) >> 3 == 0 && (f & 7) & 7 == f & 7) by (bit_vector);
}

/// The outputs of a block are numbered through its spent bits, eight to a byte from
/// the lowest bit on. A number beyond the last bit counts as spent and cannot be
/// written.
pub proof fn spent_bits_stand_eight_to_a_byte(entry: BlockEntry, bit: int, value: bool)
    requires
        0 <= bit,
    ensures
        bit >= 256 ==> entry.spent(bit) && entry.with_spent(bit, value) == entry,
        bit < 256 ==> entry.spent(bit) == ((entry.spent_bits@[bit / 8] >> ((bit % 8) as u8)) & 1
            == 1),
        bit < 256 ==> (entry.with_spent(bit, value).spent_bits@[bit / 8] >> ((bit % 8) as u8)) & 1
            == if value {
            1
        } else {
            0u8
        },
        forall|other: int|
            0 <= other < 256 && other != bit ==> entry.with_spent(bit, value).spent(other)
                == #[trigger] entry.spent(other),
        entry.with_spent(bit, value).flags == entry.flags,
        entry.with_spent(bit, value).hash == entry.hash,
        entry.with_spent(bit, value).sequence == entry.sequence,
        entry.with_spent(bit, value).parent_ref == entry.parent_ref,
        entry.with_spent(bit, value).head_ref_count == entry.head_ref_count,
        entry.with_spent(bit, value).len == entry.len,
        forall|other: int| 0 <= other < 32 ==> #[trigger] entry.unspent().spent_bits@[other] == 0,
{
    tree::lemma_spent_update(entry, bit, value);
    if bit < 256 {
        let shift = (bit % 8) as u8;
        let before = entry.spent_bits@[bit / 8];
        let after = entry.with_spent(bit, value).spent_bits@[bit / 8];
        assert(shift < 8 ==> ((before & (1u8 << shift) != 0) == ((before >> shift) & 1 == 1)))
            by (bit_vector);
        assert(shift < 8 ==> (((before | (1u8 << shift)) >> shift) & 1 == 1 && ((before & !(1u8
            << shift)) >> shift) & 1 == 0)) by (bit_vector);
    }
}

/// A new record holds what it is made of, on no chain, stored, of no type and with
/// nothing spent; the record of an empty slot is empty.
pub proof fn new_records_are_blank(hash: BlockHash, parent: u32, sequence: u32)
    ensures
        ({
            let entry = BlockEntry::fresh(hash, parent, sequence);
            &&& entry.hash == hash
            &&& entry.parent_ref == parent
            &&& entry.sequence == sequence
            &&& entry.flags == 0
            &&& entry.head_ref_count == 0
            &&& entry.len == 0
            &&& forall|i: int| 0 <= i < 32 ==> #[trigger] entry.spent_bits@[i] == 0
            &&& entry.occupied() == (sequence != NONE_REF)
        }),
        BlockEntry::vacant().sequence == NONE_REF,
        BlockEntry::vacant().parent_ref == NONE_REF,
        !BlockEntry::vacant().occupied(),
{
}

/// A branch count goes up and down by what is added to it, from 0 to 255.
pub proof fn branch_counts_stay_in_range(count: u8, delta: i8)
    ensures
        0 <= count + delta <= 255 ==> tree::adjusted_count(count, delta) == count + delta,
        count + delta > 255 ==> tree::adjusted_count(count, delta) == 255,
        count + delta < 0 ==> tree::adjusted_count(count, delta) == 0,
{
}

/// What is read back of a block is as long as the block was recorded, where that is
/// known and fits what storage holds; otherwise all that storage holds is read.
pub proof fn blocks_are_read_back_in_full(s: Seq<BlockEntry>, idx: u32, stored: usize)
    ensures
        ({
            let len = tree::retained_len(s, idx, stored);
            let recorded = if idx < s.len() && s[idx as int].sequence != NONE_REF {
                s[idx as int].len as int
            } else {
                0
            };
            &&& 0 < recorded <= stored ==> len == recorded
            &&& recorded == 0 || recorded > stored ==> len == stored
        }),
{
}

// -- Nodes -------------------------------------------------------------------

/// A node is known where a block introduced it; its balance is what stands in the
/// books, and that of a node that is not known is nothing. Its key is known where
/// some byte of it is not blank. A key is taken exactly if a known node has it.
pub proof fn nodes_are_known_by_what_introduced_them(info: InfoView, id: u32, key: Seq<u8>)
    requires
        info.keys.len() == info.seeds.len(),
        info.balances.len() == info.seeds.len(),
    ensures
        info.seeded(id) == (id < info.seeds.len() && info.seeds[id as int] != NONE_REF),
        id < info.seeds.len() && info.seeds[id as int] != NONE_REF ==> info.balance(id)
            == info.balances[id as int],
        id >= info.seeds.len() || info.seeds[id as int] == NONE_REF ==> info.balance(id) == 0,
        info.key(id) is Some == (id < info.seeds.len() && exists|i: int|
            0 <= i < info.keys[id as int].len() && #[trigger] info.keys[id as int][i] != 0),
        info.key(id) is Some ==> info.key(id)->0 == info.keys[id as int],
        info.key_taken(key) == exists|i: int|
            0 <= i < info.seeds.len() && info.seeds[i] != NONE_REF && #[trigger] info.keys[i]
                == key,
{
    if id < info.seeds.len() {
        let own = info.keys[id as int];
        if !node_info::key_absent(own) {
            let i = choose|i: int| 0 <= i < own.len() && #[trigger] own[i] != 0;
            assert(info.keys[id as int][i] != 0);
        }
    }
}

/// Introducing, crediting and debiting a node touch no other; a balance is held
/// between nothing and the largest amount. An id beyond the capacity changes
/// nothing.
pub proof fn books_are_kept_node_by_node(
    info: InfoView,
    id: u32,
    key: Seq<u8>,
    amount: u64,
    seed: u32,
    other: int,
)
    requires
        info.keys.len() == info.seeds.len(),
        info.balances.len() == info.seeds.len(),
        0 <= other < info.seeds.len(),
    ensures
        ({
            let introduced = info.with_node(id, key, amount, seed);
            let credited = info.credited(id, amount);
            let debited = info.debited(id, amount);
            let before = info.balances[id as int];
            &&& id < info.seeds.len() ==> {
                &&& introduced.seeds[id as int] == seed
                &&& introduced.balances[id as int] == amount
                &&& key.len() == info.keys[id as int].len() ==> introduced.keys[id as int] == key
                &&& before + amount <= u64::MAX ==> credited.balances[id as int] == before + amount
                &&& before + amount > u64::MAX ==> credited.balances[id as int] == u64::MAX
                &&& before >= amount ==> debited.balances[id as int] == before - amount
                &&& before < amount ==> debited.balances[id as int] == 0
                &&& credited.seeds == info.seeds && credited.keys == info.keys
                &&& debited.seeds == info.seeds && debited.keys == info.keys
            }
            &&& other != id ==> {
                &&& introduced.seeds[other] == info.seeds[other]
                &&& introduced.balances[other] == info.balances[other]
                &&& introduced.keys[other] == info.keys[other]
                &&& credited.balances[other] == info.balances[other]
                &&& debited.balances[other] == info.balances[other]
            }
            &&& id >= info.seeds.len() ==> introduced == info && credited == info && debited
                == info
            &&& introduced.max_known_node_id == info.max_known_node_id
            &&& credited.max_known_node_id == info.max_known_node_id
            &&& debited.max_known_node_id == info.max_known_node_id
            &&& info.with_watermark(id).max_known_node_id == id
            &&& info.with_watermark(id).balances == info.balances
            &&& info.with_watermark(id).seeds == info.seeds
            &&& info.with_watermark(id).keys == info.keys
        }),
{
    let introduced = info.with_node(id, key, amount, seed);
    if id < info.seeds.len() && key.len() == info.keys[id as int].len() {
        assert(introduced.keys[id as int] =~= key);
    }
}

// -- Configurations ----------------------------------------------------------

/// A configuration is taken exactly if the registry accepts it and none is locked;
/// it is then held as it was given, with the accepted parameters, and locked only
/// where that was asked. What cannot be taken changes nothing.
pub proof fn configurations_are_taken_unless_one_is_locked(
    config: ConfigView,
    content: Seq<u8>,
    accepted: Option<ConfigParameters>,
)
    ensures
        ({
            let taken = accepted is Some && (config is Unloaded || config is Tentative);
            let loaded = config.loaded(content, accepted);
            let locked = config.loaded_durable(content, accepted);
            &&& taken == (config.load_error(accepted) is None)
            &&& config is Durable ==> config.load_error(accepted) == Some(
                ConfigStateError::DurableLocked,
            )
            &&& !(config is Durable) && accepted is None ==> config.load_error(accepted) == Some(
                ConfigStateError::ContentRefused,
            )
            &&& taken ==> {
                &&& loaded is Tentative
                &&& loaded->Tentative_content == content
                &&& loaded->Tentative_parameters == accepted->0
                &&& locked is Durable
                &&& locked->Durable_content == content
                &&& locked->Durable_parameters == accepted->0
            }
            &&& !taken ==> loaded == config && locked == config
        }),
{
}

/// What is held is in force, locked or not; only a tentative configuration can be
/// locked or withdrawn, and locking changes nothing else of it.
pub proof fn configurations_are_locked_or_withdrawn(config: ConfigView)
    ensures
        match config {
            ConfigView::Unloaded => {
                &&& config.active() is None
                &&& config.held() is None
                &&& config.durable() is None
                &&& config.tentative() is None
                &&& config.promoted() is Unloaded
                &&& config.withdrawn() is Unloaded
            },
            ConfigView::Tentative { content, parameters } => {
                &&& config.active() == Some(parameters)
                &&& config.held() == Some(content)
                &&& config.durable() is None
                &&& config.tentative() == Some(content)
                &&& config.promoted() is Durable
                &&& config.promoted()->Durable_content == content
                &&& config.promoted()->Durable_parameters == parameters
                &&& config.withdrawn() is Unloaded
            },
            ConfigView::Durable { content, parameters } => {
                &&& config.active() == Some(parameters)
                &&& config.held() == Some(content)
                &&& config.durable() == Some(content)
                &&& config.tentative() is None
                &&& config.promoted() == config
                &&& config.withdrawn() == config
            },
        },
{
}

/// The initial configuration is retained exactly if none was before and it fits the
/// payload of a block.
pub proof fn initial_configurations_must_fit(retained: Option<Seq<u8>>, bytes: Seq<u8>)
    ensures
        ({
            let after = chain_config::retained_after(retained, bytes);
            let error = chain_config::store_error(retained, bytes);
            &&& retained is Some ==> after == retained && error == Some(
                ChainConfigError::InitialChainConfigAlreadyStored,
            )
            &&& retained is None && bytes.len() > 1894 ==> after is None && error == Some(
                ChainConfigError::InitialChainConfigTooLarge,
            )
            &&& retained is None && bytes.len() <= 1894 ==> after == Some(bytes) && error is None
        }),
{
}

// -- The phase ---------------------------------------------------------------

/// A node is ready in that phase alone, not while it collects or processes.
pub proof fn nodes_are_ready_in_one_phase(node: NodeView)
    ensures
        node.ready() <==> !(node.phase is Collecting) && !(node.phase is Processing),
{
}

// -- The window and the seeds ------------------------------------------------

/// A block is inside the window exactly if it is not below the tail of the active
/// chain and less than a window above its head; of a block that is both too high
/// and too low, it is told that it is too high.
pub proof fn windows_reach_from_the_tail(s: u32, tail: u32, head: u32, w: u32)
    ensures
        ({
            let verdict = intake::window_position(s, tail, head, w);
            &&& verdict == WindowVerdict::InWindow <==> tail <= s && s < head + w
            &&& verdict == WindowVerdict::TooFarAhead <==> s - head >= w
            &&& verdict == WindowVerdict::BelowTail <==> s < tail && s - head < w
        }),
{
}

/// The hash behind a sub-seed starts from the offset basis and takes in one byte
/// after the other: the byte is added without carry, and the result is multiplied
/// by the prime, modulo the size of a word.
pub proof fn seeds_take_in_every_byte(bytes: Seq<u8>, next: u8)
    ensures
        prng::fnv1a(Seq::empty()) == 14695981039346656037,
        prng::fnv1a(bytes.push(next)) == ((prng::fnv1a(bytes) ^ next as u64) * 1099511628211)
            % 18446744073709551616,
{
    assert(bytes.push(next).drop_last() =~= bytes);
    assert(prng::fnv1a(bytes.push(next)) == vstd::wrapping::u64_specs::wrapping_mul(
        prng::fnv1a(bytes) ^ (next as u64),
        1099511628211,
    ));
}

} // verus!
