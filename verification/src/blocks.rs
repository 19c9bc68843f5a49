//! The bounded block-tree: every retained block with its ancestry metadata.
//!
//! `BlockTable` is the single authoritative `(sequence, hash)` index of what
//! the node retains. A slot is never overwritten while it is occupied: a full
//! table refuses the insertion, and side branches are never silently dropped.
//! What identifies a block (hash, sequence, length) never changes under it, and
//! a parent link is only ever resolved, never re-pointed; the remaining
//! metadata (status, active-chain membership, spent bits, branch count) has one
//! narrow setter each.
//!
//! Slot `i` of the table and slot `i` of durable storage are the same slot, so
//! releasing one releases the other.

use vstd::prelude::*;

use crate::hash;
use crate::hash::{hash_eq, no_hash, BlockHash};
use crate::staged_validation::BlockStatus;

verus! {

/// "No block": an unresolved parent reference, and the sequence of an empty
/// slot.
pub const NONE_REF: u32 = 0xFFFF_FFFF;

/// Bytes of the per-block spent-bit vector, one bit per UTXO output.
pub const SPENT_BITS_BYTES: usize = 32;

/// Bit 0 of `flags`: the block lies on the active chain.
pub const FLAG_ON_ACTIVE_CHAIN: u8 = 0b0000_0001;

/// Bits 1-2 of `flags`: the staged-validation status.
pub const FLAG_STATUS_MASK: u8 = 0b0000_0110;

/// Bits 0-2 of `flags`: everything below the cached payload type.
pub const FLAG_STATE_MASK: u8 = 0b0000_0111;

/// The largest payload type the cached bits 3-7 can hold.
pub const MAX_CACHED_PAYLOAD_TYPE: u8 = 31;

/// Metadata of one retained block.
#[derive(Clone, Copy)]
pub struct BlockEntry {
    pub hash: BlockHash,
    /// Slot of the parent, or `NONE_REF` while it is not in the tree.
    pub parent_ref: u32,
    pub sequence: u32,
    pub spent_bits: [u8; 32],
    /// Number of distinct tracked branches that pass through this block.
    pub head_ref_count: u8,
    pub flags: u8,
    /// Serialized length of the block in bytes, `0` when never recorded.
    pub len: u16,
}

/// Why an insertion was refused.
#[derive(Debug, Clone, Copy, PartialEq, Eq, Structural)]
pub enum BlockTableError {
    /// No empty slot remains.
    Full,
    /// The entry carries the sequence that marks an empty slot.
    ReservedSequence,
}

/// The all-zero spent-bit vector.
pub open spec fn no_spent_bits() -> [u8; 32] {
    vstd::array::spec_array_fill_for_copy_type::<u8, 32>(0u8)
}

/// The two status bits of a status.
pub open spec fn status_bits(status: BlockStatus) -> u8 {
    match status {
        BlockStatus::Stored => 0b00u8,
        BlockStatus::Connected => 0b01u8,
        BlockStatus::Active => 0b10u8,
    }
}

/// The value `count` takes when `delta` branches are added to it, held inside
/// the range of the counter.
pub open spec fn adjusted_count(count: u8, delta: i8) -> u8 {
    if count + delta > 255 {
        255u8
    } else if count + delta < 0 {
        0u8
    } else {
        (count + delta) as u8
    }
}

impl BlockEntry {
    /// The content of an empty slot.
    pub open spec fn vacant() -> BlockEntry {
        BlockEntry {
            hash: hash::zero_hash(),
            parent_ref: NONE_REF,
            sequence: NONE_REF,
            spent_bits: no_spent_bits(),
            head_ref_count: 0,
            flags: 0,
            len: 0,
        }
    }

    /// A freshly admitted block.
    pub open spec fn fresh(hash: BlockHash, parent_ref: u32, sequence: u32) -> BlockEntry {
        BlockEntry {
            hash,
            parent_ref,
            sequence,
            spent_bits: no_spent_bits(),
            head_ref_count: 0,
            flags: 0,
            len: 0,
        }
    }

    /// Whether the slot holds a block.
    pub open spec fn occupied(self) -> bool {
        self.sequence != NONE_REF
    }

    /// Whether the entry is the block `(sequence, hash)`.
    pub open spec fn is_block(self, sequence: u32, hash: BlockHash) -> bool {
        self.occupied() && self.sequence == sequence && self.hash == hash
    }

    /// Whether the block lies on the active chain.
    pub open spec fn active(self) -> bool {
        self.flags & FLAG_ON_ACTIVE_CHAIN != 0
    }

    /// The staged-validation status; an unassigned bit pattern counts as the
    /// least-promoted one.
    pub open spec fn stage(self) -> BlockStatus {
        if (self.flags & FLAG_STATUS_MASK) >> 1u8 == 0b01u8 {
            BlockStatus::Connected
        } else if (self.flags & FLAG_STATUS_MASK) >> 1u8 == 0b10u8 {
            BlockStatus::Active
        } else {
            BlockStatus::Stored
        }
    }

    /// The cached payload type.
    pub open spec fn kind(self) -> u8 {
        self.flags >> 3u8
    }

    /// Whether output `bit` of the block has been spent; a position beyond the
    /// vector counts as spent.
    pub open spec fn spent(self, bit: int) -> bool {
        bit / 8 >= SPENT_BITS_BYTES || self.spent_bits@[bit / 8] & (1u8 << ((bit % 8) as u8)) != 0
    }

    pub open spec fn with_active(self, value: bool) -> BlockEntry {
        BlockEntry {
            flags: if value {
                self.flags | FLAG_ON_ACTIVE_CHAIN
            } else {
                self.flags & !FLAG_ON_ACTIVE_CHAIN
            },
            ..self
        }
    }

    pub open spec fn with_stage(self, status: BlockStatus) -> BlockEntry {
        BlockEntry {
            flags: (self.flags & !FLAG_STATUS_MASK) | ((status_bits(status) << 1u8)
                & FLAG_STATUS_MASK),
            ..self
        }
    }

    pub open spec fn with_kind(self, payload_type: u8) -> BlockEntry {
        BlockEntry {
            flags: if payload_type <= MAX_CACHED_PAYLOAD_TYPE {
                (self.flags & FLAG_STATE_MASK) | (payload_type << 3u8)
            } else {
                self.flags & FLAG_STATE_MASK
            },
            ..self
        }
    }

    pub open spec fn with_len(self, len: u16) -> BlockEntry {
        BlockEntry { len, ..self }
    }

    pub open spec fn with_count(self, head_ref_count: u8) -> BlockEntry {
        BlockEntry { head_ref_count, ..self }
    }

    pub open spec fn with_parent(self, parent_ref: u32) -> BlockEntry {
        BlockEntry { parent_ref, ..self }
    }

    pub open spec fn unspent(self) -> BlockEntry {
        BlockEntry { spent_bits: no_spent_bits(), ..self }
    }

    pub open spec fn with_spent(self, bit: int, value: bool) -> BlockEntry {
        if bit / 8 >= SPENT_BITS_BYTES {
            self
        } else {
            let mask = 1u8 << ((bit % 8) as u8);
            let byte = self.spent_bits@[bit / 8];
            BlockEntry {
                spent_bits: vstd::array::spec_array_update(
                    self.spent_bits,
                    bit / 8,
                    if value {
                        byte | mask
                    } else {
                        byte & !mask
                    },
                ),
                ..self
            }
        }
    }

    /// The content of an empty slot.
    pub fn new_empty() -> (entry: BlockEntry)
        ensures
            entry == BlockEntry::vacant(),
    {
        BlockEntry {
            hash: no_hash(),
            parent_ref: NONE_REF,
            sequence: NONE_REF,
            spent_bits: [0u8; 32],
            head_ref_count: 0,
            flags: 0,
            len: 0,
        }
    }

    /// A freshly admitted block; `parent_ref == NONE_REF` means that its parent
    /// is not in the tree.
    pub fn new(hash: BlockHash, parent_ref: u32, sequence: u32) -> (entry: BlockEntry)
        ensures
            entry == BlockEntry::fresh(hash, parent_ref, sequence),
    {
        BlockEntry {
            hash,
            parent_ref,
            sequence,
            spent_bits: [0u8; 32],
            head_ref_count: 0,
            flags: 0,
            len: 0,
        }
    }

    /// The recorded serialized length.
    pub fn len(&self) -> (len: u16)
        ensures
            len == self.len,
    {
        self.len
    }

    /// Records the serialized length.
    pub fn set_len(&mut self, len: u16)
        ensures
            *final(self) == old(self).with_len(len),
    {
        self.len = len;
    }

    /// Whether the slot is empty.
    pub fn is_empty_slot(&self) -> (empty: bool)
        ensures
            empty == !self.occupied(),
    {
        self.sequence == NONE_REF
    }

    /// Whether the block lies on the active chain.
    pub fn is_on_active_chain(&self) -> (on: bool)
        ensures
            on == self.active(),
    {
        self.flags & FLAG_ON_ACTIVE_CHAIN != 0
    }

    /// Marks the block as lying on the active chain, or not.
    pub fn set_on_active_chain(&mut self, value: bool)
        ensures
            *final(self) == old(self).with_active(value),
            final(self).active() == value,
            final(self).stage() == old(self).stage(),
            final(self).kind() == old(self).kind(),
    {
        proof {
            lemma_active_bit(self.flags);
        }
        if value {
            self.flags = self.flags | FLAG_ON_ACTIVE_CHAIN;
        } else {
            self.flags = self.flags & !FLAG_ON_ACTIVE_CHAIN;
        }
    }

    /// The block's hash.
    pub fn hash(&self) -> (hash: &BlockHash)
        ensures
            *hash == self.hash,
    {
        &self.hash
    }

    /// The block's sequence.
    pub fn sequence(&self) -> (sequence: u32)
        ensures
            sequence == self.sequence,
    {
        self.sequence
    }

    /// The slot of the parent, or `NONE_REF`.
    pub fn parent_ref(&self) -> (parent: u32)
        ensures
            parent == self.parent_ref,
    {
        self.parent_ref
    }

    /// The number of tracked branches through this block.
    pub fn head_ref_count(&self) -> (count: u8)
        ensures
            count == self.head_ref_count,
    {
        self.head_ref_count
    }

    /// Stamps the branch count before insertion.
    pub fn set_head_ref_count(&mut self, count: u8)
        ensures
            *final(self) == old(self).with_count(count),
    {
        self.head_ref_count = count;
    }

    /// The staged-validation status.
    pub fn status(&self) -> (status: BlockStatus)
        ensures
            status == self.stage(),
    {
        let bits: u8 = (self.flags & FLAG_STATUS_MASK) >> 1u8;
        if bits == 0b01 {
            BlockStatus::Connected
        } else if bits == 0b10 {
            BlockStatus::Active
        } else {
            BlockStatus::Stored
        }
    }

    /// Writes the status without disturbing the other flags.
    pub fn set_status(&mut self, status: BlockStatus)
        ensures
            *final(self) == old(self).with_stage(status),
            final(self).stage() == status,
            final(self).active() == old(self).active(),
            final(self).kind() == old(self).kind(),
    {
        proof {
            lemma_status_bits(self.flags, status);
        }
        let bits: u8 = match status {
            BlockStatus::Stored => 0b00u8,
            BlockStatus::Connected => 0b01u8,
            BlockStatus::Active => 0b10u8,
        };
        self.flags = (self.flags & !FLAG_STATUS_MASK) | ((bits << 1u8) & FLAG_STATUS_MASK);
    }

    /// The cached payload type.
    pub fn payload_type(&self) -> (payload_type: u8)
        ensures
            payload_type == self.kind(),
    {
        self.flags >> 3u8
    }

    /// Caches the payload type in the spare flag bits. A type that does not fit
    /// is cached as `0`, which names no payload.
    pub fn set_payload_type(&mut self, payload_type: u8)
        ensures
            *final(self) == old(self).with_kind(payload_type),
            final(self).kind() == if payload_type <= MAX_CACHED_PAYLOAD_TYPE {
                payload_type
            } else {
                0
            },
            final(self).stage() == old(self).stage(),
            final(self).active() == old(self).active(),
    {
        proof {
            lemma_kind_bits(self.flags, payload_type);
        }
        if payload_type <= MAX_CACHED_PAYLOAD_TYPE {
            self.flags = (self.flags & FLAG_STATE_MASK) | (payload_type << 3u8);
        } else {
            self.flags = self.flags & FLAG_STATE_MASK;
        }
    }

    /// Whether output `bit` has been spent. A position beyond the vector reads
    /// as spent, so that an oversized reference can never pass for unspent.
    pub fn spent_bit(&self, bit: usize) -> (spent: bool)
        ensures
            spent == self.spent(bit as int),
    {
        let byte: usize = bit / 8;
        if byte >= SPENT_BITS_BYTES {
            return true;
        }
        let shift: u8 = (bit % 8) as u8;
        self.spent_bits[byte] & (1u8 << shift) != 0
    }

    /// Marks output `bit` as spent or unspent. A position beyond the vector is
    /// ignored.
    pub fn set_spent_bit(&mut self, bit: usize, value: bool)
        ensures
            *final(self) == old(self).with_spent(bit as int, value),
            bit < 8 * SPENT_BITS_BYTES ==> final(self).spent(bit as int) == value,
            forall|other: int|
                0 <= other && other != bit ==> final(self).spent(other) == old(self).spent(other),
    {
        let byte: usize = bit / 8;
        if byte >= SPENT_BITS_BYTES {
            return;
        }
        let shift: u8 = (bit % 8) as u8;
        let mask: u8 = 1u8 << shift;
        let ghost before = *self;
        if value {
            let raised: u8 = self.spent_bits[byte] | mask;
            self.spent_bits[byte] = raised;
        } else {
            let lowered: u8 = self.spent_bits[byte] & !mask;
            self.spent_bits[byte] = lowered;
        }
        proof {
            lemma_spent_update(before, bit as int, value);
            assert(self.spent_bits =~= before.with_spent(bit as int, value).spent_bits);
        }
    }
}

/// The active-chain bit is independent of the status and of the cached payload
/// type.
pub proof fn lemma_active_bit(flags: u8)
    ensures
        (flags | FLAG_ON_ACTIVE_CHAIN) & FLAG_ON_ACTIVE_CHAIN != 0,
        (flags & !FLAG_ON_ACTIVE_CHAIN) & FLAG_ON_ACTIVE_CHAIN == 0,
        (flags | FLAG_ON_ACTIVE_CHAIN) & FLAG_STATUS_MASK == flags & FLAG_STATUS_MASK,
        (flags & !FLAG_ON_ACTIVE_CHAIN) & FLAG_STATUS_MASK == flags & FLAG_STATUS_MASK,
        (flags | FLAG_ON_ACTIVE_CHAIN) >> 3u8 == flags >> 3u8,
        (flags & !FLAG_ON_ACTIVE_CHAIN) >> 3u8 == flags >> 3u8,
{
    assert((flags | 0b1u8) & 0b1u8 != 0 && (flags & !0b1u8) & 0b1u8 == 0 && (flags | 0b1u8)
        & 0b110u8 == flags & 0b110u8 && (flags & !0b1u8) & 0b110u8 == flags & 0b110u8 && (flags
        | 0b1u8) >> 3u8 == flags >> 3u8 && (flags & !0b1u8) >> 3u8 == flags >> 3u8)
        by (bit_vector);
}

/// Writing a status reads back as that status and disturbs no other flag.
pub proof fn lemma_status_bits(flags: u8, status: BlockStatus)
    ensures
        ({
            let written = (flags & !FLAG_STATUS_MASK) | ((status_bits(status) << 1u8)
                & FLAG_STATUS_MASK);
            &&& (written & FLAG_STATUS_MASK) >> 1u8 == status_bits(status)
            &&& written & FLAG_ON_ACTIVE_CHAIN == flags & FLAG_ON_ACTIVE_CHAIN
            &&& written >> 3u8 == flags >> 3u8
        }),
{
    let bits = status_bits(status);
    assert(bits <= 2 ==> ((((flags & !0b110u8) | ((bits << 1u8) & 0b110u8)) & 0b110u8) >> 1u8
        == bits && ((flags & !0b110u8) | ((bits << 1u8) & 0b110u8)) & 0b1u8 == flags & 0b1u8 && ((
    flags & !0b110u8) | ((bits << 1u8) & 0b110u8)) >> 3u8 == flags >> 3u8)) by (bit_vector);
}

/// Caching a payload type reads back as that type and disturbs no other flag.
pub proof fn lemma_kind_bits(flags: u8, payload_type: u8)
    ensures
        payload_type <= MAX_CACHED_PAYLOAD_TYPE ==> ({
            let written = (flags & FLAG_STATE_MASK) | (payload_type << 3u8);
            &&& written >> 3u8 == payload_type
            &&& written & FLAG_ON_ACTIVE_CHAIN == flags & FLAG_ON_ACTIVE_CHAIN
            &&& written & FLAG_STATUS_MASK == flags & FLAG_STATUS_MASK
        }),
        (flags & FLAG_STATE_MASK) >> 3u8 == 0,
        (flags & FLAG_STATE_MASK) & FLAG_ON_ACTIVE_CHAIN == flags & FLAG_ON_ACTIVE_CHAIN,
        (flags & FLAG_STATE_MASK) & FLAG_STATUS_MASK == flags & FLAG_STATUS_MASK,
{
    assert(payload_type <= 31 ==> (((flags & 0b111u8) | (payload_type << 3u8)) >> 3u8
        == payload_type && ((flags & 0b111u8) | (payload_type << 3u8)) & 0b1u8 == flags & 0b1u8
        && ((flags & 0b111u8) | (payload_type << 3u8)) & 0b110u8 == flags & 0b110u8))
        by (bit_vector);
    assert((flags & 0b111u8) >> 3u8 == 0 && (flags & 0b111u8) & 0b1u8 == flags & 0b1u8 && (flags
        & 0b111u8) & 0b110u8 == flags & 0b110u8) by (bit_vector);
}

/// Writing one spent bit reads back as written and leaves every other bit.
pub proof fn lemma_spent_update(entry: BlockEntry, bit: int, value: bool)
    requires
        0 <= bit,
    ensures
        bit < 8 * SPENT_BITS_BYTES ==> entry.with_spent(bit, value).spent(bit) == value,
        forall|other: int|
            0 <= other && other != bit ==> entry.with_spent(bit, value).spent(other)
                == #[trigger] entry.spent(other),
{
    let written = entry.with_spent(bit, value);
    if bit < 8 * SPENT_BITS_BYTES {
        let byte = entry.spent_bits@[bit / 8];
        let own = (bit % 8) as u8;
        assert(own < 8 ==> ((byte | (1u8 << own)) & (1u8 << own) != 0 && (byte & !(1u8 << own)) & (
        1u8 << own) == 0)) by (bit_vector);
        assert forall|other: int| 0 <= other && other != bit implies written.spent(other)
            == #[trigger] entry.spent(other) by {
            if other < 8 * SPENT_BITS_BYTES && other / 8 == bit / 8 {
                let theirs = (other % 8) as u8;
                assert(own != theirs);
                assert(own < 8 && theirs < 8 && own != theirs ==> ((byte | (1u8 << own)) & (1u8
                    << theirs) == byte & (1u8 << theirs) && (byte & !(1u8 << own)) & (1u8
                    << theirs) == byte & (1u8 << theirs))) by (bit_vector);
            }
        }
    }
}

/// Whether slot `idx` of the table holds a block.
pub open spec fn present(s: Seq<BlockEntry>, idx: u32) -> bool {
    idx < s.len() && s[idx as int].occupied()
}

/// The first slot from `from` on that holds the block `(sequence, hash)`.
pub open spec fn slot_of(s: Seq<BlockEntry>, sequence: u32, hash: BlockHash, from: int) -> Option<u32>
    decreases s.len() - from,
{
    if from < 0 || from >= s.len() {
        None
    } else if s[from].is_block(sequence, hash) {
        Some(from as u32)
    } else {
        slot_of(s, sequence, hash, from + 1)
    }
}

/// The slot of the parent that a block at `sequence` with this previous hash
/// names, if it is in the tree.
pub open spec fn parent_slot(s: Seq<BlockEntry>, previous_hash: BlockHash, sequence: u32) -> Option<
    u32,
> {
    if sequence == 0 {
        None
    } else {
        slot_of(s, (sequence - 1) as u32, previous_hash, 0)
    }
}

/// The recorded length of the block in slot `idx`, where there is one that fits
/// into `stored` bytes; all of them otherwise.
pub open spec fn retained_len(s: Seq<BlockEntry>, idx: u32, stored: usize) -> usize {
    if present(s, idx) && 0 < s[idx as int].len <= stored {
        s[idx as int].len as usize
    } else {
        stored
    }
}

/// The first empty slot from `from` on.
pub open spec fn free_slot(s: Seq<BlockEntry>, from: int) -> Option<u32>
    decreases s.len() - from,
{
    if from < 0 || from >= s.len() {
        None
    } else if !s[from].occupied() {
        Some(from as u32)
    } else {
        free_slot(s, from + 1)
    }
}

/// Number of occupied slots.
pub open spec fn occupied_count(s: Seq<BlockEntry>) -> nat
    decreases s.len(),
{
    if s.len() == 0 {
        0
    } else if s.last().occupied() {
        occupied_count(s.drop_last()) + 1
    } else {
        occupied_count(s.drop_last())
    }
}

/// Whether the ancestry of slot `idx` meets the active chain within `steps`
/// blocks.
pub open spec fn reaches_active(s: Seq<BlockEntry>, idx: u32, steps: nat) -> bool
    decreases steps,
{
    if steps == 0 || !present(s, idx) {
        false
    } else if s[idx as int].active() {
        true
    } else if s[idx as int].parent_ref == NONE_REF {
        false
    } else {
        reaches_active(s, s[idx as int].parent_ref, (steps - 1) as nat)
    }
}

/// Whether slot `idx` is the block at `target` or one of its descendants, over
/// an ancestry of at most `steps` blocks.
pub open spec fn descends(s: Seq<BlockEntry>, idx: u32, target: u32, steps: nat) -> bool
    decreases steps,
{
    if steps == 0 || !present(s, idx) {
        false
    } else if idx == target {
        true
    } else if s[idx as int].parent_ref == NONE_REF {
        false
    } else {
        descends(s, s[idx as int].parent_ref, target, (steps - 1) as nat)
    }
}

/// Slot `idx` replaced by `entry` when it holds a block; unchanged otherwise.
pub open spec fn revised(s: Seq<BlockEntry>, idx: u32, entry: BlockEntry) -> Seq<BlockEntry> {
    if present(s, idx) {
        s.update(idx as int, entry)
    } else {
        s
    }
}

/// The table after the branch count of slot `idx` moved by `delta`.
pub open spec fn recounted(s: Seq<BlockEntry>, idx: u32, delta: i8) -> Seq<BlockEntry> {
    revised(s, idx, s[idx as int].with_count(adjusted_count(s[idx as int].head_ref_count, delta)))
}

/// The table after slot `idx` was released.
pub open spec fn released(s: Seq<BlockEntry>, idx: u32) -> Seq<BlockEntry> {
    revised(s, idx, BlockEntry::vacant())
}

/// The table after `target` and all its descendants were released.
pub open spec fn without_subtree(s: Seq<BlockEntry>, target: u32) -> Seq<BlockEntry> {
    Seq::new(
        s.len(),
        |i: int|
            if descends(s, i as u32, target, s.len()) {
                BlockEntry::vacant()
            } else {
                s[i]
            },
    )
}

/// The slots below `end` that hold `target` or one of its descendants, in
/// ascending order.
pub open spec fn subtree_slots(s: Seq<BlockEntry>, target: u32, end: nat) -> Seq<u32>
    decreases end,
{
    if end == 0 {
        Seq::empty()
    } else {
        let below = subtree_slots(s, target, (end - 1) as nat);
        if descends(s, (end - 1) as u32, target, s.len()) {
            below.push((end - 1) as u32)
        } else {
            below
        }
    }
}

/// The slots of the subtree of `target`.
pub open spec fn subtree(s: Seq<BlockEntry>, target: u32) -> Seq<u32> {
    subtree_slots(s, target, s.len())
}

/// The table with every branch count at zero.
pub open spec fn uncounted(s: Seq<BlockEntry>) -> Seq<BlockEntry> {
    Seq::new(s.len(), |i: int| s[i].with_count(0))
}

/// No `(sequence, hash)` is held twice.
pub open spec fn unique_blocks(s: Seq<BlockEntry>) -> bool {
    forall|i: int, j: int|
        0 <= i < j < s.len() && (#[trigger] s[i]).occupied() && (#[trigger] s[j]).occupied()
            ==> !(s[i].sequence == s[j].sequence && s[i].hash == s[j].hash)
}

/// What identifies a block, and how it came in, are the same in both entries.
pub open spec fn same_block(a: BlockEntry, b: BlockEntry) -> bool {
    a.hash == b.hash && a.sequence == b.sequence && a.len == b.len && a.kind() == b.kind()
}

/// `after` retains a part of `before`: every block still there is the block
/// that was there, with the parent it had, or with a parent where it had none.
pub open spec fn retains(before: Seq<BlockEntry>, after: Seq<BlockEntry>) -> bool {
    &&& after.len() == before.len()
    &&& forall|i: int|
        0 <= i < before.len() && (#[trigger] after[i]).occupied() ==> {
            &&& before[i].occupied()
            &&& same_block(before[i], after[i])
            &&& after[i].parent_ref == before[i].parent_ref || before[i].parent_ref == NONE_REF
        }
}

/// Retaining a part of a table keeps its blocks distinct.
pub proof fn retaining_keeps_blocks_unique(before: Seq<BlockEntry>, after: Seq<BlockEntry>)
    requires
        retains(before, after),
        unique_blocks(before),
    ensures
        unique_blocks(after),
{
    assert forall|i: int, j: int|
        0 <= i < j < after.len() && (#[trigger] after[i]).occupied() && (
        #[trigger] after[j]).occupied() implies !(after[i].sequence == after[j].sequence
        && after[i].hash == after[j].hash) by {
        assert(before[i].occupied() && before[j].occupied());
    }
}

/// Retention composes.
pub proof fn retains_transitive(
    first: Seq<BlockEntry>,
    second: Seq<BlockEntry>,
    third: Seq<BlockEntry>,
)
    requires
        retains(first, second),
        retains(second, third),
    ensures
        retains(first, third),
{
    assert forall|i: int| 0 <= i < first.len() && (#[trigger] third[i]).occupied() implies {
        &&& first[i].occupied()
        &&& same_block(first[i], third[i])
        &&& third[i].parent_ref == first[i].parent_ref || first[i].parent_ref == NONE_REF
    } by {
        assert(second[i].occupied());
    }
}

/// What `slot_of` finds is the block, in the lowest slot that holds it; it finds
/// nothing only when no slot from `from` on holds the block.
pub proof fn slot_of_is_first(s: Seq<BlockEntry>, sequence: u32, hash: BlockHash, from: int)
    requires
        0 <= from,
        s.len() <= NONE_REF,
    ensures
        match slot_of(s, sequence, hash, from) {
            Some(idx) => {
                &&& from <= idx < s.len()
                &&& s[idx as int].is_block(sequence, hash)
                &&& forall|i: int| from <= i < idx ==> !(#[trigger] s[i]).is_block(sequence, hash)
            },
            None => forall|i: int|
                from <= i < s.len() ==> !(#[trigger] s[i]).is_block(sequence, hash),
        },
    decreases s.len() - from,
{
    if from < s.len() && !s[from].is_block(sequence, hash) {
        slot_of_is_first(s, sequence, hash, from + 1);
    }
}

/// What `free_slot` finds is the lowest empty slot from `from` on; it finds
/// nothing only when every such slot is occupied.
pub proof fn free_slot_is_first(s: Seq<BlockEntry>, from: int)
    requires
        0 <= from,
        s.len() <= NONE_REF,
    ensures
        match free_slot(s, from) {
            Some(idx) => {
                &&& from <= idx < s.len()
                &&& !s[idx as int].occupied()
                &&& forall|i: int| from <= i < idx ==> (#[trigger] s[i]).occupied()
            },
            None => forall|i: int| from <= i < s.len() ==> (#[trigger] s[i]).occupied(),
        },
    decreases s.len() - from,
{
    if from < s.len() && s[from].occupied() {
        free_slot_is_first(s, from + 1);
    }
}

/// A block that was inserted into a free slot is found again, and distinct
/// blocks stay distinct.
pub proof fn inserted_block_is_found(s: Seq<BlockEntry>, idx: u32, entry: BlockEntry)
    requires
        s.len() <= NONE_REF,
        idx < s.len(),
        !s[idx as int].occupied(),
        entry.occupied(),
        unique_blocks(s),
        slot_of(s, entry.sequence, entry.hash, 0) is None,
    ensures
        slot_of(s.update(idx as int, entry), entry.sequence, entry.hash, 0) == Some(idx),
        unique_blocks(s.update(idx as int, entry)),
{
    let after = s.update(idx as int, entry);
    slot_of_is_first(s, entry.sequence, entry.hash, 0);
    slot_of_is_first(after, entry.sequence, entry.hash, 0);
    assert(after[idx as int].is_block(entry.sequence, entry.hash));
    assert forall|i: int| 0 <= i < after.len() && i != idx implies !(
    #[trigger] after[i]).is_block(entry.sequence, entry.hash) by {
        assert(after[i] == s[i]);
        assert(!s[i].is_block(entry.sequence, entry.hash));
    }
    assert forall|i: int, j: int|
        0 <= i < j < after.len() && (#[trigger] after[i]).occupied() && (
        #[trigger] after[j]).occupied() implies !(after[i].sequence == after[j].sequence
        && after[i].hash == after[j].hash) by {
        if i != idx && j != idx {
            assert(after[i] == s[i] && after[j] == s[j]);
        } else if i == idx {
            assert(!after[j].is_block(entry.sequence, entry.hash));
        } else {
            assert(!after[i].is_block(entry.sequence, entry.hash));
        }
    }
}

/// A block that was released is no longer found.
pub proof fn released_block_is_not_found(s: Seq<BlockEntry>, idx: u32)
    requires
        s.len() <= NONE_REF,
        present(s, idx),
        unique_blocks(s),
    ensures
        !present(released(s, idx), idx),
        slot_of(released(s, idx), s[idx as int].sequence, s[idx as int].hash, 0) is None,
        retains(s, released(s, idx)),
{
    let after = released(s, idx);
    let gone = s[idx as int];
    slot_of_is_first(after, gone.sequence, gone.hash, 0);
    assert forall|i: int| 0 <= i < after.len() implies !(#[trigger] after[i]).is_block(
        gone.sequence,
        gone.hash,
    ) by {
        if i != idx {
            assert(after[i] == s[i]);
            if s[i].occupied() {
                assert(s[idx as int].occupied());
            }
        }
    }
}

/// No block of the tree has `idx` as its parent.
pub open spec fn childless(s: Seq<BlockEntry>, idx: u32) -> bool {
    forall|i: int|
        0 <= i < s.len() && s[i].occupied() ==> #[trigger] s[i].parent_ref != idx
}

/// Whether `idx` is among `slots`.
pub fn contains_slot(slots: &Vec<u32>, idx: u32) -> (found: bool)
    ensures
        found == slots@.contains(idx),
{
    let mut i: usize = 0;
    while i < slots.len()
        invariant
            i <= slots@.len(),
            forall|j: int| 0 <= j < i ==> slots@[j] != idx,
        decreases slots@.len() - i,
    {
        if slots[i] == idx {
            return true;
        }
        i = i + 1;
    }
    false
}

/// Bounded block-tree over `MAX_BLOCKS` slots.
pub struct BlockTable<const MAX_BLOCKS: usize> {
    pub blocks: Vec<BlockEntry>,
}

impl<const MAX_BLOCKS: usize> BlockTable<MAX_BLOCKS> {
    /// The table has exactly `MAX_BLOCKS` slots, each of which a `u32` other
    /// than `NONE_REF` can name.
    pub open spec fn wf(self) -> bool {
        self.blocks@.len() == MAX_BLOCKS && MAX_BLOCKS <= NONE_REF
    }

    /// An empty table.
    pub fn new() -> (table: Self)
        requires
            MAX_BLOCKS <= NONE_REF,
        ensures
            table.wf(),
            forall|i: int| 0 <= i < MAX_BLOCKS ==> table.blocks@[i] == BlockEntry::vacant(),
    {
        let mut blocks: Vec<BlockEntry> = Vec::new();
        let mut i: usize = 0;
        while i < MAX_BLOCKS
            invariant
                i <= MAX_BLOCKS,
                blocks@.len() == i,
                forall|j: int| 0 <= j < i ==> blocks@[j] == BlockEntry::vacant(),
            decreases MAX_BLOCKS - i,
        {
            blocks.push(BlockEntry::new_empty());
            i = i + 1;
        }
        BlockTable { blocks }
    }

    /// The slot that holds the block `(sequence, hash)`.
    pub fn find(&self, sequence: u32, hash: &BlockHash) -> (slot: Option<u32>)
        requires
            self.wf(),
        ensures
            slot == slot_of(self.blocks@, sequence, *hash, 0),
            match slot {
                Some(idx) => idx < MAX_BLOCKS && self.blocks@[idx as int].is_block(sequence, *hash),
                None => forall|i: int|
                    0 <= i < MAX_BLOCKS ==> !(#[trigger] self.blocks@[i]).is_block(sequence, *hash),
            },
    {
        let mut i: usize = 0;
        while i < self.blocks.len()
            invariant
                self.wf(),
                i <= MAX_BLOCKS,
                slot_of(self.blocks@, sequence, *hash, 0) == slot_of(
                    self.blocks@,
                    sequence,
                    *hash,
                    i as int,
                ),
                forall|j: int|
                    0 <= j < i ==> !(#[trigger] self.blocks@[j]).is_block(sequence, *hash),
            decreases MAX_BLOCKS - i,
        {
            let entry: &BlockEntry = &self.blocks[i];
            if !entry.is_empty_slot() && entry.sequence == sequence && hash_eq(&entry.hash, hash) {
                return Some(i as u32);
            }
            i = i + 1;
        }
        None
    }

    /// Inserts `entry` into the first empty slot. An occupied slot is never
    /// overwritten. A block that the table already holds must not be inserted
    /// again.
    pub fn insert(&mut self, entry: BlockEntry) -> (result: Result<u32, BlockTableError>)
        requires
            old(self).wf(),
            entry.occupied() && free_slot(old(self).blocks@, 0) is Some ==> slot_of(
                old(self).blocks@,
                entry.sequence,
                entry.hash,
                0,
            ) is None,
        ensures
            final(self).wf(),
            result == if !entry.occupied() {
                Err::<u32, BlockTableError>(BlockTableError::ReservedSequence)
            } else {
                match free_slot(old(self).blocks@, 0) {
                    Some(idx) => Ok::<u32, BlockTableError>(idx),
                    None => Err::<u32, BlockTableError>(BlockTableError::Full),
                }
            },
            final(self).blocks@ == match result {
                Ok(idx) => old(self).blocks@.update(idx as int, entry),
                Err(_) => old(self).blocks@,
            },
            result matches Ok(idx) ==> idx < MAX_BLOCKS && !old(
                self,
            ).blocks@[idx as int].occupied(),
    {
        if entry.sequence == NONE_REF {
            return Err(BlockTableError::ReservedSequence);
        }
        match self.next_free_index() {
            Some(idx) => {
                self.insert_at(idx, entry);
                Ok(idx)
            },
            None => Err(BlockTableError::Full),
        }
    }

    /// Writes `entry` at a slot known to be free. The caller has established
    /// that the table does not hold the block yet.
    pub fn insert_at(&mut self, idx: u32, entry: BlockEntry)
        requires
            old(self).wf(),
            idx < MAX_BLOCKS,
            !old(self).blocks@[idx as int].occupied(),
            entry.occupied(),
            slot_of(old(self).blocks@, entry.sequence, entry.hash, 0) is None,
        ensures
            final(self).wf(),
            final(self).blocks@ == old(self).blocks@.update(idx as int, entry),
    {
        self.blocks[idx as usize] = entry;
    }

    /// The entry at `idx`, unless the slot is empty or out of range.
    pub fn get(&self, idx: u32) -> (entry: Option<&BlockEntry>)
        requires
            self.wf(),
        ensures
            match entry {
                Some(e) => present(self.blocks@, idx) && *e == self.blocks@[idx as int],
                None => !present(self.blocks@, idx),
            },
    {
        let i: usize = idx as usize;
        if i < self.blocks.len() && !self.blocks[i].is_empty_slot() {
            Some(&self.blocks[i])
        } else {
            None
        }
    }

    /// Whether the ancestry of `start_idx` meets the active chain. The walk
    /// visits at most `MAX_BLOCKS` blocks, so a malformed, cyclic ancestry ends
    /// it too.
    pub fn walks_to_active_chain(&self, start_idx: u32) -> (reached: bool)
        requires
            self.wf(),
        ensures
            reached == reaches_active(self.blocks@, start_idx, MAX_BLOCKS as nat),
    {
        let mut current: u32 = start_idx;
        let mut steps: usize = MAX_BLOCKS;
        while steps > 0
            invariant
                self.wf(),
                steps <= MAX_BLOCKS,
                reaches_active(self.blocks@, start_idx, MAX_BLOCKS as nat) == reaches_active(
                    self.blocks@,
                    current,
                    steps as nat,
                ),
            decreases steps,
        {
            match self.get(current) {
                None => {
                    return false;
                },
                Some(entry) => {
                    if entry.is_on_active_chain() {
                        return true;
                    }
                    if entry.parent_ref == NONE_REF {
                        return false;
                    }
                    current = entry.parent_ref;
                },
            }
            steps = steps - 1;
        }
        false
    }

    /// The first empty slot.
    pub fn next_free_index(&self) -> (slot: Option<u32>)
        requires
            self.wf(),
        ensures
            slot == free_slot(self.blocks@, 0),
            match slot {
                Some(idx) => idx < MAX_BLOCKS && !self.blocks@[idx as int].occupied(),
                None => forall|i: int| 0 <= i < MAX_BLOCKS ==> (#[trigger] self.blocks@[i]).occupied(),
            },
    {
        let mut i: usize = 0;
        while i < self.blocks.len()
            invariant
                self.wf(),
                i <= MAX_BLOCKS,
                free_slot(self.blocks@, 0) == free_slot(self.blocks@, i as int),
                forall|j: int| 0 <= j < i ==> (#[trigger] self.blocks@[j]).occupied(),
            decreases MAX_BLOCKS - i,
        {
            if self.blocks[i].is_empty_slot() {
                return Some(i as u32);
            }
            i = i + 1;
        }
        None
    }

    /// Number of retained blocks.
    pub fn len(&self) -> (count: usize)
        requires
            self.wf(),
        ensures
            count == occupied_count(self.blocks@),
            count <= MAX_BLOCKS,
    {
        let mut count: usize = 0;
        let mut i: usize = 0;
        while i < self.blocks.len()
            invariant
                self.wf(),
                i <= MAX_BLOCKS,
                count <= i,
                count == occupied_count(self.blocks@.take(i as int)),
            decreases MAX_BLOCKS - i,
        {
            assert(self.blocks@.take(i + 1).drop_last() =~= self.blocks@.take(i as int));
            if !self.blocks[i].is_empty_slot() {
                count = count + 1;
            }
            i = i + 1;
        }
        assert(self.blocks@.take(i as int) =~= self.blocks@);
        count
    }

    /// The slot of the parent of a block at `child_sequence` whose previous
    /// hash is `previous_hash`. The parent's sequence is one below the child's;
    /// a block at sequence 0 has none.
    pub fn find_parent(&self, previous_hash: &BlockHash, child_sequence: u32) -> (slot: Option<u32>)
        requires
            self.wf(),
        ensures
            slot == parent_slot(self.blocks@, *previous_hash, child_sequence),
            slot matches Some(idx) ==> idx < MAX_BLOCKS && child_sequence > 0
                && self.blocks@[idx as int].is_block((child_sequence - 1) as u32, *previous_hash),
    {
        if child_sequence == 0 {
            return None;
        }
        self.find(child_sequence - 1, previous_hash)
    }

    /// The branch count of the block at `idx`.
    pub fn head_ref_count(&self, idx: u32) -> (count: Option<u8>)
        requires
            self.wf(),
        ensures
            count == if present(self.blocks@, idx) {
                Some(self.blocks@[idx as int].head_ref_count)
            } else {
                None
            },
    {
        match self.get(idx) {
            Some(entry) => Some(entry.head_ref_count),
            None => None,
        }
    }

    /// Moves the branch count of the block at `idx` by `delta`, within the
    /// counter's range, and returns the new count.
    pub fn adjust_head_ref_count(&mut self, idx: u32, delta: i8) -> (count: Option<u8>)
        requires
            old(self).wf(),
        ensures
            final(self).wf(),
            final(self).blocks@ == recounted(old(self).blocks@, idx, delta),
            count == if present(old(self).blocks@, idx) {
                Some(adjusted_count(old(self).blocks@[idx as int].head_ref_count, delta))
            } else {
                None
            },
    {
        let i: usize = idx as usize;
        if i >= self.blocks.len() || self.blocks[i].is_empty_slot() {
            return None;
        }
        let moved: i16 = self.blocks[i].head_ref_count as i16 + delta as i16;
        let count: u8 = if moved > 255 {
            255
        } else if moved < 0 {
            0
        } else {
            moved as u8
        };
        self.blocks[i].set_head_ref_count(count);
        Some(count)
    }

    /// Resolves the parent link of the block at `idx`, which must be
    /// unresolved: a parent is never re-pointed.
    pub fn resolve_parent_ref(&mut self, idx: u32, parent_idx: u32)
        requires
            old(self).wf(),
            idx < MAX_BLOCKS ==> old(self).blocks@[idx as int].occupied() && old(
                self,
            ).blocks@[idx as int].parent_ref == NONE_REF,
        ensures
            final(self).wf(),
            final(self).blocks@ == revised(
                old(self).blocks@,
                idx,
                old(self).blocks@[idx as int].with_parent(parent_idx),
            ),
    {
        let i: usize = idx as usize;
        if i < self.blocks.len() {
            self.blocks[i].parent_ref = parent_idx;
        }
    }

    /// Writes the status of the block at `idx`; `false` for an empty or
    /// out-of-range slot.
    pub fn set_status(&mut self, idx: u32, status: BlockStatus) -> (written: bool)
        requires
            old(self).wf(),
        ensures
            final(self).wf(),
            written == present(old(self).blocks@, idx),
            final(self).blocks@ == revised(
                old(self).blocks@,
                idx,
                old(self).blocks@[idx as int].with_stage(status),
            ),
    {
        let i: usize = idx as usize;
        if i >= self.blocks.len() || self.blocks[i].is_empty_slot() {
            return false;
        }
        self.blocks[i].set_status(status);
        true
    }

    /// Writes the active-chain bit of the block at `idx`; `false` for an empty
    /// or out-of-range slot.
    pub fn set_on_active_chain(&mut self, idx: u32, value: bool) -> (written: bool)
        requires
            old(self).wf(),
        ensures
            final(self).wf(),
            written == present(old(self).blocks@, idx),
            final(self).blocks@ == revised(
                old(self).blocks@,
                idx,
                old(self).blocks@[idx as int].with_active(value),
            ),
    {
        let i: usize = idx as usize;
        if i >= self.blocks.len() || self.blocks[i].is_empty_slot() {
            return false;
        }
        self.blocks[i].set_on_active_chain(value);
        true
    }

    /// How many of `stored` bytes that storage gives back for slot `idx` belong
    /// to the block: storage may pad a block, and its length is on record.
    pub fn retained_len(&self, idx: u32, stored: usize) -> (len: usize)
        requires
            self.wf(),
        ensures
            len == retained_len(self.blocks@, idx, stored),
            len <= stored,
    {
        match self.get(idx) {
            Some(entry) => {
                let recorded: usize = entry.len() as usize;
                if recorded > 0 && recorded <= stored {
                    recorded
                } else {
                    stored
                }
            },
            None => stored,
        }
    }

    /// Whether output `bit` of the block at `idx` has been spent.
    pub fn spent_bit(&self, idx: u32, bit: usize) -> (spent: Option<bool>)
        requires
            self.wf(),
        ensures
            spent == if present(self.blocks@, idx) {
                Some(self.blocks@[idx as int].spent(bit as int))
            } else {
                None
            },
    {
        match self.get(idx) {
            Some(entry) => Some(entry.spent_bit(bit)),
            None => None,
        }
    }

    /// Marks output `bit` of the block at `idx` as spent or unspent; `false`
    /// for an empty or out-of-range slot.
    pub fn set_spent_bit(&mut self, idx: u32, bit: usize, value: bool) -> (written: bool)
        requires
            old(self).wf(),
        ensures
            final(self).wf(),
            written == present(old(self).blocks@, idx),
            final(self).blocks@ == revised(
                old(self).blocks@,
                idx,
                old(self).blocks@[idx as int].with_spent(bit as int, value),
            ),
    {
        let i: usize = idx as usize;
        if i >= self.blocks.len() || self.blocks[i].is_empty_slot() {
            return false;
        }
        self.blocks[i].set_spent_bit(bit, value);
        true
    }

    /// Marks every output of the block at `idx` as unspent.
    pub fn clear_spent_bits(&mut self, idx: u32)
        requires
            old(self).wf(),
        ensures
            final(self).wf(),
            final(self).blocks@ == revised(
                old(self).blocks@,
                idx,
                old(self).blocks@[idx as int].unspent(),
            ),
    {
        let i: usize = idx as usize;
        if i < self.blocks.len() && !self.blocks[i].is_empty_slot() {
            self.blocks[i].spent_bits = [0u8; 32];
        }
    }

    /// Releases the slot `idx`; `false` when it held no block.
    pub fn delete(&mut self, idx: u32) -> (removed: bool)
        requires
            old(self).wf(),
        ensures
            final(self).wf(),
            removed == present(old(self).blocks@, idx),
            final(self).blocks@ == released(old(self).blocks@, idx),
    {
        let i: usize = idx as usize;
        if i >= self.blocks.len() || self.blocks[i].is_empty_slot() {
            return false;
        }
        self.blocks[i] = BlockEntry::new_empty();
        true
    }

    /// Whether the block at `idx` is `target` or one of its descendants.
    pub fn is_in_subtree(&self, idx: u32, target: u32) -> (inside: bool)
        requires
            self.wf(),
        ensures
            inside == descends(self.blocks@, idx, target, MAX_BLOCKS as nat),
    {
        let mut current: u32 = idx;
        let mut steps: usize = MAX_BLOCKS;
        while steps > 0
            invariant
                self.wf(),
                steps <= MAX_BLOCKS,
                descends(self.blocks@, idx, target, MAX_BLOCKS as nat) == descends(
                    self.blocks@,
                    current,
                    target,
                    steps as nat,
                ),
            decreases steps,
        {
            match self.get(current) {
                None => {
                    return false;
                },
                Some(entry) => {
                    if current == target {
                        return true;
                    }
                    if entry.parent_ref == NONE_REF {
                        return false;
                    }
                    current = entry.parent_ref;
                },
            }
            steps = steps - 1;
        }
        false
    }

    /// The slots of `target` and all its descendants, in ascending order; empty
    /// when `target` names no block.
    pub fn mark_subtree(&self, target: u32) -> (marked: Vec<u32>)
        requires
            self.wf(),
        ensures
            forall|idx: u32|
                marked@.contains(idx) <==> idx < MAX_BLOCKS && #[trigger] descends(
                    self.blocks@,
                    idx,
                    target,
                    MAX_BLOCKS as nat,
                ),
            forall|i: int, j: int| 0 <= i < j < marked@.len() ==> marked@[i] < marked@[j],
            marked@ == subtree(self.blocks@, target),
    {
        let mut marked: Vec<u32> = Vec::new();
        let mut i: usize = 0;
        while i < MAX_BLOCKS
            invariant
                self.wf(),
                i <= MAX_BLOCKS,
                forall|idx: u32|
                    marked@.contains(idx) <==> idx < i && #[trigger] descends(
                        self.blocks@,
                        idx,
                        target,
                        MAX_BLOCKS as nat,
                    ),
                forall|a: int, b: int| 0 <= a < b < marked@.len() ==> marked@[a] < marked@[b],
                forall|a: int| 0 <= a < marked@.len() ==> marked@[a] < i,
                marked@ == subtree_slots(self.blocks@, target, i as nat),
            decreases MAX_BLOCKS - i,
        {
            let idx: u32 = i as u32;
            if self.is_in_subtree(idx, target) {
                let ghost before = marked@;
                marked.push(idx);
                assert forall|other: u32|
                    marked@.contains(other) <==> other < i + 1 && #[trigger] descends(
                        self.blocks@,
                        other,
                        target,
                        MAX_BLOCKS as nat,
                    ) by {
                    assert(marked@ =~= before.push(idx));
                    if marked@.contains(other) && other != idx {
                        let k = choose|k: int| 0 <= k < marked@.len() && marked@[k] == other;
                        assert(before[k] == other);
                        assert(before.contains(other));
                    }
                    if before.contains(other) {
                        let k = choose|k: int| 0 <= k < before.len() && before[k] == other;
                        assert(marked@[k] == other);
                    }
                    assert(marked@[before.len() as int] == idx);
                }
            }
            i = i + 1;
        }
        marked
    }

    /// Whether no block of the tree has `idx` as its parent.
    pub fn is_childless(&self, idx: u32) -> (leaf: bool)
        requires
            self.wf(),
        ensures
            leaf == childless(self.blocks@, idx),
    {
        let mut i: usize = 0;
        while i < self.blocks.len()
            invariant
                self.wf(),
                i <= MAX_BLOCKS,
                forall|j: int|
                    0 <= j < i && (#[trigger] self.blocks@[j]).occupied()
                        ==> self.blocks@[j].parent_ref != idx,
            decreases MAX_BLOCKS - i,
        {
            if !self.blocks[i].is_empty_slot() && self.blocks[i].parent_ref == idx {
                return false;
            }
            i = i + 1;
        }
        true
    }

    /// Sets every branch count to zero.
    pub fn clear_head_ref_counts(&mut self)
        requires
            old(self).wf(),
        ensures
            final(self).wf(),
            final(self).blocks@ == uncounted(old(self).blocks@),
    {
        let ghost before = self.blocks@;
        let mut i: usize = 0;
        while i < self.blocks.len()
            invariant
                self.wf(),
                before.len() == MAX_BLOCKS,
                i <= MAX_BLOCKS,
                forall|j: int| 0 <= j < i ==> self.blocks@[j] == before[j].with_count(0),
                forall|j: int| i <= j < MAX_BLOCKS ==> self.blocks@[j] == before[j],
            decreases MAX_BLOCKS - i,
        {
            self.blocks[i].set_head_ref_count(0);
            i = i + 1;
        }
        assert(self.blocks@ =~= uncounted(before));
    }

    /// Releases every slot in `slots`.
    pub fn delete_all(&mut self, slots: &Vec<u32>)
        requires
            old(self).wf(),
        ensures
            final(self).wf(),
            forall|i: int|
                0 <= i < MAX_BLOCKS ==> #[trigger] final(self).blocks@[i] == if slots@.contains(
                    i as u32,
                ) && old(self).blocks@[i].occupied() {
                    BlockEntry::vacant()
                } else {
                    old(self).blocks@[i]
                },
    {
        let ghost before = self.blocks@;
        let mut k: usize = 0;
        while k < slots.len()
            invariant
                self.wf(),
                before.len() == MAX_BLOCKS,
                k <= slots@.len(),
                forall|i: int|
                    0 <= i < MAX_BLOCKS ==> #[trigger] self.blocks@[i] == if slots@.take(
                        k as int,
                    ).contains(i as u32) && before[i].occupied() {
                        BlockEntry::vacant()
                    } else {
                        before[i]
                    },
            decreases slots@.len() - k,
        {
            let ghost prior = self.blocks@;
            self.delete(slots[k]);
            proof {
                let done = slots@.take(k as int);
                let next = slots@.take(k + 1);
                assert(next =~= done.push(slots@[k as int]));
                assert forall|i: int| 0 <= i < MAX_BLOCKS implies #[trigger] self.blocks@[i] == (
                if next.contains(i as u32) && before[i].occupied() {
                    BlockEntry::vacant()
                } else {
                    before[i]
                }) by {
                    assert(next[k as int] == slots@[k as int]);
                    if next.contains(i as u32) && i as u32 != slots@[k as int] {
                        let j = choose|j: int| 0 <= j < next.len() && next[j] == i as u32;
                        assert(done[j] == i as u32);
                        assert(done.contains(i as u32));
                    }
                    if done.contains(i as u32) {
                        let j = choose|j: int| 0 <= j < done.len() && done[j] == i as u32;
                        assert(next[j] == i as u32);
                        assert(next.contains(i as u32));
                    }
                    assert(prior[i] == prior[i]);
                }
            }
            k = k + 1;
        }
        assert(slots@.take(k as int) =~= slots@);
    }
}

} // verus!
