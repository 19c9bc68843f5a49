//! What the candidate chain says of each node: public key, balance, where it
//! was introduced, and how many nodes there are.

use vstd::prelude::*;

use crate::blocks::NONE_REF;
use crate::hash::bytes_eq;

verus! {

/// Bytes of a public key.
pub const PUBLIC_KEY_SIZE: usize = 32;

/// A node's public key; all zero means that none is known.
pub type PublicKey = [u8; 32];

/// The per-node projection, one entry per node id.
#[verifier::ext_equal]
pub ghost struct InfoView {
    pub keys: Seq<Seq<u8>>,
    pub balances: Seq<u64>,
    /// Slot of the block that introduced the node, `NONE_REF` if none did.
    pub seeds: Seq<u32>,
    /// The highest node id known to exist.
    pub max_known_node_id: u32,
}

/// `bytes` written over the start of `key`.
pub open spec fn key_overwritten(key: Seq<u8>, bytes: Seq<u8>) -> Seq<u8> {
    Seq::new(
        key.len(),
        |i: int|
            if i < bytes.len() {
                bytes[i]
            } else {
                key[i]
            },
    )
}

/// Whether every byte of `key` is zero.
pub open spec fn key_absent(key: Seq<u8>) -> bool {
    forall|i: int| 0 <= i < key.len() ==> #[trigger] key[i] == 0
}

/// Sum held at the largest amount.
pub open spec fn saturating_sum(a: u64, b: u64) -> u64 {
    if a + b > u64::MAX {
        u64::MAX
    } else {
        (a + b) as u64
    }
}

/// Difference held at zero.
pub open spec fn saturating_difference(a: u64, b: u64) -> u64 {
    if a < b {
        0
    } else {
        (a - b) as u64
    }
}

impl InfoView {
    /// Nothing known of `nodes` nodes.
    pub open spec fn blank(nodes: nat) -> InfoView {
        InfoView {
            keys: Seq::new(nodes, |i: int| Seq::new(PUBLIC_KEY_SIZE as nat, |j: int| 0u8)),
            balances: Seq::new(nodes, |i: int| 0u64),
            seeds: Seq::new(nodes, |i: int| NONE_REF),
            max_known_node_id: 0,
        }
    }

    /// Whether the chain introduced the node.
    pub open spec fn seeded(self, node_id: u32) -> bool {
        node_id < self.seeds.len() && self.seeds[node_id as int] != NONE_REF
    }

    /// The node's balance, `0` unless the chain introduced the node.
    pub open spec fn balance(self, node_id: u32) -> u64 {
        if self.seeded(node_id) {
            self.balances[node_id as int]
        } else {
            0
        }
    }

    /// The node's public key, if one is known.
    pub open spec fn key(self, node_id: u32) -> Option<Seq<u8>> {
        if node_id < self.keys.len() && !key_absent(self.keys[node_id as int]) {
            Some(self.keys[node_id as int])
        } else {
            None
        }
    }

    /// Whether an introduced node holds this public key.
    pub open spec fn key_taken(self, public_key: Seq<u8>) -> bool {
        exists|i: int|
            0 <= i < self.seeds.len() && self.seeds[i] != NONE_REF && #[trigger] self.keys[i]
                == public_key
    }

    /// The node introduced by the block at `seed_idx`.
    pub open spec fn with_node(
        self,
        node_id: u32,
        public_key: Seq<u8>,
        balance: u64,
        seed_idx: u32,
    ) -> InfoView {
        if node_id < self.seeds.len() {
            InfoView {
                keys: self.keys.update(
                    node_id as int,
                    key_overwritten(self.keys[node_id as int], public_key),
                ),
                balances: self.balances.update(node_id as int, balance),
                seeds: self.seeds.update(node_id as int, seed_idx),
                max_known_node_id: self.max_known_node_id,
            }
        } else {
            self
        }
    }

    pub open spec fn with_balance(self, node_id: u32, balance: u64) -> InfoView {
        if node_id < self.balances.len() {
            InfoView { balances: self.balances.update(node_id as int, balance), ..self }
        } else {
            self
        }
    }

    pub open spec fn credited(self, node_id: u32, amount: u64) -> InfoView {
        self.with_balance(node_id, saturating_sum(self.balances[node_id as int], amount))
    }

    pub open spec fn debited(self, node_id: u32, amount: u64) -> InfoView {
        self.with_balance(node_id, saturating_difference(self.balances[node_id as int], amount))
    }

    pub open spec fn with_watermark(self, value: u32) -> InfoView {
        InfoView { max_known_node_id: value, ..self }
    }
}

/// The per-node projection of the candidate chain.
pub struct NodeInfoState<const MAX_NODES: usize> {
    pub public_keys: Vec<PublicKey>,
    pub balances: Vec<u64>,
    pub seed_source_idx: Vec<u32>,
    pub max_known_node_id: u32,
}

impl<const MAX_NODES: usize> View for NodeInfoState<MAX_NODES> {
    type V = InfoView;

    open spec fn view(&self) -> InfoView {
        InfoView {
            keys: Seq::new(self.public_keys@.len(), |i: int| self.public_keys@[i]@),
            balances: self.balances@,
            seeds: self.seed_source_idx@,
            max_known_node_id: self.max_known_node_id,
        }
    }
}

impl<const MAX_NODES: usize> NodeInfoState<MAX_NODES> {
    /// Every column has one entry per node id.
    pub open spec fn wf(self) -> bool {
        &&& self.public_keys@.len() == MAX_NODES
        &&& self.balances@.len() == MAX_NODES
        &&& self.seed_source_idx@.len() == MAX_NODES
    }

    /// A projection in which nothing is known.
    pub fn new() -> (info: Self)
        ensures
            info.wf(),
            info@ == InfoView::blank(MAX_NODES as nat),
    {
        let mut public_keys: Vec<PublicKey> = Vec::new();
        let mut balances: Vec<u64> = Vec::new();
        let mut seed_source_idx: Vec<u32> = Vec::new();
        let mut i: usize = 0;
        while i < MAX_NODES
            invariant
                i <= MAX_NODES,
                public_keys@.len() == i,
                balances@.len() == i,
                seed_source_idx@.len() == i,
                forall|j: int| 0 <= j < i ==> key_absent((#[trigger] public_keys@[j])@),
                forall|j: int| 0 <= j < i ==> balances@[j] == 0,
                forall|j: int| 0 <= j < i ==> seed_source_idx@[j] == NONE_REF,
            decreases MAX_NODES - i,
        {
            let key: PublicKey = [0u8; 32];
            assert(key_absent(key@));
            public_keys.push(key);
            balances.push(0);
            seed_source_idx.push(NONE_REF);
            i = i + 1;
        }
        let info = NodeInfoState { public_keys, balances, seed_source_idx, max_known_node_id: 0 };
        proof {
            lemma_blank(info);
        }
        info
    }

    /// Forgets everything.
    pub fn reset(&mut self)
        requires
            old(self).wf(),
        ensures
            final(self).wf(),
            final(self)@ == InfoView::blank(MAX_NODES as nat),
    {
        let mut i: usize = 0;
        while i < MAX_NODES
            invariant
                self.wf(),
                i <= MAX_NODES,
                forall|j: int| 0 <= j < i ==> key_absent((#[trigger] self.public_keys@[j])@),
                forall|j: int| 0 <= j < i ==> self.balances@[j] == 0,
                forall|j: int| 0 <= j < i ==> self.seed_source_idx@[j] == NONE_REF,
            decreases MAX_NODES - i,
        {
            let key: PublicKey = [0u8; 32];
            assert(key_absent(key@));
            self.public_keys[i] = key;
            self.balances[i] = 0;
            self.seed_source_idx[i] = NONE_REF;
            i = i + 1;
        }
        self.max_known_node_id = 0;
        proof {
            lemma_blank(*self);
        }
    }

    /// Introduces a node with its public key and balance; `seed_idx` is the
    /// slot of the block that does so. An id beyond the capacity is ignored.
    pub fn seed_node(&mut self, node_id: u32, public_key: &[u8], balance: u64, seed_idx: u32)
        requires
            old(self).wf(),
        ensures
            final(self).wf(),
            final(self)@ == old(self)@.with_node(node_id, public_key@, balance, seed_idx),
    {
        let slot: usize = node_id as usize;
        if slot >= MAX_NODES {
            return;
        }
        let ghost before = self@;
        let mut key: PublicKey = self.public_keys[slot];
        let ghost held = key@;
        let mut i: usize = 0;
        while i < PUBLIC_KEY_SIZE && i < public_key.len()
            invariant
                i <= PUBLIC_KEY_SIZE,
                i <= public_key@.len(),
                held.len() == PUBLIC_KEY_SIZE,
                forall|j: int| 0 <= j < i ==> key@[j] == public_key@[j],
                forall|j: int| i <= j < PUBLIC_KEY_SIZE ==> key@[j] == held[j],
            decreases PUBLIC_KEY_SIZE - i,
        {
            key[i] = public_key[i];
            i = i + 1;
        }
        self.public_keys[slot] = key;
        self.balances[slot] = balance;
        self.seed_source_idx[slot] = seed_idx;
        proof {
            assert(key@ =~= key_overwritten(held, public_key@));
            assert(self@ =~= before.with_node(node_id, public_key@, balance, seed_idx));
        }
    }

    /// Introduces a newly registered node, which starts with no balance.
    pub fn register_node(&mut self, node_id: u32, public_key: &[u8], seed_idx: u32)
        requires
            old(self).wf(),
        ensures
            final(self).wf(),
            final(self)@ == old(self)@.with_node(node_id, public_key@, 0, seed_idx),
    {
        self.seed_node(node_id, public_key, 0, seed_idx);
    }

    /// Whether the candidate introduced the node.
    pub fn is_seeded(&self, node_id: u32) -> (seeded: bool)
        requires
            self.wf(),
        ensures
            seeded == self@.seeded(node_id),
    {
        let slot: usize = node_id as usize;
        slot < MAX_NODES && self.seed_source_idx[slot] != NONE_REF
    }

    /// Whether an introduced node already holds this public key.
    pub fn key_is_registered(&self, public_key: &[u8]) -> (taken: bool)
        requires
            self.wf(),
        ensures
            taken == self@.key_taken(public_key@),
    {
        let mut i: usize = 0;
        while i < MAX_NODES
            invariant
                self.wf(),
                i <= MAX_NODES,
                forall|j: int|
                    0 <= j < i && self.seed_source_idx@[j] != NONE_REF ==> (
                    #[trigger] self@.keys[j]) != public_key@,
            decreases MAX_NODES - i,
        {
            if self.seed_source_idx[i] != NONE_REF && bytes_eq(
                self.public_keys[i].as_slice(),
                public_key,
            ) {
                assert(self@.keys[i as int] == public_key@);
                return true;
            }
            assert(self@.keys[i as int] == self.public_keys@[i as int]@);
            i = i + 1;
        }
        false
    }

    /// Credits a balance, held at the largest amount.
    pub fn credit(&mut self, node_id: u32, amount: u64)
        requires
            old(self).wf(),
        ensures
            final(self).wf(),
            final(self)@ == old(self)@.credited(node_id, amount),
    {
        let slot: usize = node_id as usize;
        if slot < MAX_NODES {
            let ghost before = self@;
            let balance: u64 = self.balances[slot];
            self.balances[slot] = add_saturating(balance, amount);
            assert(self@ =~= before.credited(node_id, amount));
        }
    }

    /// Debits a balance, held at zero.
    pub fn debit(&mut self, node_id: u32, amount: u64)
        requires
            old(self).wf(),
        ensures
            final(self).wf(),
            final(self)@ == old(self)@.debited(node_id, amount),
    {
        let slot: usize = node_id as usize;
        if slot < MAX_NODES {
            let ghost before = self@;
            let balance: u64 = self.balances[slot];
            self.balances[slot] = subtract_saturating(balance, amount);
            assert(self@ =~= before.debited(node_id, amount));
        }
    }

    /// The balance of a node, `0` unless the candidate introduced it.
    pub fn balance_of(&self, node_id: u32) -> (balance: u64)
        requires
            self.wf(),
        ensures
            balance == self@.balance(node_id),
    {
        if self.is_seeded(node_id) {
            self.balances[node_id as usize]
        } else {
            0
        }
    }

    /// The public key of a node, if one is known.
    pub fn public_key_of(&self, node_id: u32) -> (key: Option<&PublicKey>)
        requires
            self.wf(),
        ensures
            match key {
                Some(k) => self@.key(node_id) == Some(k@),
                None => self@.key(node_id) is None,
            },
    {
        let slot: usize = node_id as usize;
        if slot >= MAX_NODES {
            return None;
        }
        let mut i: usize = 0;
        while i < PUBLIC_KEY_SIZE
            invariant
                self.wf(),
                slot < MAX_NODES,
                slot == node_id,
                i <= PUBLIC_KEY_SIZE,
                forall|j: int| 0 <= j < i ==> self.public_keys@[slot as int]@[j] == 0,
            decreases PUBLIC_KEY_SIZE - i,
        {
            if self.public_keys[slot][i] != 0 {
                assert(self@.keys[slot as int] == self.public_keys@[slot as int]@);
                assert(self@.keys[slot as int][i as int] != 0);
                return Some(&self.public_keys[slot]);
            }
            i = i + 1;
        }
        assert(self@.keys[slot as int] == self.public_keys@[slot as int]@);
        None
    }

    /// The highest node id known to exist.
    pub fn max_known_node_id(&self) -> (id: u32)
        ensures
            id == self@.max_known_node_id,
    {
        self.max_known_node_id
    }

    /// Sets the highest node id known to exist.
    pub fn set_max_known_node_id(&mut self, value: u32)
        requires
            old(self).wf(),
        ensures
            final(self).wf(),
            final(self)@ == old(self)@.with_watermark(value),
    {
        self.max_known_node_id = value;
    }
}

proof fn lemma_blank<const MAX_NODES: usize>(info: NodeInfoState<MAX_NODES>)
    requires
        info.wf(),
        forall|j: int| 0 <= j < MAX_NODES ==> key_absent((#[trigger] info.public_keys@[j])@),
        forall|j: int| 0 <= j < MAX_NODES ==> info.balances@[j] == 0,
        forall|j: int| 0 <= j < MAX_NODES ==> info.seed_source_idx@[j] == NONE_REF,
        info.max_known_node_id == 0,
    ensures
        info@ == InfoView::blank(MAX_NODES as nat),
{
    let blank = InfoView::blank(MAX_NODES as nat);
    assert forall|j: int| 0 <= j < MAX_NODES implies info@.keys[j] == blank.keys[j] by {
        assert(key_absent(info.public_keys@[j]@));
        assert(info@.keys[j] =~= blank.keys[j]);
    }
    assert(info@.keys =~= blank.keys);
    assert(info@.balances =~= blank.balances);
    assert(info@.seeds =~= blank.seeds);
}

/// `a + b`, held at the largest amount.
pub fn add_saturating(a: u64, b: u64) -> (sum: u64)
    ensures
        sum == saturating_sum(a, b),
{
    if a > u64::MAX - b {
        u64::MAX
    } else {
        a + b
    }
}

/// `a - b`, held at zero.
pub fn subtract_saturating(a: u64, b: u64) -> (difference: u64)
    ensures
        difference == saturating_difference(a, b),
{
    if a < b {
        0
    } else {
        a - b
    }
}

/// In a blank projection no node is introduced, holds a balance or has a key.
pub proof fn blank_projection_knows_nothing(nodes: nat, node_id: u32)
    ensures
        !InfoView::blank(nodes).seeded(node_id),
        InfoView::blank(nodes).balance(node_id) == 0,
        InfoView::blank(nodes).key(node_id) is None,
        InfoView::blank(nodes).max_known_node_id == 0,
{
}

/// Introducing a node touches that node alone, and a node id beyond the
/// capacity changes nothing.
pub proof fn introducing_a_node_touches_it_alone(
    info: InfoView,
    node_id: u32,
    public_key: Seq<u8>,
    balance: u64,
    seed_idx: u32,
    other: u32,
)
    requires
        info.keys.len() == info.seeds.len(),
        info.balances.len() == info.seeds.len(),
        seed_idx != NONE_REF,
    ensures
        ({
            let after = info.with_node(node_id, public_key, balance, seed_idx);
            &&& node_id < info.seeds.len() ==> after.seeded(node_id) && after.balance(node_id)
                == balance
            &&& node_id >= info.seeds.len() ==> after == info
            &&& other != node_id ==> after.seeded(other) == info.seeded(other) && after.balance(
                other,
            ) == info.balance(other) && after.key(other) == info.key(other)
            &&& after.max_known_node_id == info.max_known_node_id
        }),
{
}

} // verus!
