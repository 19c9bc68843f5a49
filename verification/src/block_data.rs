//! Blocks and transactions as the node's rules see them.
//!
//! A [`ChainBlock`] is what a received or stored block says once its bytes have
//! been parsed, hashed and, where it carries a chain configuration, put to the
//! configuration registry. The rules of the node work on these values alone.

use vstd::prelude::*;

use crate::config_state::ConfigParameters;
use crate::hash::BlockHash;
use crate::node_info::PublicKey;
use crate::spent_bits;

verus! {

/// Bytes of a block header; the last 64 of them are the creator's signature.
pub const HEADER_SIZE: usize = 122;

/// Bytes of the largest block.
pub const MAX_BLOCK_SIZE: usize = 2016;

/// Bytes of the largest block payload.
pub const MAX_PAYLOAD_SIZE: usize = 1894;

/// Bytes of a signature.
pub const SIGNATURE_SIZE: usize = 64;

/// Payload type of a block of transactions.
pub const PAYLOAD_TYPE_TRANSACTION: u8 = 1;

/// Payload type of a balance block.
pub const PAYLOAD_TYPE_BALANCE: u8 = 2;

/// Payload type of a chain-configuration block.
pub const PAYLOAD_TYPE_CHAIN_CONFIG: u8 = 3;

/// Payload type of an approval-evidence block.
pub const PAYLOAD_TYPE_APPROVAL: u8 = 4;

/// A parsed block.
#[derive(Debug, Clone)]
pub struct ChainBlock {
    pub hash: BlockHash,
    pub sequence: u32,
    /// Node id of the creator.
    pub creator: u32,
    /// Amount newly mined by this block.
    pub mined_amount: u32,
    pub payload_type: u8,
    pub previous_hash: BlockHash,
    /// The serialized block, header first.
    pub bytes: Vec<u8>,
    pub payload: BlockPayload,
}

/// What the payload of a block parses as.
#[derive(Debug, Clone)]
pub enum BlockPayload {
    Transactions(Vec<Transaction>),
    Balances(BalancePayload),
    ChainConfig(ConfigEnvelope),
    /// A payload that has no defined reading, or that does not parse.
    Unread,
}

/// A balance block: the state of some nodes, and how many nodes there are.
#[derive(Debug, Clone)]
pub struct BalancePayload {
    /// The highest node id in existence.
    pub max_node_id: u32,
    pub entries: Vec<NodeBalance>,
}

/// The state of one node in a balance block.
#[derive(Debug, Clone, Copy)]
pub struct NodeBalance {
    pub owner: u32,
    pub balance: u64,
    pub public_key: PublicKey,
}

/// A framed chain configuration.
#[derive(Debug, Clone)]
pub struct ConfigEnvelope {
    /// The content region, without the signature behind it.
    pub content: Vec<u8>,
    /// Whether the signature behind the content verifies against the key of
    /// node #0.
    pub signature_valid: bool,
    /// The parameters the content resolves to; nothing when the configuration
    /// registry refuses it.
    pub accepted: Option<ConfigParameters>,
}

/// A transaction.
#[derive(Debug, Clone)]
pub struct Transaction {
    /// Node id voted for.
    pub vote: u32,
    pub hash: BlockHash,
    /// The serialized transaction.
    pub bytes: Vec<u8>,
    pub body: TransactionBody,
}

/// The kinds of transaction.
#[derive(Debug, Clone)]
pub enum TransactionBody {
    NodeTransfer(NodeTransfer),
    Registration(Registration),
    Complex(ComplexTransaction),
    /// A transaction of no known kind.
    Unknown,
}

/// Moves an amount from one node's balance to another's.
#[derive(Debug, Clone, Copy)]
pub struct NodeTransfer {
    /// Sequence of the block the transaction was made after.
    pub anchor_sequence: u32,
    pub initializer: u32,
    pub receiver: u32,
    pub amount: u64,
    pub fee: u32,
}

/// Registers a new node.
#[derive(Debug, Clone, Copy)]
pub struct Registration {
    pub initializer: u32,
    pub new_node_id: u32,
    pub registration_price: u64,
    pub fee: u64,
    pub new_public_key: PublicKey,
}

/// Any number of inputs into any number of outputs.
#[derive(Debug, Clone)]
pub struct ComplexTransaction {
    pub inputs: Vec<TransactionInput>,
    pub outputs: Vec<TransactionOutput>,
}

/// What a complex transaction spends.
#[derive(Debug, Clone, Copy)]
pub enum TransactionInput {
    /// An amount of a node's balance.
    Balance { anchor_sequence: u32, initializer: u32, amount: u64 },
    /// The output `output_index` of the transaction with this hash.
    Utxo { tr_hash: BlockHash, output_index: u8 },
}

/// What a complex transaction creates.
#[derive(Debug, Clone, Copy)]
pub enum TransactionOutput {
    /// An amount added to a node's balance.
    Balance { receiver: u32, amount: u64 },
    /// An output that a later transaction may spend.
    Utxo { amount: u64 },
}

impl ChainBlock {
    /// The serialized block has a header and is no larger than a block may be;
    /// it holds no more outputs than it has room for.
    pub open spec fn wf(self) -> bool {
        HEADER_SIZE <= self.bytes@.len() <= MAX_BLOCK_SIZE && spent_bits::outputs_fit(self)
    }

    /// The transactions, when the payload is one.
    pub open spec fn transaction_list(self) -> Option<Seq<Transaction>> {
        match self.payload {
            BlockPayload::Transactions(list) => Some(list@),
            _ => None,
        }
    }

    /// The content region of the chain configuration, when the block frames one.
    pub open spec fn config_content(self) -> Option<Seq<u8>> {
        match self.payload {
            BlockPayload::ChainConfig(envelope) => Some(envelope.content@),
            _ => None,
        }
    }

    /// Serialized length in bytes.
    pub fn len(&self) -> (len: usize)
        ensures
            len == self.bytes@.len(),
    {
        self.bytes.len()
    }

    /// The framed chain configuration, if the payload is one.
    pub fn chain_config(&self) -> (envelope: Option<&ConfigEnvelope>)
        ensures
            match envelope {
                Some(e) => self.payload == BlockPayload::ChainConfig(*e),
                None => !(self.payload is ChainConfig),
            },
            (envelope is Some) == (self.config_content() is Some),
            envelope matches Some(e) ==> self.config_content() == Some(e.content@),
    {
        match &self.payload {
            BlockPayload::ChainConfig(envelope) => Some(envelope),
            _ => None,
        }
    }
}

} // verus!
