//! The node driven end to end, with a store in memory and toy signatures.

use std::ops::{Deref, DerefMut};

use moonblokz_blockchain::acquisition::{AcquisitionAction, AcquisitionEvent, AcquisitionRun};
use moonblokz_blockchain::api::{
    AdmitError, BalanceQueryError, BlockQueryError, Blockchain, CallResult, GenesisRejectReason,
    InitOutcome, LifecyclePhase, LocalTransactionOutcome, NextCall, ReceiveBlockOutcome,
    ReceiveTransactionOutcome, RejectReason, RestartRejectReason, SnakeChainWindowError,
    TickOutcome, TxStateQueryError,
};
use moonblokz_blockchain::block_data::{
    BalancePayload, BlockPayload, ChainBlock, ComplexTransaction, ConfigEnvelope, NodeBalance,
    NodeTransfer, Registration, Transaction, TransactionBody, TransactionInput, TransactionOutput,
    HEADER_SIZE, MAX_BLOCK_SIZE, MAX_PAYLOAD_SIZE, PAYLOAD_TYPE_APPROVAL, PAYLOAD_TYPE_BALANCE,
    PAYLOAD_TYPE_CHAIN_CONFIG, PAYLOAD_TYPE_TRANSACTION, SIGNATURE_SIZE,
};
use moonblokz_blockchain::blocks::{BlockEntry, BlockTable, NONE_REF};
use moonblokz_blockchain::config_state::{ConfigParameters, ConfigStateError};
use moonblokz_blockchain::derivation::{
    PassContext, ProcessingError, SignatureCheck, ValidationReason, VoteEngineError, WorkingSet,
};
use moonblokz_blockchain::genesis::{
    block_one_header, block_zero_header, founding_registration, founding_transfer,
    frame_chain_config_payload, BlockHeader, GenesisBlocks, GenesisWrites,
};
use moonblokz_blockchain::intake::{chain_config_content_matches, classify_block};
use moonblokz_blockchain::node_info::{NodeInfoState, PUBLIC_KEY_SIZE};
use moonblokz_blockchain::processing::ConfigPreload;
use moonblokz_blockchain::restart::{ControlPlane, InitStep, StoredConfiguration};
use moonblokz_blockchain::staged_validation::{BlockStatus, Tier1Failure};

type Block = ChainBlock;

const PRIVATE_KEY_SIZE: usize = 32;

/// Bytes of a registration as [`registration_tx`] lays it out.
const REGISTRATION_SIZE: usize = 188;

/// The empty override set: every parameter has its default.
const EMPTY_CONFIG_CONTENT: [u8; 2] = [0, 0];

/// A content of other bytes that resolves to the same parameters.
const OTHER_CONFIG_CONTENT: [u8; 5] = [1, 0, parameter::VOTE_INTEREST, 1, 5];

// -- Toy cryptography --------------------------------------------------------

fn mix(bytes: &[u8], salt: u64) -> u64 {
    let mut h: u64 = 0xCBF2_9CE4_8422_2325 ^ salt;
    for b in bytes {
        h ^= *b as u64;
        h = h.wrapping_mul(0x0000_0100_0000_01B3);
        h ^= h >> 29;
    }
    h
}

fn digest(bytes: &[u8]) -> [u8; 32] {
    let mut out = [0u8; 32];
    for i in 0..4 {
        out[8 * i..8 * i + 8].copy_from_slice(&mix(bytes, i as u64 + 1).to_le_bytes());
    }
    out
}

/// A signer whose public key is derived from its private key. A signature is a
/// digest of the public key and the message.
#[derive(Clone)]
struct Crypto {
    public: [u8; 32],
}

impl Crypto {
    fn new(private_key: [u8; PRIVATE_KEY_SIZE]) -> Result<Crypto, ()> {
        Ok(Crypto {
            public: digest(&private_key),
        })
    }

    fn public_key(&self) -> [u8; 32] {
        self.public
    }

    fn sign(&self, message: &[u8]) -> [u8; 64] {
        toy_signature(message, &self.public)
    }
}

fn toy_signature(message: &[u8], public_key: &[u8; 32]) -> [u8; 64] {
    let mut all = public_key.to_vec();
    all.extend_from_slice(message);
    let first = digest(&all);
    all.push(1);
    let second = digest(&all);
    let mut out = [0u8; 64];
    out[..32].copy_from_slice(&first);
    out[32..].copy_from_slice(&second);
    out
}

fn verify(check: &SignatureCheck) -> bool {
    toy_signature(&check.message, &check.public_key)[..] == check.signature[..]
}

fn test_signer() -> Crypto {
    Crypto::new([1u8; PRIVATE_KEY_SIZE]).ok().expect("test key")
}

// -- Toy configuration registry ----------------------------------------------

struct Parameters {
    block_size_limit: u8,
    vote_scale: u8,
    vote_interest: u8,
}

#[allow(non_upper_case_globals)]
const parameter_ids: Parameters = Parameters {
    block_size_limit: 3,
    vote_scale: 6,
    vote_interest: 7,
};

#[allow(non_camel_case_types)]
struct parameter;

impl parameter {
    const BLOCK_SIZE_LIMIT: u8 = parameter_ids.block_size_limit;
    const VOTE_SCALE: u8 = parameter_ids.vote_scale;
    const VOTE_INTEREST: u8 = parameter_ids.vote_interest;
}

/// What the content resolves to; nothing when it is refused.
fn resolve(content: &[u8]) -> Option<ConfigParameters> {
    let mut resolved = ConfigParameters {
        block_size_limit: 2016,
        vote_scale: 1000,
        vote_interest: 5,
        parent_recovery_min_emit_interval_ms: 10_000,
        parent_recovery_per_head_retry_interval_ms: 120_000,
    };
    if content.len() < 2 {
        return None;
    }
    let count = u16::from_le_bytes([content[0], content[1]]);
    let mut at = 2;
    for _ in 0..count {
        let id = *content.get(at)?;
        let len = *content.get(at + 1)? as usize;
        let value = content.get(at + 2..at + 2 + len)?;
        at += 2 + len;
        if id == parameter::BLOCK_SIZE_LIMIT {
            resolved.block_size_limit = u16::from_le_bytes([*value.first()?, *value.get(1)?]);
        } else if id == parameter::VOTE_SCALE {
            resolved.vote_scale = u16::from_le_bytes([*value.first()?, *value.get(1)?]);
        } else if id == parameter::VOTE_INTEREST {
            resolved.vote_interest = *value.first()?;
        }
    }
    if at != content.len()
        || resolved.vote_scale == 0
        || resolved.block_size_limit as usize <= HEADER_SIZE
        || resolved.block_size_limit as usize > MAX_BLOCK_SIZE
    {
        return None;
    }
    Some(resolved)
}

/// An override set under construction.
struct ChainConfigPayloadBuilder {
    count: u16,
    entries: Vec<u8>,
}

impl ChainConfigPayloadBuilder {
    fn new() -> Self {
        ChainConfigPayloadBuilder {
            count: 0,
            entries: Vec::new(),
        }
    }

    fn add_literal(&mut self, id: u8, value: &[u8]) {
        self.count += 1;
        self.entries.push(id);
        self.entries.push(value.len() as u8);
        self.entries.extend_from_slice(value);
    }

    fn content(&self) -> Vec<u8> {
        let mut content = self.count.to_le_bytes().to_vec();
        content.extend_from_slice(&self.entries);
        content
    }
}

// -- Building blocks ---------------------------------------------------------

trait BlockExt {
    fn view(&self) -> &ChainBlock;
    fn hash(&self) -> [u8; 32];
}

impl BlockExt for ChainBlock {
    fn view(&self) -> &ChainBlock {
        self
    }

    fn hash(&self) -> [u8; 32] {
        self.hash
    }
}

fn header(sequence: u32, payload_type: u8, previous_hash: [u8; 32]) -> BlockHeader {
    BlockHeader {
        version: 1,
        sequence,
        creator: 0,
        mined_amount: 0,
        payload_type,
        consumed_votes: 0,
        first_voted_node: 0,
        consumed_votes_from_first_voted_node: 0,
        previous_hash,
    }
}

/// Serializes the block and signs it as its creator.
fn build(h: &BlockHeader, payload_bytes: &[u8], payload: BlockPayload, signer: &Crypto) -> Block {
    let mut bytes = vec![h.version];
    bytes.extend_from_slice(&h.sequence.to_le_bytes());
    bytes.extend_from_slice(&h.creator.to_le_bytes());
    bytes.extend_from_slice(&h.mined_amount.to_le_bytes());
    bytes.push(h.payload_type);
    bytes.extend_from_slice(&h.consumed_votes.to_le_bytes());
    bytes.extend_from_slice(&h.first_voted_node.to_le_bytes());
    bytes.extend_from_slice(&h.consumed_votes_from_first_voted_node.to_le_bytes());
    bytes.extend_from_slice(&h.previous_hash);
    bytes.extend_from_slice(&[0u8; SIGNATURE_SIZE]);
    assert_eq!(bytes.len(), HEADER_SIZE);
    bytes.extend_from_slice(payload_bytes);
    let signature = signer.sign(&bytes);
    bytes[HEADER_SIZE - SIGNATURE_SIZE..HEADER_SIZE].copy_from_slice(&signature);
    ChainBlock {
        hash: digest(&bytes),
        sequence: h.sequence,
        creator: h.creator,
        mined_amount: h.mined_amount,
        payload_type: h.payload_type,
        previous_hash: h.previous_hash,
        bytes,
        payload,
    }
}

fn signed_transaction(vote: u32, fields: Vec<u8>, body: TransactionBody, signer: &Crypto) -> Transaction {
    let mut bytes = vote.to_le_bytes().to_vec();
    bytes.extend_from_slice(&fields);
    bytes.extend_from_slice(&[0u8; 64]);
    let signature = signer.sign(&bytes);
    let at = bytes.len() - 64;
    bytes[at..].copy_from_slice(&signature);
    Transaction {
        vote,
        hash: digest(&bytes),
        bytes,
        body,
    }
}

fn transfer_tx(vote: u32, nt: NodeTransfer, signer: &Crypto) -> Transaction {
    let mut fields = Vec::new();
    fields.extend_from_slice(&nt.anchor_sequence.to_le_bytes());
    fields.extend_from_slice(&nt.initializer.to_le_bytes());
    fields.extend_from_slice(&nt.receiver.to_le_bytes());
    fields.extend_from_slice(&nt.amount.to_le_bytes());
    fields.extend_from_slice(&nt.fee.to_le_bytes());
    signed_transaction(vote, fields, TransactionBody::NodeTransfer(nt), signer)
}

/// A registration signed by its initializer; the new key vouches for itself.
fn registration_tx(reg: Registration, signer: &Crypto) -> Transaction {
    let mut fields = Vec::new();
    fields.extend_from_slice(&reg.initializer.to_le_bytes());
    fields.extend_from_slice(&reg.new_node_id.to_le_bytes());
    fields.extend_from_slice(&reg.registration_price.to_le_bytes());
    fields.extend_from_slice(&reg.fee.to_le_bytes());
    fields.extend_from_slice(&reg.new_public_key);
    fields.extend_from_slice(&toy_signature(&reg.new_public_key, &reg.new_public_key));
    signed_transaction(0, fields, TransactionBody::Registration(reg), signer)
}

fn complex_tx(vote: u32, inputs: Vec<TransactionInput>, outputs: Vec<TransactionOutput>) -> Transaction {
    let mut fields = Vec::new();
    for input in &inputs {
        match input {
            TransactionInput::Balance { anchor_sequence, initializer, amount } => {
                fields.extend_from_slice(&anchor_sequence.to_le_bytes());
                fields.extend_from_slice(&initializer.to_le_bytes());
                fields.extend_from_slice(&amount.to_le_bytes());
            }
            TransactionInput::Utxo { tr_hash, output_index } => {
                fields.extend_from_slice(tr_hash);
                fields.push(*output_index);
            }
        }
    }
    for output in &outputs {
        match output {
            TransactionOutput::Balance { receiver, amount } => {
                fields.extend_from_slice(&receiver.to_le_bytes());
                fields.extend_from_slice(&amount.to_le_bytes());
            }
            TransactionOutput::Utxo { amount } => fields.extend_from_slice(&amount.to_le_bytes()),
        }
    }
    signed_transaction(
        vote,
        fields,
        TransactionBody::Complex(ComplexTransaction { inputs, outputs }),
        &test_signer(),
    )
}

fn transaction_block(h: &BlockHeader, txs: Vec<Transaction>, signer: &Crypto) -> Block {
    let mut payload_bytes = Vec::new();
    for tx in &txs {
        payload_bytes.extend_from_slice(&tx.bytes);
    }
    build(h, &payload_bytes, BlockPayload::Transactions(txs), signer)
}

fn config_block(h: &BlockHeader, content: &[u8], signer: &Crypto) -> Block {
    let signature = signer.sign(content);
    let payload_bytes = frame_chain_config_payload(content, &signature);
    let envelope = ConfigEnvelope {
        content: content.to_vec(),
        signature_valid: signature == toy_signature(content, &test_signer().public),
        accepted: resolve(content),
    };
    build(h, &payload_bytes, BlockPayload::ChainConfig(envelope), signer)
}

fn chained_node_transfer_block(
    seq: u32,
    prev: [u8; 32],
    vote: u32,
    anchor: u32,
    initializer: u32,
) -> Block {
    let signer = test_signer();
    let nt = NodeTransfer {
        anchor_sequence: anchor,
        initializer,
        receiver: 9,
        amount: 100,
        fee: 1,
    };
    transaction_block(
        &header(seq, PAYLOAD_TYPE_TRANSACTION, prev),
        vec![transfer_tx(vote, nt, &signer)],
        &signer,
    )
}

fn node_transfer_block(seq: u32, vote: u32, anchor: u32, initializer: u32) -> Block {
    chained_node_transfer_block(seq, [0u8; 32], vote, anchor, initializer)
}

fn linked_transfer_block(seq: u32, prev: [u8; 32]) -> Block {
    chained_node_transfer_block(seq, prev, 3, seq.saturating_sub(1), 7)
}

fn salted_linked_block(seq: u32, prev: [u8; 32], vote: u32) -> Block {
    chained_node_transfer_block(seq, prev, vote, seq.saturating_sub(1), 7)
}

fn registration_block(
    seq: u32,
    prev: [u8; 32],
    initializer: u32,
    new_node_id: u32,
    pk_byte: u8,
) -> Block {
    let signer = test_signer();
    let new_signer = Crypto::new([pk_byte; PRIVATE_KEY_SIZE]).ok().expect("new key");
    let reg = Registration {
        initializer,
        new_node_id,
        registration_price: 50,
        fee: 1,
        new_public_key: new_signer.public_key(),
    };
    transaction_block(
        &header(seq, PAYLOAD_TYPE_TRANSACTION, prev),
        vec![registration_tx(reg, &signer)],
        &signer,
    )
}

fn chain_config_anchor_block(seq: u32, prev: [u8; 32]) -> Block {
    chain_config_block_from(seq, prev, &mut ChainConfigPayloadBuilder::new())
}

fn chain_config_block_from(
    seq: u32,
    prev: [u8; 32],
    payload_builder: &mut ChainConfigPayloadBuilder,
) -> Block {
    config_block(
        &header(seq, PAYLOAD_TYPE_CHAIN_CONFIG, prev),
        &payload_builder.content(),
        &test_signer(),
    )
}

fn alt_config_builder() -> ChainConfigPayloadBuilder {
    let mut builder = ChainConfigPayloadBuilder::new();
    builder.add_literal(parameter::VOTE_INTEREST, &[5]);
    builder
}

const SMALL_BLOCK_SIZE_LIMIT: u16 = 200;

fn small_limit_config_builder() -> ChainConfigPayloadBuilder {
    let mut builder = ChainConfigPayloadBuilder::new();
    builder.add_literal(
        parameter::BLOCK_SIZE_LIMIT,
        &SMALL_BLOCK_SIZE_LIMIT.to_le_bytes(),
    );
    builder
}

fn bound_violating_config_builder() -> ChainConfigPayloadBuilder {
    let mut builder = ChainConfigPayloadBuilder::new();
    builder.add_literal(parameter::VOTE_SCALE, &0u16.to_le_bytes());
    builder
}

fn content_of(block: &Block) -> &[u8] {
    &block
        .chain_config()
        .expect("a chain-config block frames")
        .content
}

fn balance_block(
    seq: u32,
    prev: [u8; 32],
    entries: &[(u32, u64, u32, u8)],
    max_node_id: u32,
) -> Block {
    let signer = test_signer();
    let mut payload_bytes = max_node_id.to_le_bytes().to_vec();
    let mut listed = Vec::new();
    for &(owner, balance, vote_count, _pk_byte) in entries {
        payload_bytes.extend_from_slice(&owner.to_le_bytes());
        payload_bytes.extend_from_slice(&balance.to_le_bytes());
        payload_bytes.extend_from_slice(&vote_count.to_le_bytes());
        payload_bytes.extend_from_slice(&signer.public_key());
        listed.push(NodeBalance {
            owner,
            balance,
            public_key: signer.public_key(),
        });
    }
    build(
        &header(seq, PAYLOAD_TYPE_BALANCE, prev),
        &payload_bytes,
        BlockPayload::Balances(BalancePayload {
            max_node_id,
            entries: listed,
        }),
        &signer,
    )
}

fn transfer_block(
    seq: u32,
    prev: [u8; 32],
    initializer: u32,
    receiver: u32,
    amount: u64,
    fee: u32,
    vote: u32,
) -> Block {
    let signer = test_signer();
    let nt = NodeTransfer {
        anchor_sequence: seq.saturating_sub(1),
        initializer,
        receiver,
        amount,
        fee,
    };
    transaction_block(
        &header(seq, PAYLOAD_TYPE_TRANSACTION, prev),
        vec![transfer_tx(vote, nt, &signer)],
        &signer,
    )
}

fn credit_block(
    seq: u32,
    prev: [u8; 32],
    creator: u32,
    mined_amount: u32,
    initializer: u32,
    receiver: u32,
    amount: u64,
) -> Block {
    let signer = test_signer();
    let nt = NodeTransfer {
        anchor_sequence: seq.saturating_sub(1),
        initializer,
        receiver,
        amount,
        fee: 0,
    };
    let mut h = header(seq, PAYLOAD_TYPE_TRANSACTION, prev);
    h.creator = creator;
    h.mined_amount = mined_amount;
    transaction_block(&h, vec![transfer_tx(3, nt, &signer)], &signer)
}

// -- The store ---------------------------------------------------------------

/// Durable storage: block slots and a control plane.
struct Store {
    slots: Vec<Option<Block>>,
    /// Slots that read back, but not as a block of a known length.
    unmeasurable: Vec<u32>,
    initialized: bool,
    block_writes_fail: bool,
    configuration: Option<Block>,
}

impl Store {
    fn new() -> Store {
        let mut slots = Vec::new();
        for _ in 0..11 {
            slots.push(None);
        }
        Store {
            slots,
            unmeasurable: Vec::new(),
            initialized: false,
            block_writes_fail: false,
            configuration: None,
        }
    }

    fn capacity(&self) -> u32 {
        self.slots.len() as u32
    }

    fn save_block(&mut self, idx: u32, block: &Block) -> Result<(), ()> {
        if self.block_writes_fail || idx >= self.capacity() {
            return Err(());
        }
        self.slots[idx as usize] = Some(block.clone());
        Ok(())
    }

    fn read_block(&self, idx: u32) -> Result<Block, ()> {
        match self.slots.get(idx as usize) {
            Some(Some(block)) => Ok(block.clone()),
            _ => Err(()),
        }
    }
}

// -- The node ----------------------------------------------------------------

struct Node<const W: u32> {
    chain: Blockchain<16, W, 4, 16, 4, 16>,
    storage: Store,
    crypto: Crypto,
    /// Passes run by the last acquisition.
    passes: usize,
}

impl<const W: u32> Deref for Node<W> {
    type Target = Blockchain<16, W, 4, 16, 4, 16>;

    fn deref(&self) -> &Self::Target {
        &self.chain
    }
}

impl<const W: u32> DerefMut for Node<W> {
    fn deref_mut(&mut self) -> &mut Self::Target {
        &mut self.chain
    }
}

type TestChain = Node<16>;
type W4Chain = Node<4>;

/// The content a node's configuration is locked on from the start, if any.
type TestConfig = Option<Vec<u8>>;

fn empty_chain_config() -> TestConfig {
    None
}

fn locked_chain_config() -> TestConfig {
    Some(EMPTY_CONFIG_CONTENT.to_vec())
}

fn initialized_storage() -> Store {
    let mut storage = Store::new();
    storage.initialized = true;
    storage
}

fn test_backends() -> (Crypto, Store, TestConfig) {
    (test_signer(), initialized_storage(), empty_chain_config())
}

fn new_node<const W: u32>(
    crypto: Crypto,
    storage: Store,
    chain_config: TestConfig,
    local_node_id: u32,
    prng_seed: u64,
) -> Node<W> {
    let mut chain = Blockchain::init(
        local_node_id,
        crypto.public_key(),
        REGISTRATION_SIZE,
        prng_seed,
    );
    if let Some(content) = chain_config {
        chain
            .chain_config
            .load_durable(&content, resolve(&content))
            .expect("the content is accepted");
    }
    Node {
        chain,
        storage,
        crypto,
        passes: 0,
    }
}

fn new_chain(
    crypto: Crypto,
    storage: Store,
    chain_config: TestConfig,
    local_node_id: u32,
    prng_seed: u64,
) -> TestChain {
    new_node(crypto, storage, chain_config, local_node_id, prng_seed)
}

fn new_test_chain() -> TestChain {
    let (crypto, storage, _) = test_backends();
    new_node(crypto, storage, locked_chain_config(), 5, 0)
}

fn locked_test_chain(content: &[u8]) -> TestChain {
    let (crypto, storage, _) = test_backends();
    new_node(crypto, storage, Some(content.to_vec()), 5, 0)
}

fn new_unconfigured_test_chain() -> TestChain {
    let (crypto, storage, chain_config) = test_backends();
    new_node(crypto, storage, chain_config, 5, 0)
}

fn unconfigured_test_chain() -> TestChain {
    new_unconfigured_test_chain()
}

fn new_w4_chain() -> W4Chain {
    let (crypto, storage, _) = test_backends();
    new_node(crypto, storage, locked_chain_config(), 5, 0)
}

fn new_unconfigured_w4_chain() -> W4Chain {
    let (crypto, storage, chain_config) = test_backends();
    new_node(crypto, storage, chain_config, 5, 0)
}

fn restart(bc: TestChain) -> TestChain {
    new_node(bc.crypto.clone(), bc.storage, empty_chain_config(), 5, 0)
}

impl<const W: u32> Node<W> {
    fn read(&self, idx: u32) -> Option<Block> {
        self.storage.read_block(idx).ok()
    }

    /// Where a vote engine without parameters stops: at the lowest block.
    fn vote_failure(&self) -> Option<(usize, VoteEngineError)> {
        match self.vote_parameters() {
            Some(_) => None,
            None => Some((0, VoteEngineError::NotParameterized)),
        }
    }

    fn tier1_admit(&mut self, block: &Block, _hash: &[u8; 32], now: u64) -> Result<u32, AdmitError> {
        let saved = match self.chain.admission_slot(block) {
            Ok(slot) => self.storage.save_block(slot, block).is_ok(),
            Err(_) => false,
        };
        self.chain.tier1_admit(block, saved, now)
    }

    fn classify(&mut self, block: &Block, window: Option<(u32, u32)>, now: u64) -> ReceiveBlockOutcome {
        let saved = match self.chain.admission_slot(block) {
            Ok(slot) => self.storage.save_block(slot, block).is_ok(),
            Err(_) => false,
        };
        classify_block(&mut self.chain, block, window, saved, now)
    }

    fn receive_block(&mut self, block: &Block, now: u64) -> CallResult<ReceiveBlockOutcome> {
        let saved = match self.chain.storage_slot(block) {
            Some(slot) => self.storage.save_block(slot, block).is_ok(),
            None => false,
        };
        let (outcome, next) = self.chain.receive_block(block, saved, now);
        if self.chain.is_acquisition_due(&outcome) {
            self.acquire();
            return (outcome, self.chain.next_parent_recovery_call());
        }
        (outcome, next)
    }

    fn run_processing_pass(&mut self, tip: u32) -> Result<(), ProcessingError> {
        let reads = match self.chain.candidate_segment(tip) {
            Ok(segment) => segment.iter().map(|idx| self.read(*idx)).collect(),
            Err(_) => Vec::new(),
        };
        let vote_failure = self.vote_failure();
        let plan = self.chain.run_processing_pass(tip, &reads, vote_failure);
        let verdicts = plan.checks.iter().map(verify).collect();
        self.chain.settle_processing_pass(&plan, &verdicts)
    }

    /// Runs an acquisition to its end.
    fn acquire(&mut self) {
        self.passes = 0;
        let mut run = AcquisitionRun::new();
        let mut event = AcquisitionEvent::Begin;
        loop {
            let (next, action) = self.chain.drive_dominant_chain_acquisition(run, event);
            run = next;
            event = match action {
                AcquisitionAction::Examine { segment } => {
                    self.passes += 1;
                    AcquisitionEvent::Examined {
                        reads: segment.iter().map(|idx| self.read(*idx)).collect(),
                        vote_failure: self.vote_failure(),
                    }
                }
                AcquisitionAction::Verify => AcquisitionEvent::Verified {
                    verdicts: run
                        .pending_checks()
                        .expect("signatures are pending")
                        .iter()
                        .map(verify)
                        .collect(),
                },
                AcquisitionAction::Commit { block_idx } => {
                    let block = self.read(block_idx);
                    let written =
                        self.chain.commits_what_is_held(&block) && self.storage.initialized;
                    if written {
                        self.storage.configuration = block.clone();
                    }
                    let contents = (0..16)
                        .map(|idx| {
                            self.read(idx)
                                .and_then(|b| b.chain_config().map(|e| e.content.clone()))
                        })
                        .collect();
                    AcquisitionEvent::Committed {
                        block,
                        written,
                        contents,
                    }
                }
                AcquisitionAction::Done => break,
            };
        }
    }

    fn commit_again(&mut self, idx: u32) -> bool {
        let block = self.read(idx);
        self.chain.commit_durable_chain_config(&block, true)
    }

    fn initialize_from_storage(&mut self, now: u64) -> CallResult<InitOutcome> {
        let limit = Blockchain::<16, W, 4, 16, 4, 16>::durable_scan_limit(self.storage.capacity());
        let readable = (0..limit)
            .filter(|idx| self.storage.read_block(*idx).is_ok())
            .count();
        let control = if !self.storage.initialized {
            ControlPlane::Unreadable {
                durable_blocks: readable,
            }
        } else {
            ControlPlane::Readable {
                chain_configuration: match &self.storage.configuration {
                    None => StoredConfiguration::Absent,
                    Some(block) => match &block.payload {
                        BlockPayload::ChainConfig(envelope) => {
                            StoredConfiguration::Framed(envelope.clone())
                        }
                        _ => StoredConfiguration::Unusable,
                    },
                },
            }
        };
        let slots = (0..limit)
            .map(|idx| {
                if self.storage.unmeasurable.contains(&idx) {
                    None
                } else {
                    self.read(idx)
                }
            })
            .collect();
        match self.chain.initialize_from_storage(control, &slots, now) {
            InitStep::Finished { outcome, next } => (outcome, next),
            InitStep::Acquire => {
                self.acquire();
                self.chain.conclude_initialization()
            }
        }
    }

    /// Founds the chain: checks, builds, writes, and reports the writes.
    fn process_genesis(
        &mut self,
        initial_total_network_currency: u64,
        content: &[u8],
    ) -> Result<GenesisBlocks, GenesisRejectReason> {
        let ready = self.storage.initialized;
        self.chain.check_genesis(ready, content)?;
        let accepted = resolve(content);
        let registration =
            registration_tx(founding_registration(self.crypto.public_key()), &self.crypto);
        let transfer = transfer_tx(
            0,
            founding_transfer(initial_total_network_currency),
            &self.crypto,
        );
        let block_zero = transaction_block(
            &block_zero_header(),
            vec![registration, transfer],
            &self.crypto,
        );
        let block_one = config_block(&block_one_header(block_zero.hash), content, &self.crypto);
        let mut writes = GenesisWrites {
            block_zero: false,
            block_one: false,
            chain_configuration: false,
        };
        let fits = match &accepted {
            Some(parameters) => Blockchain::<16, W, 4, 16, 4, 16>::genesis_blocks_fit(
                parameters,
                &block_zero,
                &block_one,
            ),
            None => false,
        };
        if fits {
            writes.block_zero = self.storage.save_block(0, &block_zero).is_ok();
            if writes.block_zero {
                writes.block_one = self.storage.save_block(1, &block_one).is_ok();
            }
            if writes.block_one {
                self.storage.configuration = Some(block_one.clone());
                writes.chain_configuration = true;
            }
        }
        self.chain
            .process_genesis(ready, content, accepted, block_zero, block_one, writes)
    }
}

fn admit_chain_config_anchor(bc: &mut TestChain, seq: u32, prev: [u8; 32]) -> [u8; 32] {
    let cfg = chain_config_anchor_block(seq, prev);
    let hash = cfg.view().hash();
    bc.tier1_admit(&cfg.view(), &hash, 0)
        .expect("chain-config anchor admitted");
    hash
}

/// A node that became ready on what its peers sent: the chain's first block and
/// its configuration, the latter first.
fn node_ready_from_the_mesh() -> (TestChain, Block, Block) {
    let mut bc = new_unconfigured_test_chain();
    let genesis = node_transfer_block(0, 0, 0, 0);
    let cfg = chain_config_anchor_block(1, genesis.view().hash());
    for block in [&cfg, &genesis] {
        let (outcome, _) = bc.receive_block(block.view(), 0);
        assert_eq!(outcome, ReceiveBlockOutcome::AcceptedSilently);
    }
    assert!(bc.is_ready(), "precondition: the node reached Ready");
    assert!(
        bc.chain_config.is_durable_locked(),
        "precondition: reaching Ready performed the durable commit"
    );
    (bc, genesis, cfg)
}

#[test]
fn unconfigured_node_falls_back_to_the_framing_bound_and_idles() {
    let (crypto, storage, chain_config) = test_backends();
    let mut bc = new_chain(crypto, storage, chain_config, 5, 0);

    assert_eq!(bc.block_size_limit(), MAX_BLOCK_SIZE as u16);
    assert!(bc.parent_recovery_intervals().is_none());
    let (outcome, next) = bc.on_tick(1_000_000);
    assert!(matches!(outcome, TickOutcome::Idle));
    assert!(matches!(next, NextCall::Idle));
}

#[test]
fn genesis_head_is_connected_no_parent_recovery() {
    let (crypto, storage, chain_config) = test_backends();
    let mut bc = new_chain(crypto, storage, chain_config, 0, 0);
    bc.process_genesis(1_000_000_000, &EMPTY_CONFIG_CONTENT)
        .ok()
        .expect("genesis must succeed");

    assert!(
        !bc.chain_heads.has_stored_head(),
        "the genesis head must be Connected, not a Stored tail-point"
    );
    let (outcome, _next) = bc.on_tick(1_000_000);
    assert!(
        matches!(outcome, TickOutcome::Idle),
        "a complete genesis chain schedules no parent-recovery"
    );
}

#[test]
fn walking_skeleton_refuses_non_zero_local_node_id() {
    let (crypto, storage, chain_config) = test_backends();
    let mut bc = new_chain(crypto, storage, chain_config, 1, 0);

    let outcome = bc.process_genesis(1_000_000_000, &[]);

    match outcome {
        Err(GenesisRejectReason::LocalNodeIdNotZero) => {}
        Err(_) => panic!("expected LocalNodeIdNotZero refusal"),
        Ok(_) => panic!("the precondition must refuse local_node_id != 0"),
    }
    assert!(!bc.chain_config.is_durable_locked());
}

#[test]
fn walking_skeleton_rejects_oversized_initial_chain_config() {
    let (crypto, storage, chain_config) = test_backends();
    let oversized = [0u8; MAX_PAYLOAD_SIZE - SIGNATURE_SIZE + 1];
    let mut bc = new_chain(crypto, storage, chain_config, 0, 0);

    let outcome = bc.process_genesis(1_000_000_000, &oversized);

    match outcome {
        Err(GenesisRejectReason::InitialChainConfigTooLarge) => {}
        Err(_) => panic!("expected InitialChainConfigTooLarge refusal"),
        Ok(_) => panic!("oversized initial chain-config bytes must be refused"),
    }
}

#[test]
fn walking_skeleton_refuses_genesis_when_chain_config_already_locked() {
    let (crypto, storage, _) = test_backends();
    let chain_config = locked_chain_config();
    let mut bc = new_chain(crypto, storage, chain_config, 0, 0);

    let outcome = bc.process_genesis(1_000_000_000, &OTHER_CONFIG_CONTENT);

    match outcome {
        Err(GenesisRejectReason::StorageNotEmpty) => {}
        Err(_) => panic!("expected StorageNotEmpty refusal"),
        Ok(_) => panic!("genesis must not overwrite a durably locked configuration"),
    }
    assert_eq!(
        bc.chain_config.durable_content(),
        Some(&EMPTY_CONFIG_CONTENT[..])
    );
}

#[test]
fn walking_skeleton_refuses_second_genesis() {
    let (crypto, storage, chain_config) = test_backends();
    let mut bc = new_chain(crypto, storage, chain_config, 0, 0);

    let first = bc.process_genesis(1_000_000_000, &EMPTY_CONFIG_CONTENT);
    assert!(first.is_ok(), "first genesis must succeed");

    let second = bc.process_genesis(1_000_000_000, &OTHER_CONFIG_CONTENT);
    match second {
        Err(GenesisRejectReason::StorageNotEmpty) => {}
        Err(_) => panic!("expected StorageNotEmpty on the second genesis"),
        Ok(_) => panic!("genesis must run at most once per chain"),
    }
}

#[test]
fn walking_skeleton_refuses_genesis_blocks_above_the_declared_limit() {
    let (crypto, storage, chain_config) = test_backends();
    let mut bc = new_chain(crypto, storage, chain_config, 0, 0);
    let content = [1u8, 0, parameter::BLOCK_SIZE_LIMIT, 2, 0x2C, 0x01];

    let outcome = bc.process_genesis(1_000_000_000, &content);

    match outcome {
        Err(GenesisRejectReason::GenesisBlockExceedsBlockSizeLimit) => {}
        Err(_) => panic!("expected GenesisBlockExceedsBlockSizeLimit refusal"),
        Ok(_) => panic!("genesis must not create a chain that rejects its own blocks"),
    }
    assert_eq!(bc.blocks.len(), 0, "nothing was written");
    assert!(!bc.chain_config.is_durable_locked());
}

#[test]
fn walking_skeleton_query_carries_no_next_call() {
    let (crypto, storage, chain_config) = test_backends();
    let mut bc = new_chain(crypto, storage, chain_config, 0, 0);
    bc.process_genesis(1_000_000_000, &EMPTY_CONFIG_CONTENT)
        .ok()
        .expect("genesis must succeed for local_node_id == 0");
    let phase: LifecyclePhase = bc.current_phase();
    assert!(phase == LifecyclePhase::Ready);

    let node_id: u32 = bc.local_node_id();
    assert_eq!(node_id, 0);
}

#[test]
fn tier1_admit_inserts_at_stored() {
    let mut bc = new_test_chain();
    let block = node_transfer_block(5, 3, 4, 7);
    let idx = bc
        .tier1_admit(&block.view(), &block.view().hash(), 1_000)
        .expect("well-formed block is admitted");
    assert_eq!(bc.blocks.len(), 1);
    assert_eq!(
        bc.blocks.get(idx).expect("entry present").status(),
        BlockStatus::Stored);
    assert!(bc.storage.read_block(idx).is_ok());
}

#[test]
fn tier1_admit_rejects_and_does_not_store() {
    let mut bc = new_test_chain();
    let block = node_transfer_block(5, 7, 4, 7);
    let result = bc.tier1_admit(&block.view(), &block.view().hash(), 1_000);
    assert_eq!(result, Err(AdmitError::Rejected(Tier1Failure::SelfVote)));
    assert_eq!(bc.blocks.len(), 0, "a rejected block must not be stored");
}

#[test]
fn receive_block_genesis_anchors_active_head() {
    let mut bc = new_unconfigured_test_chain();
    let genesis = node_transfer_block(0, 7, 0, 7);
    let (outcome, _) = bc.receive_block(genesis.view(), 100);
    assert_eq!(outcome, ReceiveBlockOutcome::AcceptedSilently);
    assert_eq!(
        bc.current_active_head(),
        Some(0),
        "genesis is the active head"
    );
    let cfg = chain_config_anchor_block(1, genesis.view().hash());
    let (outcome, next) = bc.receive_block(cfg.view(), 100);
    assert_eq!(outcome, ReceiveBlockOutcome::AcceptedSilently);
    assert!(
        bc.blocks
            .get(0)
            .is_some_and(|entry| entry.is_on_active_chain()),
        "the genesis still anchors the active chain"
    );
    assert!(
        matches!(next, NextCall::Idle),
        "a fully-connected active chain schedules no parent recovery"
    );
}

#[test]
fn receive_block_orphan_creates_stored_head_and_schedules() {
    let mut bc = new_test_chain();
    let orphan = node_transfer_block(5, 3, 4, 7);
    let (outcome, next) = bc.receive_block(orphan.view(), 1_000);
    assert_eq!(outcome, ReceiveBlockOutcome::AcceptedSilently);
    assert!(bc.current_active_head().is_none());
    assert!(
        matches!(next, NextCall::At(_)),
        "orphan schedules parent recovery"
    );
}

#[test]
fn on_tick_emits_parent_recovery_request() {
    let mut bc = new_test_chain();
    let orphan = node_transfer_block(5, 3, 4, 7);
    bc.receive_block(orphan.view(), 0);
    let (outcome, next) = bc.on_tick(1_000_000);
    match outcome {
        TickOutcome::SendParentRecoveryRequest(req) => {
            assert_eq!(req.missing_parent_hash(), &[0u8; 32]);
            assert_eq!(req.claimed_parent_sequence(), 4, "tail.sequence - 1");
        }
        TickOutcome::Idle => panic!("a Stored head past its retry window must emit"),
    }
    assert!(
        matches!(next, NextCall::At(_)),
        "Stored head still awaits its parent"
    );
}

#[test]
fn on_tick_global_cooldown_suppresses_second_emission() {
    let mut bc = new_test_chain();
    bc.receive_block(node_transfer_block(5, 3, 4, 7).view(), 0);
    bc.receive_block(linked_transfer_block(9, [0xAB; 32]).view(), 0);
    let t = 1_000_000;
    let (first, _) = bc.on_tick(t);
    assert!(matches!(first, TickOutcome::SendParentRecoveryRequest(_)));
    let (second, _) = bc.on_tick(t + 5_000);
    assert_eq!(second, TickOutcome::Idle, "global cooldown suppresses");
    let (third, _) = bc.on_tick(t + 10_000);
    assert!(matches!(third, TickOutcome::SendParentRecoveryRequest(_)));
}

#[test]
fn parent_recovery_nextcall_is_exact_deadline() {
    let mut bc = new_test_chain();
    let orphan = node_transfer_block(5, 3, 4, 7);
    let (_, next) = bc.receive_block(orphan.view(), 5_000);
    assert!(
        matches!(next, NextCall::At(10_000)),
        "exact cooldown deadline, independent of now (5_000)"
    );
    let (_, next2) = bc.on_tick(1_000_000);
    assert!(
        matches!(next2, NextCall::At(1_120_000)),
        "exact per-head window end after emission"
    );
}

#[test]
fn on_tick_idle_without_stored_heads() {
    let mut bc = new_test_chain();
    let (outcome, next) = bc.on_tick(5_000);
    assert_eq!(outcome, TickOutcome::Idle);
    assert!(matches!(next, NextCall::Idle));
}

#[test]
fn receive_block_extend_advances_head() {
    let mut bc = new_test_chain();
    let a = node_transfer_block(5, 3, 4, 7);
    bc.receive_block(a.view(), 0);
    let a_hash = a.view().hash();
    let b = linked_transfer_block(6, a_hash);
    let (outcome, _) = bc.receive_block(b.view(), 0);
    assert_eq!(outcome, ReceiveBlockOutcome::AcceptedSilently);
    assert_eq!(bc.block_tree_len(), 2);
    let (outcome, _) = bc.on_tick(1_000_000);
    match outcome {
        TickOutcome::SendParentRecoveryRequest(req) => {
            assert_eq!(req.claimed_parent_sequence(), 4);
        }
        TickOutcome::Idle => {
            panic!("the advanced Stored head must still request its tail parent")
        }
    }
}

#[test]
fn parent_recovery_is_deterministic_replay() {
    fn run(ticks: &[u64; 3]) -> (usize, [Option<u32>; 3]) {
        let mut bc = new_test_chain();
        for seq in [7u32, 5, 9] {
            bc.receive_block(node_transfer_block(seq, 3, seq - 1, 7).view(), 0);
        }
        let mut claimed: [Option<u32>; 3] = [None; 3];
        for (i, &t) in ticks.iter().enumerate() {
            if let (TickOutcome::SendParentRecoveryRequest(req), _) = bc.on_tick(t) {
                claimed[i] = Some(req.claimed_parent_sequence());
            }
        }
        (bc.block_tree_len(), claimed)
    }
    let ticks = [1_000_000, 2_000_000, 3_000_000];
    let (len_a, claims_a) = run(&ticks);
    let (len_b, claims_b) = run(&ticks);
    assert_eq!(len_a, len_b);
    assert_eq!(
        claims_a, claims_b,
        "identical emission order across replays"
    );
    assert_eq!(claims_a[0], Some(4));
}

#[test]
fn fresh_node_is_collecting_and_not_ready() {
    let bc = new_test_chain();
    assert!(bc.current_phase() == LifecyclePhase::Collecting);
    assert!(!bc.is_ready());
}

#[test]
fn genesis_node_is_ready() {
    let (crypto, storage, chain_config) = test_backends();
    let mut bc = new_chain(crypto, storage, chain_config, 0, 1);
    bc.process_genesis(1_000_000_000, &EMPTY_CONFIG_CONTENT)
        .ok()
        .expect("genesis must succeed");
    assert!(bc.current_phase() == LifecyclePhase::Ready);
    assert!(bc.is_ready());
}

#[test]
fn set_lifecycle_phase_accepts_legal_edges() {
    let mut bc = new_test_chain();
    bc.set_lifecycle_phase(LifecyclePhase::Processing);
    assert!(bc.current_phase() == LifecyclePhase::Processing);
    bc.set_lifecycle_phase(LifecyclePhase::Ready);
    assert!(bc.current_phase() == LifecyclePhase::Ready);
    let mut bc2 = new_test_chain();
    bc2.set_lifecycle_phase(LifecyclePhase::Processing);
    bc2.set_lifecycle_phase(LifecyclePhase::Collecting);
    assert!(bc2.current_phase() == LifecyclePhase::Collecting);
}

#[test]
fn snake_chain_window_none_while_collecting() {
    let bc = new_test_chain();
    assert_eq!(
        bc.active_snake_chain_window(),
        Err(SnakeChainWindowError::NotReady)
    );
}

#[test]
fn initialize_from_storage_empty_starts_collecting() {
    let mut bc = new_test_chain();
    let (outcome, next) = bc.initialize_from_storage(0);
    assert_eq!(outcome, InitOutcome::StartedCollecting);
    assert!(matches!(next, NextCall::Idle));
    assert!(bc.current_phase() == LifecyclePhase::Collecting);
}

#[test]
fn collecting_gates_ready_only_queries() {
    let bc = new_test_chain();
    assert_eq!(bc.query_balance(1), Err(BalanceQueryError::NotReady));
    assert!(matches!(
        bc.query_block_by_hash(&[0u8; 32]),
        Err(BlockQueryError::NotReady)
    ));
    assert!(matches!(
        bc.query_block_by_sequence(0),
        Err(BlockQueryError::NotReady)
    ));
    assert_eq!(
        bc.query_transaction_state(&[0u8; 32]),
        Err(TxStateQueryError::NotReady)
    );
}

#[test]
fn single_genesis_guard_rejects_second_seq0() {
    let mut bc = new_unconfigured_test_chain();
    let g1 = node_transfer_block(0, 7, 0, 7);
    let (o1, _) = bc.receive_block(g1.view(), 100);
    assert_eq!(o1, ReceiveBlockOutcome::AcceptedSilently);
    assert_eq!(bc.active_chain_head_idx, 0);
    assert_eq!(bc.current_active_head(), Some(0));
    assert_eq!(bc.blocks.len(), 1);
    let g2 = node_transfer_block(0, 3, 0, 3);
    assert_ne!(
        g1.view().hash(),
        g2.view().hash(),
        "distinct genesis blocks"
    );
    let (o2, _) = bc.receive_block(g2.view(), 200);
    assert_eq!(
        o2,
        ReceiveBlockOutcome::Rejected(RejectReason::InvalidEvidence)
    );
    assert_eq!(
        bc.active_chain_head_idx, 0,
        "second genesis must not reseat the active chain"
    );
    assert_eq!(bc.blocks.len(), 1, "second genesis must not be stored");
    assert_eq!(bc.chain_heads.count(), 1, "no spurious Stored head created");
}

#[test]
fn lifecycle_surface_is_now_independent() {
    fn run(now_base: u64) -> (bool, Option<u32>, bool, bool) {
        let mut bc = new_test_chain();
        let (init_outcome, _) = bc.initialize_from_storage(now_base);
        assert_eq!(init_outcome, InitOutcome::StartedCollecting);
        let g1 = node_transfer_block(0, 7, 0, 7);
        let o1 = bc.receive_block(g1.view(), now_base + 10).0;
        let g2 = node_transfer_block(0, 3, 0, 3);
        let o2 = bc.receive_block(g2.view(), now_base + 20).0;
        (
            o1 == ReceiveBlockOutcome::AcceptedSilently,
            bc.current_active_head(),
            o2 == ReceiveBlockOutcome::Rejected(RejectReason::InvalidEvidence),
            bc.is_ready(),
        )
    }
    assert_eq!(run(1_000), run(9_999_999));
}

#[test]
fn fr2_no_candidate_stays_collecting() {
    let mut bc = new_test_chain();
    let orphan = node_transfer_block(5, 3, 4, 7);
    let (outcome, next) = bc.receive_block(orphan.view(), 0);
    assert_eq!(outcome, ReceiveBlockOutcome::AcceptedSilently);
    assert!(bc.evaluate_stopping_condition().is_none());
    assert!(bc.current_phase() == LifecyclePhase::Collecting);
    assert!(
        matches!(next, NextCall::At(_)),
        "parent recovery still scheduled while collecting"
    );
}

#[test]
fn fr2_genesis_anchored_triggers_processing() {
    let mut bc = new_test_chain();
    let genesis = node_transfer_block(0, 7, 0, 7);
    let cfg = chain_config_anchor_block(1, genesis.view().hash());
    let (cfg_outcome, _) = bc.receive_block(cfg.view(), 100);
    assert_eq!(cfg_outcome, ReceiveBlockOutcome::AcceptedSilently);
    let (outcome, _) = bc.receive_block(genesis.view(), 100);
    assert_eq!(outcome, ReceiveBlockOutcome::AcceptedSilently);
    assert!(
        bc.blocks
            .get(0)
            .is_some_and(|entry| entry.is_on_active_chain()));
    assert!(
        bc.is_ready());
}

#[test]
fn fr2_stays_collecting_without_configuration() {
    let (crypto, storage, chain_config) = test_backends();
    let mut bc = new_chain(crypto, storage, chain_config, 5, 0);
    let genesis = node_transfer_block(0, 7, 0, 7);

    let (outcome, _) = bc.receive_block(genesis.view(), 100);

    assert_eq!(
        outcome,
        ReceiveBlockOutcome::AcceptedSilently,
        "the block itself is still admitted"
    );
    assert!(
        bc.current_phase() == LifecyclePhase::Collecting);
    assert!(!bc.is_ready());
}

#[test]
fn processing_pass_refuses_without_configuration() {
    let (crypto, storage, chain_config) = test_backends();
    let mut bc = new_chain(crypto, storage, chain_config, 5, 0);
    let genesis = node_transfer_block(0, 7, 0, 7);
    let (outcome, _) = bc.receive_block(genesis.view(), 100);
    assert_eq!(outcome, ReceiveBlockOutcome::AcceptedSilently);
    assert_eq!(
        bc.run_processing_pass(0),
        Err(ProcessingError::Vote(VoteEngineError::NotParameterized)));
}

#[test]
fn fr2_active_length_triggers_at_w() {
    let mut bc = new_w4_chain();
    let tail = chain_config_anchor_block(100, [0xAB; 32]);
    bc.receive_block(tail.view(), 0);
    let mut prev = tail.view().hash();
    for seq in 101..=102 {
        let blk = linked_transfer_block(seq, prev);
        prev = blk.view().hash();
        bc.receive_block(blk.view(), 0);
    }
    assert_eq!(bc.block_tree_len(), 3);
    assert!(
        bc.evaluate_stopping_condition().is_none(),
        "segment length 3 < W = 4"
    );
    assert!(bc.current_phase() == LifecyclePhase::Collecting);
    let last = linked_transfer_block(103, prev);
    bc.receive_block(last.view(), 0);
    assert!(
        bc.is_ready());
}

#[test]
fn fr2_selection_highest_sequence_then_lowest_hash() {
    let mut bc = new_test_chain();
    let g = node_transfer_block(0, 7, 0, 7);
    bc.tier1_admit(&g.view(), &g.view().hash(), 0)
        .expect("genesis admitted");
    let gh = g.view().hash();
    let a = salted_linked_block(1, gh, 3);
    let b = salted_linked_block(1, gh, 4);
    let a_idx = bc
        .tier1_admit(&a.view(), &a.view().hash(), 0)
        .expect("A admitted");
    let b_idx = bc
        .tier1_admit(&b.view(), &b.view().hash(), 0)
        .expect("B admitted");
    let a_hash = a.view().hash();
    let b_hash = b.view().hash();
    let lower = if a_hash < b_hash { a_idx } else { b_idx };
    assert_eq!(
        bc.evaluate_stopping_condition(),
        Some(lower),
        "same-sequence tie → lower tip hash wins"
    );
    let c = salted_linked_block(2, a_hash, 3);
    let c_idx = bc
        .tier1_admit(&c.view(), &c.view().hash(), 0)
        .expect("C admitted");
    assert_eq!(
        bc.evaluate_stopping_condition(),
        Some(c_idx),
        "highest tip sequence wins over the lower-sequence tie"
    );
}

#[test]
fn fr2_selection_is_order_independent() {
    fn winner_hash(order: &[u32; 2], now: u64) -> [u8; 32] {
        let mut bc = new_test_chain();
        let g = node_transfer_block(0, 7, 0, 7);
        bc.tier1_admit(&g.view(), &g.view().hash(), now)
            .expect("genesis");
        let gh = g.view().hash();
        let blocks = [
            salted_linked_block(1, gh, order[0]),
            salted_linked_block(1, gh, order[1]),
        ];
        for blk in &blocks {
            bc.tier1_admit(&blk.view(), &blk.view().hash(), now)
                .expect("child admitted");
        }
        let win = bc
            .evaluate_stopping_condition()
            .expect("a genesis-anchored candidate qualifies");
        *bc.blocks.get(win).expect("winner is in the tree").hash()
    }
    assert_eq!(
        winner_hash(&[3, 4], 1_000),
        winner_hash(&[4, 3], 9_999_999),
        "same winning tip regardless of admission order or wall-clock base"
    );
}

#[test]
fn fr2_anchored_genesis_does_not_preempt_higher_branch() {
    let mut bc = new_w4_chain();
    let g = node_transfer_block(0, 7, 0, 7);
    bc.tier1_admit(&g.view(), &g.view().hash(), 0)
        .expect("genesis admitted");
    assert_eq!(
        bc.current_active_head(),
        Some(0),
        "genesis is the placeholder anchor"
    );
    let tail = node_transfer_block(100, 3, 99, 7);
    bc.tier1_admit(&tail.view(), &tail.view().hash(), 0)
        .expect("tail admitted");
    let mut prev = tail.view().hash();
    let mut tip_idx = 0;
    for seq in 101..=103 {
        let blk = linked_transfer_block(seq, prev);
        prev = blk.view().hash();
        tip_idx = bc
            .tier1_admit(&blk.view(), &blk.view().hash(), 0)
            .expect("child admitted");
    }
    assert_eq!(
        bc.evaluate_stopping_condition(),
        Some(tip_idx),
        "the longer non-genesis branch is selected despite the genesis anchor"
    );
}

#[test]
fn fr2_genesis_anchored_multiblock_below_w_qualifies() {
    let mut bc = new_test_chain();
    let g = node_transfer_block(0, 7, 0, 7);
    bc.tier1_admit(&g.view(), &g.view().hash(), 0)
        .expect("genesis admitted");
    let c = linked_transfer_block(1, g.view().hash());
    let c_idx = bc
        .tier1_admit(&c.view(), &c.view().hash(), 0)
        .expect("child admitted");
    assert_eq!(
        bc.evaluate_stopping_condition(),
        Some(c_idx),
        "genesis-anchored qualifies at length 2, well below W = 16"
    );
}

#[test]
fn fr3_derives_balance_block_seed_and_watermark() {
    let mut bc = new_test_chain();
    let cfg_hash = admit_chain_config_anchor(&mut bc, 99, [0xAB; 32]);
    let anchor = balance_block(100, cfg_hash, &[(1, 500, 10, 0xB1), (2, 300, 20, 0xB2)], 2);
    let ai = bc
        .tier1_admit(&anchor.view(), &anchor.view().hash(), 0)
        .expect("balance anchor admitted");

    bc.run_processing_pass(ai).expect("pass succeeds");

    assert_eq!(bc.node_info.balance_of(1), 500);
    assert_eq!(bc.node_info.balance_of(2), 300);
    assert!(bc.node_info.public_key_of(1).is_some());
    assert!(bc.node_info.public_key_of(2).is_some());
    assert_eq!(
        bc.node_info.max_known_node_id(),
        2,
        "watermark from max_node_id"
    );
}

#[test]
fn fr3_derives_registration_and_watermark() {
    let mut bc = new_test_chain();
    let cfg_hash = admit_chain_config_anchor(&mut bc, 99, [0xAB; 32]);
    let anchor = balance_block(100, cfg_hash, &[(1, 100, 0, 0xB1)], 1);
    bc.tier1_admit(&anchor.view(), &anchor.view().hash(), 0)
        .expect("anchor admitted");
    let reg = registration_block(101, anchor.view().hash(), 1, 2, 0xC5);
    let ri = bc
        .tier1_admit(&reg.view(), &reg.view().hash(), 0)
        .expect("registration admitted");

    bc.run_processing_pass(ri).expect("pass succeeds");

    assert!(
        bc.node_info.public_key_of(2).is_some(),
        "new node registered"
    );
    assert_eq!(
        bc.node_info.balance_of(2),
        0);
    assert_eq!(bc.node_info.max_known_node_id(), 2, "watermark advanced");
    assert_eq!(
        bc.node_info.balance_of(1),
        49,
        "initializer debited registration_price(50) + fee(1)"
    );
}

#[test]
fn fr3_derives_node_transfer_between_seeded_nodes() {
    let mut bc = new_test_chain();
    let cfg_hash = admit_chain_config_anchor(&mut bc, 99, [0xAB; 32]);
    let anchor = balance_block(100, cfg_hash, &[(1, 500, 0, 0xB1), (2, 300, 0, 0xB2)], 2);
    bc.tier1_admit(&anchor.view(), &anchor.view().hash(), 0)
        .expect("anchor admitted");
    let tx = transfer_block(101, anchor.view().hash(), 1, 2, 100, 1, 0);
    let ti = bc
        .tier1_admit(&tx.view(), &tx.view().hash(), 0)
        .expect("transfer admitted");

    bc.run_processing_pass(ti).expect("pass succeeds");

    assert_eq!(bc.node_info.balance_of(1), 399, "500 - (100 + 1)");
    assert_eq!(bc.node_info.balance_of(2), 400, "300 + 100");
}

#[test]
fn fr3_preseed_zone_auto_accepts() {
    let mut bc = new_test_chain();
    let cfg_hash = admit_chain_config_anchor(&mut bc, 99, [0xAB; 32]);
    let anchor = chained_node_transfer_block(100, cfg_hash, 3, 99, 7);
    let ai = bc
        .tier1_admit(&anchor.view(), &anchor.view().hash(), 0)
        .expect("anchor admitted");

    bc.run_processing_pass(ai)
        .expect("pass does not fail on unseeded nodes");

    assert!(!bc.node_info.is_seeded(7));
    assert_eq!(bc.node_info.balance_of(7), 0, "debit skipped (pre-seed)");
    assert_eq!(bc.node_info.balance_of(9), 0, "credit skipped (pre-seed)");
}

#[test]
fn fr3_genesis_anchored_watermark_zero() {
    let mut bc = new_test_chain();
    let g = node_transfer_block(0, 3, 0, 7);
    bc.tier1_admit(&g.view(), &g.view().hash(), 0)
        .expect("genesis admitted");
    let ci = {
        let cfg = chain_config_anchor_block(1, g.view().hash());
        bc.tier1_admit(&cfg.view(), &cfg.view().hash(), 0)
            .expect("chain-config block admitted")
    };

    bc.run_processing_pass(ci).expect("pass succeeds");

    assert_eq!(
        bc.node_info.max_known_node_id(),
        0);
}

#[test]
fn fr3_backward_mark_follows_selected_branch_only() {
    let mut bc = new_test_chain();
    let cfg_hash = admit_chain_config_anchor(&mut bc, 99, [0xAB; 32]);
    let anchor = balance_block(
        100,
        cfg_hash,
        &[(1, 1000, 0, 0xB1), (2, 0, 0, 0xB2), (3, 0, 0, 0xB3)],
        3,
    );
    bc.tier1_admit(&anchor.view(), &anchor.view().hash(), 0)
        .expect("anchor admitted");
    let ah = anchor.view().hash();
    let left = transfer_block(101, ah, 1, 2, 100, 0, 0);
    let right = transfer_block(101, ah, 1, 3, 200, 0, 0);
    let li = bc
        .tier1_admit(&left.view(), &left.view().hash(), 0)
        .expect("left admitted");
    let _ri = bc
        .tier1_admit(&right.view(), &right.view().hash(), 0)
        .expect("right admitted");

    bc.run_processing_pass(li).expect("pass over left tip");

    assert_eq!(bc.node_info.balance_of(2), 100, "left branch applied");
    assert_eq!(bc.node_info.balance_of(3), 0, "sibling NOT applied");
    assert_eq!(bc.node_info.balance_of(1), 900, "only left's 100 debited");
}

#[test]
fn fr3_not_resumable_clean_reentry() {
    let mut bc = new_test_chain();
    let cfg_hash = admit_chain_config_anchor(&mut bc, 99, [0xAB; 32]);
    let anchor = balance_block(100, cfg_hash, &[(1, 500, 10, 0xB1)], 1);
    bc.tier1_admit(&anchor.view(), &anchor.view().hash(), 0)
        .expect("anchor admitted");
    let tx = transfer_block(101, anchor.view().hash(), 1, 1, 0, 3, 0);
    let ti = bc
        .tier1_admit(&tx.view(), &tx.view().hash(), 0)
        .expect("tx admitted");

    bc.run_processing_pass(ti).expect("first pass");
    let b1 = bc.node_info.balance_of(1);

    bc.run_processing_pass(ti).expect("second pass (re-entry)");
    assert_eq!(
        bc.node_info.balance_of(1),
        b1,
        "balance identical after re-entry"
    );
}

#[test]
fn fr3_projection_is_clock_independent_and_reproducible() {
    fn run(now_base: u64) -> (u64, u64, u32) {
        let mut bc = new_test_chain();
        let cfg_hash = admit_chain_config_anchor(&mut bc, 99, [0xAB; 32]);
        let anchor = balance_block(100, cfg_hash, &[(1, 500, 0, 0xB1), (2, 300, 0, 0xB2)], 2);
        let _ai = bc
            .tier1_admit(&anchor.view(), &anchor.view().hash(), now_base)
            .expect("anchor admitted");
        let tx = transfer_block(101, anchor.view().hash(), 1, 2, 100, 1, 0);
        let ti = bc
            .tier1_admit(&tx.view(), &tx.view().hash(), now_base + 5_000)
            .expect("tx admitted");
        bc.run_processing_pass(ti).expect("pass");
        (
            bc.node_info.balance_of(1),
            bc.node_info.balance_of(2),
            bc.node_info.max_known_node_id(),
        )
    }
    assert_eq!(run(0), run(1_000_000), "projection independent of `now`");
}

#[test]
fn fr4_seam_reaches_ready_and_promotes_active() {
    let mut bc = new_test_chain();
    let genesis = node_transfer_block(0, 3, 0, 7);
    let cfg = chain_config_anchor_block(1, genesis.view().hash());
    bc.receive_block(cfg.view(), 0);
    let (outcome, _next) = bc.receive_block(genesis.view(), 0);
    assert_eq!(outcome, ReceiveBlockOutcome::AcceptedSilently);
    assert!(
        bc.is_ready());
    let tip = bc.active_chain_head_idx;
    assert_ne!(tip, NONE_REF, "active head established");
    let entry = bc.blocks.get(tip).expect("tip present");
    assert_eq!(
        entry.status(),
        BlockStatus::Active);
    assert!(entry.is_on_active_chain(), "tip is on the active chain");
}

#[test]
fn fr5_seam_recovers_and_retries_invalid_candidate_in_one_call() {
    let mut bc = new_test_chain();
    let genesis = node_transfer_block(0, 0, 0, 0);
    let cfg = chain_config_anchor_block(1, genesis.view().hash());
    let child = registration_block(2, cfg.view().hash(), 1, 5, 0xC5);
    let (outcome, _) = bc.receive_block(child.view(), 0);
    assert_eq!(
        outcome,
        ReceiveBlockOutcome::AcceptedSilently,
        "the orphan child is really admitted (the seam below is not vacuous)"
    );
    let (cfg_outcome, _) = bc.receive_block(cfg.view(), 0);
    assert_eq!(cfg_outcome, ReceiveBlockOutcome::AcceptedSilently);
    let child_idx = bc
        .blocks
        .find(2, &child.view().hash())
        .expect("child in the tree");
    assert!(bc.current_phase() == LifecyclePhase::Collecting);
    let (outcome, _) = bc.receive_block(genesis.view(), 0);
    assert_eq!(outcome, ReceiveBlockOutcome::AcceptedSilently);
    assert!(
        bc.blocks.get(child_idx).is_none(),
        "the offending block is deleted from the tree (and its durable slot freed)"
    );
    let genesis_idx = bc
        .blocks
        .find(0, &genesis.view().hash())
        .expect("genesis survives");
    let cfg_idx = bc
        .blocks
        .find(1, &cfg.view().hash())
        .expect("chain-config block survives");
    assert_eq!(bc.blocks.len(), 2);
    assert!(
        bc.is_ready(),
        "the retry validates the shortened genesis-anchored candidate in-call"
    );
    assert_eq!(
        bc.active_chain_head_idx, cfg_idx,
        "the retry's Ready transition establishes the surviving tip as the active head"
    );
    assert_eq!(
        bc.blocks
            .get(genesis_idx)
            .expect("genesis present")
            .status(),
        BlockStatus::Active,
        "the surviving candidate is promoted Stored→Active by the retry"
    );
    assert!(
        !bc.node_info.is_seeded(5),
        "the offending registration's effect is absent from the working set"
    );
    assert_eq!(bc.node_info.max_known_node_id(), 0);
}

#[test]
fn fr5_deletes_offender_subtree_and_spares_sibling() {
    let mut bc = new_test_chain();
    let genesis = node_transfer_block(0, 0, 0, 0);
    let gi = bc
        .tier1_admit(&genesis.view(), &genesis.view().hash(), 0)
        .expect("genesis admitted");
    let b1 = transfer_block(1, genesis.view().hash(), 1, 2, 100, 1, 0);
    let bi1 = bc
        .tier1_admit(&b1.view(), &b1.view().hash(), 0)
        .expect("b1 admitted");
    let b2 = transfer_block(2, b1.view().hash(), 1, 2, 100, 1, 0);
    let bi2 = bc
        .tier1_admit(&b2.view(), &b2.view().hash(), 0)
        .expect("b2 admitted");
    let c1 = transfer_block(1, genesis.view().hash(), 1, 2, 200, 1, 0);
    let ci1 = bc
        .tier1_admit(&c1.view(), &c1.view().hash(), 0)
        .expect("c1 admitted");
    assert_eq!(bc.blocks.len(), 4);

    bc.set_lifecycle_phase(LifecyclePhase::Processing);
    bc.recover_from_failed_pass(
        ProcessingError::Invalid {
            block_idx: bi1,
            reason: ValidationReason::UnseededActor,
        },
        bi2,
    );

    assert!(
        bc.blocks.get(bi1).is_none(),
        "the earliest offender is deleted"
    );
    assert!(
        bc.blocks.get(bi2).is_none(),
        "its transitive descendant is deleted too"
    );
    assert!(
        bc.blocks.get(gi).is_some(),
        "the target's ancestor survives"
    );
    assert!(
        bc.blocks.get(ci1).is_some(),
        "the sibling subtree is untouched"
    );
    assert_eq!(bc.blocks.len(), 2);
    assert_eq!(bc.chain_heads.count(), 1);
    assert!(bc.chain_heads.occupied_heads().into_iter().any(|(h, _)| h == ci1));
    assert_eq!(bc.current_phase(), LifecyclePhase::Collecting);
}

#[test]
fn fr5_non_invalid_error_deletes_only_the_candidate_head() {
    fn run(err: ProcessingError) -> (usize, bool, bool) {
        let mut bc = new_test_chain();
        let genesis = node_transfer_block(0, 0, 0, 0);
        bc.tier1_admit(&genesis.view(), &genesis.view().hash(), 0)
            .expect("genesis admitted");
        let b1 = transfer_block(1, genesis.view().hash(), 1, 2, 100, 1, 0);
        let bi1 = bc
            .tier1_admit(&b1.view(), &b1.view().hash(), 0)
            .expect("b1 admitted");
        let b2 = transfer_block(2, b1.view().hash(), 1, 2, 100, 1, 0);
        let bi2 = bc
            .tier1_admit(&b2.view(), &b2.view().hash(), 0)
            .expect("b2 admitted");
        bc.set_lifecycle_phase(LifecyclePhase::Processing);
        bc.recover_from_failed_pass(err, bi2);
        (
            bc.blocks.len(),
            bc.blocks.get(bi2).is_none(),
            bc.chain_heads.occupied_heads().into_iter().any(|(h, _)| h == bi1),
        )
    }
    for err in [
        ProcessingError::StorageRead,
        ProcessingError::MissingBlock,
        ProcessingError::MarkOverflow,
        ProcessingError::Vote(VoteEngineError::AccumulatedVoteOverflow),
    ] {
        assert_eq!(
            run(err),
            (2, true, true),
            "the head fallback deletes exactly the candidate head and keeps \
             the shortened branch tracked"
        );
    }
}

#[test]
fn fr5_degenerate_target_still_rolls_back_and_reverts() {
    let mut bc = new_test_chain();
    let cfg_hash = admit_chain_config_anchor(&mut bc, 99, [0xAB; 32]);
    let anchor = balance_block(100, cfg_hash, &[(1, 500, 10, 0xB1), (2, 300, 20, 0xB2)], 5);
    bc.tier1_admit(&anchor.view(), &anchor.view().hash(), 0)
        .expect("anchor admitted");
    let tx = transfer_block(101, anchor.view().hash(), 1, 2, 100, 1, 0);
    bc.tier1_admit(&tx.view(), &tx.view().hash(), 0)
        .expect("tx admitted");
    let reg = registration_block(102, tx.view().hash(), 1, 3, 0xC3);
    let ri = bc
        .tier1_admit(&reg.view(), &reg.view().hash(), 0)
        .expect("registration admitted");
    bc.run_processing_pass(ri).expect_err("watermark violation");
    assert!(bc.node_info.is_seeded(1), "the aborted pass derived state");
    let blocks_before = bc.blocks.len();
    let mut heads_before = [(NONE_REF, NONE_REF); 4];
    for (slot, head) in heads_before.iter_mut().zip(bc.chain_heads.occupied_heads()) {
        *slot = head;
    }

    bc.set_lifecycle_phase(LifecyclePhase::Processing);
    bc.recover_from_failed_pass(
        ProcessingError::Invalid {
            block_idx: NONE_REF,
            reason: ValidationReason::RegistrationWatermark,
        },
        ri,
    );

    assert!(!bc.node_info.is_seeded(1), "rollback still runs");
    assert_eq!(bc.node_info.max_known_node_id(), 0, "watermark still reset");
    assert_eq!(
        bc.current_phase(),
        LifecyclePhase::Collecting,
        "reversion still runs"
    );
    assert_eq!(bc.blocks.len(), blocks_before, "nothing is deleted");
    let mut heads_after = [(NONE_REF, NONE_REF); 4];
    for (slot, head) in heads_after.iter_mut().zip(bc.chain_heads.occupied_heads()) {
        *slot = head;
    }
    assert_eq!(heads_after, heads_before, "the tip table is untouched");
}

#[test]
fn fr5_working_set_is_clean_after_recovery() {
    let mut bc = new_test_chain();
    let cfg_hash = admit_chain_config_anchor(&mut bc, 99, [0xAB; 32]);
    let anchor = balance_block(100, cfg_hash, &[(1, 500, 10, 0xB1), (2, 300, 20, 0xB2)], 5);
    let ai = bc
        .tier1_admit(&anchor.view(), &anchor.view().hash(), 0)
        .expect("anchor admitted");
    let tx = transfer_block(101, anchor.view().hash(), 1, 2, 100, 1, 0);
    let ti = bc
        .tier1_admit(&tx.view(), &tx.view().hash(), 0)
        .expect("tx admitted");
    let reg = registration_block(102, tx.view().hash(), 1, 3, 0xC3);
    let ri = bc
        .tier1_admit(&reg.view(), &reg.view().hash(), 0)
        .expect("registration admitted");

    let err = bc.run_processing_pass(ri).expect_err("watermark violation");
    assert_eq!(
        err,
        ProcessingError::Invalid {
            block_idx: ri,
            reason: ValidationReason::RegistrationWatermark,
        }
    );
    assert!(bc.node_info.is_seeded(1));
    assert_eq!(bc.node_info.max_known_node_id(), 5);

    bc.set_lifecycle_phase(LifecyclePhase::Processing);
    bc.recover_from_failed_pass(err, ri);

    assert!(!bc.node_info.is_seeded(1), "roster reset");
    assert!(!bc.node_info.is_seeded(2));
    assert_eq!(bc.node_info.balance_of(1), 0, "balances reset");
    assert_eq!(bc.node_info.balance_of(2), 0);
    assert!(bc.node_info.public_key_of(1).is_none(), "key mapping reset");
    assert_eq!(bc.node_info.max_known_node_id(), 0, "watermark reset");
    for idx in [ai, ti] {
        for bit in 0..8 {
            assert_eq!(
                bc.blocks.spent_bit(idx, bit),
                Some(false),
                "no spent-bit survives a failed candidate"
            );
        }
    }
    assert_eq!(bc.current_phase(), LifecyclePhase::Collecting);
}

#[test]
fn fr5_clears_active_head_when_its_block_is_deleted() {
    let mut bc = new_test_chain();
    let genesis = node_transfer_block(0, 0, 0, 0);
    let gi = bc
        .tier1_admit(&genesis.view(), &genesis.view().hash(), 0)
        .expect("genesis admitted");
    let child = transfer_block(1, genesis.view().hash(), 1, 2, 100, 1, 0);
    let ci = bc
        .tier1_admit(&child.view(), &child.view().hash(), 0)
        .expect("child admitted");
    assert_eq!(bc.active_chain_head_idx, gi);
    bc.set_lifecycle_phase(LifecyclePhase::Processing);
    bc.recover_from_failed_pass(
        ProcessingError::Invalid {
            block_idx: gi,
            reason: ValidationReason::CreatorSignatureInvalid,
        },
        ci,
    );

    assert_eq!(bc.blocks.len(), 0, "the whole subtree is gone");
    assert_eq!(
        bc.active_chain_head_idx, NONE_REF,
        "the anchor placeholder is cleared with its target"
    );
    assert_eq!(bc.chain_heads.count(), 0, "no tracked tip remains");
    assert!(
        bc.tier1_admit(&genesis.view(), &genesis.view().hash(), 0)
            .is_ok(),
        "a node that discarded its genesis can re-acquire one"
    );
}

#[test]
fn fr5_restores_active_chain_marking_and_keeps_the_genesis_bootstrap() {
    let mut bc = new_test_chain();
    let genesis = node_transfer_block(0, 0, 0, 0);
    let gi = bc
        .tier1_admit(&genesis.view(), &genesis.view().hash(), 0)
        .expect("genesis admitted");
    let b1 = transfer_block(1, genesis.view().hash(), 1, 2, 100, 1, 0);
    let bi1 = bc
        .tier1_admit(&b1.view(), &b1.view().hash(), 0)
        .expect("b1 admitted");
    let b2 = transfer_block(2, b1.view().hash(), 1, 2, 100, 1, 0);
    let bi2 = bc
        .tier1_admit(&b2.view(), &b2.view().hash(), 0)
        .expect("b2 admitted");
    for idx in [gi, bi1, bi2] {
        bc.blocks.set_status(idx, BlockStatus::Active);
        bc.blocks.set_on_active_chain(idx, true);
    }
    bc.active_chain_head_idx = bi2;
    bc.set_lifecycle_phase(LifecyclePhase::Processing);
    bc.recover_from_failed_pass(
        ProcessingError::Invalid {
            block_idx: bi2,
            reason: ValidationReason::CreatorSignatureInvalid,
        },
        bi2,
    );

    assert!(bc.blocks.get(bi2).is_none(), "the offender is deleted");
    assert!(
        !bc.blocks
            .get(bi1)
            .expect("b1 survives")
            .is_on_active_chain(),
        "a surviving non-genesis block no longer claims to be on the active chain"
    );
    assert!(
        bc.blocks
            .get(gi)
            .expect("genesis survives")
            .is_on_active_chain());
    for idx in [gi, bi1] {
        assert_eq!(
            bc.blocks.get(idx).expect("survivor").status(),
            BlockStatus::Stored);
    }
    assert_eq!(
        bc.active_chain_head_idx, gi,
        "the anchor is restored to the genesis, not left at the deleted tip"
    );
    assert!(
        bc.chain_heads.occupied_heads().into_iter().any(|(head, _)| head == bi1),
        "the shortened branch is still tracked"
    );
}

#[test]
fn fr5_recovery_ignores_now() {
    #[derive(PartialEq, Debug)]
    struct Snapshot {
        occupied: [bool; 16],
        heads: [(u32, u32); 4],
        active: u32,
        ready: bool,
        outcomes: [ReceiveBlockOutcome; 2],
    }
    fn run(now: u64) -> Snapshot {
        let mut bc = new_test_chain();
        let genesis = node_transfer_block(0, 0, 0, 0);
        let cfg = chain_config_anchor_block(1, genesis.view().hash());
        let child = registration_block(2, cfg.view().hash(), 1, 5, 0xC5);
        let (first, _) = bc.receive_block(child.view(), now);
        bc.receive_block(cfg.view(), now.saturating_add(1_000));
        let (second, _) = bc.receive_block(genesis.view(), now.saturating_add(9_000));

        let mut occupied = [false; 16];
        for (slot, flag) in occupied.iter_mut().enumerate() {
            *flag = bc.blocks.get(slot as u32).is_some();
        }
        let mut heads = [(NONE_REF, NONE_REF); 4];
        for (entry, head) in heads.iter_mut().zip(bc.chain_heads.occupied_heads()) {
            *entry = head;
        }
        Snapshot {
            occupied,
            heads,
            active: bc.active_chain_head_idx,
            ready: bc.is_ready(),
            outcomes: [first, second],
        }
    }
    let baseline = run(0);
    assert_eq!(
        baseline,
        run(1_000_000),
        "the recovery outcome is identical across wall-clocks"
    );
    assert_eq!(
        baseline.outcomes,
        [
            ReceiveBlockOutcome::AcceptedSilently,
            ReceiveBlockOutcome::AcceptedSilently
        ],
        "both admissions succeeded, so the failing pass was actually reached"
    );
    assert!(
        baseline.ready,
        "the failed pass recovered and its in-call retry validated the shortened candidate"
    );
    assert_eq!(
        baseline.occupied.iter().filter(|slot| **slot).count(),
        2,
        "recovery deleted the offending subtree and left exactly the genesis \
         and the chain-config block"
    );
}

#[test]
fn fr3_creator_credit_skipped_for_unseeded_creator() {
    let mut bc = new_test_chain();
    let cfg_hash = admit_chain_config_anchor(&mut bc, 99, [0xAB; 32]);
    let blk = credit_block(100, cfg_hash, 8, 500, 7, 9, 0);
    let bi = bc
        .tier1_admit(&blk.view(), &blk.view().hash(), 0)
        .expect("block admitted");

    bc.run_processing_pass(bi).expect("pass succeeds");

    assert!(
        !bc.node_info.is_seeded(8),
        "unseeded creator is not seeded by its own credit"
    );
    assert_eq!(
        bc.node_info.balance_of(8),
        0);
}

#[test]
fn fr3_creator_credit_applied_to_seeded_creator() {
    let mut bc = new_test_chain();
    let cfg_hash = admit_chain_config_anchor(&mut bc, 99, [0xAB; 32]);
    let anchor = balance_block(100, cfg_hash, &[(3, 100, 0, 0xB3)], 9);
    bc.tier1_admit(&anchor.view(), &anchor.view().hash(), 0)
        .expect("anchor admitted");
    let blk = credit_block(101, anchor.view().hash(), 3, 500, 7, 9, 0);
    let bi = bc
        .tier1_admit(&blk.view(), &blk.view().hash(), 0)
        .expect("credit block admitted");

    bc.run_processing_pass(bi).expect("pass succeeds");

    assert_eq!(
        bc.node_info.balance_of(3),
        600,
        "seeded creator credited mined_amount (100 seed + 500 mined)"
    );
}

#[test]
fn fr6_rejects_out_of_sequence_registration() {
    let mut bc = new_test_chain();
    let cfg_hash = admit_chain_config_anchor(&mut bc, 99, [0xAB; 32]);
    let anchor = balance_block(100, cfg_hash, &[(1, 100, 0, 0xB1)], 5);
    bc.tier1_admit(&anchor.view(), &anchor.view().hash(), 0)
        .expect("anchor admitted");
    let reg = registration_block(101, anchor.view().hash(), 1, 3, 0xC3);
    let ri = bc
        .tier1_admit(&reg.view(), &reg.view().hash(), 0)
        .expect("registration admitted");

    let result = bc.run_processing_pass(ri);
    assert_eq!(
        result,
        Err(ProcessingError::Invalid {
            block_idx: ri,
            reason: ValidationReason::RegistrationWatermark,
        }));
}

#[test]
fn fr6_rejects_unknown_vote_target() {
    let mut bc = new_test_chain();
    let cfg_hash = admit_chain_config_anchor(&mut bc, 99, [0xAB; 32]);
    let anchor = balance_block(100, cfg_hash, &[(1, 500, 0, 0xB1)], 8);
    bc.tier1_admit(&anchor.view(), &anchor.view().hash(), 0)
        .expect("anchor admitted");
    let tx = transfer_block(101, anchor.view().hash(), 1, 2, 100, 1, 9);
    let ti = bc
        .tier1_admit(&tx.view(), &tx.view().hash(), 0)
        .expect("tx admitted");
    assert_eq!(
        bc.run_processing_pass(ti),
        Err(ProcessingError::Invalid {
            block_idx: ti,
            reason: ValidationReason::VoteTargetUnknown,
        }));
}

#[test]
fn fr6_rejects_out_of_range_referenced_node() {
    let mut bc = new_test_chain();
    let cfg_hash = admit_chain_config_anchor(&mut bc, 99, [0xAB; 32]);
    let anchor = balance_block(100, cfg_hash, &[(1, 500, 0, 0xB1)], 5);
    bc.tier1_admit(&anchor.view(), &anchor.view().hash(), 0)
        .expect("anchor admitted");
    let out = transfer_block(101, anchor.view().hash(), 1, 99, 100, 1, 0);
    let oi = bc
        .tier1_admit(&out.view(), &out.view().hash(), 0)
        .expect("out admitted");
    assert_eq!(
        bc.run_processing_pass(oi),
        Err(ProcessingError::Invalid {
            block_idx: oi,
            reason: ValidationReason::NodeIdOutOfRange,
        }),
        "a transfer TO a node beyond the watermark is rejected (output side)"
    );
    let inp = transfer_block(101, anchor.view().hash(), 88, 2, 100, 1, 0);
    let ii = bc
        .tier1_admit(&inp.view(), &inp.view().hash(), 0)
        .expect("inp admitted");
    assert_eq!(
        bc.run_processing_pass(ii),
        Err(ProcessingError::Invalid {
            block_idx: ii,
            reason: ValidationReason::NodeIdOutOfRange,
        }),
        "a transfer FROM a node beyond the watermark is rejected (input side)"
    );
}

#[test]
fn fr6_vote_target_in_range_but_not_individually_seeded_is_accepted() {
    let mut bc = new_test_chain();
    let cfg_hash = admit_chain_config_anchor(&mut bc, 99, [0xAB; 32]);
    let anchor = balance_block(100, cfg_hash, &[(1, 500, 0, 0xB1)], 10);
    bc.tier1_admit(&anchor.view(), &anchor.view().hash(), 0)
        .expect("anchor admitted");
    let tx = transfer_block(101, anchor.view().hash(), 1, 2, 100, 1, 5);
    let ti = bc
        .tier1_admit(&tx.view(), &tx.view().hash(), 0)
        .expect("tx admitted");
    assert_eq!(
        bc.run_processing_pass(ti),
        Ok(()),
        "a vote for an in-range node is accepted even if not individually seeded"
    );
    let tx2 = transfer_block(101, anchor.view().hash(), 1, 2, 100, 1, 11);
    let ti2 = bc
        .tier1_admit(&tx2.view(), &tx2.view().hash(), 0)
        .expect("tx2 admitted");
    assert_eq!(
        bc.run_processing_pass(ti2),
        Err(ProcessingError::Invalid {
            block_idx: ti2,
            reason: ValidationReason::VoteTargetUnknown,
        }),
        "a vote for a node beyond the watermark is still rejected"
    );
}

#[test]
fn fr6_window_anchored_registration_before_first_balance_is_trusted() {
    let mut bc = new_test_chain();
    let cfg_hash = admit_chain_config_anchor(&mut bc, 99, [0xAB; 32]);
    let reg = registration_block(100, cfg_hash, 1, 7, 0xC7);
    bc.tier1_admit(&reg.view(), &reg.view().hash(), 0)
        .expect("registration admitted");
    let bal = balance_block(101, reg.view().hash(), &[(1, 100, 0, 0xB1)], 10);
    let bi = bc
        .tier1_admit(&bal.view(), &bal.view().hash(), 0)
        .expect("balance admitted");
    assert_eq!(
        bc.run_processing_pass(bi),
        Ok(()),
        "a window-anchored pre-first-balance registration is trusted, not \
         rejected against a 0 watermark"
    );
    assert!(
        bc.node_info.is_seeded(7),
        "node 7 registered during the pass"
    );
}

#[test]
fn fr6_rejects_later_balance_block_max_node_id_mismatch() {
    let mut bc = new_test_chain();
    let cfg_hash = admit_chain_config_anchor(&mut bc, 99, [0xAB; 32]);
    let b0 = balance_block(100, cfg_hash, &[(1, 500, 0, 0xB1)], 1);
    bc.tier1_admit(&b0.view(), &b0.view().hash(), 0)
        .expect("earliest balance block admitted");
    let b1 = balance_block(101, b0.view().hash(), &[(1, 400, 0, 0xB1)], 5);
    let i1 = bc
        .tier1_admit(&b1.view(), &b1.view().hash(), 0)
        .expect("later balance block admitted");
    assert_eq!(
        bc.run_processing_pass(i1),
        Err(ProcessingError::Invalid {
            block_idx: i1,
            reason: ValidationReason::BalanceMaxNodeIdMismatch,
        }));
}

#[test]
fn fr6_rejects_duplicate_public_key() {
    let mut bc = new_test_chain();
    let cfg_hash = admit_chain_config_anchor(&mut bc, 99, [0xAB; 32]);
    let anchor = balance_block(100, cfg_hash, &[(1, 500, 0, 0xB1)], 1);
    bc.tier1_admit(&anchor.view(), &anchor.view().hash(), 0)
        .expect("anchor admitted");
    let reg = registration_block(101, anchor.view().hash(), 1, 2, 1);
    let ri = bc
        .tier1_admit(&reg.view(), &reg.view().hash(), 0)
        .expect("registration admitted");
    assert_eq!(
        bc.run_processing_pass(ri),
        Err(ProcessingError::Invalid {
            block_idx: ri,
            reason: ValidationReason::DuplicatePublicKey,
        }));
}

#[test]
fn fr6_rejects_unseeded_actor_on_genesis_anchored_candidate() {
    let mut bc = new_test_chain();
    let genesis = node_transfer_block(0, 0, 0, 0);
    bc.tier1_admit(&genesis.view(), &genesis.view().hash(), 0)
        .expect("genesis admitted");
    let cfg = chain_config_anchor_block(1, genesis.view().hash());
    bc.tier1_admit(&cfg.view(), &cfg.view().hash(), 0)
        .expect("chain-config block admitted");
    let child = transfer_block(2, cfg.view().hash(), 1, 2, 100, 1, 0);
    let ci = bc
        .tier1_admit(&child.view(), &child.view().hash(), 0)
        .expect("child admitted");
    assert_eq!(
        bc.run_processing_pass(ci),
        Err(ProcessingError::Invalid {
            block_idx: ci,
            reason: ValidationReason::UnseededActor,
        }),
        "genesis-anchored: an unseeded initializer is invalid (no pre-seed trust)"
    );
}

#[test]
fn fr8_first_config_block_loads_tentatively() {
    let mut bc = new_unconfigured_test_chain();
    assert!(
        bc.chain_config.active_configuration().is_none(),
        "a joining node starts with no configuration"
    );
    let cfg = chain_config_anchor_block(100, [0xAB; 32]);

    let (outcome, _) = bc.receive_block(cfg.view(), 0);

    assert_eq!(outcome, ReceiveBlockOutcome::AcceptedSilently);
    let idx = bc
        .blocks
        .find(100, &cfg.view().hash())
        .expect("the config block is retained");
    assert_eq!(
        bc.chain_config.tentative_content(),
        Some(content_of(&cfg)),
        "the content region is held tentatively, signature trailer excluded"
    );
    assert!(
        !bc.chain_config.is_durable_locked(),
        "a join-path load is tentative, never a lock"
    );
    assert_eq!(
        bc.tentative_config_block_idx, idx,
        "the provenance names the retained block"
    );
}

#[test]
fn fr8_bound_violating_content_is_rejected_and_stores_nothing() {
    let mut bc = new_unconfigured_test_chain();
    let cfg = chain_config_block_from(100, [0xAB; 32], &mut bound_violating_config_builder());

    let (outcome, _) = bc.receive_block(cfg.view(), 0);

    assert_eq!(
        outcome,
        ReceiveBlockOutcome::Rejected(RejectReason::InvalidEvidence),
        "a refused content is exact evidence, not a silent discard"
    );
    assert_eq!(
        bc.blocks.len(),
        0,
        "the block never entered durable storage"
    );
    assert!(
        bc.chain_config.active_configuration().is_none(),
        "no configuration remains loaded after a refusal"
    );
    assert_eq!(bc.tentative_config_block_idx, NONE_REF);
}

#[test]
fn fr8_second_config_block_while_tentative_neither_overrides_nor_is_discarded() {
    let mut bc = new_unconfigured_test_chain();
    let first = chain_config_anchor_block(100, [0xAB; 32]);
    bc.receive_block(first.view(), 0);
    let first_idx = bc
        .blocks
        .find(100, &first.view().hash())
        .expect("first config block retained");

    let second = chain_config_block_from(101, first.view().hash(), &mut alt_config_builder());
    let (outcome, _) = bc.receive_block(second.view(), 0);

    assert_eq!(
        outcome,
        ReceiveBlockOutcome::AcceptedSilently);
    assert!(
        bc.blocks.find(101, &second.view().hash()).is_some(),
        "the disagreeing block is retained, not discarded"
    );
    assert_eq!(
        bc.chain_config.tentative_content(),
        Some(content_of(&first)),
        "the tentative configuration is not overridden"
    );
    assert_eq!(
        bc.tentative_config_block_idx, first_idx,
        "provenance still names the first block"
    );
}

#[test]
fn fr17_discards_mismatching_config_block_only_once_durably_locked() {
    let mut bc = new_test_chain();
    let cfg = chain_config_block_from(100, [0xAB; 32], &mut alt_config_builder());

    let (outcome, _) = bc.receive_block(cfg.view(), 0);

    assert_eq!(
        outcome,
        ReceiveBlockOutcome::Rejected(RejectReason::InvalidEvidence));
    assert_eq!(bc.blocks.len(), 0);
}

#[test]
fn fr8_candidate_without_config_block_is_refused() {
    let mut bc = new_test_chain();
    let genesis = node_transfer_block(0, 3, 0, 7);
    let gi = bc
        .tier1_admit(&genesis.view(), &genesis.view().hash(), 0)
        .expect("genesis admitted");

    assert_eq!(
        bc.run_processing_pass(gi),
        Err(ProcessingError::Invalid {
            block_idx: gi,
            reason: ValidationReason::MissingChainConfigBlock,
        }),
        "a candidate naming no configuration is not a chain to go Ready on"
    );
}

#[test]
fn fr8_missing_config_block_is_not_retried() {
    let mut bc = new_w4_chain();
    let tail = node_transfer_block(100, 3, 99, 7);
    bc.receive_block(tail.view(), 0);
    let b101 = linked_transfer_block(101, tail.view().hash());
    let b102 = linked_transfer_block(102, b101.view().hash());
    let b103 = linked_transfer_block(103, b102.view().hash());
    for blk in [&b101, &b102, &b103] {
        bc.receive_block(blk.view(), 0);
    }

    assert!(
        !bc.is_ready(),
        "no configuration named → no Ready transition"
    );
    assert!(
        bc.current_phase() == LifecyclePhase::Collecting);
    assert_eq!(
        bc.block_tree_len(),
        3,
        "one deletion, not two: the refusal is not retryable"
    );
    assert!(
        bc.blocks.find(100, &tail.view().hash()).is_some(),
        "the deletion took the head, not the anchor"
    );
    assert!(
        bc.blocks.find(103, &b103.view().hash()).is_none(),
        "the candidate head is the block that went"
    );
}

#[test]
fn fr8_ready_locks_durably_and_deletes_disagreeing_config_subtrees() {
    let mut bc = new_unconfigured_test_chain();
    let genesis = node_transfer_block(0, 0, 0, 0);
    let cfg_a = chain_config_anchor_block(1, genesis.view().hash());
    let main_2 = chain_config_anchor_block(2, cfg_a.view().hash());
    let main_3 = chain_config_anchor_block(3, main_2.view().hash());
    let cfg_b = chain_config_block_from(1, genesis.view().hash(), &mut alt_config_builder());
    let side_2 = linked_transfer_block(2, cfg_b.view().hash());
    for block in [&cfg_a, &main_2, &main_3, &cfg_b, &side_2] {
        let (outcome, _) = bc.receive_block(block.view(), 0);
        assert_eq!(
            outcome,
            ReceiveBlockOutcome::AcceptedSilently,
            "every block is admitted before the genesis connects them"
        );
    }
    assert_eq!(
        bc.chain_config.tentative_content(),
        Some(content_of(&cfg_a)),
        "config A is the tentative; config B is retained but does not override"
    );

    let (outcome, _) = bc.receive_block(genesis.view(), 0);
    assert_eq!(outcome, ReceiveBlockOutcome::AcceptedSilently);
    assert!(bc.is_ready(), "the main candidate validates → Ready");
    assert!(bc.chain_config.is_durable_locked());
    assert_eq!(
        bc.chain_config.durable_content(),
        Some(content_of(&cfg_a)),
        "the locked content is the candidate's own"
    );
    assert!(
        bc.blocks.find(1, &cfg_b.view().hash()).is_none(),
        "the disagreeing config block is deleted"
    );
    assert!(
        bc.blocks.find(2, &side_2.view().hash()).is_none(),
        "and so is its descendant, which is unverifiable without it"
    );
    for (seq, block) in [(0u32, &genesis), (1, &cfg_a), (2, &main_2), (3, &main_3)] {
        let idx = bc
            .blocks
            .find(seq, &block.view().hash())
            .unwrap_or_else(|| panic!("main-branch block at sequence {seq} survives"));
        assert!(
            bc.blocks
                .get(idx)
                .is_some_and(|entry| entry.is_on_active_chain()),
            "main-branch block at sequence {seq} is on the active chain"
        );
    }
    assert_eq!(bc.blocks.len(), 4, "exactly the active chain remains");
}

#[test]
fn fr8_mismatch_adopts_candidate_content_and_reruns_in_one_call() {
    let mut bc = new_unconfigured_test_chain();
    let stray = chain_config_block_from(500, [0xEE; 32], &mut alt_config_builder());
    bc.receive_block(stray.view(), 0);
    assert_eq!(
        bc.chain_config.tentative_content(),
        Some(content_of(&stray)),
        "the stray block supplied the tentative configuration"
    );

    let genesis = node_transfer_block(0, 0, 0, 0);
    let cfg = chain_config_anchor_block(1, genesis.view().hash());
    bc.receive_block(cfg.view(), 0);
    let (outcome, _) = bc.receive_block(genesis.view(), 0);

    assert_eq!(outcome, ReceiveBlockOutcome::AcceptedSilently);
    assert!(
        bc.is_ready(),
        "the adopt-retry validated the same candidate inside the same call"
    );
    assert_eq!(
        bc.chain_config.durable_content(),
        Some(content_of(&cfg)),
        "the chain's own configuration was adopted and locked, not the stray's"
    );
    assert!(
        bc.blocks.find(500, &stray.view().hash()).is_none(),
        "the superseded tentative's block is removed"
    );
    assert_eq!(bc.blocks.len(), 2, "genesis + the chain's config block");
}

#[test]
fn fr8_two_differing_config_contents_take_the_hard_rollback() {
    let mut bc = new_unconfigured_test_chain();
    let genesis = node_transfer_block(0, 0, 0, 0);
    let cfg_a = chain_config_anchor_block(1, genesis.view().hash());
    let cfg_b = chain_config_block_from(2, cfg_a.view().hash(), &mut alt_config_builder());
    bc.receive_block(cfg_b.view(), 0);
    assert_eq!(
        bc.chain_config.tentative_content(),
        Some(content_of(&cfg_b)),
        "the upper config block supplied the tentative"
    );
    bc.receive_block(cfg_a.view(), 0);
    let (outcome, _) = bc.receive_block(genesis.view(), 0);

    assert_eq!(outcome, ReceiveBlockOutcome::AcceptedSilently);
    assert!(
        bc.blocks.find(2, &cfg_b.view().hash()).is_none(),
        "the second, disagreeing config block is deleted as exact evidence"
    );
    assert!(bc.is_ready(), "the shortened candidate validates");
    assert_eq!(
        bc.chain_config.durable_content(),
        Some(content_of(&cfg_a)),
        "the chain locked on its first in-scope configuration"
    );
    assert_eq!(bc.blocks.len(), 2, "genesis + config A");
}

#[test]
fn fr8_recovery_unloads_a_deleted_tentative_configuration() {
    let mut bc = new_unconfigured_test_chain();
    let cfg = chain_config_anchor_block(100, [0xAB; 32]);
    bc.receive_block(cfg.view(), 0);
    let cfg_idx = bc
        .blocks
        .find(100, &cfg.view().hash())
        .expect("config block retained");
    assert!(bc.chain_config.active_configuration().is_some());

    bc.set_lifecycle_phase(LifecyclePhase::Processing);
    bc.recover_from_failed_pass(
        ProcessingError::Invalid {
            block_idx: cfg_idx,
            reason: ValidationReason::PreviousHashMismatch,
        },
        cfg_idx,
    );

    assert!(bc.blocks.get(cfg_idx).is_none(), "the block was deleted");
    assert!(
        bc.chain_config.active_configuration().is_none(),
        "the tentative configuration is discarded with its block"
    );
    assert_eq!(bc.tentative_config_block_idx, NONE_REF);
}

#[test]
fn fr8_recovery_keeps_a_surviving_tentative_configuration() {
    let mut bc = new_unconfigured_test_chain();
    let cfg = chain_config_anchor_block(100, [0xAB; 32]);
    bc.receive_block(cfg.view(), 0);
    let cfg_idx = bc
        .blocks
        .find(100, &cfg.view().hash())
        .expect("config block retained");
    let other = node_transfer_block(200, 3, 199, 7);
    bc.receive_block(other.view(), 0);
    let other_idx = bc
        .blocks
        .find(200, &other.view().hash())
        .expect("other block retained");

    bc.set_lifecycle_phase(LifecyclePhase::Processing);
    bc.recover_from_failed_pass(
        ProcessingError::Invalid {
            block_idx: other_idx,
            reason: ValidationReason::PreviousHashMismatch,
        },
        other_idx,
    );

    assert!(
        bc.blocks.get(cfg_idx).is_some(),
        "the config block survives"
    );
    assert_eq!(
        bc.chain_config.tentative_content(),
        Some(content_of(&cfg)),
        "an untouched tentative configuration stays loaded"
    );
    assert_eq!(bc.tentative_config_block_idx, cfg_idx);
}

#[test]
fn fr8_recovery_never_unloads_a_durable_configuration() {
    let mut bc = new_test_chain();
    let cfg = chain_config_anchor_block(100, [0xAB; 32]);
    bc.receive_block(cfg.view(), 0);
    let cfg_idx = bc
        .blocks
        .find(100, &cfg.view().hash())
        .expect("a matching config block is admitted post-lock");

    bc.set_lifecycle_phase(LifecyclePhase::Processing);
    bc.recover_from_failed_pass(
        ProcessingError::Invalid {
            block_idx: cfg_idx,
            reason: ValidationReason::PreviousHashMismatch,
        },
        cfg_idx,
    );

    assert!(bc.blocks.get(cfg_idx).is_none(), "the block was deleted");
    assert!(
        bc.chain_config.is_durable_locked());
}

#[test]
fn fr8_commitment_ignores_now() {
    fn run(now: u64) -> ([bool; 16], bool, bool, usize) {
        let mut bc = new_unconfigured_test_chain();
        let genesis = node_transfer_block(0, 0, 0, 0);
        let cfg_a = chain_config_anchor_block(1, genesis.view().hash());
        let cfg_b =
            chain_config_block_from(1, genesis.view().hash(), &mut alt_config_builder());
        let side = linked_transfer_block(2, cfg_b.view().hash());
        let main_2 = chain_config_anchor_block(2, cfg_a.view().hash());
        let main_3 = chain_config_anchor_block(3, main_2.view().hash());
        for (step, block) in [&cfg_a, &main_2, &main_3, &cfg_b, &side, &genesis]
            .into_iter()
            .enumerate()
        {
            bc.receive_block(block.view(), now.saturating_add(step as u64 * 1_000));
        }
        let mut occupied = [false; 16];
        for (slot, flag) in occupied.iter_mut().enumerate() {
            *flag = bc.blocks.get(slot as u32).is_some();
        }
        (
            occupied,
            bc.is_ready(),
            bc.chain_config.is_durable_locked(),
            bc.blocks.len(),
        )
    }
    let baseline = run(0);
    assert_eq!(
        baseline,
        run(5_000_000));
    assert!(
        baseline.1 && baseline.2,
        "the replay reached the durable lock"
    );
    assert_eq!(baseline.3, 4, "the side branch was cleaned up");
}

#[test]
fn fr8_lock_is_arrival_order_independent() {
    fn run(config_a_first: bool) -> (bool, usize, [u8; 2]) {
        let mut bc = new_unconfigured_test_chain();
        let genesis = node_transfer_block(0, 0, 0, 0);
        let cfg_a = chain_config_anchor_block(1, genesis.view().hash());
        let cfg_b =
            chain_config_block_from(1, genesis.view().hash(), &mut alt_config_builder());
        let side = linked_transfer_block(2, cfg_b.view().hash());
        let main_2 = chain_config_anchor_block(2, cfg_a.view().hash());
        let main_3 = chain_config_anchor_block(3, main_2.view().hash());
        let order: [&Block; 6] = if config_a_first {
            [&cfg_a, &cfg_b, &side, &main_2, &main_3, &genesis]
        } else {
            [&cfg_b, &side, &cfg_a, &main_2, &main_3, &genesis]
        };
        for block in order {
            bc.receive_block(block.view(), 0);
        }
        let locked = bc
            .chain_config
            .durable_content()
            .map(|content| [content[0], content[1]])
            .unwrap_or([0xFF, 0xFF]);
        (bc.is_ready(), bc.blocks.len(), locked)
    }

    let a_first = run(true);
    assert_eq!(
        a_first,
        run(false),
        "both arrival orders converge on the same lock and the same tree"
    );
    assert_eq!(
        a_first,
        (true, 4, [0, 0]),
        "and they converge on config A — the candidate's own — with the side branch gone"
    );
}

#[test]
fn fr3_preload_prevents_a_stale_tentative_from_condemning_a_valid_block() {
    let mut bc = new_unconfigured_w4_chain();
    let big = balance_block(
        100,
        [0xAB; 32],
        &[(1, 500, 0, 0xB1), (2, 300, 0, 0xB2), (3, 100, 0, 0xB3)],
        9,
    );
    assert!(
        big.len() > SMALL_BLOCK_SIZE_LIMIT as usize,
        "the fixture is only meaningful if the block exceeds the stray's limit"
    );
    let b101 = linked_transfer_block(101, big.view().hash());
    let b102 = linked_transfer_block(102, b101.view().hash());
    for block in [&big, &b101, &b102] {
        let (outcome, _) = bc.receive_block(block.view(), 0);
        assert_eq!(
            outcome,
            ReceiveBlockOutcome::AcceptedSilently,
            "admitted while unconfigured, against the framing ceiling"
        );
    }
    let stray = chain_config_block_from(500, [0xEE; 32], &mut small_limit_config_builder());
    bc.receive_block(stray.view(), 0);
    assert!(
        bc.chain_config.tentative_content().is_some(),
        "the stray supplied the tentative configuration"
    );
    let cfg = chain_config_anchor_block(103, b102.view().hash());
    let (outcome, _) = bc.receive_block(cfg.view(), 0);

    assert_eq!(outcome, ReceiveBlockOutcome::AcceptedSilently);
    assert!(
        bc.blocks.find(100, &big.view().hash()).is_some(),
        "the balance block was never measured against a limit its chain did not set"
    );
    assert!(bc.is_ready(), "the adopt-retry validated the candidate");
    assert_eq!(
        bc.chain_config.durable_content(),
        Some(content_of(&cfg)),
        "the chain locked on its own configuration, not the stray's"
    );
    assert!(
        bc.blocks.find(500, &stray.view().hash()).is_none(),
        "the superseded tentative's block is gone"
    );
}

#[test]
fn fr5_retry_stops_when_recovery_unloads_the_configuration() {
    let mut bc = new_unconfigured_test_chain();
    let genesis = node_transfer_block(0, 0, 0, 0);
    let bad = registration_block(1, genesis.view().hash(), 1, 5, 0xC5);
    let cfg = chain_config_anchor_block(2, bad.view().hash());
    for block in [&cfg, &bad] {
        bc.receive_block(block.view(), 0);
    }
    assert!(
        bc.chain_config.active_configuration().is_some(),
        "the config block supplied a tentative configuration"
    );

    let (outcome, _) = bc.receive_block(genesis.view(), 0);

    assert_eq!(outcome, ReceiveBlockOutcome::AcceptedSilently);
    assert!(
        bc.chain_config.active_configuration().is_none(),
        "the recovery unloaded the tentative with the block that carried it"
    );
    assert!(
        bc.blocks.find(0, &genesis.view().hash()).is_some(),
        "the genesis must not be deleted by a retry the node can no longer run"
    );
    assert_eq!(bc.blocks.len(), 1, "exactly the genesis remains");
    assert!(bc.current_phase() == LifecyclePhase::Collecting);
}

#[test]
fn fr9_tentative_block_size_limit_does_not_reject_at_intake() {
    let mut bc = new_unconfigured_test_chain();
    let stray = chain_config_block_from(500, [0xEE; 32], &mut small_limit_config_builder());
    bc.receive_block(stray.view(), 0);
    assert!(
        bc.chain_config.tentative_content().is_some(),
        "the stray declares the tight limit, tentatively"
    );

    let big = balance_block(
        100,
        [0xAB; 32],
        &[(1, 500, 0, 0xB1), (2, 300, 0, 0xB2), (3, 100, 0, 0xB3)],
        9,
    );
    assert!(big.len() > SMALL_BLOCK_SIZE_LIMIT as usize);

    let (outcome, _) = bc.receive_block(big.view(), 0);

    assert_eq!(
        outcome,
        ReceiveBlockOutcome::AcceptedSilently);
    assert!(
        bc.blocks.find(100, &big.view().hash()).is_some(),
        "and it must be retained in durable storage"
    );
}

#[test]
fn fr9_size_limit_is_reevaluated_at_the_durable_lock() {
    let mut bc = new_unconfigured_w4_chain();
    let big = balance_block(
        100,
        [0xAB; 32],
        &[(1, 500, 0, 0xB1), (2, 300, 0, 0xB2), (3, 100, 0, 0xB3)],
        9,
    );
    assert!(big.len() > SMALL_BLOCK_SIZE_LIMIT as usize);
    let b101 = linked_transfer_block(101, big.view().hash());
    let b102 = linked_transfer_block(102, b101.view().hash());
    let cfg =
        chain_config_block_from(103, b102.view().hash(), &mut small_limit_config_builder());
    for block in [&big, &b101, &b102, &cfg] {
        let (outcome, _) = bc.receive_block(block.view(), 0);
        assert_eq!(
            outcome,
            ReceiveBlockOutcome::AcceptedSilently);
    }

    assert!(
        !bc.is_ready(),
        "the re-evaluation at the lock refuses the candidate"
    );
    assert!(
        !bc.chain_config.is_durable_locked(),
        "and nothing was locked: the verdict precedes the commitment"
    );
    assert!(
        bc.blocks.find(100, &big.view().hash()).is_none());
    assert!(
        bc.current_phase() == LifecyclePhase::Collecting);
}

#[test]
fn fr8_bound_violating_content_is_refused_even_when_not_loading() {
    let mut bc = new_unconfigured_test_chain();
    let first = chain_config_anchor_block(100, [0xAB; 32]);
    bc.receive_block(first.view(), 0);
    assert!(
        bc.chain_config.tentative_content().is_some(),
        "a configuration is already held, so the next one cannot load"
    );

    let illegal = chain_config_block_from(
        101,
        first.view().hash(),
        &mut bound_violating_config_builder(),
    );
    let (outcome, _) = bc.receive_block(illegal.view(), 0);

    assert_eq!(
        outcome,
        ReceiveBlockOutcome::Rejected(RejectReason::InvalidEvidence),
        "a bound violation is exact evidence whether or not the block loads"
    );
    assert!(
        bc.blocks.find(101, &illegal.view().hash()).is_none(),
        "and it does not enter durable storage"
    );
    assert_eq!(
        bc.chain_config.tentative_content(),
        Some(content_of(&first)),
        "the held configuration is untouched by the refusal"
    );
}

#[test]
fn fr59_restart_rebuilds_and_reaches_ready() {
    let (bc, genesis, cfg) = node_ready_from_the_mesh();
    let active_before = bc.current_active_head();

    let mut restarted = restart(bc);
    assert!(
        restarted.chain_config.active_configuration().is_none(),
        "precondition: the restarted node starts with nothing"
    );

    let (outcome, _) = restarted.initialize_from_storage(500);

    assert_eq!(outcome, InitOutcome::ResumedReady);
    assert!(
        restarted.is_ready());
    assert!(
        restarted.chain_config.is_durable_locked());
    assert_eq!(
        restarted.current_active_head(),
        active_before,
        "the same active chain is re-derived"
    );
    assert!(
        restarted.blocks.find(0, &genesis.view().hash()).is_some()
            && restarted.blocks.find(1, &cfg.view().hash()).is_some(),
        "both durable blocks are back in the tree, indexed by (sequence, hash)"
    );
}

#[test]
fn fr59_restart_stays_collecting_without_a_qualifying_candidate() {
    let mut bc = new_unconfigured_test_chain();
    let cfg = chain_config_anchor_block(100, [0xAB; 32]);
    let (outcome, _) = bc.receive_block(cfg.view(), 0);
    assert_eq!(outcome, ReceiveBlockOutcome::AcceptedSilently);

    let mut restarted = restart(bc);
    let (outcome, _) = restarted.initialize_from_storage(500);

    assert_eq!(outcome, InitOutcome::ResumedCollecting);
    assert_eq!(restarted.current_phase(), LifecyclePhase::Collecting);
    assert_eq!(restarted.blocks.len(), 1, "the retained block survived");
}

#[test]
fn fr59_restart_is_equivalent_to_a_fresh_node_fed_the_same_blocks() {
    let (bc, genesis, cfg) = node_ready_from_the_mesh();
    let mut restarted = restart(bc);
    let (outcome, _) = restarted.initialize_from_storage(500);
    assert_eq!(outcome, InitOutcome::ResumedReady);
    let mut fresh = new_unconfigured_test_chain();
    for block in [&cfg, &genesis] {
        let (outcome, _) = fresh.receive_block(block.view(), 0);
        assert_eq!(outcome, ReceiveBlockOutcome::AcceptedSilently);
    }

    assert_eq!(restarted.is_ready(), fresh.is_ready());
    assert_eq!(restarted.current_active_head(), fresh.current_active_head());
    assert_eq!(restarted.blocks.len(), fresh.blocks.len());
    assert_eq!(
        restarted.chain_config.durable_content(),
        fresh.chain_config.durable_content(),
        "both committed the same configuration"
    );
    for (sequence, hash) in [(0u32, genesis.view().hash()), (1u32, cfg.view().hash())] {
        assert_eq!(
            restarted.blocks.find(sequence, &hash).is_some(),
            fresh.blocks.find(sequence, &hash).is_some(),
            "the two trees hold the same blocks"
        );
    }
}

#[test]
fn fr59_restart_scan_does_not_stop_at_the_first_empty_slot() {
    let (_, mut storage, _) = test_backends();
    let genesis = node_transfer_block(0, 0, 0, 0);
    let cfg = chain_config_anchor_block(1, genesis.view().hash());
    storage.save_block(1, &genesis).ok().expect("save");
    storage.save_block(3, &cfg).ok().expect("save");

    let crypto = Crypto::new([1u8; PRIVATE_KEY_SIZE])
        .ok()
        .expect("test private key");
    let mut bc = new_chain(
        crypto,
        storage,
        empty_chain_config(),
        5,
        0,
    );
    let (_, _) = bc.initialize_from_storage(500);

    assert_eq!(bc.blocks.len(), 2, "both scattered blocks were found");
    assert!(bc.blocks.get(1).is_some() && bc.blocks.get(3).is_some());
    assert!(
        bc.blocks.get(0).is_none() && bc.blocks.get(2).is_none(),
        "blocks land at their own durable index, never compacted"
    );
}

#[test]
fn fr59_restart_links_parents_stored_after_their_children() {
    let (_, mut storage, _) = test_backends();
    let genesis = node_transfer_block(0, 0, 0, 0);
    let child = chain_config_anchor_block(1, genesis.view().hash());
    storage.save_block(0, &child).ok().expect("save");
    storage.save_block(1, &genesis).ok().expect("save");

    let crypto = Crypto::new([1u8; PRIVATE_KEY_SIZE])
        .ok()
        .expect("test private key");
    let mut bc = new_chain(
        crypto,
        storage,
        empty_chain_config(),
        5,
        0,
    );
    let (_, _) = bc.initialize_from_storage(500);

    let child_idx = bc
        .blocks
        .find(1, &child.view().hash())
        .expect("the child is in the tree");
    let parent_idx = bc
        .blocks
        .find(0, &genesis.view().hash())
        .expect("the parent is in the tree");
    assert_eq!(
        bc.blocks.get(child_idx).map(|entry| entry.parent_ref()),
        Some(parent_idx),
        "the child resolved to its parent despite the inverted slot order"
    );
}

#[test]
fn fr59_restart_preserves_side_branches() {
    let mut bc = new_unconfigured_test_chain();
    let root = linked_transfer_block(100, [0xAB; 32]);
    let tip_a = linked_transfer_block(101, root.view().hash());
    let tip_b = chain_config_anchor_block(101, root.view().hash());
    for block in [&root, &tip_a, &tip_b] {
        let (outcome, _) = bc.receive_block(block.view(), 0);
        assert_eq!(outcome, ReceiveBlockOutcome::AcceptedSilently);
    }
    assert_eq!(
        bc.chain_heads.count(),
        2,
        "precondition: the tree really forked, and both tips are tracked"
    );
    assert!(!bc.is_ready(), "precondition: no candidate qualified");

    let mut restarted = restart(bc);
    let (outcome, _) = restarted.initialize_from_storage(500);

    assert_eq!(outcome, InitOutcome::ResumedCollecting);
    assert_eq!(restarted.blocks.len(), 3);
    assert_eq!(
        restarted.chain_heads.count(),
        2);

    let root_idx = restarted
        .blocks
        .find(100, &root.view().hash())
        .expect("the fork point is retained");
    for tip in [&tip_a, &tip_b] {
        let tip_idx = restarted
            .blocks
            .find(101, &tip.view().hash())
            .expect("both tips are retained");
        assert_eq!(
            restarted
                .blocks
                .get(tip_idx)
                .map(|entry| entry.parent_ref()),
            Some(root_idx),
            "and both still hang off the same fork point"
        );
    }
}

#[test]
fn fr59_restart_resurrects_a_deleted_block_and_still_converges() {
    let (mut bc, genesis, _cfg) = node_ready_from_the_mesh();
    let orphaned = linked_transfer_block(5, [0x77; 32]);
    bc.storage.save_block(6, &orphaned).ok().expect("save");
    assert!(
        bc.blocks.find(5, &orphaned.view().hash()).is_none(),
        "precondition: the block is durable but not in the pre-restart tree"
    );
    let head_before = bc.current_active_head();

    let mut restarted = restart(bc);
    let (outcome, _) = restarted.initialize_from_storage(500);

    assert!(
        restarted.blocks.find(5, &orphaned.view().hash()).is_some());
    assert_eq!(
        outcome,
        InitOutcome::ResumedReady,
        "and the node still converges on its chain"
    );
    assert_eq!(
        restarted.current_active_head(),
        head_before,
        "the resurrected block did not disturb the active chain"
    );
    assert!(
        restarted.blocks.find(0, &genesis.view().hash()).is_some(),
        "the genesis is still there"
    );
}

#[test]
fn fr59_restart_rejects_a_populated_store_with_an_unreadable_control_plane() {
    let mut storage = Store::new();
    let genesis = node_transfer_block(0, 0, 0, 0);
    storage.save_block(0, &genesis).ok().expect("save");

    let crypto = Crypto::new([1u8; PRIVATE_KEY_SIZE])
        .ok()
        .expect("test private key");
    let mut bc = new_chain(
        crypto,
        storage,
        empty_chain_config(),
        5,
        0,
    );

    let (outcome, next) = bc.initialize_from_storage(500);

    assert_eq!(
        outcome,
        InitOutcome::Rejected(RestartRejectReason::ControlPlaneUnreadable)
    );
    assert!(matches!(next, NextCall::Idle));
    assert_eq!(bc.blocks.len(), 0, "nothing was rebuilt");
}

#[test]
fn fr59_an_empty_store_is_a_fresh_join_even_without_a_control_plane() {
    let storage = Store::new();
    let crypto = Crypto::new([1u8; PRIVATE_KEY_SIZE])
        .ok()
        .expect("test private key");
    let mut bc = new_chain(
        crypto,
        storage,
        empty_chain_config(),
        5,
        0,
    );

    let (outcome, next) = bc.initialize_from_storage(500);

    assert_eq!(outcome, InitOutcome::StartedCollecting);
    assert!(matches!(next, NextCall::Idle));
    assert_eq!(bc.current_phase(), LifecyclePhase::Collecting);
}

#[test]
fn fr59_restart_reestablishes_a_tentative_when_nothing_was_locked() {
    let mut bc = new_unconfigured_test_chain();
    let cfg = chain_config_anchor_block(100, [0xAB; 32]);
    let (outcome, _) = bc.receive_block(cfg.view(), 0);
    assert_eq!(outcome, ReceiveBlockOutcome::AcceptedSilently);
    assert!(
        !bc.chain_config.is_durable_locked(),
        "precondition: the configuration is only tentative"
    );
    let mut restarted = restart(bc);
    let (_, _) = restarted.initialize_from_storage(500);

    assert!(
        !restarted.chain_config.is_durable_locked(),
        "a tentative is re-established as a tentative, never promoted by a restart"
    );
    assert_eq!(
        restarted.chain_config.tentative_content(),
        Some(content_of(&cfg)),
        "the same configuration content is held again, from the retained block"
    );
}

#[test]
fn fr59_restart_is_deterministic() {
    let (bc, _, _) = node_ready_from_the_mesh();

    let mut first = restart(bc);
    let (first_outcome, _) = first.initialize_from_storage(500);
    let first_len = first.blocks.len();
    let first_head = first.current_active_head();
    let mut second = restart(first);
    let (second_outcome, _) = second.initialize_from_storage(9_999);

    assert_eq!(first_outcome, second_outcome);
    assert_eq!(first_len, second.blocks.len());
    assert_eq!(first_head, second.current_active_head());
}

#[test]
fn init_sets_expected_defaults() {
    let bc: Blockchain<16, 16, 4, 16, 4, 16> =
        Blockchain::init(7, [3u8; PUBLIC_KEY_SIZE], REGISTRATION_SIZE, 0xDEAD_BEEF);
    assert_eq!(bc.local_node_id, 7);
    assert!(bc.lifecycle_phase == LifecyclePhase::Collecting);
    assert_eq!(bc.node_zero_public_key, [3u8; PUBLIC_KEY_SIZE]);
    assert_eq!(bc.blocks.len(), 0);
    assert_eq!(bc.chain_heads.count(), 0);
    assert_eq!(bc.node_info.max_known_node_id(), 0);
    assert!(!bc.node_info.is_seeded(0));
    assert_eq!(bc.last_parent_request_emit_timestamp, 0);
    assert_eq!(bc.active_chain_head_idx, NONE_REF);
    assert_eq!(bc.tentative_config_block_idx, NONE_REF);
    assert_eq!(bc.snake_chain_tail_idx, 0);
    assert_eq!(bc.local_node_id(), 7);
}

fn any_nonzero(bytes: &[u8]) -> bool {
    bytes.iter().any(|b| *b != 0)
}

#[test]
fn walking_skeleton_genesis_success() {
    let (crypto, storage, chain_config) = test_backends();
    let expected_node_zero_public_key = crypto.public_key();
    let initial_chain_config_bytes = OTHER_CONFIG_CONTENT;

    let mut bc = new_chain(crypto, storage, chain_config, 0, 0xDEAD_BEEF_CAFE_F00D);
    let GenesisBlocks {
        block_zero,
        block_one,
    } = bc
        .process_genesis(1_000_000_000, &initial_chain_config_bytes)
        .ok()
        .expect("genesis with local_node_id == 0 must succeed");

    assert_eq!(block_zero.sequence, 0);
    assert_eq!(block_zero.creator, 0);
    assert_eq!(block_zero.bytes[0], 1);
    assert_eq!(block_zero.payload_type, PAYLOAD_TYPE_TRANSACTION);
    let BlockPayload::Transactions(transactions) = &block_zero.payload else {
        panic!("genesis Block #0 should contain transaction payload");
    };
    let TransactionBody::Registration(registration) = &transactions[0].body else {
        panic!("first genesis transaction should be Registration");
    };
    assert_eq!(registration.new_public_key, expected_node_zero_public_key);
    let TransactionBody::NodeTransfer(self_transfer) = &transactions[1].body else {
        panic!("second genesis transaction should be NodeTransfer");
    };
    assert_eq!(self_transfer.amount, 1_000_000_000);
    assert_eq!(self_transfer.initializer, self_transfer.receiver);
    assert_eq!(transactions.len(), 2);
    for transaction in transactions {
        let at = transaction.bytes.len() - SIGNATURE_SIZE;
        assert!(any_nonzero(&transaction.bytes[at..]));
    }
    assert!(any_nonzero(&block_zero.bytes[58..58 + SIGNATURE_SIZE]));

    assert_eq!(block_one.sequence, 1);
    assert!(any_nonzero(&block_one.bytes[58..58 + SIGNATURE_SIZE]));
    assert_eq!(block_one.bytes[0], 1);
    assert_eq!(block_one.payload_type, PAYLOAD_TYPE_CHAIN_CONFIG);
    assert_eq!(
        block_one.previous_hash,
        block_zero.hash(),
        "Block #1 must chain to Block #0"
    );
    assert_eq!(
        content_of(&block_one),
        &initial_chain_config_bytes[..],
        "Block #1 carries the initial chain-config content verbatim"
    );
    let at = block_one.bytes.len() - SIGNATURE_SIZE;
    assert_eq!(
        block_one.bytes[at..],
        toy_signature(&initial_chain_config_bytes, &expected_node_zero_public_key)[..],
        "node #0 signs Block #1's content region"
    );

    assert_eq!(
        bc.chain_config.durable_content(),
        Some(&initial_chain_config_bytes[..]),
        "genesis leaves the configuration durably locked on its content"
    );
    assert!(bc.current_phase() == LifecyclePhase::Ready);
    assert_eq!(bc.local_node_id(), 0);

    assert_eq!(bc.blocks.len(), 2);
    assert_eq!(bc.active_chain_head_idx, 1, "Block #1 is the active tip");
    let head_0 = bc.blocks.get(0).expect("Block #0 in tree");
    let head_1 = bc.blocks.get(1).expect("Block #1 in tree");
    assert!(head_0.is_on_active_chain());
    assert!(head_1.is_on_active_chain());
    assert_eq!(head_1.sequence(), 1);
    assert_eq!(head_1.parent_ref(), 0, "Block #1 parent is Block #0's slot");
    assert_eq!(bc.chain_heads.count(), 1, "one active head after genesis");
}

#[test]
fn walking_skeleton_refuses_storage_save_failure() {
    let (crypto, mut storage, chain_config) = test_backends();
    storage.block_writes_fail = true;
    let mut bc = new_chain(crypto, storage, chain_config, 0, 0);

    let outcome = bc.process_genesis(1_000_000_000, &EMPTY_CONFIG_CONTENT);

    match outcome {
        Err(GenesisRejectReason::StorageSaveFailed) => {}
        Err(_) => panic!("expected StorageSaveFailed refusal"),
        Ok(_) => panic!("genesis must not succeed when a genesis block cannot be persisted"),
    }
    assert!(
        !bc.chain_config.is_durable_locked(),
        "a genesis that failed on storage must not leave the configuration locked"
    );
    assert!(
        bc.chain_config.tentative_content().is_some(),
        "the accepted content is held tentatively, ready to be replaced by a retry"
    );
}

#[test]
fn walking_skeleton_refuses_uninitialized_storage() {
    let mut bc = new_chain(test_signer(), Store::new(), empty_chain_config(), 0, 0);

    let outcome = bc.process_genesis(1_000_000_000, &EMPTY_CONFIG_CONTENT);

    match outcome {
        Err(GenesisRejectReason::StorageNotInitialized) => {}
        Err(_) => panic!("expected StorageNotInitialized refusal"),
        Ok(_) => panic!("genesis must not run without a usable control plane"),
    }
    assert_eq!(bc.blocks.len(), 0, "no block reached the in-memory tree");
    assert!(
        bc.storage.read_block(0).is_err(),
        "no block reached storage either"
    );
    assert!(!bc.chain_config.is_durable_locked());
}

#[test]
fn collecting_gates_transaction_intake() {
    let mut bc = new_test_chain();
    let block = node_transfer_block(5, 3, 4, 7);
    let BlockPayload::Transactions(payload) = &block.payload else {
        panic!("transaction payload");
    };

    let (o1, n1) = bc.receive_transaction(&payload[0], 1_000);
    assert_eq!(o1, ReceiveTransactionOutcome::NotReady);
    assert!(matches!(n1, NextCall::Idle));

    let (o2, n2) = bc.submit_local_transaction(&payload[0], 1_000);
    assert_eq!(o2, LocalTransactionOutcome::NotReady);
    assert!(matches!(n2, NextCall::Idle));
}

#[test]
fn fr6_rejects_wrong_block_creator_signature() {
    let mut bc = new_test_chain();
    let wrong = Crypto::new([9u8; PRIVATE_KEY_SIZE])
        .ok()
        .expect("wrong test key");
    let nt = NodeTransfer {
        anchor_sequence: 0,
        initializer: 0,
        receiver: 9,
        amount: 100,
        fee: 1,
    };
    let block = transaction_block(
        &header(0, PAYLOAD_TYPE_TRANSACTION, [0u8; 32]),
        vec![transfer_tx(0, nt, &wrong)],
        &wrong,
    );
    let idx = bc
        .tier1_admit(&block.view(), &block.view().hash(), 0)
        .expect("admitted");
    let cfg = chain_config_anchor_block(1, block.view().hash());
    let tip = bc
        .tier1_admit(&cfg.view(), &cfg.view().hash(), 0)
        .expect("chain-config block admitted");
    assert_eq!(
        bc.run_processing_pass(tip),
        Err(ProcessingError::Invalid {
            block_idx: idx,
            reason: ValidationReason::CreatorSignatureInvalid,
        })
    );
}

#[test]
fn fr6_rejects_divergent_chain_config() {
    let mut bc = new_test_chain();
    let block = chain_config_block_from(5, [0u8; 32], &mut alt_config_builder());
    let idx = bc
        .tier1_admit(&block.view(), &block.view().hash(), 0)
        .expect("admitted");
    assert_eq!(
        bc.run_processing_pass(idx),
        Err(ProcessingError::Invalid {
            block_idx: idx,
            reason: ValidationReason::ChainConfigMismatch,
        })
    );
}

#[test]
fn fr8_second_durable_commit_is_refused() {
    let mut bc = new_unconfigured_test_chain();
    let genesis = node_transfer_block(0, 0, 0, 0);
    let cfg = chain_config_anchor_block(1, genesis.view().hash());
    bc.receive_block(cfg.view(), 0);
    bc.receive_block(genesis.view(), 0);
    assert!(bc.chain_config.is_durable_locked(), "locked once");
    let cfg_idx = bc
        .blocks
        .find(1, &cfg.view().hash())
        .expect("config block on the active chain");

    assert!(
        !bc.commit_again(cfg_idx),
        "the lock is set-once for the lifetime of the chain"
    );
    assert!(
        bc.chain_config.is_durable_locked(),
        "and the refusal leaves the existing lock intact"
    );
    assert!(
        bc.chain_config.promote_durable().is_err(),
        "the configuration module refuses a second promotion in its own right"
    );
}

#[test]
fn fr59_restart_skips_a_slot_whose_length_cannot_be_recovered() {
    let (_, mut storage, _) = test_backends();
    let genesis = node_transfer_block(0, 0, 0, 0);
    storage.save_block(0, &genesis).ok().expect("save");
    let undecodable = build(
        &header(0, PAYLOAD_TYPE_APPROVAL, [0u8; 32]),
        &[0xFF, 0, 0, 0],
        BlockPayload::Unread,
        &test_signer(),
    );
    storage.save_block(1, &undecodable).ok().expect("save");
    storage.unmeasurable.push(1);

    let mut bc = new_chain(test_signer(), storage, empty_chain_config(), 5, 0);
    let (_, _) = bc.initialize_from_storage(500);

    assert_eq!(bc.blocks.len(), 1, "the unmeasurable slot is skipped");
    assert!(
        bc.blocks.find(0, &genesis.view().hash()).is_some(),
        "and the good block is still recovered"
    );
}

// -- Intake ------------------------------------------------------------------

#[test]
fn chain_config_content_matches_equal_and_differing() {
    let block = config_block(
        &header(1, PAYLOAD_TYPE_CHAIN_CONFIG, [0u8; 32]),
        &OTHER_CONFIG_CONTENT,
        &test_signer(),
    );
    assert!(chain_config_content_matches(&block, &OTHER_CONFIG_CONTENT));
    assert!(!chain_config_content_matches(&block, &EMPTY_CONFIG_CONTENT));
    assert!(!chain_config_content_matches(
        &block,
        &OTHER_CONFIG_CONTENT[..4]
    ));
    assert!(!chain_config_content_matches(&block, &[1, 0, 7, 1, 5, 0]));
}

#[test]
fn chain_config_unframed_payload_never_matches() {
    let block = build(
        &header(1, PAYLOAD_TYPE_CHAIN_CONFIG, [0u8; 32]),
        &[],
        BlockPayload::Unread,
        &test_signer(),
    );
    assert!(!chain_config_content_matches(&block, &EMPTY_CONFIG_CONTENT));
    assert!(!chain_config_content_matches(&block, &[]));
}

#[test]
fn receive_block_accepts_new_stores_silently() {
    let mut bc = new_test_chain();
    let block = node_transfer_block(5, 3, 4, 7);
    let (outcome, next) = bc.receive_block(block.view(), 1_000);
    assert_eq!(outcome, ReceiveBlockOutcome::AcceptedSilently);
    assert!(
        matches!(next, NextCall::At(_)),
        "an orphan block schedules parent recovery"
    );
    assert_eq!(bc.block_tree_len(), 1, "accepted block is stored");
}

#[test]
fn receive_block_duplicate_is_duplicate_known() {
    let mut bc = new_test_chain();
    let block = node_transfer_block(5, 3, 4, 7);
    assert_eq!(
        bc.receive_block(block.view(), 1).0,
        ReceiveBlockOutcome::AcceptedSilently
    );
    let (outcome, _) = bc.receive_block(block.view(), 2);
    assert_eq!(outcome, ReceiveBlockOutcome::DuplicateKnown);
    assert_eq!(bc.block_tree_len(), 1, "duplicate is not re-stored");
}

#[test]
fn receive_block_tier1_fail_is_rejected_invalid_evidence() {
    let mut bc = new_test_chain();
    let block = node_transfer_block(5, 7, 4, 7);
    let (outcome, _) = bc.receive_block(block.view(), 1);
    assert_eq!(
        outcome,
        ReceiveBlockOutcome::Rejected(RejectReason::InvalidEvidence)
    );
    assert_eq!(bc.block_tree_len(), 0, "rejected block is not stored");
}

#[test]
fn receive_block_operational_refusal_is_unstorable() {
    let mut bc = new_test_chain();
    bc.storage.slots.clear();
    let block = node_transfer_block(5, 3, 4, 7);
    let (outcome, _) = bc.receive_block(block.view(), 0);
    assert_eq!(
        outcome,
        ReceiveBlockOutcome::Rejected(RejectReason::Unstorable),
        "an unpersistable-but-valid block yields Unstorable, not InvalidEvidence"
    );
    assert_eq!(
        bc.block_tree_len(),
        0,
        "the unstorable block is not added to the tree"
    );
}

#[test]
fn classify_dedup_precedes_window() {
    let mut bc = new_test_chain();
    let block = node_transfer_block(5, 3, 4, 7);
    assert_eq!(
        bc.classify(&block, None, 0),
        ReceiveBlockOutcome::AcceptedSilently
    );
    let outcome = bc.classify(&block, Some((100, 200)), 0);
    assert_eq!(outcome, ReceiveBlockOutcome::DuplicateKnown);
}

#[test]
fn classify_out_of_window_forward() {
    let mut bc = new_test_chain();
    let block = node_transfer_block(21, 3, 4, 7);
    let outcome = bc.classify(&block, Some((0, 5)), 0);
    assert_eq!(
        outcome,
        ReceiveBlockOutcome::Rejected(RejectReason::OutOfWindow)
    );
    assert_eq!(bc.block_tree_len(), 0, "out-of-window block is not stored");
}

#[test]
fn classify_out_of_window_below_tail() {
    let mut bc = new_test_chain();
    let block = node_transfer_block(5, 3, 4, 7);
    let outcome = bc.classify(&block, Some((10, 20)), 0);
    assert_eq!(
        outcome,
        ReceiveBlockOutcome::Rejected(RejectReason::OutOfWindow)
    );
    assert_eq!(bc.block_tree_len(), 0, "below-tail block is not stored");
}

#[test]
fn classify_in_window_ready_is_accepted() {
    let mut bc = new_test_chain();
    let block = node_transfer_block(5, 3, 4, 7);
    let outcome = bc.classify(&block, Some((0, 5)), 0);
    assert_eq!(outcome, ReceiveBlockOutcome::AcceptedSilently);
    assert_eq!(bc.block_tree_len(), 1);
}

#[test]
fn classify_collecting_suppresses_window() {
    let mut bc = new_test_chain();
    let block = node_transfer_block(9_999, 3, 4, 7);
    let outcome = bc.classify(&block, None, 0);
    assert_eq!(outcome, ReceiveBlockOutcome::AcceptedSilently);
    assert_eq!(bc.block_tree_len(), 1);
}

#[test]
fn chain_config_matching_replay_proceeds() {
    let mut bc = locked_test_chain(&OTHER_CONFIG_CONTENT);
    let block = config_block(
        &header(2, PAYLOAD_TYPE_CHAIN_CONFIG, [0u8; 32]),
        &OTHER_CONFIG_CONTENT,
        &test_signer(),
    );
    let outcome = bc.classify(&block, None, 0);
    assert_eq!(outcome, ReceiveBlockOutcome::AcceptedSilently);
    assert_eq!(
        bc.block_tree_len(),
        1,
        "matching chain-config replay is stored"
    );
}

#[test]
fn chain_config_mismatch_is_discarded() {
    let mut bc = locked_test_chain(&OTHER_CONFIG_CONTENT);
    let block = config_block(
        &header(2, PAYLOAD_TYPE_CHAIN_CONFIG, [0u8; 32]),
        &EMPTY_CONFIG_CONTENT,
        &test_signer(),
    );
    let outcome = bc.classify(&block, None, 0);
    assert_eq!(
        outcome,
        ReceiveBlockOutcome::Rejected(RejectReason::InvalidEvidence)
    );
    assert_eq!(
        bc.block_tree_len(),
        0,
        "mismatched chain-config is not stored"
    );
}

#[test]
fn chain_config_gate_stands_down_without_configuration() {
    let mut bc = unconfigured_test_chain();
    let block = config_block(
        &header(2, PAYLOAD_TYPE_CHAIN_CONFIG, [0u8; 32]),
        &OTHER_CONFIG_CONTENT,
        &test_signer(),
    );
    let outcome = bc.classify(&block, None, 0);
    assert_eq!(outcome, ReceiveBlockOutcome::AcceptedSilently);
    assert_eq!(bc.block_tree_len(), 1);
}

#[test]
fn receive_block_ignores_now() {
    let mut bc_a = new_test_chain();
    let mut bc_b = new_test_chain();
    let block = node_transfer_block(5, 3, 4, 7);
    let a = bc_a.receive_block(block.view(), 1).0;
    let b = bc_b.receive_block(block.view(), 999_999).0;
    assert_eq!(a, b, "classification must not depend on `now`");
}

#[test]
fn receive_block_deterministic_replay() {
    let submissions = [
        node_transfer_block(5, 3, 4, 7),
        node_transfer_block(5, 3, 4, 7),
        node_transfer_block(6, 7, 4, 7),
        node_transfer_block(7, 3, 4, 7),
    ];
    let run = || {
        let mut bc = new_test_chain();
        let outcomes: [ReceiveBlockOutcome; 4] =
            core::array::from_fn(|i| bc.receive_block(submissions[i].view(), i as u64).0);
        (outcomes, bc.block_tree_len())
    };
    let (o1, len1) = run();
    let (o2, len2) = run();
    assert_eq!(o1, o2);
    assert_eq!(len1, len2);
    assert_eq!(
        o1,
        [
            ReceiveBlockOutcome::AcceptedSilently,
            ReceiveBlockOutcome::DuplicateKnown,
            ReceiveBlockOutcome::Rejected(RejectReason::InvalidEvidence),
            ReceiveBlockOutcome::AcceptedSilently,
        ]
    );
    assert_eq!(len1, 2, "two accepted blocks stored");
}


// -- Every reason to refuse --------------------------------------------------

/// A chain anchored by its configuration and a balance block that gives node 1
/// and node 2 a balance of 500 and 300, of ten nodes. Returns the hash to build
/// on.
fn funded_chain() -> (TestChain, [u8; 32]) {
    let mut bc = new_test_chain();
    let cfg_hash = admit_chain_config_anchor(&mut bc, 99, [0xAB; 32]);
    let anchor = balance_block(100, cfg_hash, &[(1, 500, 0, 0xB1), (2, 300, 0, 0xB2)], 10);
    bc.tier1_admit(&anchor, &anchor.hash, 0)
        .expect("anchor admitted");
    (bc, anchor.hash)
}

fn take_in(bc: &mut TestChain, block: &Block) -> u32 {
    bc.tier1_admit(block, &block.hash, 0).expect("admitted")
}

fn tx_block(seq: u32, prev: [u8; 32], txs: Vec<Transaction>) -> Block {
    transaction_block(
        &header(seq, PAYLOAD_TYPE_TRANSACTION, prev),
        txs,
        &test_signer(),
    )
}

fn invalid(block_idx: u32, reason: ValidationReason) -> Result<(), ProcessingError> {
    Err(ProcessingError::Invalid { block_idx, reason })
}

#[test]
fn pass_refuses_a_transaction_signed_by_another_key() {
    let (mut bc, prev) = funded_chain();
    let wrong = Crypto::new([9u8; PRIVATE_KEY_SIZE]).expect("key");
    let nt = NodeTransfer {
        anchor_sequence: 100,
        initializer: 1,
        receiver: 2,
        amount: 10,
        fee: 1,
    };
    let block = tx_block(101, prev, vec![transfer_tx(0, nt, &wrong)]);
    let idx = take_in(&mut bc, &block);
    assert_eq!(
        bc.run_processing_pass(idx),
        invalid(idx, ValidationReason::TransactionSignatureInvalid)
    );
    assert!(!bc.node_info.is_seeded(1), "nothing derived remains");
}

#[test]
fn pass_refuses_a_transaction_too_short_to_be_signed() {
    let (mut bc, prev) = funded_chain();
    let nt = NodeTransfer {
        anchor_sequence: 100,
        initializer: 1,
        receiver: 2,
        amount: 10,
        fee: 1,
    };
    let mut tx = transfer_tx(0, nt, &test_signer());
    tx.bytes.truncate(63);
    let block = tx_block(101, prev, vec![tx]);
    let idx = take_in(&mut bc, &block);
    assert_eq!(
        bc.run_processing_pass(idx),
        invalid(idx, ValidationReason::TransactionSignatureInvalid)
    );
}

#[test]
fn pass_refuses_a_transaction_longer_than_a_registration() {
    for (len, expected) in [
        (REGISTRATION_SIZE, None),
        (
            REGISTRATION_SIZE + 1,
            Some(ValidationReason::TransactionSignatureInvalid),
        ),
    ] {
        let (mut bc, prev) = funded_chain();
        let nt = NodeTransfer {
            anchor_sequence: 100,
            initializer: 1,
            receiver: 2,
            amount: 10,
            fee: 1,
        };
        let padding = vec![0u8; len - 4 - SIGNATURE_SIZE];
        let tx = signed_transaction(
            0,
            padding,
            TransactionBody::NodeTransfer(nt),
            &test_signer(),
        );
        assert_eq!(tx.bytes.len(), len);
        let block = tx_block(101, prev, vec![tx]);
        let idx = take_in(&mut bc, &block);
        match expected {
            None => assert_eq!(bc.run_processing_pass(idx), Ok(())),
            Some(reason) => assert_eq!(bc.run_processing_pass(idx), invalid(idx, reason)),
        }
    }
}

#[test]
fn earliest_failure_wins_over_a_later_signature() {
    let (mut bc, prev) = funded_chain();
    let wrong = Crypto::new([9u8; PRIVATE_KEY_SIZE]).expect("key");
    let over = transfer_block(101, prev, 1, 2, 1_000, 1, 0);
    let low = take_in(&mut bc, &over);
    let nt = NodeTransfer {
        anchor_sequence: 101,
        initializer: 2,
        receiver: 1,
        amount: 1,
        fee: 0,
    };
    let unsigned = tx_block(102, over.hash, vec![transfer_tx(0, nt, &wrong)]);
    let tip = take_in(&mut bc, &unsigned);
    assert_eq!(
        bc.run_processing_pass(tip),
        invalid(low, ValidationReason::InsufficientBalance)
    );
}

#[test]
fn earlier_signature_wins_over_a_later_failure() {
    let (mut bc, prev) = funded_chain();
    let wrong = Crypto::new([9u8; PRIVATE_KEY_SIZE]).expect("key");
    let nt = NodeTransfer {
        anchor_sequence: 100,
        initializer: 2,
        receiver: 1,
        amount: 1,
        fee: 0,
    };
    let unsigned = tx_block(101, prev, vec![transfer_tx(0, nt, &wrong)]);
    let low = take_in(&mut bc, &unsigned);
    let over = transfer_block(102, unsigned.hash, 1, 2, 1_000, 1, 0);
    let tip = take_in(&mut bc, &over);
    assert_eq!(
        bc.run_processing_pass(tip),
        invalid(low, ValidationReason::TransactionSignatureInvalid)
    );
}

#[test]
fn pass_refuses_spending_more_than_the_balance() {
    let (mut bc, prev) = funded_chain();
    let exact = transfer_block(101, prev, 1, 2, 499, 1, 0);
    let idx = take_in(&mut bc, &exact);
    assert_eq!(bc.run_processing_pass(idx), Ok(()));
    assert_eq!(bc.node_info.balance_of(1), 0);
    assert_eq!(bc.node_info.balance_of(2), 799);
    let over = transfer_block(101, prev, 1, 2, 500, 1, 0);
    let idx = take_in(&mut bc, &over);
    assert_eq!(
        bc.run_processing_pass(idx),
        invalid(idx, ValidationReason::InsufficientBalance)
    );
}

#[test]
fn registration_charges_its_price_and_fee() {
    let (mut bc, prev) = funded_chain();
    let reg = registration_block(101, prev, 2, 11, 0xC7);
    let idx = take_in(&mut bc, &reg);
    assert_eq!(bc.run_processing_pass(idx), Ok(()));
    assert_eq!(bc.node_info.balance_of(2), 249, "300 - (50 + 1)");
    assert!(bc.node_info.is_seeded(11));
    assert_eq!(bc.node_info.max_known_node_id(), 11);
}

#[test]
fn fees_and_mined_amount_go_to_the_creator() {
    let (mut bc, prev) = funded_chain();
    let signer = test_signer();
    let nt = NodeTransfer {
        anchor_sequence: 100,
        initializer: 1,
        receiver: 2,
        amount: 10,
        fee: 7,
    };
    let mut h = header(101, PAYLOAD_TYPE_TRANSACTION, prev);
    h.creator = 2;
    h.mined_amount = 40;
    let block = transaction_block(&h, vec![transfer_tx(0, nt, &signer)], &signer);
    let idx = take_in(&mut bc, &block);
    assert_eq!(bc.run_processing_pass(idx), Ok(()));
    assert_eq!(bc.node_info.balance_of(1), 483, "500 - (10 + 7)");
    assert_eq!(bc.node_info.balance_of(2), 357, "300 + 10 + 40 + 7");
}

fn utxo_block(seq: u32, prev: [u8; 32], owner: u32, amount: u64) -> Block {
    tx_block(
        seq,
        prev,
        vec![complex_tx(
            0,
            vec![TransactionInput::Balance {
                anchor_sequence: seq - 1,
                initializer: owner,
                amount,
            }],
            vec![
                TransactionOutput::Balance {
                    receiver: 2,
                    amount: 1,
                },
                TransactionOutput::Utxo { amount: 3 },
                TransactionOutput::Utxo { amount: 4 },
            ],
        )],
    )
}

fn spending_block(seq: u32, prev: [u8; 32], tr_hash: [u8; 32], output_index: u8) -> Block {
    tx_block(
        seq,
        prev,
        vec![complex_tx(
            0,
            vec![TransactionInput::Utxo {
                tr_hash,
                output_index,
            }],
            vec![TransactionOutput::Balance {
                receiver: 2,
                amount: 5,
            }],
        )],
    )
}

fn first_transaction_hash(block: &Block) -> [u8; 32] {
    match &block.payload {
        BlockPayload::Transactions(txs) => txs[0].hash,
        _ => panic!("a transaction block"),
    }
}

#[test]
fn output_is_spent_once() {
    let (mut bc, prev) = funded_chain();
    let source = utxo_block(101, prev, 1, 20);
    let source_idx = take_in(&mut bc, &source);
    let output = first_transaction_hash(&source);
    let first = spending_block(102, source.hash, output, 1);
    let first_idx = take_in(&mut bc, &first);
    assert_eq!(bc.run_processing_pass(first_idx), Ok(()));
    assert_eq!(bc.blocks.spent_bit(source_idx, 0), Some(false));
    assert_eq!(bc.blocks.spent_bit(source_idx, 1), Some(true));
    assert_eq!(bc.node_info.balance_of(1), 480);
    assert_eq!(bc.node_info.balance_of(2), 306, "300 + 1 + 5");

    let second = spending_block(103, first.hash, output, 1);
    let second_idx = take_in(&mut bc, &second);
    assert_eq!(
        bc.run_processing_pass(second_idx),
        invalid(second_idx, ValidationReason::UtxoAlreadySpent)
    );
    assert_eq!(
        bc.blocks.spent_bit(source_idx, 1),
        Some(false),
        "a failed pass leaves nothing spent"
    );
}

#[test]
fn output_must_stand_in_an_earlier_block() {
    let (mut bc, prev) = funded_chain();
    let source = utxo_block(101, prev, 1, 20);
    take_in(&mut bc, &source);
    let output = first_transaction_hash(&source);
    let absent = spending_block(102, source.hash, output, 2);
    let absent_idx = take_in(&mut bc, &absent);
    assert_eq!(
        bc.run_processing_pass(absent_idx),
        invalid(absent_idx, ValidationReason::UtxoUnresolvable)
    );
    let unknown = spending_block(102, source.hash, [9; 32], 0);
    let unknown_idx = take_in(&mut bc, &unknown);
    assert_eq!(
        bc.run_processing_pass(unknown_idx),
        invalid(unknown_idx, ValidationReason::UtxoUnresolvable)
    );
}

#[test]
fn balance_inputs_must_cover_the_outputs() {
    let (mut bc, prev) = funded_chain();
    let block = tx_block(
        101,
        prev,
        vec![complex_tx(
            0,
            vec![TransactionInput::Balance {
                anchor_sequence: 100,
                initializer: 1,
                amount: 10,
            }],
            vec![TransactionOutput::Balance {
                receiver: 2,
                amount: 11,
            }],
        )],
    );
    let idx = take_in(&mut bc, &block);
    assert_eq!(
        bc.run_processing_pass(idx),
        invalid(idx, ValidationReason::InsufficientTransactionInputs)
    );
}

#[test]
fn pass_refuses_a_block_that_does_not_follow() {
    let (mut bc, prev) = funded_chain();
    let block = transfer_block(101, prev, 1, 2, 10, 1, 0);
    let idx = take_in(&mut bc, &block);
    let other = transfer_block(101, [0x55; 32], 1, 2, 10, 1, 0);
    bc.storage.save_block(idx, &other).expect("save");
    assert_eq!(
        bc.run_processing_pass(idx),
        invalid(idx, ValidationReason::PreviousHashMismatch)
    );
}

#[test]
fn pass_refuses_a_payload_that_does_not_read() {
    let (mut bc, prev) = funded_chain();
    let block = transfer_block(101, prev, 1, 2, 10, 1, 0);
    let idx = take_in(&mut bc, &block);
    let mut unread = block.clone();
    unread.payload = BlockPayload::Unread;
    bc.storage.save_block(idx, &unread).expect("save");
    assert_eq!(
        bc.run_processing_pass(idx),
        invalid(idx, ValidationReason::MalformedPayload)
    );
}

#[test]
fn pass_refuses_a_block_above_the_locked_limit() {
    let mut bc = new_unconfigured_test_chain();
    let content = small_limit_config_builder().content();
    let cfg = config_block(
        &header(99, PAYLOAD_TYPE_CHAIN_CONFIG, [0xAB; 32]),
        &content,
        &test_signer(),
    );
    take_in(&mut bc, &cfg);
    let big = balance_block(100, cfg.hash, &[(1, 500, 0, 0xB1), (2, 300, 0, 0xB2)], 10);
    let idx = take_in(&mut bc, &big);
    bc.chain_config.promote_durable().expect("locked");
    assert_eq!(
        bc.run_processing_pass(idx),
        invalid(idx, ValidationReason::BlockTooLarge)
    );
}

#[test]
fn pass_reports_a_slot_that_cannot_be_read() {
    let (mut bc, prev) = funded_chain();
    let block = transfer_block(101, prev, 1, 2, 10, 1, 0);
    let idx = take_in(&mut bc, &block);
    bc.storage.slots[idx as usize] = None;
    assert_eq!(
        bc.run_processing_pass(idx),
        Err(ProcessingError::StorageRead)
    );
}

#[test]
fn pass_reports_an_unreadable_configuration_as_a_read_failure() {
    let (mut bc, prev) = funded_chain();
    let block = transfer_block(101, prev, 1, 2, 10, 1, 0);
    let idx = take_in(&mut bc, &block);
    let cfg = bc.blocks.find(99, &chain_config_anchor_block(99, [0xAB; 32]).hash);
    bc.storage.slots[cfg.expect("held") as usize] = None;
    assert_eq!(
        bc.run_processing_pass(idx),
        Err(ProcessingError::StorageRead)
    );
}

#[test]
fn pass_reports_corrupt_links() {
    let (mut bc, prev) = funded_chain();
    let block = transfer_block(101, prev, 1, 2, 10, 1, 0);
    let idx = take_in(&mut bc, &block);
    let parent = bc.blocks.blocks[idx as usize].parent_ref;
    bc.blocks.blocks[parent as usize].parent_ref = idx;
    assert_eq!(
        bc.run_processing_pass(idx),
        Err(ProcessingError::MarkOverflow)
    );
    bc.blocks.blocks[parent as usize].parent_ref = 15;
    assert_eq!(
        bc.run_processing_pass(idx),
        Err(ProcessingError::MissingBlock)
    );
}

#[test]
fn vote_failure_stops_the_pass_at_its_block() {
    let (mut bc, prev) = funded_chain();
    let block = transfer_block(101, prev, 1, 2, 10, 1, 0);
    let idx = take_in(&mut bc, &block);
    let segment = bc.candidate_segment(idx).expect("a candidate");
    let reads: Vec<Option<Block>> = segment.iter().map(|i| bc.read(*i)).collect();
    let plan = bc.chain.run_processing_pass(
        idx,
        &reads,
        Some((2, VoteEngineError::AccumulatedVoteOverflow)),
    );
    assert_eq!(
        plan.outcome,
        Err(ProcessingError::Vote(
            VoteEngineError::AccumulatedVoteOverflow
        ))
    );
    assert!(bc.node_info.is_seeded(1), "the blocks below were derived");
    let plan = bc.chain.run_processing_pass(idx, &reads, Some((3, VoteEngineError::Refused)));
    assert_eq!(plan.outcome, Ok(()), "no block stands at that position");
}

#[test]
fn admission_names_each_failure() {
    let mut bc = new_test_chain();
    let signer = test_signer();
    let refuse = |bc: &mut TestChain, block: &Block| {
        let result = bc.tier1_admit(block, &block.hash, 0);
        assert_eq!(bc.block_tree_len(), 0);
        result
    };
    let reserved = node_transfer_block(NONE_REF, 3, 4, 7);
    assert_eq!(
        refuse(&mut bc, &reserved),
        Err(AdmitError::Rejected(Tier1Failure::ReservedSequence))
    );
    let unknown = build(&header(5, 9, [0; 32]), &[], BlockPayload::Unread, &signer);
    assert_eq!(
        refuse(&mut bc, &unknown),
        Err(AdmitError::Rejected(Tier1Failure::UnknownPayloadType))
    );
    let malformed = build(
        &header(5, PAYLOAD_TYPE_BALANCE, [0; 32]),
        &[],
        BlockPayload::Unread,
        &signer,
    );
    assert_eq!(
        refuse(&mut bc, &malformed),
        Err(AdmitError::Rejected(Tier1Failure::MalformedPayload))
    );
    let anchored = node_transfer_block(5, 3, 5, 7);
    assert_eq!(
        refuse(&mut bc, &anchored),
        Err(AdmitError::Rejected(Tier1Failure::AnchorNotBeforeBlock))
    );
    let reg = Registration {
        initializer: 1,
        new_node_id: 2,
        registration_price: 50,
        fee: 1,
        new_public_key: [4; 32],
    };
    let mixed = tx_block(
        5,
        [0; 32],
        vec![
            registration_tx(reg, &signer),
            complex_tx(0, Vec::new(), Vec::new()),
        ],
    );
    assert_eq!(
        refuse(&mut bc, &mixed),
        Err(AdmitError::Rejected(Tier1Failure::RegistrationWithComplex))
    );
    let wrong = Crypto::new([9u8; PRIVATE_KEY_SIZE]).expect("key");
    let unsigned = config_block(
        &header(5, PAYLOAD_TYPE_CHAIN_CONFIG, [0; 32]),
        &EMPTY_CONFIG_CONTENT,
        &wrong,
    );
    assert_eq!(
        refuse(&mut bc, &unsigned),
        Err(AdmitError::Rejected(
            Tier1Failure::ChainConfigSignatureInvalid
        ))
    );
    let refused = chain_config_block_from(5, [0; 32], &mut bound_violating_config_builder());
    assert_eq!(
        refuse(&mut bc, &refused),
        Err(AdmitError::Rejected(
            Tier1Failure::ChainConfigContentRejected
        ))
    );
    let mut small = locked_test_chain(&small_limit_config_builder().content());
    let big = balance_block(100, [0xAB; 32], &[(1, 5, 0, 1), (2, 5, 0, 1)], 3);
    assert_eq!(
        small.tier1_admit(&big, &big.hash, 0),
        Err(AdmitError::Rejected(Tier1Failure::BlockTooLarge))
    );
    let mut unsaved = new_test_chain();
    unsaved.storage.block_writes_fail = true;
    let block = node_transfer_block(5, 3, 4, 7);
    assert_eq!(
        unsaved.tier1_admit(&block, &block.hash, 0),
        Err(AdmitError::StorageSaveFailed)
    );
}

#[test]
fn admission_names_a_second_first_block() {
    let mut bc = new_unconfigured_test_chain();
    let first = node_transfer_block(0, 7, 0, 7);
    take_in(&mut bc, &first);
    let second = node_transfer_block(0, 3, 0, 3);
    assert_eq!(
        bc.tier1_admit(&second, &second.hash, 0),
        Err(AdmitError::Rejected(Tier1Failure::DuplicateGenesis))
    );
}

#[test]
fn admission_refuses_when_the_tree_is_full() {
    let mut bc: Node<16> = new_unconfigured_test_chain();
    bc.storage.slots = (0..16).map(|_| None).collect();
    let mut prev = [0xAB; 32];
    for seq in 100..116 {
        let block = linked_transfer_block(seq, prev);
        prev = block.hash;
        take_in(&mut bc, &block);
    }
    let next = linked_transfer_block(116, prev);
    assert_eq!(
        bc.tier1_admit(&next, &next.hash, 0),
        Err(AdmitError::TableFull)
    );
    assert_eq!(bc.block_tree_len(), 16);
}

#[test]
fn genesis_refuses_content_the_registry_refuses() {
    let (crypto, storage, chain_config) = test_backends();
    let mut bc = new_chain(crypto, storage, chain_config, 0, 0);
    let outcome = bc.process_genesis(1_000, &bound_violating_config_builder().content());
    assert_eq!(
        outcome.err(),
        Some(GenesisRejectReason::InitialChainConfigRejected)
    );
    assert!(bc.chain_config.active_configuration().is_none());
}

#[test]
fn genesis_interrupted_after_its_first_block_locks_nothing() {
    let (crypto, mut storage, chain_config) = test_backends();
    storage.slots.truncate(1);
    let mut bc = new_chain(crypto, storage, chain_config, 0, 0);
    let outcome = bc.process_genesis(1_000, &EMPTY_CONFIG_CONTENT);
    assert_eq!(outcome.err(), Some(GenesisRejectReason::StorageSaveFailed));
    assert!(!bc.chain_config.is_durable_locked());
    assert_eq!(bc.current_phase(), LifecyclePhase::Collecting);
    assert_eq!(bc.current_active_head(), Some(0));
}

#[test]
fn founded_chain_is_accepted_by_a_joining_node() {
    let (crypto, storage, chain_config) = test_backends();
    let key = crypto.public_key();
    let mut founder = new_chain(crypto, storage, chain_config, 0, 0);
    let blocks = founder
        .process_genesis(1_000_000_000, &OTHER_CONFIG_CONTENT)
        .expect("founded");
    let mut peer = new_unconfigured_test_chain();
    for block in [&blocks.block_zero, &blocks.block_one] {
        assert_eq!(
            peer.receive_block(block, 0).0,
            ReceiveBlockOutcome::AcceptedSilently
        );
    }
    assert!(peer.is_ready());
    assert_eq!(
        peer.chain_config.durable_content(),
        Some(&OTHER_CONFIG_CONTENT[..])
    );
    assert_eq!(peer.node_info.balance_of(0), 1_000_000_000);
    assert_eq!(peer.node_info.public_key_of(0), Some(&key));
    assert_eq!(peer.node_info.max_known_node_id(), 0);
}

#[test]
fn restart_refuses_a_configuration_it_cannot_use() {
    let (bc, _, _) = node_ready_from_the_mesh();
    let mut restarted = restart(bc);
    restarted.storage.configuration = Some(node_transfer_block(5, 3, 4, 7));
    let (outcome, next) = restarted.initialize_from_storage(500);
    assert_eq!(
        outcome,
        InitOutcome::Rejected(RestartRejectReason::ChainConfigUnusable)
    );
    assert_eq!(next, NextCall::Idle);
    assert_eq!(restarted.block_tree_len(), 0);

    let (bc, _, _) = node_ready_from_the_mesh();
    let mut restarted = restart(bc);
    restarted.storage.configuration = Some(chain_config_block_from(
        1,
        [0; 32],
        &mut bound_violating_config_builder(),
    ));
    assert_eq!(
        restarted.initialize_from_storage(500).0,
        InitOutcome::Rejected(RestartRejectReason::ChainConfigUnusable)
    );
}

#[test]
fn durable_scan_stops_at_the_smaller_capacity() {
    type Chain = Blockchain<16, 16, 4, 16, 4, 16>;
    assert_eq!(Chain::durable_scan_limit(3), 3);
    assert_eq!(Chain::durable_scan_limit(16), 16);
    assert_eq!(Chain::durable_scan_limit(600), 16);
}

// -- What holds of every run -------------------------------------------------

#[test]
fn an_acquisition_makes_at_most_three_passes() {
    let mut bc = new_unconfigured_test_chain();
    let stray = chain_config_block_from(500, [0xEE; 32], &mut alt_config_builder());
    bc.receive_block(&stray, 0);
    let genesis = node_transfer_block(0, 0, 0, 0);
    let cfg = chain_config_anchor_block(1, genesis.hash);
    let bad = registration_block(2, cfg.hash, 1, 5, 0xC5);
    let worse = registration_block(3, bad.hash, 1, 7, 0xC6);
    for block in [&worse, &bad, &cfg] {
        bc.receive_block(block, 0);
    }
    bc.receive_block(&genesis, 0);
    assert_eq!(bc.passes, 3, "adopting, then condemning, then succeeding");
    assert!(bc.is_ready());
    assert_eq!(bc.block_tree_len(), 2);
}

#[test]
fn an_uncommitted_configuration_leaves_the_node_collecting() {
    let mut bc = new_unconfigured_test_chain();
    bc.storage.initialized = false;
    let genesis = node_transfer_block(0, 0, 0, 0);
    let cfg = chain_config_anchor_block(1, genesis.hash);
    bc.receive_block(&cfg, 0);
    bc.receive_block(&genesis, 0);
    assert_eq!(bc.current_phase(), LifecyclePhase::Collecting);
    assert!(!bc.chain_config.is_durable_locked());
    assert_eq!(bc.block_tree_len(), 2, "no block is charged for it");
    assert_eq!(bc.node_info.max_known_node_id(), 0);
    bc.storage.initialized = true;
    bc.acquire();
    assert!(bc.is_ready(), "and the next attempt succeeds");
}

#[test]
fn locked_limit_takes_oversized_side_blocks() {
    let mut bc = new_unconfigured_w4_chain();
    let content = small_limit_config_builder().content();
    let root = config_block(
        &header(100, PAYLOAD_TYPE_CHAIN_CONFIG, [0xAB; 32]),
        &content,
        &test_signer(),
    );
    let mut prev = root.hash;
    let mut main = Vec::new();
    for seq in 101..104 {
        let block = config_block(
            &header(seq, PAYLOAD_TYPE_CHAIN_CONFIG, prev),
            &content,
            &test_signer(),
        );
        prev = block.hash;
        main.push(block);
    }
    let side = balance_block(101, root.hash, &[(1, 5, 0, 1), (2, 5, 0, 1)], 3);
    assert!(side.len() > SMALL_BLOCK_SIZE_LIMIT as usize);
    for block in [&root, &side, &main[0], &main[1], &main[2]] {
        assert_eq!(
            bc.receive_block(block, 0).0,
            ReceiveBlockOutcome::AcceptedSilently
        );
    }
    assert!(bc.is_ready());
    assert!(bc.blocks.find(101, &side.hash).is_none());
    assert_eq!(bc.block_tree_len(), 4);
}

#[test]
fn eviction_of_its_block_withdraws_a_tentative_configuration() {
    let mut bc = new_unconfigured_test_chain();
    let cfg = chain_config_anchor_block(100, [0xAB; 32]);
    bc.receive_block(&cfg, 0);
    assert!(bc.chain_config.active_configuration().is_some());
    for seq in [200, 300, 400, 500] {
        bc.receive_block(&node_transfer_block(seq, 3, seq - 1, 7), 0);
    }
    assert!(bc.blocks.find(100, &cfg.hash).is_none());
    assert!(bc.chain_config.active_configuration().is_none());
    assert_eq!(bc.tentative_config_block_idx, NONE_REF);
    assert!(bc.take_vote_reset());
    assert!(!bc.take_vote_reset(), "asking answers for it");
}

#[test]
fn requests_keep_their_distance() {
    let mut bc = new_test_chain();
    bc.receive_block(&node_transfer_block(5, 3, 4, 7), 0);
    let (_, next) = bc.on_tick(1_000_000);
    assert_eq!(next, NextCall::At(1_120_000));
    for now in [1_000_001, 1_009_999, 1_119_999] {
        let (outcome, _) = bc.on_tick(now);
        assert_eq!(outcome, TickOutcome::Idle);
    }
    let (outcome, _) = bc.on_tick(1_120_000);
    assert!(matches!(outcome, TickOutcome::SendParentRecoveryRequest(_)));
}

#[test]
fn gap_filling_block_hands_on_what_its_branch_waits_for() {
    let mut bc = new_test_chain();
    let bottom = linked_transfer_block(5, [0x11; 32]);
    let gap = linked_transfer_block(6, bottom.hash);
    let top = linked_transfer_block(7, gap.hash);
    for block in [&bottom, &top, &gap] {
        bc.receive_block(block, 0);
    }
    assert_eq!(bc.chain_heads.count(), 1);
    let (outcome, _) = bc.on_tick(1_000_000);
    match outcome {
        TickOutcome::SendParentRecoveryRequest(request) => {
            assert_eq!(request.missing_parent_hash(), &[0x11; 32]);
            assert_eq!(request.claimed_parent_sequence(), 4);
        }
        TickOutcome::Idle => panic!("the merged branch still waits"),
    }
}

#[test]
fn restart_asks_for_what_was_missing_before() {
    let mut bc = new_unconfigured_test_chain();
    let cfg = chain_config_anchor_block(100, [0xAB; 32]);
    let child = linked_transfer_block(101, cfg.hash);
    for block in [&cfg, &child] {
        bc.receive_block(block, 0);
    }
    let mut restarted = restart(bc);
    let (outcome, next) = restarted.initialize_from_storage(500);
    assert_eq!(outcome, InitOutcome::ResumedCollecting);
    assert_eq!(next, NextCall::At(10_000));
    match restarted.on_tick(20_000).0 {
        TickOutcome::SendParentRecoveryRequest(request) => {
            assert_eq!(request.missing_parent_hash(), &[0xAB; 32]);
            assert_eq!(request.claimed_parent_sequence(), 99);
        }
        TickOutcome::Idle => panic!("the branch waits for its parent"),
    }
}

#[test]
fn build_limits_follow_the_capacities() {
    let limits = Blockchain::<16, 4, 4, 16, 4, 16>::build_limits();
    assert_eq!(limits.utxo_unspent_bits, 256);
    assert_eq!(limits.snake_chain_length_max, 4);
}

#[test]
fn configuration_state_names_each_refusal() {
    let mut bc = new_unconfigured_test_chain();
    assert_eq!(
        bc.chain_config.promote_durable(),
        Err(ConfigStateError::NotLoaded)
    );
    assert_eq!(
        bc.chain_config.load_tentative(&[0, 0], None),
        Err(ConfigStateError::ContentRefused)
    );
    bc.chain_config
        .load_tentative(&[0, 0], resolve(&[0, 0]))
        .expect("held");
    bc.chain_config.promote_durable().expect("locked");
    assert_eq!(
        bc.chain_config.load_tentative(&[0, 0], resolve(&[0, 0])),
        Err(ConfigStateError::DurableLocked)
    );
    bc.chain_config.discard_tentative();
    assert_eq!(bc.chain_config.durable_content(), Some(&[0u8, 0][..]));
}

/// The tree, its links, its marks, its branch counts and its tips fit together.
fn assert_fits(bc: &TestChain) {
    let table = &bc.blocks.blocks;
    let held: Vec<u32> = (0..16).filter(|i| bc.blocks.get(*i).is_some()).collect();
    let previous = |i: u32| bc.read(i).expect("every held block is stored").previous_hash;
    let tips: Vec<u32> = bc
        .chain_heads
        .heads
        .iter()
        .filter(|h| !h.is_empty())
        .map(|h| h.head_idx)
        .collect();
    for i in &held {
        let entry = &table[*i as usize];
        let parent = held.iter().copied().find(|p| {
            let candidate = &table[*p as usize];
            candidate.sequence + 1 == entry.sequence && candidate.hash == previous(*i)
        });
        assert_eq!(entry.parent_ref, parent.unwrap_or(NONE_REF));
        assert_eq!(entry.status(), BlockStatus::Stored);
        assert_eq!(entry.is_on_active_chain(), entry.sequence == 0);
        let children = held
            .iter()
            .filter(|c| table[**c as usize].parent_ref == *i)
            .count();
        let is_tip = tips.contains(i);
        if !entry.is_on_active_chain() {
            assert_eq!(is_tip, children == 0);
        }
        assert_eq!(
            entry.head_ref_count as usize,
            children + usize::from(is_tip)
        );
    }
    for head in bc.chain_heads.heads.iter().filter(|h| !h.is_empty()) {
        assert_eq!(tips.iter().filter(|t| **t == head.head_idx).count(), 1);
        let mut end = head.head_idx;
        while table[end as usize].parent_ref != NONE_REF {
            end = table[end as usize].parent_ref;
        }
        assert_eq!(head.tail_or_connection_idx, end);
        assert_eq!(head.is_connected(), table[end as usize].sequence == 0);
        if head.is_stored() {
            assert_eq!(head.missing_parent_hash, previous(end));
        }
    }
}

/// What a request names is missing, and a block waits for it.
fn assert_missing(bc: &TestChain, outcome: TickOutcome) {
    if let TickOutcome::SendParentRecoveryRequest(request) = outcome {
        let sequence = request.claimed_parent_sequence();
        assert!(bc
            .blocks
            .find(sequence, request.missing_parent_hash())
            .is_none());
        assert!((0..16).any(|i| match bc.blocks.get(i) {
            Some(entry) => {
                entry.sequence == sequence + 1
                    && bc.read(i).expect("stored").previous_hash == *request.missing_parent_hash()
            }
            None => false,
        }));
    }
}

/// Three forking branches, one of them from the first block of the chain.
fn forking_blocks() -> Vec<Block> {
    let mut blocks = vec![node_transfer_block(0, 7, 0, 7)];
    let roots = [blocks[0].hash, [0x31; 32], [0x32; 32]];
    for (branch, root) in roots.iter().enumerate() {
        let start: u32 = 1 + 20 * branch as u32;
        let mut level = vec![*root];
        for depth in 0..4 {
            let mut next = Vec::new();
            for (at, parent) in level.iter().enumerate() {
                let forks = if depth == 1 { 3 } else { 1 };
                for salt in 0..forks {
                    let vote = 1 + salt + at as u32;
                    let block = salted_linked_block(start + depth, *parent, vote);
                    next.push(block.hash);
                    blocks.push(block);
                }
            }
            level = next;
        }
    }
    blocks
}

#[test]
fn tree_and_tips_fit_whatever_arrives() {
    let blocks = forking_blocks();
    for seed in 0..40u64 {
        let mut bc = new_unconfigured_test_chain();
        let mut draw = mix(&seed.to_be_bytes(), 1);
        for step in 0..60u64 {
            draw = mix(&draw.to_be_bytes(), step);
            let block = &blocks[(draw % blocks.len() as u64) as usize];
            if bc.blocks.find(block.sequence, &block.hash).is_none() {
                let _ = bc.tier1_admit(block, &block.hash, step);
            }
            assert_fits(&bc);
            if draw % 7 == 0 {
                let error = ProcessingError::Invalid {
                    block_idx: (draw >> 8) as u32 % 16,
                    reason: ValidationReason::InsufficientBalance,
                };
                bc.recover_from_failed_pass(error, 0);
                assert_fits(&bc);
            }
        }
    }
}

#[test]
fn requests_name_parents_that_are_missing() {
    let blocks = forking_blocks();
    let mut bc = new_test_chain();
    let mut asked = 0;
    for (step, block) in blocks.iter().rev().enumerate() {
        let now = 1_000_000 * (step as u64 + 1);
        if bc.tier1_admit(block, &block.hash, now).is_ok() {
            let (outcome, next) = bc.on_tick(now);
            if outcome != TickOutcome::Idle {
                asked += 1;
                assert!(matches!(next, NextCall::At(_)));
            }
            assert_missing(&bc, outcome);
        }
    }
    assert!(asked > 3);
}

#[test]
fn restart_gives_a_tree_that_fits() {
    let blocks = forking_blocks();
    for skip in 0..8 {
        let mut bc = new_unconfigured_test_chain();
        for block in blocks.iter().skip(skip).step_by(3) {
            let _ = bc.tier1_admit(block, &block.hash, 0);
        }
        let before = bc.block_tree_len();
        let mut restarted = restart(bc);
        restarted.initialize_from_storage(500);
        assert_fits(&restarted);
        assert!(before > 0);
    }
}

#[test]
fn fork_that_evicts_its_sibling_still_asks_for_the_right_parent() {
    let mut bc = new_test_chain();
    for seq in [200, 300, 400] {
        bc.receive_block(&node_transfer_block(seq, 3, seq - 1, 7), 0);
    }
    let bottom = linked_transfer_block(5, [0x11; 32]);
    let first = salted_linked_block(6, bottom.hash, 1);
    let second = salted_linked_block(6, bottom.hash, 2);
    for block in [&bottom, &first, &second] {
        bc.receive_block(block, 0);
        assert_fits(&bc);
    }
    assert_eq!(bc.chain_heads.count(), 4);
    let waiting: Vec<[u8; 32]> = bc
        .chain_heads
        .heads
        .iter()
        .map(|h| h.missing_parent_hash)
        .collect();
    assert!(waiting.contains(&[0x11; 32]));
    assert!(!waiting.contains(&bottom.hash));
}

#[test]
fn choice_depends_on_the_blocks_alone() {
    let g = node_transfer_block(0, 7, 0, 7);
    let a = salted_linked_block(1, g.hash, 3);
    let b = salted_linked_block(1, g.hash, 4);
    let c = salted_linked_block(2, b.hash, 3);
    let d = salted_linked_block(2, a.hash, 4);
    let blocks = [&g, &a, &b, &c, &d];
    let mut winners = Vec::new();
    for first in 0..5 {
        for step in 1..5 {
            let mut bc = new_test_chain();
            for k in 0..5 {
                let block = blocks[(first + step * k) % 5];
                bc.tier1_admit(block, &block.hash, 10 * k as u64)
                    .expect("admitted");
            }
            let win = bc.evaluate_stopping_condition().expect("a candidate");
            let entry = bc.blocks.get(win).expect("held");
            assert_eq!(entry.sequence, 2);
            winners.push(entry.hash);
        }
    }
    assert!(winners.iter().all(|hash| *hash == winners[0]));
    assert_eq!(winners[0], c.hash.min(d.hash));
}

#[test]
fn blocks_below_a_condemned_one_pass_the_next_time() {
    let (mut bc, prev) = funded_chain();
    let good = transfer_block(101, prev, 1, 2, 10, 1, 0);
    let bad = transfer_block(102, good.hash, 1, 2, 10_000, 1, 0);
    let idx = take_in(&mut bc, &good);
    let tip = take_in(&mut bc, &bad);
    let above = take_in(&mut bc, &transfer_block(103, bad.hash, 2, 1, 10, 1, 0));
    assert_eq!(
        bc.run_processing_pass(above),
        invalid(tip, ValidationReason::InsufficientBalance)
    );
    bc.recover_from_failed_pass(
        ProcessingError::Invalid {
            block_idx: tip,
            reason: ValidationReason::InsufficientBalance,
        },
        above,
    );
    assert!(bc.blocks.get(tip).is_none());
    assert!(bc.blocks.get(above).is_none());
    assert_eq!(bc.run_processing_pass(idx), Ok(()));
}

#[test]
fn restart_gives_back_the_stored_tree() {
    let mut bc = new_unconfigured_test_chain();
    let g = node_transfer_block(0, 7, 0, 7);
    let a = salted_linked_block(1, g.hash, 3);
    let b = salted_linked_block(1, g.hash, 4);
    let c = salted_linked_block(2, b.hash, 3);
    let far = linked_transfer_block(40, [0x77; 32]);
    for block in [&c, &far, &a, &g, &b] {
        take_in(&mut bc, block);
    }
    let before = bc.blocks.blocks.clone();
    let tips: Vec<(u32, u32)> = bc.chain_heads.occupied_heads();
    let mut restarted = restart(bc);
    restarted.initialize_from_storage(500);
    assert_fits(&restarted);
    for (old, new) in before.iter().zip(restarted.blocks.blocks.iter()) {
        assert_eq!(old.hash, new.hash);
        assert_eq!(old.sequence, new.sequence);
        assert_eq!(old.parent_ref, new.parent_ref);
        assert_eq!(old.is_on_active_chain(), new.is_on_active_chain());
        if !old.is_on_active_chain() {
            assert_eq!(old.head_ref_count, new.head_ref_count);
        }
    }
    let again = restarted.chain_heads.occupied_heads();
    assert_eq!(again.len(), tips.len());
    assert!(again.iter().all(|tip| tips.contains(tip)));
}

#[test]
fn a_failed_pass_leaves_no_output_spent() {
    let (mut bc, prev) = funded_chain();
    let source = utxo_block(101, prev, 1, 20);
    let source_idx = take_in(&mut bc, &source);
    let output = first_transaction_hash(&source);
    let spend = spending_block(102, source.hash, output, 1);
    let tip = take_in(&mut bc, &spend);
    assert_eq!(bc.run_processing_pass(tip), Ok(()));
    assert!((0..256).any(|bit| bc.blocks.spent_bit(source_idx, bit) == Some(true)));
    let bad = transfer_block(103, spend.hash, 1, 2, 10_000, 1, 0);
    let above = take_in(&mut bc, &bad);
    assert_eq!(
        bc.run_processing_pass(above),
        invalid(above, ValidationReason::InsufficientBalance)
    );
    assert!((0..256).all(|bit| bc.blocks.spent_bit(source_idx, bit) == Some(false)));
}

#[test]
fn configuration_verdicts_tell_differing_from_unreadable() {
    let bc = locked_test_chain(&EMPTY_CONFIG_CONTENT);
    let same = Some(EMPTY_CONFIG_CONTENT.to_vec());
    let other = Some(OTHER_CONFIG_CONTENT.to_vec());
    assert_eq!(
        bc.chain_config_block_content_verdict(&same),
        ConfigPreload::Matches
    );
    assert_eq!(
        bc.chain_config_block_content_verdict(&other),
        ConfigPreload::Differs
    );
    assert_eq!(
        bc.chain_config_block_content_verdict(&None),
        ConfigPreload::Unreadable
    );
    assert!(bc.chain_config_block_matches_lock(&same));
    assert!(!bc.chain_config_block_matches_lock(&other));
    assert!(!bc.chain_config_block_matches_lock(&None));
    let framed = chain_config_block_from(1, [0; 32], &mut alt_config_builder());
    assert_eq!(
        bc.candidate_chain_config_readable_match(&Some(framed)),
        ConfigPreload::Differs
    );
    assert_eq!(
        bc.candidate_chain_config_readable_match(&Some(node_transfer_block(5, 3, 4, 7))),
        ConfigPreload::Unreadable
    );
    let unconfigured = new_unconfigured_test_chain();
    assert_eq!(
        unconfigured.candidate_chain_config_readable_match(&None),
        ConfigPreload::Matches
    );
    assert_eq!(
        unconfigured.chain_config_block_content_verdict(&same),
        ConfigPreload::Unreadable
    );
}

/// Every block counts its branches, the tips are the childless blocks, and every
/// tip names a block of its own path as the end of its branch, whatever the
/// active chain is.
fn assert_branches(bc: &TestChain) {
    let table = &bc.blocks.blocks;
    let held: Vec<u32> = (0..16).filter(|i| bc.blocks.get(*i).is_some()).collect();
    let tips: Vec<(u32, u32)> = bc.chain_heads.occupied_heads();
    for i in &held {
        let entry = &table[*i as usize];
        let children = held
            .iter()
            .filter(|c| table[**c as usize].parent_ref == *i)
            .count();
        let slots = tips.iter().filter(|(tip, _)| tip == i).count();
        assert!(slots <= 1);
        assert_eq!(entry.head_ref_count as usize, children + slots);
        if children > 0 {
            assert_eq!(slots, 0);
        } else if !entry.is_on_active_chain() {
            assert_eq!(slots, 1);
        }
        if entry.parent_ref != NONE_REF {
            assert!(held.contains(&entry.parent_ref));
        }
    }
    for (tip, end) in tips {
        let mut at = tip;
        while at != end {
            at = table[at as usize].parent_ref;
            assert!(held.contains(&at));
        }
    }
}

/// Forks above `root`, three blocks wide and deep, and two orphans.
fn blocks_above(root: [u8; 32], from: u32) -> Vec<Block> {
    let mut blocks = Vec::new();
    let mut level = vec![root];
    for depth in 0..3 {
        let mut next = Vec::new();
        for (at, parent) in level.iter().enumerate().take(3) {
            for salt in 0..2 {
                let block = salted_linked_block(from + depth, *parent, 1 + salt + at as u32);
                next.push(block.hash);
                blocks.push(block);
            }
        }
        level = next;
    }
    blocks.push(linked_transfer_block(30, [0x41; 32]));
    blocks.push(linked_transfer_block(31, [0x42; 32]));
    blocks
}

#[test]
fn a_ready_node_counts_its_branches_and_tracks_its_tips() {
    for seed in 0..30u64 {
        let (mut bc, genesis, cfg) = node_ready_from_the_mesh();
        assert_branches(&bc);
        let mut blocks = blocks_above(cfg.hash, 2);
        blocks.push(salted_linked_block(1, genesis.hash, 9));
        let mut draw = mix(&seed.to_be_bytes(), 3);
        for step in 0..60u64 {
            draw = mix(&draw.to_be_bytes(), step);
            let block = &blocks[(draw % blocks.len() as u64) as usize];
            let (outcome, _) = bc.receive_block(block, 1_000 * step);
            if outcome == ReceiveBlockOutcome::AcceptedSilently {
                assert!(bc.block_tree_contains(block.sequence, &block.hash));
                let (again, _) = bc.receive_block(block, 1_000 * step);
                assert_eq!(again, ReceiveBlockOutcome::DuplicateKnown);
            }
            assert_branches(&bc);
            assert!(bc.block_tree_contains(0, &genesis.hash));
            assert!(bc.block_tree_contains(1, &cfg.hash));
        }
    }
}

#[test]
fn an_accepted_block_stands_at_its_slot() {
    let (mut bc, _, cfg) = node_ready_from_the_mesh();
    let mut taken = 0;
    for block in &blocks_above(cfg.hash, 2) {
        if let Ok(idx) = bc.tier1_admit(block, &block.hash, 0) {
            let entry = bc.blocks.get(idx).expect("the block is held");
            assert_eq!(entry.sequence, block.sequence);
            assert_eq!(entry.hash, block.hash);
            taken += 1;
        }
    }
    assert!(taken > 8, "more blocks than the four tips keep");
}

#[test]
fn a_ready_node_asks_at_the_announced_instant_and_not_before() {
    let (mut bc, _, cfg) = node_ready_from_the_mesh();
    assert_eq!(bc.next_parent_recovery_call(), NextCall::Idle);
    assert_eq!(bc.on_tick(u64::MAX).0, TickOutcome::Idle);
    bc.receive_block(&salted_linked_block(2, cfg.hash, 1), 5);
    bc.receive_block(&linked_transfer_block(30, [0x41; 32]), 6);
    bc.receive_block(&linked_transfer_block(40, [0x42; 32]), 7);
    let mut asked = 0;
    for _ in 0..6 {
        match bc.next_parent_recovery_call() {
            NextCall::At(instant) => {
                if instant > 0 {
                    assert_eq!(bc.on_tick(instant - 1).0, TickOutcome::Idle);
                }
                let at = instant.max(1);
                assert!(matches!(
                    bc.on_tick(at).0,
                    TickOutcome::SendParentRecoveryRequest(_)
                ));
                asked += 1;
            }
            NextCall::Idle => panic!("two branches wait for a parent"),
        }
    }
    assert_eq!(asked, 6);
}

/// What of a node does not depend on the clock.
fn timeless(bc: &TestChain) -> (Vec<(u32, [u8; 32], u32, u8, u8)>, Vec<(u32, u32)>) {
    let blocks = bc
        .blocks
        .blocks
        .iter()
        .map(|b| (b.sequence, b.hash, b.parent_ref, b.head_ref_count, b.flags))
        .collect();
    (blocks, bc.chain_heads.occupied_heads())
}

#[test]
fn the_clock_touches_timestamps_alone() {
    let genesis = node_transfer_block(0, 0, 0, 0);
    let cfg = chain_config_anchor_block(1, genesis.hash);
    let mut blocks = vec![linked_transfer_block(30, [0x41; 32]), cfg.clone(), genesis];
    blocks.extend(blocks_above(cfg.hash, 2));
    let mut early = new_unconfigured_test_chain();
    let mut late = new_unconfigured_test_chain();
    let mut twin = new_unconfigured_test_chain();
    for (step, block) in blocks.iter().enumerate() {
        let now = step as u64;
        let (one, first) = early.receive_block(block, now);
        let (two, _) = late.receive_block(block, 1_000_000 + 77 * now);
        let (three, second) = twin.receive_block(block, now);
        assert_eq!(one, two);
        assert_eq!((one, first), (three, second));
        early.on_tick(now);
        twin.on_tick(now);
        late.on_tick(1_000_000 + 77 * now + 3);
        assert_eq!(early.current_phase(), late.current_phase());
        assert_eq!(early.active_chain_head_idx, late.active_chain_head_idx);
        assert_eq!(
            early.held_chain_config_content(),
            late.held_chain_config_content()
        );
        assert_eq!(timeless(&early), timeless(&late));
        assert_eq!(
            early.next_parent_recovery_call(),
            twin.next_parent_recovery_call()
        );
    }
    assert!(early.is_ready());
}

#[test]
fn a_second_pass_repeats_the_first() {
    let (mut bc, prev) = funded_chain();
    let source = utxo_block(101, prev, 1, 20);
    take_in(&mut bc, &source);
    let output = first_transaction_hash(&source);
    let spend = spending_block(102, source.hash, output, 1);
    let good = take_in(&mut bc, &spend);
    let bad = take_in(&mut bc, &spending_block(103, spend.hash, output, 1));
    let state = |bc: &TestChain| {
        let spent: Vec<[u8; 32]> = bc.blocks.blocks.iter().map(|b| b.spent_bits).collect();
        let balances: Vec<u64> = (0..16).map(|id| bc.node_info.balance_of(id)).collect();
        (spent, balances, bc.node_info.max_known_node_id())
    };
    assert_eq!(bc.run_processing_pass(good), Ok(()));
    let passed = state(&bc);
    assert_eq!(bc.run_processing_pass(good), Ok(()));
    assert_eq!(state(&bc), passed);
    let refused = invalid(bad, ValidationReason::UtxoAlreadySpent);
    assert_eq!(bc.run_processing_pass(bad), refused);
    let failed = state(&bc);
    assert_eq!(bc.run_processing_pass(bad), refused);
    assert_eq!(state(&bc), failed);
    assert_eq!(bc.run_processing_pass(good), Ok(()));
    assert_eq!(state(&bc), passed, "a failed pass leaves nothing behind");
}

#[test]
fn spending_an_output_sets_one_bit_of_a_lower_block() {
    let (mut bc, prev) = funded_chain();
    let source = utxo_block(101, prev, 1, 20);
    let source_idx = take_in(&mut bc, &source);
    let output = first_transaction_hash(&source);
    let spent = |bc: &TestChain| {
        let mut bits = Vec::new();
        for idx in 0..16 {
            for bit in 0..256 {
                if bc.blocks.spent_bit(idx, bit) == Some(true) {
                    bits.push((idx, bit));
                }
            }
        }
        bits
    };
    assert_eq!(bc.run_processing_pass(source_idx), Ok(()));
    assert_eq!(spent(&bc), vec![]);
    let spend = spending_block(102, source.hash, output, 2);
    let tip = take_in(&mut bc, &spend);
    assert_eq!(
        bc.run_processing_pass(tip),
        invalid(tip, ValidationReason::UtxoUnresolvable)
    );
    assert_eq!(spent(&bc), vec![]);
    let spend = spending_block(102, source.hash, output, 0);
    let tip = take_in(&mut bc, &spend);
    assert_eq!(bc.run_processing_pass(tip), Ok(()));
    assert_eq!(spent(&bc), vec![(source_idx, 0)]);
}

#[test]
fn an_output_at_the_height_of_its_spender_cannot_be_spent() {
    let (mut bc, prev) = funded_chain();
    let funding = complex_tx(
        0,
        vec![TransactionInput::Balance {
            anchor_sequence: 100,
            initializer: 1,
            amount: 20,
        }],
        vec![TransactionOutput::Utxo { amount: 3 }],
    );
    let spending = complex_tx(
        0,
        vec![TransactionInput::Utxo {
            tr_hash: funding.hash,
            output_index: 0,
        }],
        vec![TransactionOutput::Balance {
            receiver: 2,
            amount: 3,
        }],
    );
    let block = tx_block(101, prev, vec![funding, spending]);
    let tip = take_in(&mut bc, &block);
    assert_eq!(
        bc.run_processing_pass(tip),
        invalid(tip, ValidationReason::UtxoUnresolvable)
    );
    assert_eq!(bc.blocks.spent_bit(tip, 0), Some(false));
}

#[test]
fn a_pass_over_corrupt_links_leaves_no_output_spent() {
    let (mut bc, prev) = funded_chain();
    let source = utxo_block(101, prev, 1, 20);
    let source_idx = take_in(&mut bc, &source);
    let spend = spending_block(102, source.hash, first_transaction_hash(&source), 1);
    let tip = take_in(&mut bc, &spend);
    let lowest = bc.blocks.blocks[source_idx as usize].parent_ref;
    for (link, error) in [
        (tip, ProcessingError::MarkOverflow),
        (15, ProcessingError::MissingBlock),
    ] {
        for idx in [lowest, source_idx, tip] {
            assert!(bc.blocks.set_spent_bit(idx, 1, true));
        }
        bc.blocks.blocks[lowest as usize].parent_ref = link;
        assert_eq!(bc.run_processing_pass(tip), Err(error));
        for idx in [lowest, source_idx, tip] {
            assert!((0..256).all(|bit| bc.blocks.spent_bit(idx, bit) == Some(false)));
        }
    }
}

#[test]
fn a_founding_refused_for_size_changes_nothing() {
    let (crypto, storage, chain_config) = test_backends();
    let mut bc = new_chain(crypto, storage, chain_config, 0, 0);
    let content = [1u8, 0, parameter::BLOCK_SIZE_LIMIT, 2, 0x2C, 0x01];
    assert!(matches!(
        bc.process_genesis(1_000_000_000, &content),
        Err(GenesisRejectReason::GenesisBlockExceedsBlockSizeLimit)
    ));
    assert_eq!(bc.blocks.len(), 0);
    assert!(bc.storage.slots.iter().all(|slot| slot.is_none()));
    assert!(bc.storage.configuration.is_none());
    assert!(!bc.chain_config.is_durable_locked());
    assert_eq!(bc.chain_config.tentative_content(), None);
    assert_eq!(bc.held_chain_config_content(), None);
    assert_eq!(bc.current_phase(), LifecyclePhase::Collecting);
    assert!(bc.process_genesis(1_000_000_000, &EMPTY_CONFIG_CONTENT).is_ok());
    assert!(bc.is_ready());
    assert_branches(&bc);
}

// -- A table of one tip ------------------------------------------------------

type OneTip = Blockchain<16, 16, 4, 16, 1, 16>;

fn one_tip_node() -> OneTip {
    let mut chain = OneTip::init(5, test_signer().public_key(), REGISTRATION_SIZE, 0);
    chain
        .chain_config
        .load_durable(&EMPTY_CONFIG_CONTENT, resolve(&EMPTY_CONFIG_CONTENT))
        .expect("the content is accepted");
    chain
}

/// Takes the block in, and checks that it then stands where it was stored and
/// that the announced instant is the first at which a request is made.
fn one_tip_receives(chain: &mut OneTip, block: &Block, now: u64) -> NextCall {
    let slot = chain.storage_slot(block).expect("there is room");
    let (outcome, next) = chain.receive_block(block, true, now);
    assert_eq!(outcome, ReceiveBlockOutcome::AcceptedSilently);
    let entry = chain.blocks.get(slot).expect("the block is held");
    assert_eq!((entry.sequence, entry.hash), (block.sequence, block.hash));
    assert_eq!(chain.next_parent_recovery_call(), next);
    next
}

#[test]
fn a_node_with_one_tip_asks_at_the_announced_instant() {
    let mut chain = one_tip_node();
    let mut now = 10;
    for (sequence, above) in [(30, 0x41), (40, 0x42), (20, 0x43)] {
        let low = linked_transfer_block(sequence, [above; 32]);
        let high = linked_transfer_block(sequence + 1, low.hash);
        for block in [&low, &high] {
            now += 1;
            match one_tip_receives(&mut chain, block, now) {
                NextCall::At(instant) => {
                    if instant > 0 {
                        assert_eq!(chain.on_tick(instant - 1).0, TickOutcome::Idle);
                    }
                    now = now.max(instant);
                    match chain.on_tick(now).0 {
                        TickOutcome::SendParentRecoveryRequest(request) => {
                            assert_eq!(request.missing_parent_hash, [above; 32]);
                        }
                        TickOutcome::Idle => panic!("the branch waits for a parent"),
                    }
                }
                NextCall::Idle => panic!("the branch waits for a parent"),
            }
        }
        assert_eq!(chain.chain_heads.count(), 1);
        assert_eq!(chain.blocks.len(), 2, "the branch before was evicted");
    }
}

#[test]
fn a_node_with_one_tip_keeps_what_it_cannot_track() {
    let mut chain = one_tip_node();
    let genesis = node_transfer_block(0, 0, 0, 0);
    assert_eq!(one_tip_receives(&mut chain, &genesis, 1), NextCall::Idle);
    let orphan = linked_transfer_block(30, [0x41; 32]);
    assert_eq!(one_tip_receives(&mut chain, &orphan, 2), NextCall::Idle);
    assert_eq!(chain.on_tick(u64::MAX).0, TickOutcome::Idle);
    assert_eq!(chain.chain_heads.count(), 1);
    assert_eq!(chain.blocks.len(), 2);
}

// -- Spending an output ------------------------------------------------------

#[test]
fn an_output_is_spent_by_one_call_alone() {
    let source = utxo_block(101, [0xAB; 32], 1, 20);
    let output = first_transaction_hash(&source);
    let mut blocks = BlockTable::<16>::new();
    let idx = blocks
        .insert(BlockEntry::new(source.hash, NONE_REF, source.sequence))
        .expect("room");
    let marked = vec![idx];
    let reads = vec![Some(source)];
    let ctx = PassContext {
        marked: &marked,
        reads: &reads,
        genesis_anchored: false,
        roster_bounded: false,
        size_limit: MAX_BLOCK_SIZE as u16,
        held: None,
        anchor_key: [0u8; PUBLIC_KEY_SIZE],
        registration_size: REGISTRATION_SIZE,
        vote_failure: None,
    };
    let mut work = WorkingSet::<16, 16> {
        info: NodeInfoState::new(),
        blocks,
        saw_balance: false,
        checks: Vec::new(),
    };
    let spent = |work: &WorkingSet<16, 16>| {
        (0..256)
            .filter(|bit| work.blocks.spent_bit(idx, *bit) == Some(true))
            .collect::<Vec<usize>>()
    };
    for (sequence, index) in [(101, 1), (100, 1), (102, 2), (102, 3)] {
        assert_eq!(
            work.resolve_and_spend_utxo(&ctx, sequence, &output, index),
            Err(ValidationReason::UtxoUnresolvable)
        );
        assert_eq!(spent(&work), vec![]);
    }
    assert_eq!(work.resolve_and_spend_utxo(&ctx, 102, &output, 1), Ok(()));
    assert_eq!(spent(&work).len(), 1);
    let bits = spent(&work);
    assert_eq!(
        work.resolve_and_spend_utxo(&ctx, 102, &output, 1),
        Err(ValidationReason::UtxoAlreadySpent)
    );
    assert_eq!(spent(&work), bits);
}

// -- The course of an acquisition --------------------------------------------

/// A block without its branch count.
type Standing = (u32, [u8; 32], u32, u8, u16, [u8; 32]);

/// What an acquisition came to.
fn came_to(bc: &TestChain) -> (LifecyclePhase, u32, Option<Vec<u8>>, usize, Vec<Standing>) {
    (
        bc.current_phase(),
        bc.active_chain_head_idx,
        bc.held_chain_config_content().map(|content| content.to_vec()),
        bc.passes,
        bc.blocks
            .blocks
            .iter()
            .map(|b| (b.sequence, b.hash, b.parent_ref, b.flags, b.len, b.spent_bits))
            .collect(),
    )
}

#[test]
fn a_restarted_node_takes_the_course_it_would_have_taken() {
    let genesis = node_transfer_block(0, 0, 0, 0);
    let cfg = chain_config_anchor_block(1, genesis.hash);
    let child = salted_linked_block(2, cfg.hash, 1);
    let sibling = salted_linked_block(2, cfg.hash, 2);
    let far = linked_transfer_block(40, [0x77; 32]);
    let other = chain_config_block_from(1, genesis.hash, &mut alt_config_builder());
    let sets: Vec<Vec<&Block>> = vec![
        vec![&genesis, &cfg],
        vec![&cfg, &far, &genesis],
        vec![&other, &child, &sibling, &genesis, &cfg],
        vec![&genesis, &far],
        vec![&far],
    ];
    for set in sets {
        let mut stayed = new_unconfigured_test_chain();
        let mut stopped = new_unconfigured_test_chain();
        for block in &set {
            take_in(&mut stayed, block);
            take_in(&mut stopped, block);
        }
        if stayed.held_chain_config_content().is_some() {
            stayed.acquire();
        }
        let mut restarted = restart(stopped);
        restarted.initialize_from_storage(900);
        assert_eq!(came_to(&restarted), came_to(&stayed));
    }
}

// -- The currency ------------------------------------------------------------

#[test]
fn balances_grow_by_what_is_mined() {
    let (crypto, storage, chain_config) = test_backends();
    let mut founder = new_chain(crypto, storage, chain_config, 0, 0);
    assert!(founder.process_genesis(1_000, &EMPTY_CONFIG_CONTENT).is_ok());
    let zero = founder.read(0).expect("the first block");
    let one = founder.read(1).expect("the configuration");
    let signer = test_signer();
    let two = balance_block(2, one.hash, &[(0, 600, 0, 0xB0), (1, 400, 0, 0xB1)], 1);
    let transfer = |initializer, receiver, amount: u64, fee| NodeTransfer {
        anchor_sequence: 2,
        initializer,
        receiver,
        amount,
        fee,
    };
    let mut h = header(3, PAYLOAD_TYPE_TRANSACTION, two.hash);
    h.mined_amount = 7;
    let three = transaction_block(
        &h,
        vec![
            transfer_tx(1, transfer(0, 1, 100, 3), &signer),
            transfer_tx(0, transfer(1, 0, 50, 1), &signer),
        ],
        &signer,
    );
    let reg = Registration {
        initializer: 1,
        new_node_id: 2,
        registration_price: 5,
        fee: 2,
        new_public_key: [0x31; PUBLIC_KEY_SIZE],
    };
    let mut h = header(4, PAYLOAD_TYPE_TRANSACTION, three.hash);
    h.mined_amount = 4;
    let four = transaction_block(&h, vec![registration_tx(reg, &signer)], &signer);
    let total = |bc: &TestChain| (0..16).map(|id| bc.node_info.balance_of(id)).sum::<u64>();
    let mut bc = new_test_chain();
    let mut tips = Vec::new();
    for block in [&zero, &one, &two, &three, &four] {
        tips.push(take_in(&mut bc, block));
    }
    assert_eq!(bc.run_processing_pass(tips[2]), Ok(()));
    assert_eq!(total(&bc), 1_000);
    assert_eq!(bc.run_processing_pass(tips[3]), Ok(()));
    assert_eq!(total(&bc), 1_000 + 7);
    assert_eq!(bc.node_info.balance_of(1), 400 + 100 - 51);
    assert_eq!(bc.run_processing_pass(tips[4]), Ok(()));
    assert_eq!(total(&bc), 1_000 + 7 + 4 - 5, "the price goes to nobody");
}
