//! Indexing the unspent outputs of a chain of blocks.
//!
//! A block is decoded once into plain values. Its outputs go into a map under
//! the key of their outpoint, and its inputs take the outputs that they spend
//! out again.

pub mod arguments;
pub mod laws;
pub mod outputs;
pub mod stats;
pub mod utxo;

use vstd::prelude::*;
use vstd::string::StringExecFns;

use crate::bytes::{copy_range, push_le32, push_le64, same_bytes};
#[allow(unused_imports)]
use crate::bytes::{le32_bytes, le64_bytes, lemma_le_fields};
#[allow(unused_imports)]
use crate::config::KEY_SIZE;
#[allow(unused_imports)]
use crate::error::describes;
use crate::error::Error;
#[allow(unused_imports)]
use crate::outcomes::key_defect;
use crate::text::{append_decimal, append_reversed_hex};
#[allow(unused_imports)]
use crate::text::{decimal, reversed_hex};

verus! {

/// Bytes of a whole outpoint.
pub const OUTPOINT_KEY_SIZE: usize = 36;

/// Bytes of an output value before its script.
pub const OUTPUT_FIXED_SIZE: usize = 16;

/// Longest script that can still be spent.
pub const MAX_SCRIPT_SIZE: usize = 10_000;

/// Bytes of the header that an encoded block begins with.
pub const BLOCK_HEADER_SIZE: usize = 80;

/// The opcode that makes an output unspendable.
pub const OP_RETURN: u8 = 0x6a;

/// A failure while a chain is loaded into the index.
#[derive(Debug)]
pub enum LoadError {
    /// An argument or an input value is not acceptable.
    InvalidInput(&'static str),
    /// A number in the arguments or the environment cannot be read.
    InvalidNumber { name: &'static str, value: String, reason: &'static str },
    /// Stored or shared data is not as it was left.
    InvalidData(&'static str),
    /// A read ended before its last byte.
    Truncated(&'static str),
    /// The work was aborted elsewhere.
    Interrupted(&'static str),
    /// The chain and the index disagree.
    Inconsistent(&'static str),
    /// An input spends an output that the index does not have.
    MissingOutpoint(OutPoint),
    /// The index and Bitcoin Core count different outputs.
    CountMismatch { index: u64, core: u64 },
    /// The bytes of a block cannot be decoded.
    Block(String),
    /// The database refused an operation.
    Database(Error),
}

/// Whether a text is the description of an error.
pub open spec fn describes_load(text: Seq<char>, error: LoadError) -> bool {
    match error {
        LoadError::InvalidInput(message) => text == message@,
        LoadError::InvalidNumber { name, value, reason } => text == "invalid "@ + name@ + " '"@
            + value@ + "': "@ + reason@,
        LoadError::InvalidData(message) => text == message@,
        LoadError::Truncated(message) => text == message@,
        LoadError::Interrupted(message) => text == message@,
        LoadError::Inconsistent(message) => text == message@,
        LoadError::MissingOutpoint(outpoint) => text == "input references missing outpoint "@
            + reversed_hex(outpoint.txid@, outpoint.txid@.len()) + ":"@ + decimal(
            outpoint.vout as nat,
        ),
        LoadError::CountMismatch { index, core } => text == "UTXO count mismatch: index="@
            + decimal(index as nat) + " core="@ + decimal(core as nat),
        LoadError::Block(message) => text == message@,
        LoadError::Database(error) => describes(text, error),
    }
}

impl LoadError {
    /// Describes the failure in one sentence.
    pub fn message(&self) -> (text: String)
        ensures
            describes_load(text@, *self),
    {
        match self {
            LoadError::InvalidInput(message) => str_text(message),
            LoadError::InvalidNumber { name, value, reason } => {
                let mut text = "invalid ".to_owned();
                text.append(name);
                text.append(" '");
                text.append(value.as_str());
                text.append("': ");
                text.append(reason);
                text
            },
            LoadError::InvalidData(message) => str_text(message),
            LoadError::Truncated(message) => str_text(message),
            LoadError::Interrupted(message) => str_text(message),
            LoadError::Inconsistent(message) => str_text(message),
            LoadError::MissingOutpoint(outpoint) => {
                let mut text = "input references missing outpoint ".to_owned();
                append_reversed_hex(&mut text, outpoint.txid.as_slice());
                text.append(":");
                append_decimal(&mut text, outpoint.vout as u64);
                text
            },
            LoadError::CountMismatch { index, core } => {
                let mut text = "UTXO count mismatch: index=".to_owned();
                append_decimal(&mut text, *index);
                text.append(" core=");
                append_decimal(&mut text, *core);
                text
            },
            LoadError::Block(message) => message.clone(),
            LoadError::Database(error) => error.message(),
        }
    }
}

fn str_text(text: &str) -> (copy: String)
    ensures
        copy@ == text@,
{
    text.to_owned()
}

/// A reference to one output of a transaction.
#[derive(Clone, Copy, Debug, PartialEq, Eq)]
pub struct OutPoint {
    pub txid: [u8; 32],
    pub vout: u32,
}

/// An input of a transaction, without its witness.
pub struct TxIn {
    pub previous_output: OutPoint,
    pub script_sig: Vec<u8>,
    pub sequence: u32,
}

/// An output of a transaction.
pub struct TxOut {
    /// The amount in satoshis.
    pub value: u64,
    pub script_pubkey: Vec<u8>,
}

/// A transaction, without its witness.
pub struct Transaction {
    pub version: i32,
    pub lock_time: u32,
    pub input: Vec<TxIn>,
    pub output: Vec<TxOut>,
}

/// The model of an outpoint.
#[verifier::ext_equal]
pub struct OutPointModel {
    pub txid: Seq<u8>,
    pub vout: u32,
}

/// The model of an input.
#[verifier::ext_equal]
pub struct TxInModel {
    pub previous_output: OutPointModel,
    pub script_sig: Seq<u8>,
    pub sequence: u32,
}

/// The model of an output.
#[verifier::ext_equal]
pub struct TxOutModel {
    pub value: u64,
    pub script_pubkey: Seq<u8>,
}

/// The model of a transaction.
#[verifier::ext_equal]
pub struct TransactionModel {
    pub version: i32,
    pub lock_time: u32,
    pub input: Seq<TxInModel>,
    pub output: Seq<TxOutModel>,
}

impl View for OutPoint {
    type V = OutPointModel;

    open spec fn view(&self) -> OutPointModel {
        OutPointModel { txid: self.txid@, vout: self.vout }
    }
}

impl View for TxIn {
    type V = TxInModel;

    open spec fn view(&self) -> TxInModel {
        TxInModel {
            previous_output: self.previous_output@,
            script_sig: self.script_sig@,
            sequence: self.sequence,
        }
    }
}

impl View for TxOut {
    type V = TxOutModel;

    open spec fn view(&self) -> TxOutModel {
        TxOutModel { value: self.value, script_pubkey: self.script_pubkey@ }
    }
}

impl View for Transaction {
    type V = TransactionModel;

    open spec fn view(&self) -> TransactionModel {
        TransactionModel {
            version: self.version,
            lock_time: self.lock_time,
            input: Seq::new(self.input@.len(), |i: int| self.input@[i]@),
            output: Seq::new(self.output@.len(), |i: int| self.output@[i]@),
        }
    }
}

/// The transactions of a list.
pub open spec fn models(transactions: Seq<Transaction>) -> Seq<TransactionModel> {
    Seq::new(transactions.len(), |i: int| transactions[i]@)
}

/// The transactions that the consensus encoding of a block holds, or what is
/// wrong with the bytes.
pub uninterp spec fn decoded_block(encoded: Seq<u8>) -> Result<Seq<TransactionModel>, Seq<char>>;

/// The hash by which a transaction is referred to.
pub uninterp spec fn transaction_id(transaction: TransactionModel) -> Seq<u8>;

/// Decodes a block with `bitcoin::consensus::deserialize`.
///
/// Trusted: what comes back, the text of an error too, depends on the bytes
/// alone; it is named `decoded_block`.
#[verifier::external_body]
fn deserialize_block(encoded: &[u8]) -> (result: Result<Vec<Transaction>, String>)
    ensures
        match decoded_block(encoded@) {
            Ok(transactions) => result is Ok && models(result->Ok_0@) == transactions,
            Err(text) => result is Err && result->Err_0@ == text,
        },
{
    let decoded = bitcoin::consensus::deserialize::<bitcoin::Block>(encoded);
    let block = decoded.map_err(|error| error.to_string())?;
    Ok(block.txdata.into_iter().map(|transaction| Transaction {
        version: transaction.version.0,
        lock_time: transaction.lock_time.to_consensus_u32(),
        input: transaction.input.into_iter().map(|input| TxIn {
            previous_output: OutPoint { txid: bitcoin::hashes::Hash::to_byte_array(input.previous_output.txid), vout: input.previous_output.vout },
            script_sig: input.script_sig.into_bytes(),
            sequence: input.sequence.0,
        }).collect(),
        output: transaction.output.into_iter().map(|output| TxOut {
            value: output.value.to_sat(),
            script_pubkey: output.script_pubkey.into_bytes(),
        }).collect(),
    }).collect())
}

/// Hashes a transaction with `bitcoin::Transaction::compute_txid`.
///
/// Trusted: the hash has 32 bytes and depends on the transaction without its
/// witness alone; it is named `transaction_id`.
#[verifier::external_body]
fn compute_txid(transaction: &Transaction) -> (txid: [u8; 32])
    ensures
        txid@ == transaction_id(transaction@),
{
    let transaction = bitcoin::Transaction {
        version: bitcoin::transaction::Version(transaction.version),
        lock_time: bitcoin::absolute::LockTime::from_consensus(transaction.lock_time),
        input: transaction.input.iter().map(|input| bitcoin::TxIn {
            previous_output: bitcoin::OutPoint::new(bitcoin::hashes::Hash::from_byte_array(input.previous_output.txid), input.previous_output.vout),
            script_sig: bitcoin::ScriptBuf::from_bytes(input.script_sig.clone()),
            sequence: bitcoin::Sequence(input.sequence),
            witness: Default::default(),
        }).collect(),
        output: transaction.output.iter().map(|output| bitcoin::TxOut {
            value: bitcoin::Amount::from_sat(output.value),
            script_pubkey: bitcoin::ScriptBuf::from_bytes(output.script_pubkey.clone()),
        }).collect(),
    };
    bitcoin::hashes::Hash::to_byte_array(transaction.compute_txid())
}

/// The hash of the block that has this encoded header; none where the bytes
/// are no header.
pub uninterp spec fn header_hash(encoded: Seq<u8>) -> Option<Seq<u8>>;

/// Hashes an encoded header with `bitcoin::block::Header::block_hash`.
///
/// Trusted: the hash has 32 bytes and depends on the bytes alone; it is named
/// `header_hash`.
#[verifier::external_body]
fn block_hash(encoded: &[u8]) -> (hash: Option<[u8; 32]>)
    ensures
        match header_hash(encoded@) {
            Some(bytes) => hash is Some && hash->0@ == bytes,
            None => hash is None,
        },
{
    let header: bitcoin::block::Header = bitcoin::consensus::deserialize(encoded).ok()?;
    Some(bitcoin::hashes::Hash::to_byte_array(header.block_hash()))
}

/// Decodes a block that was asked for by its hash, and then checks that it is that
/// block.
pub fn receive_block(encoded: &[u8], expected_hash: &[u8]) -> (result: Result<
    Vec<Transaction>,
    LoadError,
>)
    ensures
        match decoded_block(encoded@) {
            Err(text) => result matches Err(LoadError::Block(shown)) && shown@ == text,
            Ok(transactions) => if encoded@.len() < BLOCK_HEADER_SIZE || header_hash(
                encoded@.take(BLOCK_HEADER_SIZE as int),
            ) != Some(expected_hash@) {
                result == Err::<Vec<Transaction>, LoadError>(
                    LoadError::Inconsistent("RPC returned a block with the wrong hash"),
                )
            } else {
                result is Ok && models(result->Ok_0@) == transactions
            },
        },
{
    let transactions = match decode_block(encoded) {
        Ok(transactions) => transactions,
        Err(error) => {
            return Err(error);
        },
    };
    let hash: Option<[u8; 32]> = if encoded.len() < BLOCK_HEADER_SIZE {
        None
    } else {
        let header = copy_range(encoded, 0, BLOCK_HEADER_SIZE);
        assert(header@ =~= encoded@.take(BLOCK_HEADER_SIZE as int));
        block_hash(header.as_slice())
    };
    match check_block_hash(hash, expected_hash) {
        Ok(_) => Ok(transactions),
        Err(error) => Err(error),
    }
}

/// Checks the hash of a block, if it has one, against the one asked for.
pub fn check_block_hash(hash: Option<[u8; 32]>, expected_hash: &[u8]) -> (result: Result<
    (),
    LoadError,
>)
    ensures
        result == (if hash is Some && hash->0@ == expected_hash@ {
            Ok::<(), LoadError>(())
        } else {
            Err(LoadError::Inconsistent("RPC returned a block with the wrong hash"))
        }),
{
    let same: bool = match hash {
        Some(bytes) => same_bytes(bytes.as_slice(), expected_hash),
        None => false,
    };
    if same {
        Ok(())
    } else {
        Err(LoadError::Inconsistent("RPC returned a block with the wrong hash"))
    }
}

/// Decodes the transactions of a block.
pub fn decode_block(encoded: &[u8]) -> (result: Result<Vec<Transaction>, LoadError>)
    ensures
        match decoded_block(encoded@) {
            Ok(transactions) => result is Ok && models(result->Ok_0@) == transactions,
            Err(text) => result matches Err(LoadError::Block(shown)) && shown@ == text,
        },
{
    match deserialize_block(encoded) {
        Ok(transactions) => Ok(transactions),
        Err(error) => Err(LoadError::Block(error)),
    }
}

/// Whether an outpoint is the one that coinbase inputs have.
pub open spec fn null_outpoint(outpoint: OutPointModel) -> bool {
    &&& outpoint.vout == u32::MAX
    &&& forall|i: int| 0 <= i < outpoint.txid.len() ==> #[trigger] outpoint.txid[i] == 0
}

/// Whether a transaction creates its amount instead of spending it.
pub open spec fn coinbase(transaction: TransactionModel) -> bool {
    transaction.input.len() == 1 && null_outpoint(transaction.input[0].previous_output)
}

/// Whether an output of a block at `height` can be spent later.
pub open spec fn indexable(height: u64, output: TxOutModel) -> bool {
    &&& height != 0
    &&& output.script_pubkey.len() <= MAX_SCRIPT_SIZE
    &&& !(output.script_pubkey.len() > 0 && output.script_pubkey[0] == OP_RETURN)
}

/// The bytes of a whole outpoint.
pub open spec fn outpoint_bytes(outpoint: OutPointModel) -> Seq<u8> {
    outpoint.txid + le32_bytes(outpoint.vout)
}

/// The key of an outpoint in the database.
pub open spec fn index_bytes(outpoint: OutPointModel) -> Seq<u8> {
    outpoint.txid.take(12) + le32_bytes(outpoint.vout)
}

/// The value that is stored for an output.
pub open spec fn stored_output(output: TxOutModel, height: u32) -> Seq<u8> {
    le64_bytes(output.value) + le32_bytes(height) + le32_bytes(output.script_pubkey.len() as u32)
        + output.script_pubkey
}

impl OutPoint {
    /// Whether this is the outpoint that coinbase inputs have.
    pub fn is_null(&self) -> (null: bool)
        ensures
            null == null_outpoint(self@),
    {
        if self.vout != u32::MAX {
            return false;
        }
        let mut i: usize = 0;
        while i < 32
            invariant
                i <= 32,
                self.txid@.len() == 32,
                forall|j: int| 0 <= j < i ==> #[trigger] self.txid@[j] == 0,
            decreases 32 - i,
        {
            if self.txid[i] != 0 {
                assert(self@.txid[i as int] != 0);
                return false;
            }
            i = i + 1;
        }
        true
    }
}

impl Transaction {
    /// Whether the transaction creates its amount instead of spending it.
    pub fn is_coinbase(&self) -> (result: bool)
        ensures
            result == coinbase(self@),
    {
        self.input.len() == 1 && self.input[0].previous_output.is_null()
    }
}

/// The bytes of an outpoint: the transaction, and the output index with its
/// least significant byte first.
pub fn outpoint_key(outpoint: OutPoint) -> (key: Vec<u8>)
    ensures
        key@ == outpoint_bytes(outpoint@),
        key@.len() == OUTPOINT_KEY_SIZE,
{
    let mut key: Vec<u8> = Vec::new();
    key.extend_from_slice(outpoint.txid.as_slice());
    push_le32(&mut key, outpoint.vout);
    proof {
        lemma_le_fields();
        assert(key@ =~= outpoint_bytes(outpoint@));
    }
    key
}

/// A whole outpoint is no key of a database; what is left of it without the last
/// twenty bytes of the transaction is one.
pub proof fn law_index_key_fits(outpoint: OutPointModel)
    requires
        outpoint.txid.len() == 32,
    ensures
        key_defect(outpoint_bytes(outpoint)) == Some(
            Error::InvalidKeyLength { expected: KEY_SIZE, actual: OUTPOINT_KEY_SIZE },
        ),
        key_defect(index_bytes(outpoint)) is None,
        index_bytes(outpoint) == outpoint_bytes(outpoint).take(12) + outpoint_bytes(outpoint).skip(
            32,
        ),
{
    lemma_le_fields();
    let whole = outpoint_bytes(outpoint);
    assert(whole.take(12) =~= outpoint.txid.take(12));
    assert(whole.skip(32) =~= le32_bytes(outpoint.vout));
}

/// The key of an outpoint in the database, whose keys are shorter than a whole
/// outpoint: twelve bytes of the transaction, and the output index.
pub fn index_key(outpoint: OutPoint) -> (key: Vec<u8>)
    ensures
        key@ == index_bytes(outpoint@),
        key@.len() == KEY_SIZE,
{
    let mut key: Vec<u8> = Vec::new();
    let mut i: usize = 0;
    while i < 12
        invariant
            i <= 12,
            outpoint.txid@.len() == 32,
            key@ == outpoint.txid@.take(i as int),
        decreases 12 - i,
    {
        key.push(outpoint.txid[i]);
        i = i + 1;
        assert(key@ =~= outpoint.txid@.take(i as int));
    }
    push_le32(&mut key, outpoint.vout);
    proof {
        lemma_le_fields();
    }
    key
}

/// Whether an output of a block at `height` belongs into the index.
///
/// The outputs of the first block cannot be spent, nor can those with a long
/// script or one that returns at once.
pub fn should_index_output(height: u64, output: &TxOut) -> (index: bool)
    ensures
        index == indexable(height, output@),
{
    height != 0 && output.script_pubkey.len() <= MAX_SCRIPT_SIZE && !(output.script_pubkey.len()
        > 0 && output.script_pubkey[0] == OP_RETURN)
}

/// Encodes what the index stores for an output: amount, height, script length
/// and script.
pub fn output_value(output: &TxOut, height: u32) -> (result: Result<Vec<u8>, LoadError>)
    ensures
        if output.script_pubkey@.len() > u32::MAX {
            result == Err::<Vec<u8>, LoadError>(
                LoadError::InvalidInput("output script length exceeds u32"),
            )
        } else if OUTPUT_FIXED_SIZE + output.script_pubkey@.len() > usize::MAX {
            result == Err::<Vec<u8>, LoadError>(
                LoadError::InvalidInput("output value length overflow"),
            )
        } else {
            result is Ok && result->Ok_0@ == stored_output(output@, height)
        },
{
    let length: usize = output.script_pubkey.len();
    if length as u64 > u32::MAX as u64 {
        return Err(LoadError::InvalidInput("output script length exceeds u32"));
    }
    if OUTPUT_FIXED_SIZE.checked_add(length).is_none() {
        return Err(LoadError::InvalidInput("output value length overflow"));
    }
    let mut value: Vec<u8> = Vec::new();
    push_le64(&mut value, output.value);
    push_le32(&mut value, height);
    push_le32(&mut value, length as u32);
    value.extend_from_slice(output.script_pubkey.as_slice());
    proof {
        assert(value@ =~= stored_output(output@, height));
    }
    Ok(value)
}

/// An output on its way into the index.
pub struct IndexedOutput {
    pub key: Vec<u8>,
    pub value: Vec<u8>,
    /// Whether a coinbase transaction has it.
    pub coinbase: bool,
}

/// The model of an output on its way into the index.
#[verifier::ext_equal]
pub struct IndexedOutputModel {
    pub key: Seq<u8>,
    pub value: Seq<u8>,
    pub coinbase: bool,
}

impl View for IndexedOutput {
    type V = IndexedOutputModel;

    open spec fn view(&self) -> IndexedOutputModel {
        IndexedOutputModel { key: self.key@, value: self.value@, coinbase: self.coinbase }
    }
}

/// The outputs of a list.
pub open spec fn output_models(outputs: Seq<IndexedOutput>) -> Seq<IndexedOutputModel> {
    Seq::new(outputs.len(), |i: int| outputs[i]@)
}

/// What the index takes of output `vout` of the transaction `txid`.
pub open spec fn indexed_output(
    transaction: TransactionModel,
    txid: Seq<u8>,
    vout: int,
    height: u64,
) -> IndexedOutputModel {
    IndexedOutputModel {
        key: index_bytes(OutPointModel { txid, vout: vout as u32 }),
        value: stored_output(transaction.output[vout], height as u32),
        coinbase: coinbase(transaction),
    }
}

/// What the index takes of the first `n` outputs of the transaction `txid`.
pub open spec fn transaction_outputs(
    transaction: TransactionModel,
    txid: Seq<u8>,
    height: u64,
    n: nat,
) -> Seq<IndexedOutputModel>
    decreases n,
{
    if n == 0 {
        Seq::empty()
    } else {
        let before = transaction_outputs(transaction, txid, height, (n - 1) as nat);
        if indexable(height, transaction.output[n - 1]) {
            before.push(indexed_output(transaction, txid, n - 1, height))
        } else {
            before
        }
    }
}

/// What the index takes of the first `n` transactions of a block.
pub open spec fn outputs_of(transactions: Seq<TransactionModel>, height: u64, n: nat) -> Seq<
    IndexedOutputModel,
>
    decreases n,
{
    if n == 0 {
        Seq::empty()
    } else {
        outputs_of(transactions, height, (n - 1) as nat) + transaction_outputs(
            transactions[n - 1],
            transaction_id(transactions[n - 1]),
            height,
            transactions[n - 1].output.len(),
        )
    }
}

/// Whether a transaction has an output for the index whose number is too large.
pub open spec fn too_many_outputs(transaction: TransactionModel, height: u64) -> bool {
    exists|i: int|
        u32::MAX < i < transaction.output.len() && #[trigger] indexable(
            height,
            transaction.output[i],
        )
}

/// What stands in the way of indexing the outputs of a block, if anything.
pub open spec fn outputs_defect(transactions: Seq<TransactionModel>, height: u64) -> Option<
    LoadError,
> {
    if height > u32::MAX {
        Some(LoadError::InvalidInput("block height does not fit output value"))
    } else if exists|i: int|
        0 <= i < transactions.len() && #[trigger] too_many_outputs(transactions[i], height) {
        Some(LoadError::InvalidInput("transaction output index exceeds u32"))
    } else {
        None
    }
}

/// Collects what the index takes of the transaction `txid`.
pub fn append_outputs(
    transaction: &Transaction,
    txid: [u8; 32],
    height: u32,
    outputs: &mut Vec<IndexedOutput>,
) -> (result: Result<(), LoadError>)
    ensures
        if too_many_outputs(transaction@, height as u64) {
            result == Err::<(), LoadError>(
                LoadError::InvalidInput("transaction output index exceeds u32"),
            )
        } else {
            &&& result == Ok::<(), LoadError>(())
            &&& output_models(final(outputs)@) == output_models(old(outputs)@)
                + transaction_outputs(
                transaction@,
                txid@,
                height as u64,
                transaction@.output.len(),
            )
        },
{
    let from_coinbase: bool = transaction.is_coinbase();
    let mut vout: usize = 0;
    proof {
        assert(output_models(outputs@) =~= output_models(old(outputs)@) + transaction_outputs(
            transaction@,
            txid@,
            height as u64,
            0,
        ));
    }
    while vout < transaction.output.len()
        invariant
            vout <= transaction.output@.len(),
            from_coinbase == coinbase(transaction@),
            forall|i: int|
                u32::MAX < i < vout ==> !#[trigger] indexable(
                    height as u64,
                    transaction@.output[i],
                ),
            output_models(outputs@) == output_models(old(outputs)@) + transaction_outputs(
                transaction@,
                txid@,
                height as u64,
                vout as nat,
            ),
        decreases transaction.output@.len() - vout,
    {
        let output = &transaction.output[vout];
        let ghost before = outputs@;
        assert(transaction@.output[vout as int] == output@);
        if should_index_output(height as u64, output) {
            if vout as u64 > u32::MAX as u64 {
                assert(indexable(height as u64, transaction@.output[vout as int]));
                return Err(LoadError::InvalidInput("transaction output index exceeds u32"));
            }
            let outpoint = OutPoint { txid, vout: vout as u32 };
            let key = index_key(outpoint);
            let value = output_value(output, height)?;
            let ghost next = indexed_output(transaction@, txid@, vout as int, height as u64);
            assert(outpoint@ =~= OutPointModel { txid: txid@, vout: vout as u32 });
            outputs.push(IndexedOutput { key, value, coinbase: from_coinbase });
            assert(output_models(outputs@) =~= output_models(before).push(next));
            assert(output_models(before).push(next) =~= output_models(old(outputs)@)
                + transaction_outputs(transaction@, txid@, height as u64, vout as nat).push(next));
        }
        vout = vout + 1;
    }
    Ok(())
}

/// Collects what the index takes of a block, in the order of the block.
pub fn block_outputs(transactions: &Vec<Transaction>, height: u64) -> (result: Result<
    Vec<IndexedOutput>,
    LoadError,
>)
    ensures
        match outputs_defect(models(transactions@), height) {
            Some(error) => result == Err::<Vec<IndexedOutput>, LoadError>(error),
            None => result is Ok && output_models(result->Ok_0@) == outputs_of(
                models(transactions@),
                height,
                transactions@.len(),
            ),
        },
{
    if height > u32::MAX as u64 {
        return Err(LoadError::InvalidInput("block height does not fit output value"));
    }
    let mut outputs: Vec<IndexedOutput> = Vec::new();
    let mut next: usize = 0;
    proof {
        assert(output_models(outputs@) =~= outputs_of(models(transactions@), height, 0));
    }
    while next < transactions.len()
        invariant
            height <= u32::MAX,
            next <= transactions@.len(),
            forall|i: int|
                0 <= i < next ==> !#[trigger] too_many_outputs(models(transactions@)[i], height),
            output_models(outputs@) == outputs_of(models(transactions@), height, next as nat),
        decreases transactions@.len() - next,
    {
        assert(models(transactions@)[next as int] == transactions@[next as int]@);
        let txid = compute_txid(&transactions[next]);
        append_outputs(&transactions[next], txid, height as u32, &mut outputs)?;
        next = next + 1;
    }
    Ok(outputs)
}

/// The outpoints that the first `n` inputs of a transaction spend.
pub open spec fn transaction_inputs(transaction: Transaction, n: nat) -> Seq<OutPoint>
    decreases n,
{
    if n == 0 {
        Seq::empty()
    } else {
        let before = transaction_inputs(transaction, (n - 1) as nat);
        let spent = transaction.input@[n - 1].previous_output;
        if null_outpoint(spent@) {
            before
        } else {
            before.push(spent)
        }
    }
}

/// The outpoints that the first `n` transactions of a block spend.
pub open spec fn inputs_of(transactions: Seq<Transaction>, n: nat) -> Seq<OutPoint>
    decreases n,
{
    if n == 0 {
        Seq::empty()
    } else {
        inputs_of(transactions, (n - 1) as nat) + transaction_inputs(
            transactions[n - 1],
            transactions[n - 1].input@.len(),
        )
    }
}

/// Collects the outpoints that a block spends, in the order of the block.
pub fn block_inputs(transactions: &Vec<Transaction>) -> (spent: Vec<OutPoint>)
    ensures
        spent@ == inputs_of(transactions@, transactions@.len()),
{
    let mut spent: Vec<OutPoint> = Vec::new();
    let mut next: usize = 0;
    while next < transactions.len()
        invariant
            next <= transactions@.len(),
            spent@ == inputs_of(transactions@, next as nat),
        decreases transactions@.len() - next,
    {
        let transaction = &transactions[next];
        let ghost before = spent@;
        let mut index: usize = 0;
        assert(spent@ =~= before + transaction_inputs(*transaction, 0));
        while index < transaction.input.len()
            invariant
                index <= transaction.input@.len(),
                spent@ == before + transaction_inputs(*transaction, index as nat),
            decreases transaction.input@.len() - index,
        {
            let outpoint = transaction.input[index].previous_output;
            let ghost sofar = transaction_inputs(*transaction, index as nat);
            if !outpoint.is_null() {
                spent.push(outpoint);
                assert(spent@ =~= before + sofar.push(outpoint));
            }
            index = index + 1;
        }
        next = next + 1;
    }
    spent
}

/// How errors are described: each kind around what the error tells.
pub proof fn law_load_descriptions(text: Seq<char>, error: LoadError)
    requires
        describes_load(text, error),
    ensures
        error matches LoadError::InvalidInput(message) ==> text == message@,
        error matches LoadError::InvalidData(message) ==> text == message@,
        error matches LoadError::Truncated(message) ==> text == message@,
        error matches LoadError::Interrupted(message) ==> text == message@,
        error matches LoadError::Inconsistent(message) ==> text == message@,
        error matches LoadError::Block(message) ==> text == message@,
        error matches LoadError::Database(inner) ==> describes(text, inner),
        error matches LoadError::InvalidNumber { name, value, reason } ==> text == "invalid "@
            + name@ + " '"@ + value@ + "': "@ + reason@,
        error matches LoadError::MissingOutpoint(outpoint) ==> text
            == "input references missing outpoint "@ + reversed_hex(outpoint.txid@, 32) + ":"@
            + decimal(outpoint.vout as nat),
        error matches LoadError::CountMismatch { index, core } ==> text
            == "UTXO count mismatch: index="@ + decimal(index as nat) + " core="@ + decimal(
            core as nat,
        ),
{
}

/// Transactions and outputs are looked at in their order.
pub proof fn law_views_in_order(
    transactions: Seq<Transaction>,
    outputs: Seq<IndexedOutput>,
    index: int,
)
    requires
        0 <= index < transactions.len(),
        index < outputs.len(),
    ensures
        models(transactions).len() == transactions.len(),
        models(transactions)[index] == transactions[index]@,
        output_models(outputs).len() == outputs.len(),
        output_models(outputs)[index] == outputs[index]@,
{
}

/// The numbers that the index goes by.
pub proof fn law_fixed_sizes()
    ensures
        OUTPOINT_KEY_SIZE == 36,
        OUTPUT_FIXED_SIZE == 16,
        BLOCK_HEADER_SIZE == 80,
        MAX_SCRIPT_SIZE == 10_000,
        OP_RETURN == 0x6a,
{
}

} // verus!
