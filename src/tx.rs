//! What the report reads from a raw transaction, decoded by rust-bitcoin and
//! classified by rawtx-rs.
use vstd::prelude::*;
use rawtx_rs::bitcoin;
use rawtx_rs::tx::TxInfo;
use crate::kinds::texts;

verus! {

/// A reference to an output of an earlier transaction.
#[derive(Clone, Copy, Debug)]
pub struct Outpoint {
    /// The id of the transaction holding the output, in internal byte order.
    pub txid: [u8; 32],
    /// The index of the output in that transaction.
    pub vout: u32,
}

/// One input of a transaction: what it spends and its sequence number.
#[derive(Clone, Copy, Debug)]
pub struct TxInput {
    pub previous_output: Outpoint,
    pub sequence: u32,
}

/// Sequence numbers from this value up do not signal replaceability.
pub const MIN_NO_RBF_SEQUENCE: u32 = 0xFFFF_FFFE;

/// What the report needs to know of one transaction.
#[derive(Clone, Debug)]
pub struct TransactionFacts {
    /// The transaction id, in internal byte order.
    pub txid: [u8; 32],
    /// The inputs, in order.
    pub inputs: Vec<TxInput>,
    /// Whether an output is a provably unspendable data carrier.
    pub op_return: bool,
    /// The type label of each input, in order.
    pub input_types: Vec<String>,
    /// The type label of each output, in order.
    pub output_types: Vec<String>,
}

/// Why raw transaction bytes could not be turned into [`TransactionFacts`].
#[derive(Clone, Copy, Debug, PartialEq, Eq)]
pub enum DecodeError {
    /// The bytes are not a well-formed transaction encoding.
    Malformed,
    /// The transaction decoded, but its inputs or outputs could not be classified.
    Unclassifiable,
}

/// Whether `raw` is a complete consensus encoding of one transaction.
pub uninterp spec fn is_transaction_encoding(raw: Seq<u8>) -> bool;

/// The id of the transaction encoded by `raw`, in internal byte order.
pub uninterp spec fn txid_of(raw: Seq<u8>) -> Seq<u8>;

/// The inputs of the transaction encoded by `raw`, in order.
pub uninterp spec fn inputs_of(raw: Seq<u8>) -> Seq<TxInput>;

/// Whether rawtx-rs can classify every input and output of the transaction
/// encoded by `raw`.
pub uninterp spec fn rawtx_accepts(raw: Seq<u8>) -> bool;

/// Whether rawtx-rs finds an OP_RETURN output in the transaction encoded by `raw`.
pub uninterp spec fn op_return_of(raw: Seq<u8>) -> bool;

/// rawtx-rs's type label of each input of the transaction encoded by `raw`.
pub uninterp spec fn input_labels_of(raw: Seq<u8>) -> Seq<Seq<char>>;

/// rawtx-rs's type label of each output of the transaction encoded by `raw`.
pub uninterp spec fn output_labels_of(raw: Seq<u8>) -> Seq<Seq<char>>;

/// Relies on `bitcoin::consensus::encode::deserialize` (success depends on
/// the bytes alone) and `Transaction::compute_txid`.
#[verifier::external_body]
fn decoded_txid(raw: &[u8]) -> (r: Option<[u8; 32]>)
    ensures
        r is Some <==> is_transaction_encoding(raw@),
        r matches Some(id) ==> id@ == txid_of(raw@),
{
    match bitcoin::consensus::encode::deserialize::<bitcoin::Transaction>(raw) {
        Ok(tx) => Some(bitcoin::hashes::Hash::to_byte_array(tx.compute_txid())),
        Err(_) => None,
    }
}

/// Relies on `bitcoin::consensus::encode::deserialize` and the `input` field
/// of `bitcoin::Transaction`: each input's previous outpoint and sequence
/// number, in order.
#[verifier::external_body]
fn decoded_inputs(raw: &[u8]) -> (r: Option<Vec<TxInput>>)
    ensures
        r is Some <==> is_transaction_encoding(raw@),
        r matches Some(v) ==> v@ == inputs_of(raw@),
{
    match bitcoin::consensus::encode::deserialize::<bitcoin::Transaction>(raw) {
        Ok(tx) => Some(tx.input.iter().map(|i| TxInput {
            previous_output: Outpoint {
                txid: bitcoin::hashes::Hash::to_byte_array(i.previous_output.txid),
                vout: i.previous_output.vout,
            },
            sequence: i.sequence.0,
        }).collect()),
        Err(_) => None,
    }
}

/// Relies on `TxInfo::new` of rawtx-rs and on the `Display` label of each
/// input's `InputType`, in order.
#[verifier::external_body]
fn classified_input_labels(raw: &[u8]) -> (r: Option<Vec<String>>)
    ensures
        r is Some <==> (is_transaction_encoding(raw@) && rawtx_accepts(raw@)),
        r matches Some(v) ==> texts(v@) == input_labels_of(raw@),
{
    let tx = match bitcoin::consensus::encode::deserialize::<bitcoin::Transaction>(raw) {
        Ok(tx) => tx,
        Err(_) => return None,
    };
    match TxInfo::new(&tx) {
        Ok(info) => Some(info.input_infos.iter().map(|i| i.in_type.to_string()).collect()),
        Err(_) => None,
    }
}

/// Relies on `TxInfo::new` of rawtx-rs and on the `Display` label of each
/// output's `OutputType`, in order.
#[verifier::external_body]
fn classified_output_labels(raw: &[u8]) -> (r: Option<Vec<String>>)
    ensures
        r is Some <==> (is_transaction_encoding(raw@) && rawtx_accepts(raw@)),
        r matches Some(v) ==> texts(v@) == output_labels_of(raw@),
{
    let tx = match bitcoin::consensus::encode::deserialize::<bitcoin::Transaction>(raw) {
        Ok(tx) => tx,
        Err(_) => return None,
    };
    match TxInfo::new(&tx) {
        Ok(info) => Some(info.output_infos.iter().map(|o| o.out_type.to_string()).collect()),
        Err(_) => None,
    }
}

/// Relies on `TxInfo::new` and `TxInfo::has_opreturn_output` of rawtx-rs.
#[verifier::external_body]
fn classified_op_return(raw: &[u8]) -> (r: Option<bool>)
    ensures
        r is Some <==> (is_transaction_encoding(raw@) && rawtx_accepts(raw@)),
        r matches Some(b) ==> b == op_return_of(raw@),
{
    let tx = match bitcoin::consensus::encode::deserialize::<bitcoin::Transaction>(raw) {
        Ok(tx) => tx,
        Err(_) => return None,
    };
    match TxInfo::new(&tx) {
        Ok(info) => Some(info.has_opreturn_output()),
        Err(_) => None,
    }
}

/// Whether `raw` decodes into a transaction that rawtx-rs can classify.
pub open spec fn is_decodable(raw: Seq<u8>) -> bool {
    is_transaction_encoding(raw) && rawtx_accepts(raw)
}

/// `f` holds what the report reads of the transaction encoded by `raw`.
pub open spec fn is_facts_of(f: TransactionFacts, raw: Seq<u8>) -> bool {
    &&& f.txid@ == txid_of(raw)
    &&& f.inputs@ == inputs_of(raw)
    &&& f.op_return == op_return_of(raw)
    &&& texts(f.input_types@) == input_labels_of(raw)
    &&& texts(f.output_types@) == output_labels_of(raw)
}

/// Decodes raw transaction bytes and gathers the facts the report reads.
/// Fails with `Malformed` when the bytes are no transaction, and with
/// `Unclassifiable` when rawtx-rs cannot classify it.
pub fn transaction_facts(raw: &[u8]) -> (r: Result<TransactionFacts, DecodeError>)
    ensures
        r is Ok <==> is_decodable(raw@),
        r == Err::<TransactionFacts, DecodeError>(DecodeError::Malformed) <==> !is_transaction_encoding(raw@),
        r matches Ok(f) ==> is_facts_of(f, raw@),
{
    let txid = match decoded_txid(raw) {
        Some(id) => id,
        None => return Err(DecodeError::Malformed),
    };
    let inputs = match decoded_inputs(raw) {
        Some(v) => v,
        None => return Err(DecodeError::Malformed),
    };
    let input_types = match classified_input_labels(raw) {
        Some(v) => v,
        None => return Err(DecodeError::Unclassifiable),
    };
    let output_types = match classified_output_labels(raw) {
        Some(v) => v,
        None => return Err(DecodeError::Unclassifiable),
    };
    let op_return = match classified_op_return(raw) {
        Some(b) => b,
        None => return Err(DecodeError::Unclassifiable),
    };
    Ok(TransactionFacts { txid, inputs, op_return, input_types, output_types })
}

} // verus!
