//! One observed replacement event, as read from the event log.
use vstd::prelude::*;
use crate::text::{decimal, decimal_text, hex_encode, hex_of};

verus! {

/// Length of a transaction id in bytes.
pub const TXID_LENGTH: usize = 32;

/// One replacement observation: `replaced` left the pool for `replacement`.
#[derive(Clone, Debug)]
pub struct RBFEvent {
    /// When the replacement was seen, in unix seconds.
    pub timestamp: u64,
    pub replaced_txid: [u8; TXID_LENGTH],
    pub replaced_fee: u64,
    pub replaced_vsize: u64,
    /// When the replaced transaction entered the pool, in unix seconds; 0 when unknown.
    pub replaced_entry_time: u64,
    pub replaced_raw: Vec<u8>,
    pub replacement_txid: [u8; TXID_LENGTH],
    pub replacement_fee: u64,
    pub replacement_vsize: u64,
    pub replacement_raw: Vec<u8>,
}

/// A transaction id as it is conventionally displayed: hexadecimal of its
/// bytes in reverse order.
pub open spec fn txid_text(id: Seq<u8>) -> Seq<char> {
    hex_of(id.reverse())
}

/// The one-line description of an event.
pub open spec fn event_description(e: RBFEvent) -> Seq<char> {
    "Transaction("@ + txid_text(e.replaced_txid@) + ", fee="@ + decimal(e.replaced_fee as nat) + ", vsize="@
        + decimal(e.replaced_vsize as nat) + ") replaced with Transaction("@ + txid_text(
        e.replacement_txid@,
    ) + ", fee="@ + decimal(e.replacement_fee as nat) + ", vsize="@ + decimal(
        e.replacement_vsize as nat,
    ) + ")"@
}

/// Writes a transaction id as it is conventionally displayed.
pub fn txid_string(id: &[u8; TXID_LENGTH]) -> (r: String)
    ensures
        r@ == txid_text(id@),
{
    let mut rev: Vec<u8> = Vec::new();
    let mut i: usize = TXID_LENGTH;
    while i > 0
        invariant
            i <= TXID_LENGTH,
            id@.len() == TXID_LENGTH,
            rev@ =~= id@.subrange(i as int, TXID_LENGTH as int).reverse(),
        decreases i,
    {
        i = i - 1;
        rev.push(id[i]);
    }
    assert(id@.subrange(0, TXID_LENGTH as int) =~= id@);
    hex_encode(rev.as_slice())
}

impl RBFEvent {
    /// Describes the event in one line, with both ids, fees and sizes.
    pub fn describe(&self) -> (r: String)
        ensures
            r@ == event_description(*self),
    {
        let mut s = String::from_str("Transaction(");
        s.append(txid_string(&self.replaced_txid).as_str());
        s.append(", fee=");
        s.append(decimal_text(self.replaced_fee as u128).as_str());
        s.append(", vsize=");
        s.append(decimal_text(self.replaced_vsize as u128).as_str());
        s.append(") replaced with Transaction(");
        s.append(txid_string(&self.replacement_txid).as_str());
        s.append(", fee=");
        s.append(decimal_text(self.replacement_fee as u128).as_str());
        s.append(", vsize=");
        s.append(decimal_text(self.replacement_vsize as u128).as_str());
        s.append(")");
        s
    }
}

} // verus!
