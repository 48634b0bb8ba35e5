//! Which replacement events count as full replace-by-fee replacements.
use vstd::prelude::*;
use crate::tx::{Outpoint, TransactionFacts, TxInput, MIN_NO_RBF_SEQUENCE};

verus! {

/// Whether a sequence number signals replaceability (BIP-125).
pub open spec fn sequence_signals_rbf(sequence: u32) -> bool {
    sequence < MIN_NO_RBF_SEQUENCE
}

/// Whether a transaction opts in to replace-by-fee: some input signals
/// replaceability. This one rule decides classification and is the flag
/// shown beside each transaction.
pub open spec fn any_input_signals(inputs: Seq<TxInput>) -> bool {
    exists|i: int| 0 <= i < inputs.len() && #[trigger] sequence_signals_rbf(inputs[i].sequence)
}

/// Two outpoints name the same output.
pub open spec fn same_outpoint(a: Outpoint, b: Outpoint) -> bool {
    a.txid@ == b.txid@ && a.vout == b.vout
}

/// Two input lists spend at least one common output.
pub open spec fn spends_common_output(a: Seq<TxInput>, b: Seq<TxInput>) -> bool {
    exists|i: int, j: int|
        0 <= i < a.len() && 0 <= j < b.len() && #[trigger] same_outpoint(
            a[i].previous_output,
            b[j].previous_output,
        )
}

/// An event is a full replace-by-fee replacement when the replaced transaction
/// did not opt in and directly conflicts with its replacement.
pub open spec fn is_full_rbf_replacement(replaced: TransactionFacts, replacement: TransactionFacts) -> bool {
    !any_input_signals(replaced.inputs@) && spends_common_output(replaced.inputs@, replacement.inputs@)
}

/// Whether some input signals replaceability.
pub fn signals_opt_in_rbf(inputs: &[TxInput]) -> (r: bool)
    ensures
        r == any_input_signals(inputs@),
{
    let mut i: usize = 0;
    while i < inputs.len()
        invariant
            i <= inputs@.len(),
            forall|k: int| 0 <= k < i ==> !#[trigger] sequence_signals_rbf(inputs@[k].sequence),
        decreases inputs@.len() - i,
    {
        if inputs[i].sequence < MIN_NO_RBF_SEQUENCE {
            assert(sequence_signals_rbf(inputs@[i as int].sequence));
            return true;
        }
        i = i + 1;
    }
    false
}

/// Whether two outpoints name the same output.
pub fn outpoints_equal(a: &Outpoint, b: &Outpoint) -> (r: bool)
    ensures
        r == same_outpoint(*a, *b),
{
    if a.vout != b.vout {
        return false;
    }
    let mut k: usize = 0;
    while k < 32
        invariant
            k <= 32,
            a.txid@.len() == 32,
            b.txid@.len() == 32,
            forall|m: int| 0 <= m < k ==> a.txid@[m] == b.txid@[m],
        decreases 32 - k,
    {
        if a.txid[k] != b.txid[k] {
            return false;
        }
        k = k + 1;
    }
    assert(a.txid@ =~= b.txid@);
    true
}

/// Whether two transactions spend at least one common output.
pub fn conflict(a: &[TxInput], b: &[TxInput]) -> (r: bool)
    ensures
        r == spends_common_output(a@, b@),
{
    let mut i: usize = 0;
    while i < a.len()
        invariant
            i <= a@.len(),
            forall|x: int, y: int|
                0 <= x < i && 0 <= y < b@.len() ==> !#[trigger] same_outpoint(
                    a@[x].previous_output,
                    b@[y].previous_output,
                ),
        decreases a@.len() - i,
    {
        let mut j: usize = 0;
        while j < b.len()
            invariant
                i < a@.len(),
                j <= b@.len(),
                forall|x: int, y: int|
                    0 <= x < i && 0 <= y < b@.len() ==> !#[trigger] same_outpoint(
                        a@[x].previous_output,
                        b@[y].previous_output,
                    ),
                forall|y: int|
                    0 <= y < j ==> !#[trigger] same_outpoint(
                        a@[i as int].previous_output,
                        b@[y].previous_output,
                    ),
            decreases b@.len() - j,
        {
            if outpoints_equal(&a[i].previous_output, &b[j].previous_output) {
                return true;
            }
            j = j + 1;
        }
        i = i + 1;
    }
    false
}

/// Whether an event replacing `replaced` by `replacement` is a full
/// replace-by-fee replacement.
pub fn is_full_rbf(replaced: &TransactionFacts, replacement: &TransactionFacts) -> (r: bool)
    ensures
        r == is_full_rbf_replacement(*replaced, *replacement),
{
    !signals_opt_in_rbf(replaced.inputs.as_slice()) && conflict(
        replaced.inputs.as_slice(),
        replacement.inputs.as_slice(),
    )
}

} // verus!
