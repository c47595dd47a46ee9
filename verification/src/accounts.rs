//! Accounts, transactions, the error taxonomy, and the pre-circuit validator.

use vstd::prelude::*;

verus! {

/// One ledger slot: a balance and a nonce, both bounded non-negative
/// integers. The committed leaf encodes only the balance; nonce integrity is
/// enforced through a separate witness equality in the transition predicate,
/// a design choice this crate preserves and documents rather than changes.
#[derive(Clone, Copy, PartialEq, Eq, Structural, Debug)]
pub struct Account {
    pub balance: u64,
    pub nonce: u64,
}

/// An intended transfer; not itself part of the committed state.
#[derive(Clone, Copy, PartialEq, Eq, Structural, Debug)]
pub struct Transaction {
    pub from: usize,
    pub to: usize,
    pub amount: u64,
    pub nonce: u64,
}

/// Every failure of the core, each kind distinguishable by the caller.
#[derive(Clone, Copy, PartialEq, Eq, Structural, Debug)]
pub enum RollupError {
    /// An index beyond the tree's capacity was addressed.
    IndexOutOfRange,
    /// The transfer amount exceeds the sender's balance.
    InsufficientBalance,
    /// The transaction nonce does not match the sender's nonce.
    NonceMismatch,
    /// The constraint system rejected the witness; fatal for this attempt.
    Unsatisfiable,
    /// The root moved between witness fetch and commit; re-fetch and retry.
    StaleSnapshot,
}

/// What `validate` decides: the balance rule is checked first, then the
/// nonce rule; on success the tentative new leaf value is returned.
pub open spec fn validate_spec(account: Account, tx: Transaction) -> Result<u64, RollupError> {
    if tx.amount > account.balance {
        Err(RollupError::InsufficientBalance)
    } else if tx.nonce != account.nonce {
        Err(RollupError::NonceMismatch)
    } else {
        Ok((account.balance - tx.amount) as u64)
    }
}

/// Pre-circuit guard: rejects structurally invalid transfers before any
/// constraint system is built, in plain bounded-integer arithmetic. On
/// success returns the tentative new leaf value, the sender's balance less
/// the amount.
pub fn validate(account: &Account, tx: &Transaction) -> (r: Result<u64, RollupError>)
    ensures
        r == validate_spec(*account, *tx),
{
    if tx.amount > account.balance {
        Err(RollupError::InsufficientBalance)
    } else if tx.nonce != account.nonce {
        Err(RollupError::NonceMismatch)
    } else {
        Ok(account.balance - tx.amount)
    }
}

/// Rejection, balance rule: whenever the amount exceeds the balance,
/// validation fails with `InsufficientBalance`, regardless of every other
/// field.
pub proof fn lemma_validate_rejects_insufficient(account: Account, tx: Transaction)
    requires
        tx.amount > account.balance,
    ensures
        validate_spec(account, tx) == Err::<u64, RollupError>(RollupError::InsufficientBalance),
{
}

/// Rejection, nonce rule: whenever the nonces differ, validation fails with
/// `NonceMismatch`, regardless of every other field — provided the balance
/// rule passes, since when both rules fail the balance rule is reported
/// first.
pub proof fn lemma_validate_rejects_nonce_mismatch(account: Account, tx: Transaction)
    requires
        tx.nonce != account.nonce,
        tx.amount <= account.balance,
    ensures
        validate_spec(account, tx) == Err::<u64, RollupError>(RollupError::NonceMismatch),
{
}

/// Acceptance: when both rules pass, validation succeeds and returns exactly
/// the debited balance.
pub proof fn lemma_validate_accepts(account: Account, tx: Transaction)
    requires
        tx.amount <= account.balance,
        tx.nonce == account.nonce,
    ensures
        validate_spec(account, tx) == Ok::<u64, RollupError>((account.balance - tx.amount) as u64),
{
}

} // verus!
