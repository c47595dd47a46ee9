//! A verified single-transfer rollup core: a Merkle-committed account ledger,
//! a pre-circuit transaction validator, and the state-transition constraint
//! system that re-derives Merkle inclusion and the updated root.

use vstd::prelude::*;

pub mod accounts;
pub mod circuit;
pub mod hash;
pub mod merkle;
pub mod state;

verus! {

pub use crate::accounts::{Account, Transaction, RollupError, validate_spec, validate};
pub use crate::circuit::{CircuitValue, Constraint, ConstraintSystem, RollupCircuit, circuit_root_from, constraint_holds, digest_at, field_at, bit_at};
pub use crate::hash::{Digest, Window4x256, digest_eq, leaf_digest, node_digest, leaf_hash_of, node_hash_of};
pub use crate::merkle::{PathEntry, path_view, combine, root_from_path, root_from};
pub use crate::state::{RollupState, anc, sibling_index, default_digest, lemma_transfer_conserves, lemma_commitment_congruent, lemma_path_congruent};

} // verus!

