//! The state-transition constraint system.
//!
//! The transition predicate of the rollup is expressed as a list of
//! constraints over an allocated witness assignment — the same shape an
//! external proving engine consumes — and the Merkle recomputation inside it
//! mirrors, gate by gate, the native fold of `merkle::root_from`: both are
//! held to the one specification `root_from_path`, which is the parity the
//! whole system depends on.

use vstd::prelude::*;
use crate::hash::{Digest, leaf_hash_of, digest_eq, leaf_digest, node_digest};
use crate::merkle::{PathEntry, path_view, combine, root_from, root_from_path, lemma_root_from_path_snoc};
use crate::accounts::{Account, Transaction, RollupError, validate_spec, validate};

verus! {

/// One allocated circuit value: a bounded field value, a digest, or an
/// orientation bit.
pub enum CircuitValue {
    FieldVal(u64),
    DigestVal(Digest),
    BitVal(bool),
}

/// One constraint over allocated values, each identified by its index.
#[derive(Clone, Copy)]
pub enum Constraint {
    /// The two field values are equal.
    EqField { a: usize, b: usize },
    /// The two digests are equal.
    EqDigest { a: usize, b: usize },
    /// `out` is `minuend` less `subtrahend`, as bounded integers.
    Debit { out: usize, minuend: usize, subtrahend: usize },
    /// Bounded-range comparison: `smaller` does not exceed `larger`.
    Cmp { smaller: usize, larger: usize },
    /// `out` is the leaf digest of the field value at `value`.
    LeafGate { value: usize, out: usize },
    /// `out` is the node digest of the running digest and the sibling,
    /// ordered by the orientation bit.
    NodeGate { current: usize, sibling: usize, right_bit: usize, out: usize },
}

/// The field value allocated at index `i`, if any.
pub open spec fn field_at(vals: Seq<CircuitValue>, i: usize) -> Option<u64> {
    if i < vals.len() {
        match vals[i as int] {
            CircuitValue::FieldVal(v) => Some(v),
            _ => None,
        }
    } else {
        None
    }
}

/// The digest allocated at index `i`, if any.
pub open spec fn digest_at(vals: Seq<CircuitValue>, i: usize) -> Option<Seq<u8>> {
    if i < vals.len() {
        match vals[i as int] {
            CircuitValue::DigestVal(d) => Some(d@),
            _ => None,
        }
    } else {
        None
    }
}

/// The orientation bit allocated at index `i`, if any.
pub open spec fn bit_at(vals: Seq<CircuitValue>, i: usize) -> Option<bool> {
    if i < vals.len() {
        match vals[i as int] {
            CircuitValue::BitVal(b) => Some(b),
            _ => None,
        }
    } else {
        None
    }
}

/// Whether one constraint holds of an assignment; a constraint whose
/// operands are unallocated or of the wrong sort does not hold.
pub open spec fn constraint_holds(c: Constraint, vals: Seq<CircuitValue>) -> bool {
    match c {
        Constraint::EqField { a, b } => field_at(vals, a).is_some() && field_at(vals, a)
            == field_at(vals, b),
        Constraint::EqDigest { a, b } => digest_at(vals, a).is_some() && digest_at(vals, a)
            == digest_at(vals, b),
        Constraint::Debit { out, minuend, subtrahend } => match (
            field_at(vals, out),
            field_at(vals, minuend),
            field_at(vals, subtrahend),
        ) {
            (Some(o), Some(m), Some(s)) => o + s == m,
            _ => false,
        },
        Constraint::Cmp { smaller, larger } => match (
            field_at(vals, smaller),
            field_at(vals, larger),
        ) {
            (Some(s), Some(l)) => s <= l,
            _ => false,
        },
        Constraint::LeafGate { value, out } => match (
            field_at(vals, value),
            digest_at(vals, out),
        ) {
            (Some(v), Some(d)) => d == leaf_hash_of(v),
            _ => false,
        },
        Constraint::NodeGate { current, sibling, right_bit, out } => match (
            digest_at(vals, current),
            digest_at(vals, sibling),
            bit_at(vals, right_bit),
            digest_at(vals, out),
        ) {
            (Some(c), Some(s), Some(b), Some(o)) => o == combine(c, (s, b)),
            _ => false,
        },
    }
}

/// One assignment sequence extends another without disturbing it.
pub open spec fn extends<T>(longer: Seq<T>, shorter: Seq<T>) -> bool {
    shorter.len() <= longer.len() && forall|i: int|
        0 <= i < shorter.len() ==> longer[i] == shorter[i]
}

/// A constraint that holds keeps holding when the assignment is extended:
/// its operands stay allocated to the same values.
proof fn lemma_holds_extends(c: Constraint, a1: Seq<CircuitValue>, a2: Seq<CircuitValue>)
    requires
        extends(a2, a1),
        constraint_holds(c, a1),
    ensures
        constraint_holds(c, a2),
{
    match c {
        Constraint::EqField { a, b } => {
            assert(a2[a as int] == a1[a as int]);
            assert(a2[b as int] == a1[b as int]);
        },
        Constraint::EqDigest { a, b } => {
            assert(a2[a as int] == a1[a as int]);
            assert(a2[b as int] == a1[b as int]);
        },
        Constraint::Debit { out, minuend, subtrahend } => {
            assert(a2[out as int] == a1[out as int]);
            assert(a2[minuend as int] == a1[minuend as int]);
            assert(a2[subtrahend as int] == a1[subtrahend as int]);
        },
        Constraint::Cmp { smaller, larger } => {
            assert(a2[smaller as int] == a1[smaller as int]);
            assert(a2[larger as int] == a1[larger as int]);
        },
        Constraint::LeafGate { value, out } => {
            assert(a2[value as int] == a1[value as int]);
            assert(a2[out as int] == a1[out as int]);
        },
        Constraint::NodeGate { current, sibling, right_bit, out } => {
            assert(a2[current as int] == a1[current as int]);
            assert(a2[sibling as int] == a1[sibling as int]);
            assert(a2[right_bit as int] == a1[right_bit as int]);
            assert(a2[out as int] == a1[out as int]);
        },
    }
}

fn eval_field(vals: &Vec<CircuitValue>, i: usize) -> (r: Option<u64>)
    ensures
        r == field_at(vals@, i),
{
    if i < vals.len() {
        match &vals[i] {
            CircuitValue::FieldVal(v) => Some(*v),
            _ => None,
        }
    } else {
        None
    }
}

fn eval_bit(vals: &Vec<CircuitValue>, i: usize) -> (r: Option<bool>)
    ensures
        r == bit_at(vals@, i),
{
    if i < vals.len() {
        match &vals[i] {
            CircuitValue::BitVal(b) => Some(*b),
            _ => None,
        }
    } else {
        None
    }
}

fn eval_digest(vals: &Vec<CircuitValue>, i: usize) -> (r: Option<&Digest>)
    ensures
        match r {
            Some(d) => digest_at(vals@, i) == Some(d@),
            None => digest_at(vals@, i) is None,
        },
{
    if i < vals.len() {
        match &vals[i] {
            CircuitValue::DigestVal(d) => Some(d),
            _ => None,
        }
    } else {
        None
    }
}

/// Evaluates one constraint against an assignment.
fn constraint_satisfied(c: &Constraint, vals: &Vec<CircuitValue>) -> (r: bool)
    ensures
        r == constraint_holds(*c, vals@),
{
    match c {
        Constraint::EqField { a, b } => match (eval_field(vals, *a), eval_field(vals, *b)) {
            (Some(x), Some(y)) => x == y,
            _ => false,
        },
        Constraint::EqDigest { a, b } => match (eval_digest(vals, *a), eval_digest(vals, *b)) {
            (Some(x), Some(y)) => digest_eq(x, y),
            _ => false,
        },
        Constraint::Debit { out, minuend, subtrahend } => match (
            eval_field(vals, *out),
            eval_field(vals, *minuend),
            eval_field(vals, *subtrahend),
        ) {
            (Some(o), Some(m), Some(s)) => s <= m && o == m - s,
            _ => false,
        },
        Constraint::Cmp { smaller, larger } => match (
            eval_field(vals, *smaller),
            eval_field(vals, *larger),
        ) {
            (Some(s), Some(l)) => s <= l,
            _ => false,
        },
        Constraint::LeafGate { value, out } => match (
            eval_field(vals, *value),
            eval_digest(vals, *out),
        ) {
            (Some(v), Some(d)) => {
                let computed = leaf_digest(v);
                digest_eq(&computed, d)
            },
            _ => false,
        },
        Constraint::NodeGate { current, sibling, right_bit, out } => match (
            eval_digest(vals, *current),
            eval_digest(vals, *sibling),
            eval_bit(vals, *right_bit),
            eval_digest(vals, *out),
        ) {
            (Some(c_), Some(s_), Some(b_), Some(o_)) => {
                let combined = if b_ {
                    node_digest(s_, c_)
                } else {
                    node_digest(c_, s_)
                };
                digest_eq(&combined, o_)
            },
            _ => false,
        },
    }
}

/// A constraint system: an assignment of allocated values and the
/// constraints enforced over them, in allocation order.
pub struct ConstraintSystem {
    pub values: Vec<CircuitValue>,
    pub constraints: Vec<Constraint>,
}

impl ConstraintSystem {
    /// Whether every enforced constraint holds of the current assignment.
    pub open spec fn satisfied_spec(self) -> bool {
        forall|i: int|
            0 <= i < self.constraints@.len() ==> constraint_holds(
                #[trigger] self.constraints@[i],
                self.values@,
            )
    }

    /// An empty system.
    pub fn new() -> (cs: Self)
        ensures
            cs.values@.len() == 0,
            cs.constraints@.len() == 0,
    {
        ConstraintSystem { values: Vec::new(), constraints: Vec::new() }
    }

    /// Allocates one value; returns its index.
    pub fn allocate(&mut self, v: CircuitValue) -> (i: usize)
        ensures
            final(self).values@ == old(self).values@.push(v),
            final(self).constraints@ == old(self).constraints@,
            i as int == old(self).values@.len(),
    {
        let i = self.values.len();
        self.values.push(v);
        i
    }

    /// Enforces one constraint.
    pub fn enforce(&mut self, c: Constraint)
        ensures
            final(self).values@ == old(self).values@,
            final(self).constraints@ == old(self).constraints@.push(c),
    {
        self.constraints.push(c);
    }

    /// Checks every constraint against the assignment.
    pub fn is_satisfied(&self) -> (r: bool)
        ensures
            r == self.satisfied_spec(),
    {
        let mut i: usize = 0;
        while i < self.constraints.len()
            invariant
                i <= self.constraints@.len(),
                forall|t: int|
                    0 <= t < i ==> constraint_holds(
                        #[trigger] self.constraints@[t],
                        self.values@,
                    ),
            decreases self.constraints@.len() - i,
        {
            if !constraint_satisfied(&self.constraints[i], &self.values) {
                return false;
            }
            i += 1;
        }
        true
    }
}

/// Reads the digest witness allocated at `i`.
fn digest_witness(cs: &ConstraintSystem, i: usize) -> (d: Digest)
    requires
        digest_at(cs.values@, i).is_some(),
    ensures
        Some(d@) == digest_at(cs.values@, i),
{
    match &cs.values[i] {
        CircuitValue::DigestVal(d) => d.clone(),
        _ => {
            proof {
                assert(false);
            }
            Digest { bytes: Vec::new() }
        },
    }
}

/// The in-circuit form of the root recomputation: per path level it
/// allocates the sibling digest and the orientation bit as witnesses and
/// the next running digest as the output of one node-hash gate, mirroring
/// the native fold of `merkle::root_from` level by level. The returned
/// index carries exactly the natively recomputed root — the parity between
/// the two forms.
pub fn circuit_root_from(cs: &mut ConstraintSystem, leaf_var: usize, path: &Vec<PathEntry>) -> (root_var: usize)
    requires
        digest_at(old(cs).values@, leaf_var).is_some(),
    ensures
        extends(final(cs).values@, old(cs).values@),
        extends(final(cs).constraints@, old(cs).constraints@),
        forall|t: int|
            old(cs).constraints@.len() <= t < final(cs).constraints@.len() ==> constraint_holds(
                #[trigger] final(cs).constraints@[t],
                final(cs).values@,
            ),
        digest_at(final(cs).values@, root_var) == Some(
            root_from_path(
                digest_at(old(cs).values@, leaf_var).unwrap(),
                path_view(path@),
            ),
        ),
{
    let ghost d0 = digest_at(cs.values@, leaf_var).unwrap();
    let mut cur = digest_witness(cs, leaf_var);
    let mut cur_var = leaf_var;
    let mut i: usize = 0;
    proof {
        assert(path_view(path@).take(0) =~= Seq::<(Seq<u8>, bool)>::empty());
    }
    while i < path.len()
        invariant
            i <= path@.len(),
            extends(cs.values@, old(cs).values@),
            extends(cs.constraints@, old(cs).constraints@),
            digest_at(cs.values@, cur_var) == Some(cur@),
            cur@ == root_from_path(d0, path_view(path@).take(i as int)),
            forall|t: int|
                old(cs).constraints@.len() <= t < cs.constraints@.len() ==> constraint_holds(
                    #[trigger] cs.constraints@[t],
                    cs.values@,
                ),
        decreases path@.len() - i,
    {
        let ghost vals0 = cs.values@;
        let ghost cons0 = cs.constraints@;
        let e = &path[i];
        let sib_var = cs.allocate(CircuitValue::DigestVal(e.sibling.clone()));
        let bit_var = cs.allocate(CircuitValue::BitVal(e.is_right_child));
        let next = if e.is_right_child {
            node_digest(&e.sibling, &cur)
        } else {
            node_digest(&cur, &e.sibling)
        };
        let out_var = cs.allocate(CircuitValue::DigestVal(next.clone()));
        let gate = Constraint::NodeGate {
            current: cur_var,
            sibling: sib_var,
            right_bit: bit_var,
            out: out_var,
        };
        cs.enforce(gate);
        proof {
            assert(extends(cs.values@, vals0));
            assert(digest_at(cs.values@, cur_var) == Some(cur@));
            assert(digest_at(cs.values@, sib_var) == Some(e.sibling@));
            assert(bit_at(cs.values@, bit_var) == Some(e.is_right_child));
            assert(digest_at(cs.values@, out_var) == Some(next@));
            assert(next@ == combine(cur@, (e.sibling@, e.is_right_child)));
            assert(constraint_holds(gate, cs.values@));
            assert forall|t: int|
                old(cs).constraints@.len() <= t < cs.constraints@.len() - 1 implies constraint_holds(
                #[trigger] cs.constraints@[t],
                cs.values@,
            ) by {
                assert(cs.constraints@[t] == cons0[t]);
                lemma_holds_extends(cs.constraints@[t], vals0, cs.values@);
            }
            let pv = path_view(path@);
            assert(pv[i as int] == (e.sibling@, e.is_right_child));
            assert(pv.take(i as int + 1) =~= pv.take(i as int).push(pv[i as int]));
            lemma_root_from_path_snoc(d0, pv.take(i as int), pv[i as int]);
        }
        cur = next;
        cur_var = out_var;
        i += 1;
    }
    proof {
        assert(path_view(path@).take(path@.len() as int) =~= path_view(path@));
    }
    cur_var
}

/// The arithmetic-circuit description of one transfer: public inputs (the
/// two roots), secret witnesses (leaves, amount, path, nonces), and the
/// accounts the driver carries alongside. Produced per transaction and
/// consumed once.
pub struct RollupCircuit {
    pub old_root: Digest,
    pub new_root: Digest,
    pub merkle_path: Vec<PathEntry>,
    pub old_leaf: u64,
    pub new_leaf: u64,
    pub transaction_amount: u64,
    pub from_account: Account,
    pub to_account: Account,
    pub transaction: Transaction,
}

impl RollupCircuit {
    /// The transition predicate: the old leaf is committed under the old
    /// root by the path; the new leaf is the old leaf less the amount; the
    /// new root commits the new leaf under the same path; the nonces match;
    /// and the amount does not exceed the old leaf (the bounded-range check
    /// that makes the debit meaningful).
    pub open spec fn valid_transition(self) -> bool {
        &&& self.old_root@ == root_from_path(
            leaf_hash_of(self.old_leaf),
            path_view(self.merkle_path@),
        )
        &&& self.new_leaf + self.transaction_amount == self.old_leaf
        &&& self.new_root@ == root_from_path(
            leaf_hash_of(self.new_leaf),
            path_view(self.merkle_path@),
        )
        &&& self.from_account.nonce == self.transaction.nonce
        &&& self.transaction_amount <= self.old_leaf
    }

    /// Builds the circuit for one transfer, re-using the validator so that
    /// an invalid transaction fails here, with its own error kind, before
    /// any constraint is generated. On success the published new root is
    /// the root recomputed from the debited leaf over the same path.
    pub fn process_transaction(
        from_account: Account,
        to_account: Account,
        transaction: Transaction,
        merkle_path: Vec<PathEntry>,
        old_root: Digest,
    ) -> (r: Result<Self, RollupError>)
        ensures
            match r {
                Ok(c) => validate_spec(from_account, transaction) is Ok && c.old_root@
                    == old_root@ && c.old_leaf == from_account.balance && c.new_leaf
                    == from_account.balance - transaction.amount && c.transaction_amount
                    == transaction.amount && c.new_root@ == root_from_path(
                    leaf_hash_of(c.new_leaf),
                    path_view(merkle_path@),
                ) && c.merkle_path@ == merkle_path@ && c.from_account == from_account
                    && c.to_account == to_account && c.transaction == transaction,
                Err(e) => validate_spec(from_account, transaction) == Err::<u64, RollupError>(e),
            },
    {
        let new_leaf = match validate(&from_account, &transaction) {
            Ok(v) => v,
            Err(e) => {
                return Err(e);
            },
        };
        let new_root = root_from(new_leaf, &merkle_path);
        Ok(
            RollupCircuit {
                old_root,
                new_root,
                merkle_path,
                old_leaf: from_account.balance,
                new_leaf,
                transaction_amount: transaction.amount,
                from_account,
                to_account,
                transaction,
            },
        )
    }

    /// Generates the transition constraint system together with its witness
    /// assignment. The system is satisfied exactly when the transition
    /// predicate holds: every hash gate is witnessed by the native
    /// recomputation, so satisfiability turns on the five enforced
    /// relations alone.
    pub fn generate_constraints(&self) -> (cs: ConstraintSystem)
        ensures
            cs.satisfied_spec() <==> self.valid_transition(),
    {
        let ghost pv = path_view(self.merkle_path@);
        let ghost root_old = root_from_path(leaf_hash_of(self.old_leaf), pv);
        let ghost root_new = root_from_path(leaf_hash_of(self.new_leaf), pv);
        let mut cs = ConstraintSystem::new();
        let old_root_var = cs.allocate(CircuitValue::DigestVal(self.old_root.clone()));
        let new_root_var = cs.allocate(CircuitValue::DigestVal(self.new_root.clone()));
        let old_leaf_var = cs.allocate(CircuitValue::FieldVal(self.old_leaf));
        let new_leaf_var = cs.allocate(CircuitValue::FieldVal(self.new_leaf));
        let amount_var = cs.allocate(CircuitValue::FieldVal(self.transaction_amount));
        let old_leaf_dig_var = cs.allocate(CircuitValue::DigestVal(leaf_digest(self.old_leaf)));
        cs.enforce(Constraint::LeafGate { value: old_leaf_var, out: old_leaf_dig_var });
        let ghost v0 = cs.values@;
        let ghost c0 = cs.constraints@;
        let computed_old_root = circuit_root_from(&mut cs, old_leaf_dig_var, &self.merkle_path);
        let ghost v1 = cs.values@;
        let ghost c1 = cs.constraints@;
        cs.enforce(Constraint::EqDigest { a: computed_old_root, b: old_root_var });
        let new_leaf_dig_var = cs.allocate(CircuitValue::DigestVal(leaf_digest(self.new_leaf)));
        cs.enforce(Constraint::LeafGate { value: new_leaf_var, out: new_leaf_dig_var });
        let ghost v2 = cs.values@;
        let ghost c2 = cs.constraints@;
        let computed_new_root = circuit_root_from(&mut cs, new_leaf_dig_var, &self.merkle_path);
        let ghost v3 = cs.values@;
        let ghost c3 = cs.constraints@;
        cs.enforce(Constraint::EqDigest { a: computed_new_root, b: new_root_var });
        cs.enforce(
            Constraint::Debit { out: new_leaf_var, minuend: old_leaf_var, subtrahend: amount_var },
        );
        let nonce_var = cs.allocate(CircuitValue::FieldVal(self.from_account.nonce));
        let tx_nonce_var = cs.allocate(CircuitValue::FieldVal(self.transaction.nonce));
        cs.enforce(Constraint::EqField { a: nonce_var, b: tx_nonce_var });
        cs.enforce(Constraint::Cmp { smaller: amount_var, larger: old_leaf_var });
        proof {
            let vf = cs.values@;
            let cf = cs.constraints@;
            let n1 = c1.len() as int;
            let n2 = c2.len() as int;
            let n3 = c3.len() as int;
            // every value allocated before the first hash chain keeps its
            // slot through both chains and the later allocations
            assert forall|q: int| 0 <= q < v0.len() implies vf[q] == v0[q] by {
                assert(v1[q] == v0[q]);
                assert(v2[q] == v1[q]);
                assert(v3[q] == v2[q]);
            }
            assert forall|q: int| 0 <= q < v1.len() implies vf[q] == v1[q] by {
                assert(v2[q] == v1[q]);
                assert(v3[q] == v2[q]);
            }
            assert forall|q: int| 0 <= q < v3.len() implies vf[q] == v3[q] by {}
            assert(extends(vf, v1));
            assert(extends(vf, v3));
            // the slots the scalar constraints read
            assert(digest_at(vf, old_root_var) == Some(self.old_root@));
            assert(digest_at(vf, new_root_var) == Some(self.new_root@));
            assert(field_at(vf, old_leaf_var) == Some(self.old_leaf));
            assert(field_at(vf, new_leaf_var) == Some(self.new_leaf));
            assert(field_at(vf, amount_var) == Some(self.transaction_amount));
            assert(field_at(vf, nonce_var) == Some(self.from_account.nonce));
            assert(field_at(vf, tx_nonce_var) == Some(self.transaction.nonce));
            assert(digest_at(v0, old_leaf_dig_var) == Some(leaf_hash_of(self.old_leaf)));
            assert(digest_at(v2, new_leaf_dig_var) == Some(leaf_hash_of(self.new_leaf)));
            assert(digest_at(vf, computed_old_root) == Some(root_old));
            assert(digest_at(vf, computed_new_root) == Some(root_new));
            // the constraint list, by position
            assert(cf.len() == n3 + 4);
            assert forall|t: int| 0 <= t < n1 implies cf[t] == c1[t] by {
                assert(c2[t] == c1[t]);
                assert(c3[t] == c2[t]);
            }
            assert forall|t: int| 0 <= t < n3 implies cf[t] == c3[t] by {}
            assert(cf[n1] == Constraint::EqDigest { a: computed_old_root, b: old_root_var });
            assert(cf[n1 + 1] == Constraint::LeafGate {
                value: new_leaf_var,
                out: new_leaf_dig_var,
            });
            assert(cf[n3] == Constraint::EqDigest { a: computed_new_root, b: new_root_var });
            assert(cf[n3 + 1] == Constraint::Debit {
                out: new_leaf_var,
                minuend: old_leaf_var,
                subtrahend: amount_var,
            });
            assert(cf[n3 + 2] == Constraint::EqField { a: nonce_var, b: tx_nonce_var });
            assert(cf[n3 + 3] == Constraint::Cmp { smaller: amount_var, larger: old_leaf_var });
            // completeness: a valid transition satisfies every constraint
            if self.valid_transition() {
                assert forall|t: int| 0 <= t < cf.len() implies constraint_holds(
                    cf[t],
                    vf,
                ) by {
                    if t == 0 {
                        assert(cf[0] == c1[0]);
                        assert(c1[0] == c0[0]);
                        assert(constraint_holds(cf[t], vf));
                    } else if t < n1 {
                        assert(constraint_holds(c1[t], v1));
                        lemma_holds_extends(c1[t], v1, vf);
                    } else if t == n1 || t == n1 + 1 {
                        assert(constraint_holds(cf[t], vf));
                    } else if t < n3 {
                        assert(cf[t] == c3[t]);
                        assert(constraint_holds(c3[t], v3));
                        lemma_holds_extends(c3[t], v3, vf);
                    } else {
                        assert(constraint_holds(cf[t], vf));
                    }
                }
            }
            // soundness: a satisfied system forces every relation of the
            // transition predicate
            if cs.satisfied_spec() {
                assert(constraint_holds(cf[n1], vf));
                assert(constraint_holds(cf[n3], vf));
                assert(constraint_holds(cf[n3 + 1], vf));
                assert(constraint_holds(cf[n3 + 2], vf));
                assert(constraint_holds(cf[n3 + 3], vf));
                assert(self.old_root@ == root_old);
                assert(self.new_root@ == root_new);
                assert(self.new_leaf + self.transaction_amount == self.old_leaf);
                assert(self.from_account.nonce == self.transaction.nonce);
                assert(self.transaction_amount <= self.old_leaf);
            }
        }
        cs
    }

    /// Evaluates the whole transition predicate by building the constraint
    /// system and checking it against its witness; deterministic for fixed
    /// inputs.
    pub fn check_transition(&self) -> (r: bool)
        ensures
            r == self.valid_transition(),
    {
        let cs = self.generate_constraints();
        cs.is_satisfied()
    }

    /// Builds the constraint system and fails with `Unsatisfiable` when the
    /// witness does not satisfy it. After `process_transaction` has
    /// accepted the transaction, that verdict marks a stale or corrupted
    /// witness rather than an invalid transfer.
    pub fn build_and_check(&self) -> (r: Result<ConstraintSystem, RollupError>)
        ensures
            match r {
                Ok(cs) => self.valid_transition() && cs.satisfied_spec(),
                Err(e) => !self.valid_transition() && e == RollupError::Unsatisfiable,
            },
    {
        let cs = self.generate_constraints();
        if cs.is_satisfied() {
            Ok(cs)
        } else {
            Err(RollupError::Unsatisfiable)
        }
    }
}

/// Idempotent verification: two checks of one constraint system against the
/// same assignment return the same verdict.
pub proof fn lemma_verification_idempotent(cs: ConstraintSystem, first: bool, second: bool)
    requires
        first == cs.satisfied_spec(),
        second == cs.satisfied_spec(),
    ensures
        first == second,
{
}

} // verus!
