//! The authoritative ledger: accounts committed under a fixed-depth Merkle
//! tree.
//!
//! The tree is sparse: unpopulated leaves carry the digest of the value 0,
//! and a whole subtree with no populated leaf carries a per-level default
//! digest. Node digests are recomputed on demand from the account map, so the
//! committed root is, by construction, always the root of the current leaves
//! — the atomicity invariant of the design holds definitionally.

use vstd::prelude::*;
use vstd::arithmetic::power2::{pow2, lemma_pow2_unfold, lemma_pow2_strictly_increases, lemma2_to64, lemma2_to64_rest};
use vstd::arithmetic::div_mod::{lemma_fundamental_div_mod, lemma_fundamental_div_mod_converse, lemma_div_is_ordered};
use std::collections::HashMap;
use crate::hash::{Digest, leaf_hash_of, node_hash_of, leaf_digest, node_digest, digest_eq};
use crate::merkle::{PathEntry, path_view, combine, root_from_path};
use crate::accounts::{Account, Transaction, RollupError, validate_spec, validate};

verus! {

broadcast use vstd::std_specs::hash::group_hash_axioms;

/// The index, within its own level, of the ancestor `k` levels above the
/// node at index `l` of the bottom level.
pub open spec fn anc(l: nat, k: nat) -> nat
    decreases k,
{
    if k == 0 {
        l
    } else {
        anc(l, (k - 1) as nat) / 2
    }
}

/// The index of the sibling of the node at index `j` of its level.
pub open spec fn sibling_index(j: nat) -> nat {
    if j % 2 == 0 {
        j + 1
    } else {
        (j - 1) as nat
    }
}

/// The digest a whole level-`k` subtree carries when none of its leaves is
/// populated.
pub open spec fn default_digest(k: nat) -> Seq<u8>
    decreases k,
{
    if k == 0 {
        leaf_hash_of(0)
    } else {
        node_hash_of(default_digest((k - 1) as nat), default_digest((k - 1) as nat))
    }
}

/// The authoritative, mutable state of all accounts and their commitment.
pub struct RollupState {
    depth: usize,
    capacity: u64,
    accounts: HashMap<u64, Account>,
    indices: Vec<u64>,
    defaults: Vec<Digest>,
}

impl RollupState {
    /// The fixed depth of the commitment tree.
    pub closed spec fn tree_depth(self) -> nat {
        self.depth as nat
    }

    /// The committed account map.
    pub closed spec fn accounts_map(self) -> Map<u64, Account> {
        self.accounts@
    }

    /// How many leaves the tree can address.
    pub open spec fn capacity_of(self) -> nat {
        pow2(self.tree_depth())
    }

    /// The account at an index; an unpopulated slot reads as a zero account.
    pub open spec fn account_at(self, i: nat) -> Account {
        if i <= u64::MAX && self.accounts_map().contains_key(i as u64) {
            self.accounts_map()[i as u64]
        } else {
            Account { balance: 0, nonce: 0 }
        }
    }

    /// The value committed by leaf `i`: the balance alone, by design.
    pub open spec fn leaf_value(self, i: nat) -> u64 {
        self.account_at(i).balance
    }

    /// The digest of the level-`k` subtree at index `j`.
    pub open spec fn subtree(self, k: nat, j: nat) -> Seq<u8>
        decreases k,
    {
        if k == 0 {
            leaf_hash_of(self.leaf_value(j))
        } else {
            node_hash_of(
                self.subtree((k - 1) as nat, 2 * j),
                self.subtree((k - 1) as nat, 2 * j + 1),
            )
        }
    }

    /// The current root: the digest of the whole tree.
    pub open spec fn root_digest(self) -> Seq<u8> {
        self.subtree(self.tree_depth(), 0)
    }

    /// The authentication path for the node at index `j` of level `k`, up to
    /// the root.
    pub open spec fn path_from(self, j: nat, k: nat) -> Seq<(Seq<u8>, bool)>
        decreases self.tree_depth() - k,
    {
        if k >= self.tree_depth() {
            Seq::empty()
        } else {
            seq![(self.subtree(k, sibling_index(j)), j % 2 == 1)] + self.path_from(j / 2, k + 1)
        }
    }

    /// The authentication path of leaf `i`.
    pub open spec fn path_spec(self, i: nat) -> Seq<(Seq<u8>, bool)> {
        self.path_from(i, 0)
    }

    /// Internal consistency of the representation.
    pub closed spec fn wf(self) -> bool {
        &&& self.depth <= 62
        &&& self.capacity == pow2(self.depth as nat)
        &&& self.defaults@.len() == self.depth + 1
        &&& forall|k: int|
            0 <= k <= self.depth ==> (#[trigger] self.defaults@[k])@ == default_digest(k as nat)
        &&& forall|l: u64| #[trigger] self.accounts@.contains_key(l) ==> l < self.capacity
        &&& forall|l: u64| #[trigger] self.accounts@.contains_key(l) ==> self.indices@.contains(l)
        &&& forall|l: u64| #[trigger] self.indices@.contains(l) ==> self.accounts@.contains_key(l)
    }

    /// Creates an empty ledger committed under a tree of the given depth.
    /// The depth is bounded so that every node index fits a machine word.
    pub fn new(height: usize) -> (s: Self)
        requires
            height <= 62,
        ensures
            s.wf(),
            s.tree_depth() == height,
            s.accounts_map() == Map::<u64, Account>::empty(),
    {
        let mut defaults: Vec<Digest> = Vec::new();
        defaults.push(leaf_digest(0));
        let mut k: usize = 0;
        while k < height
            invariant
                k <= height,
                defaults@.len() == k + 1,
                forall|t: int|
                    0 <= t <= k ==> (#[trigger] defaults@[t])@ == default_digest(t as nat),
            decreases height - k,
        {
            let nd = node_digest(&defaults[k], &defaults[k]);
            defaults.push(nd);
            k += 1;
        }
        let mut cap: u64 = 1;
        let mut t: usize = 0;
        proof {
            lemma2_to64();
        }
        while t < height
            invariant
                t <= height,
                height <= 62,
                cap == pow2(t as nat),
            decreases height - t,
        {
            proof {
                lemma_pow2_unfold((t + 1) as nat);
                if ((t + 1) as nat) < 62 {
                    lemma_pow2_strictly_increases((t + 1) as nat, 62);
                }
                lemma2_to64_rest();
            }
            cap = cap * 2;
            t += 1;
        }
        RollupState {
            depth: height,
            capacity: cap,
            accounts: HashMap::new(),
            indices: Vec::new(),
            defaults,
        }
    }

    /// Account lookup.
    pub fn get_account(&self, index: usize) -> (r: Option<&Account>)
        ensures
            match r {
                Some(a) => self.accounts_map().contains_key(index as u64) && *a
                    == self.accounts_map()[index as u64],
                None => !self.accounts_map().contains_key(index as u64),
            },
    {
        self.accounts.get(&(index as u64))
    }

    /// Overwrites the account at `index`. The commitment is derived from the
    /// account map on demand, so leaf and root can never be observed out of
    /// step. Fails with `IndexOutOfRange` beyond the tree's capacity.
    pub fn update_account(&mut self, index: usize, account: Account) -> (r: Result<(), RollupError>)
        requires
            old(self).wf(),
        ensures
            final(self).wf(),
            final(self).tree_depth() == old(self).tree_depth(),
            (index as nat) < old(self).capacity_of() ==> r == Ok::<(), RollupError>(())
                && final(self).accounts_map() == old(self).accounts_map().insert(
                index as u64,
                account,
            ),
            !((index as nat) < old(self).capacity_of()) ==> r == Err::<(), RollupError>(
                RollupError::IndexOutOfRange,
            ) && final(self).accounts_map() == old(self).accounts_map(),
    {
        let idx = index as u64;
        if idx >= self.capacity {
            return Err(RollupError::IndexOutOfRange);
        }
        self.accounts.insert(idx, account);
        self.indices.push(idx);
        proof {
            assert forall|l: u64| #[trigger] self.accounts@.contains_key(l) implies self.indices@.contains(
                l,
            ) by {
                if l == idx {
                    assert(self.indices@[self.indices@.len() - 1] == idx);
                } else {
                    assert(old(self).accounts@.contains_key(l));
                    assert(old(self).indices@.contains(l));
                    let q = choose|q: int|
                        0 <= q < old(self).indices@.len() && old(self).indices@[q] == l;
                    assert(self.indices@[q] == l);
                }
            }
            assert forall|l: u64| #[trigger] self.indices@.contains(l) implies self.accounts@.contains_key(
                l,
            ) by {
                let q = choose|q: int| 0 <= q < self.indices@.len() && self.indices@[q] == l;
                if q < old(self).indices@.len() {
                    assert(old(self).indices@[q] == l);
                    assert(old(self).indices@.contains(l));
                    assert(old(self).accounts@.contains_key(l));
                } else {
                    assert(l == idx);
                }
            }
        }
        Ok(())
    }

    /// Executable form of `anc`.
    fn anc_index(l: u64, k: usize) -> (r: u64)
        ensures
            r as nat == anc(l as nat, k as nat),
    {
        let mut a = l;
        let mut t: usize = 0;
        while t < k
            invariant
                t <= k,
                a as nat == anc(l as nat, t as nat),
            decreases k - t,
        {
            a = a / 2;
            t += 1;
        }
        a
    }

    /// Whether any populated leaf lies under the node at index `j` of level
    /// `k`.
    fn has_leaf_under(&self, k: usize, j: u64) -> (r: bool)
        requires
            self.wf(),
        ensures
            r == exists|l: u64|
                #[trigger] self.accounts_map().contains_key(l) && anc(l as nat, k as nat) == j as nat,
    {
        let mut p: usize = 0;
        while p < self.indices.len()
            invariant
                self.wf(),
                p <= self.indices@.len(),
                forall|q: int|
                    0 <= q < p ==> anc((#[trigger] self.indices@[q]) as nat, k as nat) != j as nat,
            decreases self.indices@.len() - p,
        {
            let cand = self.indices[p];
            if Self::anc_index(cand, k) == j {
                proof {
                    assert(self.indices@.contains(cand));
                    assert(self.accounts_map().contains_key(cand));
                    assert(anc(cand as nat, k as nat) == j as nat);
                }
                return true;
            }
            p += 1;
        }
        proof {
            assert forall|l: u64| #[trigger] self.accounts_map().contains_key(l) implies anc(
                l as nat,
                k as nat,
            ) != j as nat by {
                assert(self.indices@.contains(l));
                let q = choose|q: int| 0 <= q < self.indices@.len() && self.indices@[q] == l;
            }
        }
        false
    }

    /// A subtree with no populated leaf carries the default digest of its
    /// level.
    proof fn lemma_unpopulated_default(self, k: nat, j: nat)
        requires
            forall|l: u64|
                #[trigger] self.accounts_map().contains_key(l) ==> anc(l as nat, k) != j,
        ensures
            self.subtree(k, j) == default_digest(k),
        decreases k,
    {
        if k == 0 {
            if j <= u64::MAX && self.accounts_map().contains_key(j as u64) {
                assert(anc((j as u64) as nat, 0) == j);
                assert(false);
            }
        } else {
            let k1 = (k - 1) as nat;
            assert forall|l: u64| #[trigger] self.accounts_map().contains_key(l) implies anc(
                l as nat,
                k1,
            ) != 2 * j by {
                if anc(l as nat, k1) == 2 * j {
                    lemma_fundamental_div_mod_converse(2 * j as int, 2, j as int, 0);
                    assert(anc(l as nat, k) == j);
                }
            }
            assert forall|l: u64| #[trigger] self.accounts_map().contains_key(l) implies anc(
                l as nat,
                k1,
            ) != 2 * j + 1 by {
                if anc(l as nat, k1) == 2 * j + 1 {
                    lemma_fundamental_div_mod_converse(2 * j as int + 1, 2, j as int, 1);
                    assert(anc(l as nat, k) == j);
                }
            }
            self.lemma_unpopulated_default(k1, 2 * j);
            self.lemma_unpopulated_default(k1, 2 * j + 1);
        }
    }

    /// Recomputes the digest of the level-`k` subtree at index `j`,
    /// short-circuiting unpopulated subtrees through the default table.
    fn compute_subtree(&self, k: usize, j: u64) -> (d: Digest)
        requires
            self.wf(),
            k <= self.tree_depth(),
            (j as nat) < pow2((self.tree_depth() - k as nat) as nat),
        ensures
            d@ == self.subtree(k as nat, j as nat),
        decreases k,
    {
        if k == 0 {
            let v = match self.accounts.get(&j) {
                Some(a) => a.balance,
                None => 0,
            };
            leaf_digest(v)
        } else if !self.has_leaf_under(k, j) {
            let d = self.defaults[k].clone();
            proof {
                self.lemma_unpopulated_default(k as nat, j as nat);
            }
            d
        } else {
            proof {
                lemma_pow2_unfold((self.tree_depth() - k as nat + 1) as nat);
                lemma_pow2_strictly_increases((self.tree_depth() - k as nat) as nat, 62);
                lemma2_to64_rest();
            }
            let l = self.compute_subtree(k - 1, 2 * j);
            let r = self.compute_subtree(k - 1, 2 * j + 1);
            node_digest(&l, &r)
        }
    }

    /// The current commitment root.
    pub fn get_root(&self) -> (r: Digest)
        requires
            self.wf(),
        ensures
            r@ == self.root_digest(),
    {
        proof {
            vstd::arithmetic::power2::lemma_pow2_pos(0);
        }
        self.compute_subtree(self.depth, 0)
    }

    /// The authentication path of leaf `index` under the current leaves.
    /// Fails with `IndexOutOfRange` beyond the tree's capacity.
    pub fn get_merkle_path(&self, index: usize) -> (r: Result<Vec<PathEntry>, RollupError>)
        requires
            self.wf(),
        ensures
            (index as nat) < self.capacity_of() ==> match r {
                Ok(p) => p@.len() == self.tree_depth() && path_view(p@) == self.path_spec(
                    index as nat,
                ),
                Err(_) => false,
            },
            !((index as nat) < self.capacity_of()) ==> r == Err::<Vec<PathEntry>, RollupError>(
                RollupError::IndexOutOfRange,
            ),
    {
        let idx = index as u64;
        if idx >= self.capacity {
            return Err(RollupError::IndexOutOfRange);
        }
        let mut entries: Vec<PathEntry> = Vec::new();
        let mut j: u64 = idx;
        let mut k: usize = 0;
        proof {
            assert(path_view(entries@) =~= Seq::<(Seq<u8>, bool)>::empty());
            assert(path_view(entries@) + self.path_from(j as nat, 0) =~= self.path_from(
                idx as nat,
                0,
            ));
        }
        while k < self.depth
            invariant
                self.wf(),
                k <= self.tree_depth(),
                entries@.len() == k,
                (j as nat) < pow2((self.tree_depth() - k as nat) as nat),
                path_view(entries@) + self.path_from(j as nat, k as nat) == self.path_from(
                    index as nat,
                    0,
                ),
            decreases self.tree_depth() - k,
        {
            proof {
                lemma_pow2_unfold((self.tree_depth() - k as nat) as nat);
            }
            let sib_j = if j % 2 == 0 {
                proof {
                    if j + 1 == pow2((self.tree_depth() - k as nat) as nat) {
                        assert((j + 1) % 2 == 0) by {
                            lemma_fundamental_div_mod_converse(
                                j as int + 1,
                                2,
                                pow2((self.tree_depth() - k as nat - 1) as nat) as int,
                                0,
                            );
                        }
                        assert(false);
                    }
                }
                j + 1
            } else {
                j - 1
            };
            let sib = self.compute_subtree(k, sib_j);
            let e = PathEntry { sibling: sib, is_right_child: j % 2 == 1 };
            let ghost entries_old = entries@;
            let ghost j_old = j as nat;
            entries.push(e);
            proof {
                assert(sibling_index(j_old) == sib_j as nat);
                assert(path_view(entries@) =~= path_view(entries_old).push(
                    (self.subtree(k as nat, sibling_index(j_old)), j_old % 2 == 1),
                ));
                assert(self.path_from(j_old, k as nat) == seq![
                    (self.subtree(k as nat, sibling_index(j_old)), j_old % 2 == 1),
                ] + self.path_from(j_old / 2, k as nat + 1));
                assert(path_view(entries@) + self.path_from(j_old / 2, k as nat + 1)
                    =~= path_view(entries_old) + self.path_from(j_old, k as nat));
                // the new running index stays in range one level up
                let m = (self.tree_depth() - k as nat) as nat;
                let h = pow2((m - 1) as nat);
                lemma_fundamental_div_mod_converse(2 * h as int - 1, 2, h as int - 1, 1);
                lemma_div_is_ordered(j as int, 2 * h as int - 1, 2);
            }
            j = j / 2;
            k += 1;
        }
        proof {
            assert(self.path_from(j as nat, k as nat) =~= Seq::<(Seq<u8>, bool)>::empty());
            assert(path_view(entries@) =~= path_view(entries@) + self.path_from(
                j as nat,
                k as nat,
            ));
        }
        Ok(entries)
    }

    /// Folding the authentication path upward from a subtree's own digest
    /// yields the root.
    proof fn lemma_fold_from(self, j: nat, k: nat)
        requires
            k <= self.tree_depth(),
            j < pow2((self.tree_depth() - k) as nat),
        ensures
            root_from_path(self.subtree(k, j), self.path_from(j, k)) == self.root_digest(),
        decreases self.tree_depth() - k,
    {
        if k == self.tree_depth() {
            lemma2_to64();
            assert(j == 0);
            assert(self.path_from(j, k) =~= Seq::<(Seq<u8>, bool)>::empty());
        } else {
            let e = (self.subtree(k, sibling_index(j)), j % 2 == 1);
            let rest = self.path_from(j / 2, k + 1);
            let p = self.path_from(j, k);
            assert(p == seq![e] + rest);
            assert(p[0] == e);
            assert(p.drop_first() =~= rest);
            lemma_fundamental_div_mod(j as int, 2);
            let m = (self.tree_depth() - k) as nat;
            lemma_pow2_unfold(m);
            let h = pow2((m - 1) as nat);
            lemma_fundamental_div_mod_converse(2 * h as int - 1, 2, h as int - 1, 1);
            lemma_div_is_ordered(j as int, 2 * h as int - 1, 2);
            assert(j / 2 < h);
            if j % 2 == 0 {
                assert(2 * (j / 2) == j);
                assert(self.subtree(k + 1, j / 2) == node_hash_of(
                    self.subtree(k, j),
                    self.subtree(k, j + 1),
                ));
                assert(combine(self.subtree(k, j), e) == self.subtree(k + 1, j / 2));
            } else {
                assert(2 * (j / 2) + 1 == j);
                assert(self.subtree(k + 1, j / 2) == node_hash_of(
                    self.subtree(k, (j - 1) as nat),
                    self.subtree(k, j),
                ));
                assert(combine(self.subtree(k, j), e) == self.subtree(k + 1, j / 2));
            }
            self.lemma_fold_from(j / 2, k + 1);
            assert(root_from_path(self.subtree(k, j), p) == root_from_path(
                combine(self.subtree(k, j), p[0]),
                p.drop_first(),
            ));
        }
    }

    /// Round trip: the authentication path of leaf `i`, folded from that
    /// leaf's digest, recomputes the current root, before any further
    /// mutation.
    pub proof fn lemma_path_round_trip(self, i: nat)
        requires
            i < self.capacity_of(),
        ensures
            root_from_path(leaf_hash_of(self.leaf_value(i)), self.path_spec(i))
                == self.root_digest(),
    {
        self.lemma_fold_from(i, 0);
    }

    /// What `apply_transfer` decides, given the state it starts from and the
    /// snapshot root the caller fetched.
    pub open spec fn transfer_outcome(self, tx: Transaction, snapshot: Seq<u8>) -> Result<
        (),
        RollupError,
    > {
        if snapshot != self.root_digest() {
            Err(RollupError::StaleSnapshot)
        } else if !((tx.from as nat) < self.capacity_of() && (tx.to as nat)
            < self.capacity_of()) {
            Err(RollupError::IndexOutOfRange)
        } else {
            match validate_spec(self.account_at(tx.from as nat), tx) {
                Ok(v) => Ok(()),
                Err(e) => Err(e),
            }
        }
    }

    /// Applies both legs of a validated transfer against a snapshot root:
    /// rejects the commit when the root moved since the snapshot was taken,
    /// then debits the sender and advances its nonce by one — the fixed
    /// nonce policy of this ledger — and credits the receiver, leaving the
    /// receiver's nonce unchanged. On every error the ledger is unchanged.
    pub fn apply_transfer(&mut self, tx: &Transaction, expected_root: &Digest) -> (r: Result<
        (),
        RollupError,
    >)
        requires
            old(self).wf(),
            tx.from != tx.to ==> old(self).account_at(tx.to as nat).balance + tx.amount
                <= u64::MAX,
            old(self).account_at(tx.from as nat).nonce < u64::MAX,
        ensures
            r == old(self).transfer_outcome(*tx, expected_root@),
            final(self).wf(),
            final(self).tree_depth() == old(self).tree_depth(),
            r is Err ==> final(self).accounts_map() == old(self).accounts_map(),
            r is Ok ==> final(self).account_at(tx.from as nat) == (Account {
                balance: if tx.from == tx.to {
                    old(self).account_at(tx.from as nat).balance
                } else {
                    (old(self).account_at(tx.from as nat).balance - tx.amount) as u64
                },
                nonce: (old(self).account_at(tx.from as nat).nonce + 1) as u64,
            }),
            r is Ok && tx.from != tx.to ==> final(self).account_at(tx.to as nat) == (Account {
                balance: (old(self).account_at(tx.to as nat).balance + tx.amount) as u64,
                nonce: old(self).account_at(tx.to as nat).nonce,
            }),
            r is Ok ==> forall|i: nat|
                i != tx.from as nat && i != tx.to as nat ==> #[trigger] final(self).account_at(i)
                    == old(self).account_at(i),
    {
        let root = self.get_root();
        if !digest_eq(&root, expected_root) {
            return Err(RollupError::StaleSnapshot);
        }
        if tx.from as u64 >= self.capacity || tx.to as u64 >= self.capacity {
            return Err(RollupError::IndexOutOfRange);
        }
        let from_acct = match self.get_account(tx.from) {
            Some(a) => *a,
            None => Account { balance: 0, nonce: 0 },
        };
        let new_balance = match validate(&from_acct, tx) {
            Ok(v) => v,
            Err(e) => return Err(e),
        };
        let _ = self.update_account(
            tx.from,
            Account { balance: new_balance, nonce: from_acct.nonce + 1 },
        );
        let to_acct = match self.get_account(tx.to) {
            Some(a) => *a,
            None => Account { balance: 0, nonce: 0 },
        };
        let _ = self.update_account(
            tx.to,
            Account { balance: to_acct.balance + tx.amount, nonce: to_acct.nonce },
        );
        Ok(())
    }

    /// The sum of the balances at the given indices.
    pub open spec fn total_balance(self, idxs: Seq<u64>) -> int
        decreases idxs.len(),
    {
        if idxs.len() == 0 {
            0
        } else {
            self.account_at(idxs[0] as nat).balance + self.total_balance(idxs.drop_first())
        }
    }
}

/// How one applied transfer moves a balance total: down by the amount where
/// the set holds the sender, up by the amount where it holds the receiver.
proof fn lemma_total_balance_diff(
    s0: RollupState,
    s1: RollupState,
    from: u64,
    to: u64,
    amount: u64,
    idxs: Seq<u64>,
)
    requires
        from != to,
        s1.account_at(from as nat).balance == s0.account_at(from as nat).balance - amount,
        s1.account_at(to as nat).balance == s0.account_at(to as nat).balance + amount,
        forall|i: nat|
            i != from as nat && i != to as nat ==> (#[trigger] s1.account_at(i)).balance
                == s0.account_at(i).balance,
        idxs.no_duplicates(),
    ensures
        s1.total_balance(idxs) - s0.total_balance(idxs) == (if idxs.contains(from) {
            -(amount as int)
        } else {
            0
        }) + (if idxs.contains(to) {
            amount as int
        } else {
            0
        }),
    decreases idxs.len(),
{
    if idxs.len() == 0 {
        assert(!idxs.contains(from));
        assert(!idxs.contains(to));
    } else {
        let h = idxs[0];
        let rest = idxs.drop_first();
        assert(rest.no_duplicates()) by {
            assert forall|p: int, q: int|
                0 <= p < rest.len() && 0 <= q < rest.len() && p != q implies rest[p]
                    != rest[q] by {
                assert(rest[p] == idxs[p + 1]);
                assert(rest[q] == idxs[q + 1]);
            }
        }
        lemma_total_balance_diff(s0, s1, from, to, amount, rest);
        assert(idxs.contains(h)) by {
            assert(idxs[0] == h);
        }
        // relate membership in idxs with membership in its tail
        assert forall|x: u64| #[trigger] rest.contains(x) implies idxs.contains(x) by {
            let q = choose|q: int| 0 <= q < rest.len() && rest[q] == x;
            assert(idxs[q + 1] == x);
        }
        assert forall|x: u64| idxs.contains(x) && x != h implies rest.contains(x) by {
            let q = choose|q: int| 0 <= q < idxs.len() && idxs[q] == x;
            assert(q != 0);
            assert(rest[q - 1] == x);
        }
        if h == from {
            assert(!rest.contains(from)) by {
                if rest.contains(from) {
                    let q = choose|q: int| 0 <= q < rest.len() && rest[q] == from;
                    assert(idxs[q + 1] == from);
                    assert(idxs[0] == from);
                    assert(false);
                }
            }
        }
        if h == to {
            assert(!rest.contains(to)) by {
                if rest.contains(to) {
                    let q = choose|q: int| 0 <= q < rest.len() && rest[q] == to;
                    assert(idxs[q + 1] == to);
                    assert(idxs[0] == to);
                    assert(false);
                }
            }
        }
    }
}

/// The commitment is a function of the account map and the depth alone: two
/// states that agree on both carry the same subtree digests, and so the
/// same root.
pub proof fn lemma_commitment_congruent(s1: RollupState, s2: RollupState, k: nat, j: nat)
    requires
        s1.accounts_map() == s2.accounts_map(),
        s1.tree_depth() == s2.tree_depth(),
    ensures
        s1.subtree(k, j) == s2.subtree(k, j),
    decreases k,
{
    if k > 0 {
        lemma_commitment_congruent(s1, s2, (k - 1) as nat, 2 * j);
        lemma_commitment_congruent(s1, s2, (k - 1) as nat, 2 * j + 1);
    }
}

/// Authentication paths, too, are a function of the account map and the
/// depth alone.
pub proof fn lemma_path_congruent(s1: RollupState, s2: RollupState, j: nat, k: nat)
    requires
        s1.accounts_map() == s2.accounts_map(),
        s1.tree_depth() == s2.tree_depth(),
    ensures
        s1.path_from(j, k) == s2.path_from(j, k),
    decreases s1.tree_depth() - k,
{
    if k < s1.tree_depth() {
        lemma_commitment_congruent(s1, s2, k, sibling_index(j));
        lemma_path_congruent(s1, s2, j / 2, k + 1);
    }
}

/// Conservation: a transfer applied in full — debit and credit both — moves
/// value but never creates or destroys it. Over any duplicate-free index set
/// that holds both the sender and the receiver, the balance total is
/// unchanged.
pub proof fn lemma_transfer_conserves(
    s0: RollupState,
    s1: RollupState,
    from: u64,
    to: u64,
    amount: u64,
    idxs: Seq<u64>,
)
    requires
        from != to,
        s1.account_at(from as nat).balance == s0.account_at(from as nat).balance - amount,
        s1.account_at(to as nat).balance == s0.account_at(to as nat).balance + amount,
        forall|i: nat|
            i != from as nat && i != to as nat ==> (#[trigger] s1.account_at(i)).balance
                == s0.account_at(i).balance,
        idxs.no_duplicates(),
        idxs.contains(from),
        idxs.contains(to),
    ensures
        s1.total_balance(idxs) == s0.total_balance(idxs),
{
    lemma_total_balance_diff(s0, s1, from, to, amount, idxs);
}

} // verus!
