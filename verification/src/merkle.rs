//! The commitment scheme: authentication paths and root recomputation.
//!
//! `root_from` is the single source of truth for how a leaf digest and an
//! authentication path combine into a root (the native execution); the
//! constraint-system form in `circuit` mirrors the same fold, entry by entry,
//! against the same specification `root_from_path`.

use vstd::prelude::*;
use crate::hash::{Digest, leaf_hash_of, node_hash_of, leaf_digest, node_digest};

verus! {

/// One level of an authentication path: the sibling digest at that level,
/// and whether the running node is the right child of its parent.
pub struct PathEntry {
    pub sibling: Digest,
    pub is_right_child: bool,
}

impl Clone for PathEntry {
    fn clone(&self) -> (r: Self)
        ensures
            r.sibling@ == self.sibling@,
            r.is_right_child == self.is_right_child,
    {
        PathEntry { sibling: self.sibling.clone(), is_right_child: self.is_right_child }
    }
}

/// The mathematical view of a path: a sequence of (sibling digest, right bit).
pub open spec fn path_view(p: Seq<PathEntry>) -> Seq<(Seq<u8>, bool)> {
    p.map(|i: int, e: PathEntry| (e.sibling@, e.is_right_child))
}

/// The parent digest of a running node combined with one path entry, with the
/// argument order of the node hash chosen by the orientation bit.
pub open spec fn combine(cur: Seq<u8>, entry: (Seq<u8>, bool)) -> Seq<u8> {
    if entry.1 {
        node_hash_of(entry.0, cur)
    } else {
        node_hash_of(cur, entry.0)
    }
}

/// The root recomputed from a leaf digest by folding the path bottom-up.
pub open spec fn root_from_path(leaf: Seq<u8>, path: Seq<(Seq<u8>, bool)>) -> Seq<u8>
    decreases path.len(),
{
    if path.len() == 0 {
        leaf
    } else {
        root_from_path(combine(leaf, path[0]), path.drop_first())
    }
}

/// Folding a path extended by one entry combines the fold of the path with
/// that entry.
pub proof fn lemma_root_from_path_snoc(leaf: Seq<u8>, path: Seq<(Seq<u8>, bool)>, entry: (Seq<u8>, bool))
    ensures
        root_from_path(leaf, path.push(entry)) == combine(root_from_path(leaf, path), entry),
    decreases path.len(),
{
    let p1 = path.push(entry);
    if path.len() == 0 {
        assert(p1[0] == entry);
        assert(p1.drop_first() =~= Seq::<(Seq<u8>, bool)>::empty());
        assert(root_from_path(leaf, p1) == root_from_path(combine(leaf, entry), p1.drop_first()));
        assert(root_from_path(combine(leaf, entry), p1.drop_first()) == combine(leaf, entry));
        assert(root_from_path(leaf, path) == leaf);
    } else {
        assert(p1[0] == path[0]);
        assert(p1.drop_first() =~= path.drop_first().push(entry));
        lemma_root_from_path_snoc(combine(leaf, path[0]), path.drop_first(), entry);
        assert(root_from_path(leaf, p1) == root_from_path(combine(leaf, path[0]), path.drop_first().push(entry)));
        assert(root_from_path(leaf, path) == root_from_path(combine(leaf, path[0]), path.drop_first()));
    }
}

/// Native recomputation of the root from a leaf value and its authentication
/// path: hash the leaf, then fold every level's sibling into the running
/// digest, ordering the hash inputs by the orientation bit.
pub fn root_from(leaf_value: u64, path: &Vec<PathEntry>) -> (r: Digest)
    ensures
        r@ == root_from_path(leaf_hash_of(leaf_value), path_view(path@)),
{
    let mut cur: Digest = leaf_digest(leaf_value);
    let mut i: usize = 0;
    proof {
        assert(path_view(path@).skip(0) =~= path_view(path@));
    }
    while i < path.len()
        invariant
            i <= path@.len(),
            root_from_path(cur@, path_view(path@).skip(i as int)) == root_from_path(
                leaf_hash_of(leaf_value),
                path_view(path@),
            ),
        decreases path@.len() - i,
    {
        let e = &path[i];
        let next = if e.is_right_child {
            node_digest(&e.sibling, &cur)
        } else {
            node_digest(&cur, &e.sibling)
        };
        proof {
            let pv = path_view(path@);
            assert(pv.skip(i as int)[0] == pv[i as int]);
            assert(pv.skip(i as int).drop_first() =~= pv.skip(i as int + 1));
            assert(next@ == combine(cur@, pv.skip(i as int)[0]));
        }
        cur = next;
        i += 1;
    }
    proof {
        assert(path_view(path@).skip(path@.len() as int) =~= Seq::<(Seq<u8>, bool)>::empty());
    }
    cur
}

} // verus!
