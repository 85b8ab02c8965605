//! Off-circuit Merkle tree and helpers.
//!
//! Uses the same Poseidon hash as the on-circuit chip, so proofs verify
//! against trees built here.

use vstd::prelude::*;
use vstd::arithmetic::power2::pow2;

use crate::circuit::VOTE_TREE_DEPTH;
use crate::field::Fe;
use crate::hash::{permute, poseidon_fn, round_constants, spec_constants, spec_poseidon, spec_round_constants, cvals, ROUNDS};

verus! {

/// The tree hash on values: Poseidon with the chip's round constants.
pub open spec fn spec_hash(a: nat, b: nat) -> nat {
    spec_poseidon(spec_constants(), a, b)
}

/// The hash of two nodes, matching the on-circuit `HashChip`: Poseidon of
/// `(a, b)`. `None` exactly when the round constants cannot be drawn.
pub fn hash(a: Fe, b: Fe) -> (r: Option<Fe>)
    ensures
        r is Some <==> spec_round_constants() is Some,
        r matches Some(h) ==> h@ == spec_hash(a@, b@),
{
    crate::hash::hash(a, b)
}

/// The values of a sequence of field elements.
pub open spec fn vals(s: Seq<Fe>) -> Seq<nat> {
    s.map_values(|x: Fe| x@)
}

/// Number of leaves of a full tree.
pub open spec fn capacity() -> nat {
    16
}

/// Number of nodes on level `l` (level 0 holds the leaves).
pub open spec fn level_size(l: nat) -> nat
    decreases l,
{
    if l == 0 {
        capacity()
    } else {
        level_size((l - 1) as nat) / 2
    }
}

/// The leaf values a tree is built from: the given leaves, cut or padded
/// with zero to the capacity.
pub open spec fn padded(leaves: Seq<Fe>) -> Seq<nat> {
    Seq::new(capacity(), |i: int| if i < leaves.len() { leaves[i]@ } else { 0 })
}

/// Level `l` of the tree over the leaf values `p`.
pub open spec fn spec_level(p: Seq<nat>, l: nat) -> Seq<nat>
    decreases l,
{
    if l == 0 {
        p
    } else {
        let prev = spec_level(p, (l - 1) as nat);
        Seq::new(level_size(l), |k: int| spec_hash(prev[2 * k], prev[2 * k + 1]))
    }
}

/// The root of the tree built from `leaves`.
pub open spec fn spec_root(leaves: Seq<Fe>) -> nat {
    spec_level(padded(leaves), VOTE_TREE_DEPTH as nat)[0]
}

/// Index of the node paired with node `i` on its level.
pub open spec fn sibling(i: nat) -> nat {
    if i % 2 == 0 {
        i + 1
    } else {
        (i - 1) as nat
    }
}

/// The node values at the sibling positions on levels `l..DEPTH` along the
/// way from node `i` of level `l` up to the root.
pub open spec fn spec_path_from(nodes: Seq<Vec<Fe>>, l: nat, i: nat) -> Seq<nat>
    decreases VOTE_TREE_DEPTH - l,
{
    if l >= VOTE_TREE_DEPTH {
        Seq::empty()
    } else {
        seq![nodes[l as int]@[sibling(i) as int]@] + spec_path_from(nodes, l + 1, i / 2)
    }
}

/// Every sibling position on the way up from node `i` of level `l` lies
/// inside its level.
pub open spec fn path_in_bounds(nodes: Seq<Vec<Fe>>, l: nat, i: nat) -> bool
    decreases VOTE_TREE_DEPTH - l,
{
    if l >= VOTE_TREE_DEPTH {
        true
    } else {
        &&& l < nodes.len()
        &&& sibling(i) < nodes[l as int]@.len()
        &&& path_in_bounds(nodes, l + 1, i / 2)
    }
}

/// Folds an authentication path into a root: on each level the current
/// value is hashed with the path entry, on the left when the position bit
/// is 0 and on the right when it is 1.
pub open spec fn fold_path(h: spec_fn(nat, nat) -> nat, cur: nat, path: Seq<nat>, idx: nat) -> nat
    decreases path.len(),
{
    if path.len() == 0 {
        cur
    } else {
        let next = if idx % 2 == 0 {
            h(cur, path[0])
        } else {
            h(path[0], cur)
        };
        fold_path(h, next, path.drop_first(), idx / 2)
    }
}

/// A binary Merkle tree of fixed depth `VOTE_TREE_DEPTH`.
#[derive(Clone, Debug)]
pub struct MerkleTree {
    /// The leaves, padded to the capacity.
    pub leaves: Vec<Fe>,
    /// All levels, bottom-up: `nodes[0]` are the leaves, `nodes[DEPTH]`
    /// holds the root alone.
    pub nodes: Vec<Vec<Fe>>,
    pub root: Fe,
}

impl MerkleTree {
    /// The tree is consistent: each level has its size, each inner node is
    /// the hash of its two children, and `leaves` and `root` are the bottom
    /// and top of `nodes`.
    pub open spec fn wf(&self) -> bool {
        &&& self.nodes@.len() == VOTE_TREE_DEPTH + 1
        &&& forall|l: int|
            0 <= l <= VOTE_TREE_DEPTH ==> #[trigger] self.nodes@[l]@.len() == level_size(l as nat)
        &&& forall|l: int, k: int|
            0 <= l < VOTE_TREE_DEPTH && 0 <= k < level_size((l + 1) as nat) ==> (
            #[trigger] self.nodes@[l + 1]@[k])@ == spec_hash(
                self.nodes@[l]@[2 * k]@,
                self.nodes@[l]@[2 * k + 1]@,
            )
        &&& self.leaves@ == self.nodes@[0]@
        &&& self.root == self.nodes@[VOTE_TREE_DEPTH as int]@[0]
    }

    /// The authentication path of leaf `index`, as values, leaf level first.
    pub open spec fn spec_path(&self, index: nat) -> Seq<nat> {
        spec_path_from(self.nodes@, 0, index)
    }
}


/// A copy of a vector of field elements.
fn copy_fes(v: &Vec<Fe>) -> (r: Vec<Fe>)
    ensures
        r@ == v@,
{
    let mut r: Vec<Fe> = Vec::new();
    let mut i: usize = 0;
    while i < v.len()
        invariant
            i <= v.len(),
            r@ == v@.subrange(0, i as int),
        decreases v.len() - i,
    {
        r.push(v[i]);
        i += 1;
        assert(r@ =~= v@.subrange(0, i as int));
    }
    assert(v@.subrange(0, v.len() as int) =~= v@);
    r
}

/// The level above `cur`: the hash of each pair of adjacent nodes.
fn next_level(constants: &Vec<[Fe; 3]>, cur: &Vec<Fe>) -> (next: Vec<Fe>)
    requires
        constants@.len() == ROUNDS,
        cvals(constants@) == spec_constants(),
    ensures
        next@.len() == cur@.len() / 2,
        forall|k: int|
            0 <= k < cur@.len() / 2 ==> (#[trigger] next@[k])@ == spec_hash(
                cur@[2 * k]@,
                cur@[2 * k + 1]@,
            ),
{
    let mut next: Vec<Fe> = Vec::new();
    let half = cur.len() / 2;
    let mut k: usize = 0;
    while k < half
        invariant
            constants@.len() == ROUNDS,
            cvals(constants@) == spec_constants(),
            half == cur@.len() / 2,
            k <= half,
            next@.len() == k,
            forall|j: int|
                0 <= j < k ==> (#[trigger] next@[j])@ == spec_hash(
                    cur@[2 * j]@,
                    cur@[2 * j + 1]@,
                ),
        decreases half - k,
    {
        assert(2 * k + 1 < cur.len());
        next.push(permute(constants, cur[2 * k], cur[2 * k + 1]));
        k += 1;
    }
    next
}

impl MerkleTree {
    /// Build a tree from a list of voter commitments (leaves). Pads with
    /// zero up to `2^DEPTH`; leaves beyond that are dropped.
    pub fn new(leaves: &[Fe]) -> (r: Option<Self>)
        ensures
            r is Some <==> spec_round_constants() is Some,
            r matches Some(t) ==> {
                &&& t.wf()
                &&& t.leaves@.len() == capacity()
                &&& forall|i: int|
                    0 <= i < capacity() ==> (#[trigger] t.leaves@[i])@ == (if i < leaves@.len() {
                        leaves@[i]@
                    } else {
                        0
                    })
                &&& vals(t.leaves@) == padded(leaves@)
                &&& forall|l: int|
                    0 <= l <= VOTE_TREE_DEPTH ==> vals(#[trigger] t.nodes@[l]@) == spec_level(
                        padded(leaves@),
                        l as nat,
                    )
                &&& t.root@ == spec_root(leaves@)
            },
    {
        proof {
            lemma_level_sizes();
        }
        let constants = match round_constants() {
            Some(c) => c,
            None => {
                return None;
            },
        };
        assert((1usize << 4usize) == 16usize) by (bit_vector);
        let capacity: usize = 1usize << VOTE_TREE_DEPTH;
        let ghost p = padded(leaves@);
        let mut padded_leaves: Vec<Fe> = Vec::new();
        let mut i: usize = 0;
        while i < capacity
            invariant
                capacity == 16,
                i <= capacity,
                p == padded(leaves@),
                padded_leaves@.len() == i,
                forall|j: int| 0 <= j < i ==> (#[trigger] padded_leaves@[j])@ == p[j],
            decreases capacity - i,
        {
            if i < leaves.len() {
                padded_leaves.push(leaves[i]);
            } else {
                padded_leaves.push(Fe::zero());
            }
            i += 1;
        }
        assert(vals(padded_leaves@) =~= p);

        let mut nodes: Vec<Vec<Fe>> = Vec::new();
        nodes.push(copy_fes(&padded_leaves));
        let mut level: usize = 0;
        while level < VOTE_TREE_DEPTH
            invariant
                level <= VOTE_TREE_DEPTH,
                nodes@.len() == level + 1,
                p == padded(leaves@),
                nodes@[0]@ == padded_leaves@,
                vals(padded_leaves@) == p,
                level_size(0) == 16,
                level_size(1) == 8,
                level_size(2) == 4,
                level_size(3) == 2,
                level_size(4) == 1,
                constants@.len() == ROUNDS,
                cvals(constants@) == spec_constants(),
                forall|l: int|
                    0 <= l <= level ==> vals(#[trigger] nodes@[l]@) == spec_level(p, l as nat),
            decreases VOTE_TREE_DEPTH - level,
        {
            let next = next_level(&constants, &nodes[level]);
            proof {
                let prev = spec_level(p, level as nat);
                assert(vals(nodes@[level as int]@) == prev);
                assert(vals(next@) =~= spec_level(p, (level + 1) as nat)) by {
                    assert(prev.len() == level_size(level as nat));
                    assert forall|k: int| 0 <= k < next@.len() implies vals(next@)[k]
                        == spec_level(p, (level + 1) as nat)[k] by {
                        assert(vals(nodes@[level as int]@)[2 * k] == prev[2 * k]);
                        assert(vals(nodes@[level as int]@)[2 * k + 1] == prev[2 * k + 1]);
                    }
                }
            }
            nodes.push(next);
            level += 1;
        }
        let root = nodes[VOTE_TREE_DEPTH][0];
        let t = MerkleTree { leaves: padded_leaves, nodes, root };
        proof {
            assert forall|l: int| 0 <= l <= VOTE_TREE_DEPTH implies #[trigger] t.nodes@[l]@.len()
                == level_size(l as nat) by {
                assert(vals(t.nodes@[l]@).len() == spec_level(p, l as nat).len());
            }
            assert forall|l: int, k: int|
                0 <= l < VOTE_TREE_DEPTH && 0 <= k < level_size((l + 1) as nat) implies (
                #[trigger] t.nodes@[l + 1]@[k])@ == spec_hash(
                t.nodes@[l]@[2 * k]@,
                t.nodes@[l]@[2 * k + 1]@,
            ) by {
                assert(vals(t.nodes@[l + 1]@)[k] == spec_level(p, (l + 1) as nat)[k]);
                assert(vals(t.nodes@[l]@)[2 * k] == spec_level(p, l as nat)[2 * k]);
                assert(vals(t.nodes@[l]@)[2 * k + 1] == spec_level(p, l as nat)[2 * k + 1]);
            }
            assert(vals(t.nodes@[4]@)[0] == spec_level(p, 4)[0]);
            assert forall|i: int| 0 <= i < 16 implies (#[trigger] t.leaves@[i])@ == (if i
                < leaves@.len() {
                leaves@[i]@
            } else {
                0
            }) by {
                assert(vals(t.leaves@)[i] == p[i]);
            }
        }
        Some(t)
    }

    /// Return the sibling hashes (authentication path) for the leaf at
    /// `index`, ordered from leaf level to root.
    pub fn path(&self, index: usize) -> (path: Vec<Fe>)
        requires
            path_in_bounds(self.nodes@, 0, index as nat),
        ensures
            path@.len() == VOTE_TREE_DEPTH,
            vals(path@) == self.spec_path(index as nat),
    {
        let mut path: Vec<Fe> = Vec::new();
        let mut idx: usize = index;
        let mut level: usize = 0;
        while level < VOTE_TREE_DEPTH
            invariant
                level <= VOTE_TREE_DEPTH,
                path@.len() == level,
                idx <= index,
                path_in_bounds(self.nodes@, level as nat, idx as nat),
                vals(path@) + spec_path_from(self.nodes@, level as nat, idx as nat)
                    == spec_path_from(self.nodes@, 0, index as nat),
            decreases VOTE_TREE_DEPTH - level,
        {
            let sib = if idx % 2 == 0 {
                idx + 1
            } else {
                idx - 1
            };
            let ghost before = vals(path@);
            path.push(self.nodes[level][sib]);
            proof {
                let rest = spec_path_from(self.nodes@, (level + 1) as nat, (idx / 2) as nat);
                assert(spec_path_from(self.nodes@, level as nat, idx as nat) == seq![
                    self.nodes@[level as int]@[sib as int]@] + rest);
                assert(vals(path@) =~= before.push(self.nodes@[level as int]@[sib as int]@));
                assert(vals(path@) + rest =~= before + (seq![
                    self.nodes@[level as int]@[sib as int]@] + rest));
            }
            idx /= 2;
            level += 1;
        }
        assert(spec_path_from(self.nodes@, VOTE_TREE_DEPTH as nat, idx as nat) =~= Seq::<
            nat,
        >::empty());
        assert(vals(path@) + Seq::<nat>::empty() =~= vals(path@));
        path
    }

    /// Compute the voter's leaf commitment: `H(secret, nullifier_seed)`.
    pub fn leaf(secret: Fe, nullifier_seed: Fe) -> (r: Option<Fe>)
        ensures
            r is Some <==> spec_round_constants() is Some,
            r matches Some(h) ==> h@ == spec_hash(secret@, nullifier_seed@),
    {
        hash(secret, nullifier_seed)
    }

    /// Compute the nullifier: `H(nullifier_seed, 0)`.
    pub fn nullifier(nullifier_seed: Fe) -> (r: Option<Fe>)
        ensures
            r is Some <==> spec_round_constants() is Some,
            r matches Some(h) ==> h@ == spec_hash(nullifier_seed@, 0),
    {
        hash(nullifier_seed, Fe::zero())
    }

    /// Compute the vote commitment: `H(vote, secret)`.
    pub fn vote_commitment(vote: Fe, secret: Fe) -> (r: Option<Fe>)
        ensures
            r is Some <==> spec_round_constants() is Some,
            r matches Some(h) ==> h@ == spec_hash(vote@, secret@),
    {
        hash(vote, secret)
    }
}

/// Sizes of the levels of a full tree.
pub proof fn lemma_level_sizes()
    ensures
        level_size(0) == 16,
        level_size(1) == 8,
        level_size(2) == 4,
        level_size(3) == 2,
        level_size(4) == 1,
{
    reveal_with_fuel(level_size, 5);
}

/// From node `i` of level `l`, folding the rest of the authentication path
/// reaches the root.
proof fn lemma_fold_from_level(t: MerkleTree, l: nat, i: nat)
    requires
        t.wf(),
        l <= VOTE_TREE_DEPTH,
        i < level_size(l),
    ensures
        path_in_bounds(t.nodes@, l, i),
        fold_path(poseidon_fn(spec_constants()), t.nodes@[l as int]@[i as int]@,
            spec_path_from(t.nodes@, l, i), i) == t.root@,
    decreases VOTE_TREE_DEPTH - l,
{
    lemma_level_sizes();
    let h = poseidon_fn(spec_constants());
    if l >= VOTE_TREE_DEPTH {
        assert(spec_path_from(t.nodes@, l, i) =~= Seq::<nat>::empty());
    } else {
        lemma_fold_from_level(t, l + 1, i / 2);
        let rest = spec_path_from(t.nodes@, l + 1, i / 2);
        let path = spec_path_from(t.nodes@, l, i);
        let cur = t.nodes@[l as int]@[i as int]@;
        let k = (i / 2) as int;
        assert(path.drop_first() =~= rest);
        assert(path[0] == t.nodes@[l as int]@[sibling(i) as int]@);
        assert(k < level_size(l + 1));
        assert(t.nodes@[(l + 1) as int]@[k]@ == spec_hash(
            t.nodes@[l as int]@[2 * k]@,
            t.nodes@[l as int]@[2 * k + 1]@,
        ));
        let next = if i % 2 == 0 { h(cur, path[0]) } else { h(path[0], cur) };
        assert(next == t.nodes@[(l + 1) as int]@[k]@);
    }
}

/// Merkle membership: for a consistent tree and any leaf index below the
/// capacity, hashing the leaf up the tree with its authentication path
/// (ordered by the bits of the index) gives the root.
pub proof fn lemma_path_verifies(t: MerkleTree, index: nat)
    requires
        t.wf(),
        index < capacity(),
    ensures
        path_in_bounds(t.nodes@, 0, index),
        fold_path(poseidon_fn(spec_constants()), t.leaves@[index as int]@, t.spec_path(index),
            index) == t.root@,
{
    lemma_level_sizes();
    lemma_fold_from_level(t, 0, index);
}


/// The index of the node on level `l` above leaf `i`.
pub open spec fn ancestor(i: nat, l: nat) -> nat
    decreases l,
{
    if l == 0 {
        i
    } else {
        ancestor(i, (l - 1) as nat) / 2
    }
}

/// Changing one leaf changes only the nodes on its way to the root: for
/// leaf values `p` and `q` that differ at most at index `i`, every node of
/// level `l` other than the one above `i` is the same in both trees.
pub proof fn lemma_leaf_change_locality(p: Seq<nat>, q: Seq<nat>, i: nat, l: nat)
    requires
        p.len() == capacity(),
        q.len() == capacity(),
        forall|k: int| 0 <= k < capacity() && k != i ==> p[k] == q[k],
        l <= VOTE_TREE_DEPTH,
    ensures
        spec_level(p, l).len() == level_size(l),
        spec_level(q, l).len() == level_size(l),
        forall|j: int|
            0 <= j < level_size(l) && j != ancestor(i, l) ==> #[trigger] spec_level(p, l)[j]
                == spec_level(q, l)[j],
    decreases l,
{
    if l > 0 {
        let l1 = (l - 1) as nat;
        lemma_leaf_change_locality(p, q, i, l1);
        assert forall|j: int|
            0 <= j < level_size(l) && j != ancestor(i, l) implies #[trigger] spec_level(p, l)[j]
            == spec_level(q, l)[j] by {
            assert(2 * j != ancestor(i, l1) && 2 * j + 1 != ancestor(i, l1));
            assert(spec_level(p, l1)[2 * j] == spec_level(q, l1)[2 * j]);
            assert(spec_level(p, l1)[2 * j + 1] == spec_level(q, l1)[2 * j + 1]);
        }
    }
}

/// Folding a path reads only as many bits of the index as the path has
/// entries: the index and its remainder modulo `2^len` fold alike.
pub proof fn lemma_fold_low_bits(h: spec_fn(nat, nat) -> nat, cur: nat, path: Seq<nat>, idx: nat)
    ensures
        fold_path(h, cur, path, idx) == fold_path(h, cur, path, idx % pow2(path.len())),
    decreases path.len(),
{
    if path.len() == 0 {
        vstd::arithmetic::power2::lemma2_to64();
    } else {
        let n = path.len();
        let m = pow2((n - 1) as nat);
        vstd::arithmetic::power2::lemma_pow2_pos((n - 1) as nat);
        vstd::arithmetic::power2::lemma_pow2_unfold(n);
        let idx2 = idx % pow2(n);
        vstd::arithmetic::div_mod::lemma_mod_mod(idx as int, 2, m as int);
        vstd::arithmetic::div_mod::lemma_mod_breakdown(idx as int, 2, m as int);
        assert(idx2 % 2 == idx % 2);
        assert(idx2 / 2 == (idx / 2) % m);
        let rest = path.drop_first();
        let next = if idx % 2 == 0 { h(cur, path[0]) } else { h(path[0], cur) };
        lemma_fold_low_bits(h, next, rest, idx / 2);
    }
}

} // verus!
