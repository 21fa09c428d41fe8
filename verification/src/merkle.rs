//! A binary tree of pairwise-combined big integers, and the sibling paths
//! that lead from a leaf to its root.

use crate::bigint::{
    big_add, big_clone, big_from_u64, big_rem, big_values, bigint_value, trunc_rem,
};
use crate::field::{field_add, lemma_trunc_rem_congruent, FieldElement, FIELD_PRIME};
use num_bigint::BigInt;
use vstd::prelude::*;

verus! {

/// The combiner of two nodes: their sum, reduced by truncated remainder.
pub open spec fn combine(a: int, b: int) -> int {
    trunc_rem(a + b, FIELD_PRIME as int)
}

/// One level up: consecutive pairs are combined, and an unpaired last node
/// is carried over unchanged.
pub open spec fn next_level(nodes: Seq<int>) -> Seq<int> {
    Seq::new(
        ((nodes.len() + 1) / 2) as nat,
        |i: int|
            if 2 * i + 1 < nodes.len() {
                combine(nodes[2 * i], nodes[2 * i + 1])
            } else {
                nodes[2 * i]
            },
    )
}

/// The root above a non-empty level.
pub open spec fn tree_root(nodes: Seq<int>) -> int
    recommends
        nodes.len() > 0,
    decreases nodes.len(),
{
    if nodes.len() <= 1 {
        nodes[0]
    } else {
        tree_root(next_level(nodes))
    }
}

/// The path of a position: at each level below the root, the sibling of the
/// current node, with `true` where the current node is the left one of its
/// pair. A level at which the node has no sibling contributes nothing.
pub open spec fn tree_path(nodes: Seq<int>, index: nat) -> Seq<(int, bool)>
    decreases nodes.len(),
{
    if nodes.len() <= 1 {
        Seq::empty()
    } else {
        let sibling: int = if index % 2 == 0 {
            index as int + 1
        } else {
            index - 1
        };
        let above = tree_path(next_level(nodes), index / 2);
        if sibling < nodes.len() {
            seq![(nodes[sibling], index % 2 == 0)] + above
        } else {
            above
        }
    }
}

/// Replays a path from a starting node: each entry combines the running node
/// with the recorded sibling, in the order that the recorded position gives.
pub open spec fn fold_path(start: int, path: Seq<(int, bool)>) -> int
    decreases path.len(),
{
    if path.len() == 0 {
        start
    } else {
        let node = if path[0].1 {
            combine(start, path[0].0)
        } else {
            combine(path[0].0, start)
        };
        fold_path(node, path.drop_first())
    }
}

/// The integers and positions that a sequence of path entries denotes.
pub open spec fn path_values(path: Seq<(BigInt, bool)>) -> Seq<(int, bool)> {
    Seq::new(path.len(), |i: int| (bigint_value(path[i].0), path[i].1))
}

/// Replaying the path of any leaf from that leaf's value arrives at the root.
pub proof fn lemma_path_reaches_root(leaves: Seq<int>, index: nat)
    requires
        index < leaves.len(),
    ensures
        fold_path(leaves[index as int], tree_path(leaves, index)) == tree_root(leaves),
    decreases leaves.len(),
{
    if leaves.len() > 1 {
        let above = next_level(leaves);
        let path_above = tree_path(above, index / 2);
        lemma_path_reaches_root(above, index / 2);
        let sibling: int = if index % 2 == 0 {
            index as int + 1
        } else {
            index - 1
        };
        if sibling < leaves.len() {
            let path = tree_path(leaves, index);
            assert(path.drop_first() =~= path_above);
            assert(path[0] == (leaves[sibling], index % 2 == 0));
        }
    }
}

/// A tree over a fixed sequence of leaves, with its root.
pub struct MerkleTree {
    pub root: BigInt,
    pub leaves: Vec<BigInt>,
}

/// The next level above `nodes`.
fn level_above(nodes: &Vec<BigInt>) -> (above: Vec<BigInt>)
    ensures
        big_values(above@) == next_level(big_values(nodes@)),
        above.len() == (nodes.len() + 1) / 2,
{
    let count = nodes.len() / 2 + nodes.len() % 2;
    let mut above: Vec<BigInt> = Vec::new();
    let mut k: usize = 0;
    while k < count
        invariant
            k <= count,
            count == nodes.len() / 2 + nodes.len() % 2,
            above.len() == k,
            forall|j: int|
                0 <= j < k ==> bigint_value(#[trigger] above[j]) == next_level(
                    big_values(nodes@),
                )[j],
        decreases count - k,
    {
        let left = 2 * k;
        if left + 1 < nodes.len() {
            above.push(MerkleTree::hash(&nodes[left], &nodes[left + 1]));
        } else {
            above.push(big_clone(&nodes[left]));
        }
        k += 1;
    }
    proof {
        assert(big_values(above@) =~= next_level(big_values(nodes@)));
    }
    above
}

/// A copy of a sequence of big integers.
fn copy_nodes(nodes: &Vec<BigInt>) -> (copy: Vec<BigInt>)
    ensures
        big_values(copy@) == big_values(nodes@),
        copy.len() == nodes.len(),
{
    let mut copy: Vec<BigInt> = Vec::new();
    let mut i: usize = 0;
    while i < nodes.len()
        invariant
            i <= nodes.len(),
            copy.len() == i,
            forall|j: int| 0 <= j < i ==> bigint_value(#[trigger] copy[j]) == bigint_value(nodes[j]),
        decreases nodes.len() - i,
    {
        copy.push(big_clone(&nodes[i]));
        i += 1;
    }
    proof {
        assert(big_values(copy@) =~= big_values(nodes@));
    }
    copy
}

impl MerkleTree {
    /// Builds the tree over `leaves`, computing its root.
    pub fn new(leaves: Vec<BigInt>) -> (tree: MerkleTree)
        requires
            leaves.len() > 0,
        ensures
            tree.leaves == leaves,
            bigint_value(tree.root) == tree_root(big_values(leaves@)),
    {
        let root = MerkleTree::compute_root(&leaves);
        MerkleTree { root, leaves }
    }

    /// The sibling path of the leaf at `index`, from the leaves upwards.
    pub fn merkle_path(&self, index: usize) -> (path: Vec<(BigInt, bool)>)
        ensures
            path_values(path@) == tree_path(big_values(self.leaves@), index as nat),
    {
        let mut path: Vec<(BigInt, bool)> = Vec::new();
        let mut current_index = index;
        let mut nodes = copy_nodes(&self.leaves);
        while nodes.len() > 1
            invariant
                path_values(path@) + tree_path(big_values(nodes@), current_index as nat)
                    == tree_path(big_values(self.leaves@), index as nat),
            decreases nodes.len(),
        {
            let above = level_above(&nodes);
            let ghost before = path_values(path@);
            let ghost rest = tree_path(big_values(above@), (current_index / 2) as nat);
            if current_index % 2 == 0 {
                if current_index < nodes.len() - 1 {
                    path.push((big_clone(&nodes[current_index + 1]), true));
                    proof {
                        let entry = (bigint_value(nodes[current_index + 1]), true);
                        assert(path_values(path@) =~= before.push(entry));
                        assert(before.push(entry) + rest =~= before + (seq![entry] + rest));
                    }
                }
            } else {
                let sibling = current_index - 1;
                if sibling < nodes.len() {
                    path.push((big_clone(&nodes[sibling]), false));
                    proof {
                        let entry = (bigint_value(nodes[sibling as int]), false);
                        assert(path_values(path@) =~= before.push(entry));
                        assert(before.push(entry) + rest =~= before + (seq![entry] + rest));
                    }
                }
            }
            current_index = current_index / 2;
            nodes = above;
        }
        proof {
            assert(path_values(path@) + Seq::<(int, bool)>::empty() =~= path_values(path@));
        }
        path
    }

    /// The root above a non-empty sequence of leaves.
    pub fn compute_root(leaves: &Vec<BigInt>) -> (root: BigInt)
        requires
            leaves.len() > 0,
        ensures
            bigint_value(root) == tree_root(big_values(leaves@)),
    {
        let mut nodes = copy_nodes(leaves);
        while nodes.len() > 1
            invariant
                nodes.len() > 0,
                tree_root(big_values(nodes@)) == tree_root(big_values(leaves@)),
            decreases nodes.len(),
        {
            nodes = level_above(&nodes);
        }
        big_clone(&nodes[0])
    }

    /// Combines two nodes into their parent.
    pub fn hash(left: &BigInt, right: &BigInt) -> (parent: BigInt)
        ensures
            bigint_value(parent) == combine(bigint_value(*left), bigint_value(*right)),
    {
        let combined = big_add(left, right);
        big_rem(&combined, &big_from_u64(FIELD_PRIME))
    }

    /// Combines two field elements of one modulus into their sum.
    pub fn apply_hash(&self, a: &FieldElement, b: &FieldElement) -> (r: FieldElement)
        requires
            a.wf(),
            b.wf(),
        ensures
            r.wf(),
            r@ == field_add(a@, b@),
    {
        let sum = big_add(&a.get_value(), &b.get_value());
        proof {
            lemma_trunc_rem_congruent(a@ + b@, FIELD_PRIME as int);
        }
        let new_value = big_rem(&sum, a.get_modulus());
        FieldElement::new(new_value)
    }
}

} // verus!
