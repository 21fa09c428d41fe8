//! Ready-made circuits: a single addition, a single multiplication, and the
//! replay of a Merkle path as a chain of addition gates.

use crate::bigint::{big_clone, big_from_u64, big_mul, big_values, bigint_value};
use crate::circuit::{Circuit, Gate};
use crate::field::{field_add, lemma_trunc_rem_congruent, FieldElement, FIELD_PRIME};
use crate::merkle::{
    combine, fold_path, lemma_path_reaches_root, path_values, tree_path, tree_root, MerkleTree,
};
use vstd::arithmetic::div_mod::lemma_add_mod_noop;
use vstd::prelude::*;

verus! {

/// The circuit that adds two wires: inputs `a` and `b`, a third wire holding
/// their sum, one addition gate over the three, and the sum as output.
pub fn addition_circuit(a: u32, b: u32) -> (c: Circuit)
    ensures
        c.wf(),
        c@.inputs == seq![
            (a as int) % (FIELD_PRIME as int),
            (b as int) % (FIELD_PRIME as int),
            field_add((a as int) % (FIELD_PRIME as int), (b as int) % (FIELD_PRIME as int)),
        ],
        c@.gates == seq![Gate::Add(0, 1, 2)],
        c@.outputs == seq![
            field_add((a as int) % (FIELD_PRIME as int), (b as int) % (FIELD_PRIME as int)),
        ],
{
    let mut circuit = Circuit::new();
    let input1 = circuit.add_input(FieldElement::new(big_from_u64(a as u64)));
    let input2 = circuit.add_input(FieldElement::new(big_from_u64(b as u64)));
    let expected_sum = circuit.get_input(input1).unwrap().add(circuit.get_input(input2).unwrap());
    let output_index = circuit.add_input(expected_sum.clone());
    circuit.add_gate(Gate::Add(input1, input2, output_index));
    circuit.set_output(expected_sum);
    proof {
        let p = FIELD_PRIME as int;
        assert(circuit@.inputs =~= seq![
            (a as int) % p,
            (b as int) % p,
            field_add((a as int) % p, (b as int) % p),
        ]);
        assert(circuit@.gates =~= seq![Gate::Add(0, 1, 2)]);
        assert(circuit@.outputs =~= seq![field_add((a as int) % p, (b as int) % p)]);
    }
    circuit
}

/// The circuit that multiplies two wires: inputs `a` and `b`, a third wire
/// holding their product, one multiplication gate over the three, and the
/// product as output.
pub fn multiplication_circuit(a: u32, b: u32) -> (c: Circuit)
    ensures
        c.wf(),
        c@.inputs == seq![
            (a as int) % (FIELD_PRIME as int),
            (b as int) % (FIELD_PRIME as int),
            (((a as int) % (FIELD_PRIME as int)) * ((b as int) % (FIELD_PRIME as int))) % (
            FIELD_PRIME as int),
        ],
        c@.gates == seq![Gate::Mul(0, 1, 2)],
        c@.outputs == seq![
            (((a as int) % (FIELD_PRIME as int)) * ((b as int) % (FIELD_PRIME as int))) % (
            FIELD_PRIME as int),
        ],
{
    let mut circuit = Circuit::new();
    let input1 = circuit.add_input(FieldElement::new(big_from_u64(a as u64)));
    let input2 = circuit.add_input(FieldElement::new(big_from_u64(b as u64)));
    let expected_product = big_mul(
        &circuit.get_input(input1).unwrap().get_value(),
        &circuit.get_input(input2).unwrap().get_value(),
    );
    let output_index = circuit.add_input(FieldElement::new(big_clone(&expected_product)));
    circuit.add_gate(Gate::Mul(input1, input2, output_index));
    circuit.set_output(FieldElement::new(expected_product));
    proof {
        let p = FIELD_PRIME as int;
        let product = (((a as int) % p) * ((b as int) % p)) % p;
        assert(circuit@.inputs =~= seq![(a as int) % p, (b as int) % p, product]);
        assert(circuit@.gates =~= seq![Gate::Mul(0, 1, 2)]);
        assert(circuit@.outputs =~= seq![product]);
    }
    circuit
}

/// The residue of the running node after a path was replayed from `start`:
/// each entry adds its sibling in the field.
pub open spec fn running_hash(start: int, path: Seq<(int, bool)>) -> int
    decreases path.len(),
{
    if path.len() == 0 {
        start % (FIELD_PRIME as int)
    } else {
        field_add(
            running_hash(start, path.drop_last()),
            path.last().0 % (FIELD_PRIME as int),
        )
    }
}

/// The wires of the circuit that replays a path: the starting node, then for
/// every entry its sibling and the node that the two combine to.
pub open spec fn replay_wires(start: int, path: Seq<(int, bool)>) -> Seq<int>
    decreases path.len(),
{
    if path.len() == 0 {
        seq![start % (FIELD_PRIME as int)]
    } else {
        replay_wires(start, path.drop_last()) + seq![
            path.last().0 % (FIELD_PRIME as int),
            running_hash(start, path),
        ]
    }
}

/// What the `k`-th entry of a path lowers to: an addition of the sibling on
/// wire `2k + 1` and the running node on wire `2k` into wire `2k + 2`, the
/// sibling named first where the entry marks the running node as the left
/// one of the pair.
pub open spec fn replay_gate(path: Seq<(int, bool)>, k: int) -> Gate {
    if path[k].1 {
        Gate::Add((2 * k + 1) as usize, (2 * k) as usize, (2 * k + 2) as usize)
    } else {
        Gate::Add((2 * k) as usize, (2 * k + 1) as usize, (2 * k + 2) as usize)
    }
}

/// Appending an entry to a path applies one more combination to what the
/// path folds to.
pub proof fn lemma_fold_push(start: int, path: Seq<(int, bool)>, entry: (int, bool))
    ensures
        fold_path(start, path.push(entry)) == if entry.1 {
            combine(fold_path(start, path), entry.0)
        } else {
            combine(entry.0, fold_path(start, path))
        },
    decreases path.len(),
{
    let longer = path.push(entry);
    if path.len() == 0 {
        assert(longer.drop_first() =~= path);
        assert(longer[0] == entry);
        let node = if entry.1 {
            combine(start, entry.0)
        } else {
            combine(entry.0, start)
        };
        assert(fold_path(start, longer) == fold_path(node, longer.drop_first()));
        assert(fold_path(node, path) == node);
        assert(fold_path(start, path) == start);
    } else {
        let node = if path[0].1 {
            combine(start, path[0].0)
        } else {
            combine(path[0].0, start)
        };
        assert(longer[0] == path[0]);
        assert(longer.drop_first() =~= path.drop_first().push(entry));
        lemma_fold_push(node, path.drop_first(), entry);
        assert(fold_path(start, longer) == fold_path(node, longer.drop_first()));
        assert(fold_path(start, path) == fold_path(node, path.drop_first()));
    }
}

/// The running node of the replay circuit is the residue of what the path
/// folds to.
pub proof fn lemma_running_is_fold(start: int, path: Seq<(int, bool)>)
    ensures
        running_hash(start, path) == fold_path(start, path) % (FIELD_PRIME as int),
    decreases path.len(),
{
    let p = FIELD_PRIME as int;
    if path.len() > 0 {
        let before = path.drop_last();
        let entry = path.last();
        lemma_running_is_fold(start, before);
        assert(before.push(entry) =~= path);
        lemma_fold_push(start, before, entry);
        let folded = fold_path(start, before);
        lemma_trunc_rem_congruent(folded + entry.0, p);
        lemma_trunc_rem_congruent(entry.0 + folded, p);
        lemma_add_mod_noop(folded, entry.0, p);
    }
}

/// Replaying the path of a leaf in the circuit ends on the residue of the root.
pub proof fn lemma_replay_ends_on_root(leaves: Seq<int>, index: nat)
    requires
        index < leaves.len(),
    ensures
        running_hash(leaves[index as int], tree_path(leaves, index)) == tree_root(leaves) % (
        FIELD_PRIME as int),
{
    lemma_path_reaches_root(leaves, index);
    lemma_running_is_fold(leaves[index as int], tree_path(leaves, index));
}

/// The circuit that replays the Merkle path of a leaf: one wire for the
/// leaf, and for every entry of its path a wire for the sibling, a wire for
/// the combined node and an addition gate over the three. Every combined
/// node is recorded as an output, and the tree's root after them.
pub fn merkle_circuit(tree: &MerkleTree, leaf_index: usize) -> (c: Circuit)
    requires
        leaf_index < tree.leaves@.len(),
    ensures
        c.wf(),
        c@.inputs == replay_wires(
            big_values(tree.leaves@)[leaf_index as int],
            tree_path(big_values(tree.leaves@), leaf_index as nat),
        ),
        c@.gates == Seq::new(
            tree_path(big_values(tree.leaves@), leaf_index as nat).len(),
            |k: int| replay_gate(tree_path(big_values(tree.leaves@), leaf_index as nat), k),
        ),
        c@.outputs == Seq::new(
            tree_path(big_values(tree.leaves@), leaf_index as nat).len(),
            |k: int|
                running_hash(
                    big_values(tree.leaves@)[leaf_index as int],
                    tree_path(big_values(tree.leaves@), leaf_index as nat).take(k + 1),
                ),
        ).push(bigint_value(tree.root) % (FIELD_PRIME as int)),
        c@.inputs.last() == tree_root(big_values(tree.leaves@)) % (FIELD_PRIME as int),
{
    let leaf = &tree.leaves[leaf_index];
    let path = tree.merkle_path(leaf_index);
    let root = &tree.root;
    let ghost start = bigint_value(*leaf);
    let ghost entries = path_values(path@);
    proof {
        assert(entries.len() == path@.len());
        assert(start == big_values(tree.leaves@)[leaf_index as int]);
        lemma_replay_ends_on_root(big_values(tree.leaves@), leaf_index as nat);
    }
    let mut circuit = Circuit::new();
    let leaf_index_var = circuit.add_input(FieldElement::new(big_clone(leaf)));
    let mut current_hash_index = leaf_index_var;
    proof {
        assert(entries.take(0) =~= Seq::<(int, bool)>::empty());
        assert(circuit@.inputs =~= replay_wires(start, entries.take(0)));
        assert(circuit@.gates =~= Seq::new(0, |k: int| replay_gate(entries, k)));
        assert(circuit@.outputs =~= Seq::new(
            0,
            |k: int| running_hash(start, entries.take(k + 1)),
        ));
    }
    let mut i: usize = 0;
    while i < path.len()
        invariant
            i <= path.len(),
            entries == path_values(path@),
            circuit.wf(),
            current_hash_index == 2 * i,
            circuit@.inputs.len() == 2 * i + 1,
            circuit@.inputs == replay_wires(start, entries.take(i as int)),
            circuit@.inputs[current_hash_index as int] == running_hash(start, entries.take(i as int)),
            circuit@.gates == Seq::new(i as nat, |k: int| replay_gate(entries, k)),
            circuit@.outputs == Seq::new(
                i as nat,
                |k: int| running_hash(start, entries.take(k + 1)),
            ),
        decreases path.len() - i,
    {
        let is_left = path[i].1;
        let ghost wires_before = circuit@.inputs;
        let ghost gates_before = circuit@.gates;
        let ghost outputs_before = circuit@.outputs;
        let sibling_index_var = circuit.add_input(FieldElement::new(big_clone(&path[i].0)));
        let new_hash_value = if is_left {
            tree.apply_hash(
                circuit.get_input(sibling_index_var).unwrap(),
                circuit.get_input(current_hash_index).unwrap(),
            )
        } else {
            tree.apply_hash(
                circuit.get_input(current_hash_index).unwrap(),
                circuit.get_input(sibling_index_var).unwrap(),
            )
        };
        let new_hash_index = circuit.add_input(new_hash_value.clone());
        circuit.set_output(new_hash_value.clone());
        circuit.add_gate(
            if is_left {
                Gate::Add(sibling_index_var, current_hash_index, new_hash_index)
            } else {
                Gate::Add(current_hash_index, sibling_index_var, new_hash_index)
            },
        );
        proof {
            let prefix = entries.take(i + 1);
            assert(prefix.drop_last() =~= entries.take(i as int));
            assert(prefix.last() == entries[i as int]);
            assert(new_hash_value@ == running_hash(start, prefix));
            assert(circuit@.inputs =~= replay_wires(start, prefix));
            assert(circuit@.gates =~= Seq::new((i + 1) as nat, |k: int| replay_gate(entries, k)));
            assert(circuit@.outputs =~= Seq::new(
                (i + 1) as nat,
                |k: int| running_hash(start, entries.take(k + 1)),
            ));
        }
        current_hash_index = new_hash_index;
        i += 1;
    }
    circuit.set_output(FieldElement::new(big_clone(root)));
    proof {
        assert(entries.take(i as int) =~= entries);
    }
    circuit
}

} // verus!
