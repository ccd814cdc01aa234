//! What holds of the proof verifier for all inputs, stated over the model
//! of the walk and proved from it.

use crate::decoder::{decoded_node, NodeModel};
use crate::hash::node_digest;
use crate::mpt::{
    child_reference,
    consume_path_spec,
    item_at,
    link_holds,
    matched_len,
    start,
    step_spec,
    verify_spec,
    visit_spec,
    walk,
    CursorModel,
    StepModel,
    VerificationError,
};
use crate::nibbles::{hex_prefix_is_leaf, hex_prefix_nibbles, nibbles_of};
use vstd::prelude::*;

verus! {

// ---------------------------------------------------------------------------
// Paths
// ---------------------------------------------------------------------------
/// Whether `path` stands in `key` from nibble `from` on.
pub open spec fn path_fits(path: Seq<u8>, key: Seq<u8>, from: nat) -> bool {
    from + path.len() <= key.len() && key.subrange(from as int, (from + path.len()) as int) == path
}

/// Whether nibble `k` of `path` is nibble `from + k` of `key`.
pub open spec fn agrees_at(path: Seq<u8>, key: Seq<u8>, from: nat, k: int) -> bool {
    0 <= k < path.len() && from + k < key.len() && path[k] == key[from + k]
}

/// The count of agreeing nibbles is where the path and the key first part:
/// every nibble before it agrees, and at it the path ends, the key ends or
/// the two differ.
pub proof fn lemma_matched_len_is_first_divergence(
    path: Seq<u8>,
    key: Seq<u8>,
    from: nat,
    done: nat,
)
    requires
        done <= path.len(),
    ensures
        done <= matched_len(path, key, from, done) <= path.len(),
        forall|k: int|
            done <= k < matched_len(path, key, from, done) ==> #[trigger] agrees_at(
                path,
                key,
                from,
                k,
            ),
        !agrees_at(path, key, from, matched_len(path, key, from, done) as int),
    decreases path.len() - done,
{
    if done < path.len() && from + done < key.len() && path[done as int] == key[(from
        + done) as int] {
        lemma_matched_len_is_first_divergence(path, key, from, done + 1);
        assert(agrees_at(path, key, from, done as int));
    }
}

/// A path is consumed exactly when it stands in the key at the cursor, and
/// the key index then moves past it.
pub proof fn lemma_path_consumed_iff_fits(path: Seq<u8>, key: Seq<u8>, from: nat, index: usize)
    requires
        from <= key.len(),
    ensures
        path_fits(path, key, from) <==> consume_path_spec(path, key, from, index) is Ok,
        consume_path_spec(path, key, from, index) matches Ok(next) ==> next == from + path.len(),
{
    lemma_matched_len_is_first_divergence(path, key, from, 0);
    let m = matched_len(path, key, from, 0);
    if path_fits(path, key, from) {
        if m < path.len() {
            let part = key.subrange(from as int, (from + path.len()) as int);
            assert(part[m as int] == path[m as int]);
            assert(agrees_at(path, key, from, m as int));
        }
    }
    if m == path.len() {
        if path.len() > 0 {
            assert(agrees_at(path, key, from, path.len() - 1));
        }
        assert forall|k: int| 0 <= k < path.len() implies key[from + k] == path[k] by {
            assert(agrees_at(path, key, from, k));
        }
        assert(key.subrange(from as int, (from + path.len()) as int) =~= path);
    }
}

/// Where a path is refused, the failure names the node, and a mismatch
/// names the first nibble of the key that differs from the path.
pub proof fn lemma_path_refusal(path: Seq<u8>, key: Seq<u8>, from: nat, index: usize)
    requires
        from <= key.len(),
        key.len() <= usize::MAX,
    ensures
        consume_path_spec(path, key, from, index) matches Err(e) ==> {
            ||| e == VerificationError::KeyTooShort { index } && from + path.len() > key.len()
            ||| exists|position: usize| #[trigger]
                mismatch_at(path, key, from, position) && e == VerificationError::PathMismatch {
                    index,
                    position,
                }
        },
{
    lemma_matched_len_is_first_divergence(path, key, from, 0);
    let m = matched_len(path, key, from, 0);
    if m != path.len() && from + m < key.len() {
        let position = (from + m) as usize;
        assert forall|k: int| 0 <= k < m implies key[from + k] == path[k] by {
            assert(agrees_at(path, key, from, k));
        }
        assert(key.subrange(from as int, position as int) =~= path.subrange(0, position - from));
        assert(mismatch_at(path, key, from, position));
    }
}

/// Whether `position` is the first nibble of `key`, read from `from` on,
/// that differs from `path`.
pub open spec fn mismatch_at(path: Seq<u8>, key: Seq<u8>, from: nat, position: usize) -> bool {
    &&& from <= position < key.len()
    &&& position - from < path.len()
    &&& key[position as int] != path[position - from]
    &&& key.subrange(from as int, position as int) == path.subrange(0, position - from)
}

// ---------------------------------------------------------------------------
// The key cursor
// ---------------------------------------------------------------------------
/// The key cursor never moves back and never passes the end of the key.
pub proof fn lemma_step_keeps_key_cursor_in_bounds(
    node: NodeModel,
    index: usize,
    cursor: CursorModel,
    key: Seq<u8>,
)
    requires
        cursor.key_index <= key.len(),
    ensures
        step_spec(node, index, cursor, key) matches StepModel::Continue(next) ==> cursor.key_index
            <= next.key_index <= key.len(),
{
    if node.count == 2 {
        match item_at(node, 0) {
            Some(first) => match first.data {
                Some(encoded_path) => {
                    let path = hex_prefix_nibbles(encoded_path);
                    lemma_path_consumed_iff_fits(path, key, cursor.key_index, index);
                },
                None => {},
            },
            None => {},
        }
    }
}

/// The same bound for a whole visit.
pub proof fn lemma_visit_keeps_key_cursor_in_bounds(
    node: Seq<u8>,
    index: usize,
    cursor: CursorModel,
    key: Seq<u8>,
)
    requires
        cursor.key_index <= key.len(),
    ensures
        visit_spec(node, index, cursor, key) matches StepModel::Continue(next) ==> cursor.key_index
            <= next.key_index <= key.len(),
{
    if link_holds(node, node_digest(node), cursor.expected) {
        match decoded_node(node) {
            Some(view) => lemma_step_keeps_key_cursor_in_bounds(view, index, cursor, key),
            None => {},
        }
    }
}

// ---------------------------------------------------------------------------
// Reaching a node
// ---------------------------------------------------------------------------
/// The cursor with which the walk that starts at `first` comes to the node
/// at index `j`; `None` where it ends before that node.
pub open spec fn cursor_at(proof: Seq<Seq<u8>>, j: nat, first: CursorModel, key: Seq<u8>) -> Option<
    CursorModel,
>
    decreases j,
{
    if j == 0 {
        Some(first)
    } else if j > proof.len() {
        None
    } else {
        match cursor_at(proof, (j - 1) as nat, first, key) {
            None => None,
            Some(before) => match visit_spec(proof[j - 1], (j - 1) as usize, before, key) {
                StepModel::Continue(next) => Some(next),
                StepModel::Finish(_) => None,
            },
        }
    }
}

/// Once the walk has come to a node, its result is that of the walk from
/// that node on.
pub proof fn lemma_walk_from_reached_node(
    proof: Seq<Seq<u8>>,
    j: nat,
    first: CursorModel,
    key: Seq<u8>,
)
    requires
        cursor_at(proof, j, first, key) is Some,
    ensures
        j <= proof.len(),
        walk(proof, 0, first, key) == walk(proof, j, cursor_at(proof, j, first, key)->Some_0, key),
    decreases j,
{
    if j > 0 {
        lemma_walk_from_reached_node(proof, (j - 1) as nat, first, key);
    }
}

/// The walk comes to a node by the nodes before it alone.
pub proof fn lemma_cursor_at_reads_only_earlier_nodes(
    a: Seq<Seq<u8>>,
    b: Seq<Seq<u8>>,
    j: nat,
    first: CursorModel,
    key: Seq<u8>,
)
    requires
        j <= a.len(),
        j <= b.len(),
        forall|i: int| 0 <= i < j ==> a[i] == b[i],
    ensures
        cursor_at(a, j, first, key) == cursor_at(b, j, first, key),
    decreases j,
{
    if j > 0 {
        lemma_cursor_at_reads_only_earlier_nodes(a, b, (j - 1) as nat, first, key);
    }
}

/// A reached node is reached with a key cursor inside the key.
pub proof fn lemma_reached_cursor_in_bounds(
    proof: Seq<Seq<u8>>,
    j: nat,
    first: CursorModel,
    key: Seq<u8>,
)
    requires
        first.key_index <= key.len(),
        cursor_at(proof, j, first, key) is Some,
    ensures
        first.key_index <= cursor_at(proof, j, first, key)->Some_0.key_index <= key.len(),
    decreases j,
{
    if j > 0 {
        lemma_reached_cursor_in_bounds(proof, (j - 1) as nat, first, key);
        let before = cursor_at(proof, (j - 1) as nat, first, key)->Some_0;
        lemma_visit_keeps_key_cursor_in_bounds(proof[j - 1], (j - 1) as usize, before, key);
    }
}

// ---------------------------------------------------------------------------
// Laws of verification
// ---------------------------------------------------------------------------
/// Verification is a function of its inputs: equal roots, keys and proofs
/// give equal results.
pub proof fn lemma_verification_is_deterministic(
    root_a: Seq<u8>,
    key_a: Seq<u8>,
    proof_a: Seq<Seq<u8>>,
    root_b: Seq<u8>,
    key_b: Seq<u8>,
    proof_b: Seq<Seq<u8>>,
)
    requires
        root_a == root_b,
        key_a == key_b,
        proof_a == proof_b,
    ensures
        verify_spec(root_a, key_a, proof_a) == verify_spec(root_b, key_b, proof_b),
{
}

/// An empty proof is refused as empty, whatever the key, once the root has
/// its 32 bytes.
pub proof fn lemma_empty_proof(root: Seq<u8>, key: Seq<u8>)
    requires
        root.len() == 32,
    ensures
        verify_spec(root, key, Seq::empty()) == Err::<Seq<u8>, VerificationError>(
            VerificationError::EmptyProof,
        ),
{
}

/// A root of any length but 32 is refused, whatever the key and the proof.
pub proof fn lemma_invalid_root(root: Seq<u8>, key: Seq<u8>, proof: Seq<Seq<u8>>)
    requires
        root.len() != 32,
    ensures
        verify_spec(root, key, proof) == Err::<Seq<u8>, VerificationError>(
            VerificationError::InvalidRoot,
        ),
{
}

/// A node that is not linked to its parent is refused where it stands: when
/// the walk comes to the node at `j` and that node neither hashes to nor
/// equals what the cursor expects, the result is a hash mismatch at `j`.
pub proof fn lemma_unlinked_node_is_hash_mismatch(
    root: Seq<u8>,
    key: Seq<u8>,
    proof: Seq<Seq<u8>>,
    j: nat,
)
    requires
        root.len() == 32,
        j < proof.len(),
        cursor_at(proof, j, start(root), nibbles_of(key)) matches Some(cursor) && !link_holds(
            proof[j as int],
            node_digest(proof[j as int]),
            cursor.expected,
        ),
    ensures
        verify_spec(root, key, proof) == Err::<Seq<u8>, VerificationError>(
            VerificationError::HashMismatch { index: j as usize },
        ),
{
    lemma_walk_from_reached_node(proof, j, start(root), nibbles_of(key));
}

/// A changed node whose digest changed with it is no longer linked: given
/// that digests have 32 bytes, a node that was linked to `expected` and is
/// replaced by different bytes with a different digest is not.
pub proof fn lemma_changed_node_breaks_link(
    intact: Seq<u8>,
    changed: Seq<u8>,
    expected: Seq<u8>,
)
    requires
        link_holds(intact, node_digest(intact), expected),
        changed != intact,
        node_digest(changed) != node_digest(intact),
        node_digest(intact).len() == 32,
        node_digest(changed).len() == 32,
    ensures
        !link_holds(changed, node_digest(changed), expected),
{
}

/// Tampering with one node of a proof: if the walk on the intact proof
/// comes to the node at `j` and finds it linked, and the proof differs from
/// the intact one at `j` alone, in bytes and in digest, then the tampered
/// proof is refused with a hash mismatch at `j`. No value comes out.
pub proof fn lemma_tampered_node_is_rejected(
    root: Seq<u8>,
    key: Seq<u8>,
    intact: Seq<Seq<u8>>,
    tampered: Seq<Seq<u8>>,
    j: nat,
)
    requires
        root.len() == 32,
        j < intact.len(),
        tampered.len() == intact.len(),
        forall|i: int| 0 <= i < intact.len() && i != j ==> tampered[i] == intact[i],
        tampered[j as int] != intact[j as int],
        node_digest(tampered[j as int]) != node_digest(intact[j as int]),
        node_digest(tampered[j as int]).len() == 32,
        node_digest(intact[j as int]).len() == 32,
        cursor_at(intact, j, start(root), nibbles_of(key)) matches Some(cursor) && link_holds(
            intact[j as int],
            node_digest(intact[j as int]),
            cursor.expected,
        ),
    ensures
        verify_spec(root, key, tampered) == Err::<Seq<u8>, VerificationError>(
            VerificationError::HashMismatch { index: j as usize },
        ),
{
    let first = start(root);
    let nibbles = nibbles_of(key);
    lemma_cursor_at_reads_only_earlier_nodes(intact, tampered, j, first, nibbles);
    let cursor = cursor_at(intact, j, first, nibbles)->Some_0;
    lemma_changed_node_breaks_link(intact[j as int], tampered[j as int], cursor.expected);
    lemma_unlinked_node_is_hash_mismatch(root, key, tampered, j);
}

/// The walk that starts at `first` ends at the node at `j`, and that node
/// is linked to its parent.
pub open spec fn finishes_linked_at(
    proof: Seq<Seq<u8>>,
    j: nat,
    first: CursorModel,
    key: Seq<u8>,
) -> bool {
    &&& finishes_at(proof, j, first, key)
    &&& link_holds(
        proof[j as int],
        node_digest(proof[j as int]),
        cursor_at(proof, j, first, key)->Some_0.expected,
    )
}

/// A change in a node that the walk never comes to changes nothing: when
/// the walk ends before the node at `j`, any proof that agrees on the nodes
/// before `j` has the same result.
pub proof fn lemma_unreached_nodes_are_not_read(
    root: Seq<u8>,
    key: Seq<u8>,
    a: Seq<Seq<u8>>,
    b: Seq<Seq<u8>>,
    j: nat,
)
    requires
        0 < j <= a.len(),
        j <= b.len(),
        forall|i: int| 0 <= i < j ==> a[i] == b[i],
        cursor_at(a, j, start(root), nibbles_of(key)) is None,
    ensures
        verify_spec(root, key, a) == verify_spec(root, key, b),
{
    if root.len() == 32 {
        lemma_walks_agree_before_the_end(a, b, j, 0, start(root), nibbles_of(key));
    }
}

proof fn lemma_walks_agree_before_the_end(
    a: Seq<Seq<u8>>,
    b: Seq<Seq<u8>>,
    j: nat,
    i: nat,
    first: CursorModel,
    key: Seq<u8>,
)
    requires
        i <= j <= a.len(),
        j <= b.len(),
        forall|k: int| 0 <= k < j ==> a[k] == b[k],
        cursor_at(a, j, first, key) is None,
        cursor_at(a, i, first, key) is Some,
    ensures
        walk(a, i, cursor_at(a, i, first, key)->Some_0, key) == walk(
            b,
            i,
            cursor_at(a, i, first, key)->Some_0,
            key,
        ),
    decreases j - i,
{
    let cursor = cursor_at(a, i, first, key)->Some_0;
    if i < j {
        assert(a[i as int] == b[i as int]);
        match visit_spec(a[i as int], i as usize, cursor, key) {
            StepModel::Finish(r) => {},
            StepModel::Continue(next) => {
                assert(cursor_at(a, i + 1, first, key) == Some(next));
                lemma_walks_agree_before_the_end(a, b, j, i + 1, first, key);
            },
        }
    }
}

/// Whatever verification returns as a value was read from a node that the
/// walk came to and found linked to its parent; no hash mismatch lies
/// before it.
pub proof fn lemma_value_comes_from_linked_node(
    root: Seq<u8>,
    key: Seq<u8>,
    proof: Seq<Seq<u8>>,
)
    requires
        verify_spec(root, key, proof) is Ok,
    ensures
        exists|j: nat| finishes_linked_at(proof, j, start(root), nibbles_of(key)),
        walk(proof, 0, start(root), nibbles_of(key)) == verify_spec(root, key, proof),
{
    lemma_finishing_node(proof, 0, start(root), nibbles_of(key));
    let j = choose|j: nat| finishes_at(proof, j, start(root), nibbles_of(key));
    assert(finishes_linked_at(proof, j, start(root), nibbles_of(key)));
}

/// The walk that starts at `first` ends at the node at `j` with its own
/// result.
pub open spec fn finishes_at(
    proof: Seq<Seq<u8>>,
    j: nat,
    first: CursorModel,
    key: Seq<u8>,
) -> bool {
    &&& j < proof.len()
    &&& cursor_at(proof, j, first, key) matches Some(cursor) && visit_spec(
        proof[j as int],
        j as usize,
        cursor,
        key,
    ) == StepModel::Finish(walk(proof, 0, first, key))
}

/// A walk that does not run out of nodes ends at one of them.
pub proof fn lemma_finishing_node(proof: Seq<Seq<u8>>, i: nat, first: CursorModel, key: Seq<u8>)
    requires
        i <= proof.len(),
        cursor_at(proof, i, first, key) is Some,
        walk(proof, 0, first, key) != Err::<Seq<u8>, VerificationError>(
            VerificationError::ProofIncomplete,
        ),
    ensures
        exists|j: nat| finishes_at(proof, j, first, key),
    decreases proof.len() - i,
{
    lemma_walk_from_reached_node(proof, i, first, key);
    let cursor = cursor_at(proof, i, first, key)->Some_0;
    if i < proof.len() {
        match visit_spec(proof[i as int], i as usize, cursor, key) {
            StepModel::Finish(r) => {
                assert(finishes_at(proof, i, first, key));
            },
            StepModel::Continue(next) => {
                assert(cursor_at(proof, i + 1, first, key) == Some(next));
                lemma_finishing_node(proof, i + 1, first, key);
            },
        }
    }
}

/// Non-existence at a branch: when the walk comes to a linked node of
/// seventeen items with the key used up, and the node's last slot is empty,
/// the result is that the branch holds no value.
pub proof fn lemma_empty_terminus_is_no_value(
    root: Seq<u8>,
    key: Seq<u8>,
    proof: Seq<Seq<u8>>,
    j: nat,
)
    requires
        root.len() == 32,
        j < proof.len(),
        cursor_at(proof, j, start(root), nibbles_of(key)) matches Some(cursor) && {
            &&& cursor.key_index >= nibbles_of(key).len()
            &&& link_holds(proof[j as int], node_digest(proof[j as int]), cursor.expected)
            &&& decoded_node(proof[j as int]) matches Some(node) && node.count == 17 && (item_at(
                node,
                16,
            ) matches Some(terminal) && terminal.is_empty)
        },
    ensures
        verify_spec(root, key, proof) == Err::<Seq<u8>, VerificationError>(
            VerificationError::NoValueAtBranchTerminus { index: j as usize },
        ),
{
    lemma_walk_from_reached_node(proof, j, start(root), nibbles_of(key));
}

/// An empty slot under the key's next nibble: when the walk comes to a
/// linked node of seventeen items with the key not used up, and the slot
/// under the next nibble is empty, the result names the node and the nibble.
pub proof fn lemma_empty_slot_is_empty_branch(
    root: Seq<u8>,
    key: Seq<u8>,
    proof: Seq<Seq<u8>>,
    j: nat,
)
    requires
        root.len() == 32,
        j < proof.len(),
        cursor_at(proof, j, start(root), nibbles_of(key)) matches Some(cursor) && {
            &&& cursor.key_index < nibbles_of(key).len()
            &&& link_holds(proof[j as int], node_digest(proof[j as int]), cursor.expected)
            &&& decoded_node(proof[j as int]) matches Some(node) && node.count == 17 && (item_at(
                node,
                nibbles_of(key)[cursor.key_index as int] as int,
            ) matches Some(child) && child.is_empty)
        },
    ensures
        verify_spec(root, key, proof) == Err::<Seq<u8>, VerificationError>(
            VerificationError::EmptyBranch {
                index: j as usize,
                nibble: nibbles_of(key)[cursor_at(
                    proof,
                    j,
                    start(root),
                    nibbles_of(key),
                )->Some_0.key_index as int],
            },
        ),
{
    lemma_walk_from_reached_node(proof, j, start(root), nibbles_of(key));
}

/// Nodes after the one that ends the walk are not read: a result other than
/// an incomplete proof stays when nodes are appended.
pub proof fn lemma_trailing_nodes_are_ignored(
    root: Seq<u8>,
    key: Seq<u8>,
    proof: Seq<Seq<u8>>,
    extra: Seq<Seq<u8>>,
)
    requires
        verify_spec(root, key, proof) != Err::<Seq<u8>, VerificationError>(
            VerificationError::ProofIncomplete,
        ),
        verify_spec(root, key, proof) != Err::<Seq<u8>, VerificationError>(
            VerificationError::EmptyProof,
        ),
    ensures
        verify_spec(root, key, proof + extra) == verify_spec(root, key, proof),
{
    if root.len() == 32 {
        lemma_walk_ignores_trailing_nodes(proof, extra, 0, start(root), nibbles_of(key));
    }
}

proof fn lemma_walk_ignores_trailing_nodes(
    proof: Seq<Seq<u8>>,
    extra: Seq<Seq<u8>>,
    i: nat,
    cursor: CursorModel,
    key: Seq<u8>,
)
    requires
        i <= proof.len(),
        walk(proof, i, cursor, key) != Err::<Seq<u8>, VerificationError>(
            VerificationError::ProofIncomplete,
        ),
    ensures
        walk(proof + extra, i, cursor, key) == walk(proof, i, cursor, key),
    decreases proof.len() - i,
{
    if i < proof.len() {
        assert((proof + extra)[i as int] == proof[i as int]);
        match visit_spec(proof[i as int], i as usize, cursor, key) {
            StepModel::Finish(r) => {},
            StepModel::Continue(next) => {
                lemma_walk_ignores_trailing_nodes(proof, extra, i + 1, next, key);
            },
        }
    }
}

/// The walk visits at most as many nodes as the proof holds: a proof that
/// ends before a value is found is incomplete, and no index in a failure
/// lies outside the proof.
pub proof fn lemma_failure_index_in_proof(
    proof: Seq<Seq<u8>>,
    i: nat,
    cursor: CursorModel,
    key: Seq<u8>,
)
    requires
        i <= proof.len(),
        proof.len() <= usize::MAX,
    ensures
        walk(proof, i, cursor, key) matches Err(e) ==> match e {
            VerificationError::HashMismatch { index } => i <= index < proof.len(),
            VerificationError::MalformedNode { index } => i <= index < proof.len(),
            VerificationError::KeyTooShort { index } => i <= index < proof.len(),
            VerificationError::PathMismatch { index, .. } => i <= index < proof.len(),
            VerificationError::EmptyBranch { index, .. } => i <= index < proof.len(),
            VerificationError::NoValueAtBranchTerminus { index } => i <= index < proof.len(),
            VerificationError::InvalidNodeArity { index, .. } => i <= index < proof.len(),
            VerificationError::KeyNotFullyConsumed { .. } => true,
            VerificationError::ProofIncomplete => true,
            VerificationError::InvalidRoot => false,
            VerificationError::EmptyProof => false,
        },
    decreases proof.len() - i,
{
    if i < proof.len() {
        match visit_spec(proof[i as int], i as usize, cursor, key) {
            StepModel::Finish(r) => {
                if link_holds(proof[i as int], node_digest(proof[i as int]), cursor.expected) {
                    match decoded_node(proof[i as int]) {
                        Some(node) => {
                            lemma_step_failure_names_node(node, i as usize, cursor, key);
                        },
                        None => {},
                    }
                }
            },
            StepModel::Continue(next) => {
                lemma_failure_index_in_proof(proof, i + 1, next, key);
            },
        }
    }
}

/// A failure of one step names the node that it was taken at.
pub proof fn lemma_step_failure_names_node(
    node: NodeModel,
    index: usize,
    cursor: CursorModel,
    key: Seq<u8>,
)
    ensures
        step_spec(node, index, cursor, key) matches StepModel::Finish(Err(e)) ==> match e {
            VerificationError::MalformedNode { index: at } => at == index,
            VerificationError::KeyTooShort { index: at } => at == index,
            VerificationError::PathMismatch { index: at, .. } => at == index,
            VerificationError::EmptyBranch { index: at, .. } => at == index,
            VerificationError::NoValueAtBranchTerminus { index: at } => at == index,
            VerificationError::InvalidNodeArity { index: at, .. } => at == index,
            VerificationError::KeyNotFullyConsumed { .. } => true,
            VerificationError::HashMismatch { .. } => false,
            VerificationError::ProofIncomplete => false,
            VerificationError::InvalidRoot => false,
            VerificationError::EmptyProof => false,
        },
{
}

// ---------------------------------------------------------------------------
// Linked paths
// ---------------------------------------------------------------------------
/// The node is a leaf whose path is all that is left of the key from
/// nibble `from` on, and which holds `value`.
pub open spec fn leaf_gives(node: NodeModel, key: Seq<u8>, from: nat, value: Seq<u8>) -> bool {
    &&& node.count == 2
    &&& from <= key.len()
    &&& item_at(node, 0) matches Some(first) && first.data matches Some(encoded)
        && hex_prefix_is_leaf(encoded) && hex_prefix_nibbles(encoded) == key.subrange(
        from as int,
        key.len() as int,
    )
    &&& item_at(node, 1) matches Some(holder) && holder.data == Some(value)
}

/// The node is a branch that holds `value` in its last slot, and the key is
/// used up.
pub open spec fn terminus_gives(node: NodeModel, key: Seq<u8>, from: nat, value: Seq<u8>) -> bool {
    &&& node.count == 17
    &&& from >= key.len()
    &&& item_at(node, 16) matches Some(terminal) && !terminal.is_empty && terminal.data == Some(
        value,
    )
}

/// The node is an extension whose path stands in the key at nibble `from`
/// and which refers to its child by `next.expected`; `next.key_index` is the
/// key index past the path.
pub open spec fn extension_leads(
    node: NodeModel,
    key: Seq<u8>,
    from: nat,
    next: CursorModel,
) -> bool {
    &&& node.count == 2
    &&& item_at(node, 0) matches Some(first) && first.data matches Some(encoded)
        && !hex_prefix_is_leaf(encoded) && path_fits(hex_prefix_nibbles(encoded), key, from)
        && next.key_index == from + hex_prefix_nibbles(encoded).len()
    &&& item_at(node, 1) matches Some(child) && child_reference(child) == Some(next.expected)
}

/// The node is a branch whose slot under nibble `from` of the key is filled
/// and refers to its child by `next.expected`; `next.key_index` is `from + 1`.
pub open spec fn branch_leads(node: NodeModel, key: Seq<u8>, from: nat, next: CursorModel) -> bool {
    &&& node.count == 17
    &&& from < key.len()
    &&& next.key_index == from + 1
    &&& item_at(node, key[from as int] as int) matches Some(child) && !child.is_empty
        && child_reference(child) == Some(next.expected)
}

/// The node binds `value` to what is left of the key.
pub open spec fn gives(node: NodeModel, key: Seq<u8>, from: nat, value: Seq<u8>) -> bool {
    leaf_gives(node, key, from, value) || terminus_gives(node, key, from, value)
}

/// The node leads one step further along the key, to `next`.
pub open spec fn leads(node: NodeModel, key: Seq<u8>, from: nat, next: CursorModel) -> bool {
    extension_leads(node, key, from, next) || branch_leads(node, key, from, next)
}

/// The node at `i` is linked to what `cursors[i]` expects, and decodes.
pub open spec fn linked_node(proof: Seq<Seq<u8>>, cursors: Seq<CursorModel>, i: int) -> bool {
    &&& 0 <= i < proof.len()
    &&& 0 <= i < cursors.len()
    &&& link_holds(proof[i], node_digest(proof[i]), cursors[i].expected)
    &&& decoded_node(proof[i]) is Some
}

/// The node at `i` leads from `cursors[i]` to `cursors[i + 1]`.
pub open spec fn linked_step(
    proof: Seq<Seq<u8>>,
    cursors: Seq<CursorModel>,
    key: Seq<u8>,
    i: int,
) -> bool {
    &&& linked_node(proof, cursors, i)
    &&& i + 1 < cursors.len()
    &&& leads(decoded_node(proof[i])->Some_0, key, cursors[i].key_index, cursors[i + 1])
}

/// The first nodes of `proof` are a linked path from `first` that binds
/// `value` to the key: `cursors` names, for each of them, what it must be
/// linked to and where in the key it stands; each but the last leads to the
/// next, and the last gives the value.
pub open spec fn is_linked_path(
    proof: Seq<Seq<u8>>,
    cursors: Seq<CursorModel>,
    first: CursorModel,
    key: Seq<u8>,
    value: Seq<u8>,
) -> bool {
    &&& 0 < cursors.len() <= proof.len()
    &&& cursors[0] == first
    &&& forall|i: int| 0 <= i < cursors.len() - 1 ==> #[trigger] linked_step(proof, cursors, key, i)
    &&& linked_node(proof, cursors, cursors.len() - 1)
    &&& gives(
        decoded_node(proof[cursors.len() - 1])->Some_0,
        key,
        cursors.last().key_index,
        value,
    )
}

/// One step goes on to `next` exactly when the node leads there.
pub proof fn lemma_step_continues_iff_leads(
    node: NodeModel,
    index: usize,
    cursor: CursorModel,
    key: Seq<u8>,
    next: CursorModel,
)
    requires
        cursor.key_index <= key.len(),
    ensures
        step_spec(node, index, cursor, key) == StepModel::Continue(next) <==> leads(
            node,
            key,
            cursor.key_index,
            next,
        ),
{
    if node.count == 2 {
        match item_at(node, 0) {
            Some(first) => match first.data {
                Some(encoded) => {
                    lemma_path_consumed_iff_fits(
                        hex_prefix_nibbles(encoded),
                        key,
                        cursor.key_index,
                        index,
                    );
                },
                None => {},
            },
            None => {},
        }
    }
}

/// One step ends with `value` exactly when the node gives it.
pub proof fn lemma_step_yields_iff_gives(
    node: NodeModel,
    index: usize,
    cursor: CursorModel,
    key: Seq<u8>,
    value: Seq<u8>,
)
    requires
        cursor.key_index <= key.len(),
    ensures
        step_spec(node, index, cursor, key) == StepModel::Finish(
            Ok::<Seq<u8>, VerificationError>(value),
        ) <==> gives(node, key, cursor.key_index, value),
{
    if node.count == 2 {
        match item_at(node, 0) {
            Some(first) => match first.data {
                Some(encoded) => {
                    let path = hex_prefix_nibbles(encoded);
                    lemma_path_consumed_iff_fits(path, key, cursor.key_index, index);
                    if path_fits(path, key, cursor.key_index) && cursor.key_index + path.len()
                        == key.len() {
                        assert(key.subrange(cursor.key_index as int, key.len() as int) == path);
                    }
                    if path == key.subrange(cursor.key_index as int, key.len() as int) {
                        assert(path_fits(path, key, cursor.key_index));
                    }
                },
                None => {},
            },
            None => {},
        }
    }
}

/// Along a linked path the walk comes to every node with the cursor that
/// the path names.
proof fn lemma_linked_path_is_walked(
    proof: Seq<Seq<u8>>,
    cursors: Seq<CursorModel>,
    first: CursorModel,
    key: Seq<u8>,
    value: Seq<u8>,
    j: nat,
)
    requires
        first.key_index <= key.len(),
        is_linked_path(proof, cursors, first, key, value),
        j < cursors.len(),
    ensures
        cursor_at(proof, j, first, key) == Some(cursors[j as int]),
        cursors[j as int].key_index <= key.len(),
    decreases j,
{
    if j > 0 {
        lemma_linked_path_is_walked(proof, cursors, first, key, value, (j - 1) as nat);
        assert(linked_step(proof, cursors, key, j - 1));
        let node = decoded_node(proof[j - 1])->Some_0;
        lemma_step_continues_iff_leads(
            node,
            (j - 1) as usize,
            cursors[j - 1],
            key,
            cursors[j as int],
        );
        lemma_step_keeps_key_cursor_in_bounds(node, (j - 1) as usize, cursors[j - 1], key);
    }
}

/// A node that the walk has come to was come to through every node before.
proof fn lemma_reached_through_earlier_nodes(
    proof: Seq<Seq<u8>>,
    j: nat,
    first: CursorModel,
    key: Seq<u8>,
    i: nat,
)
    requires
        cursor_at(proof, j, first, key) is Some,
        i < j,
    ensures
        i < proof.len(),
        cursor_at(proof, i, first, key) is Some,
        cursor_at(proof, i + 1, first, key) is Some,
        visit_spec(
            proof[i as int],
            i as usize,
            cursor_at(proof, i, first, key)->Some_0,
            key,
        ) == StepModel::Continue(cursor_at(proof, i + 1, first, key)->Some_0),
    decreases j,
{
    if i + 1 < j {
        lemma_reached_through_earlier_nodes(proof, (j - 1) as nat, first, key, i);
    }
}

/// The walk accepts exactly the linked paths: it returns `value` if and
/// only if some first nodes of the proof are a linked path from the
/// starting cursor that binds `value` to the key.
pub proof fn lemma_walk_accepts_exactly_linked_paths(
    proof: Seq<Seq<u8>>,
    first: CursorModel,
    key: Seq<u8>,
    value: Seq<u8>,
)
    requires
        first.key_index <= key.len(),
    ensures
        walk(proof, 0, first, key) == Ok::<Seq<u8>, VerificationError>(value) <==> exists|
            cursors: Seq<CursorModel>,
        | is_linked_path(proof, cursors, first, key, value),
{
    if walk(proof, 0, first, key) == Ok::<Seq<u8>, VerificationError>(value) {
        lemma_finishing_node(proof, 0, first, key);
        let j = choose|j: nat| finishes_at(proof, j, first, key);
        let cursors = Seq::new(j + 1, |i: int| cursor_at(proof, i as nat, first, key)->Some_0);
        assert forall|i: int| 0 <= i < cursors.len() - 1 implies #[trigger] linked_step(
            proof,
            cursors,
            key,
            i,
        ) by {
            lemma_reached_through_earlier_nodes(proof, j, first, key, i as nat);
            lemma_reached_cursor_in_bounds(proof, i as nat, first, key);
            let node = decoded_node(proof[i])->Some_0;
            lemma_step_continues_iff_leads(node, i as usize, cursors[i], key, cursors[i + 1]);
        }
        lemma_reached_cursor_in_bounds(proof, j, first, key);
        lemma_step_yields_iff_gives(
            decoded_node(proof[j as int])->Some_0,
            j as usize,
            cursors[j as int],
            key,
            value,
        );
        assert(is_linked_path(proof, cursors, first, key, value));
    }
    if exists|cursors: Seq<CursorModel>| is_linked_path(proof, cursors, first, key, value) {
        let cursors = choose|cursors: Seq<CursorModel>|
            is_linked_path(proof, cursors, first, key, value);
        let j = (cursors.len() - 1) as nat;
        lemma_linked_path_is_walked(proof, cursors, first, key, value, j);
        lemma_walk_from_reached_node(proof, j, first, key);
        lemma_step_yields_iff_gives(
            decoded_node(proof[j as int])->Some_0,
            j as usize,
            cursors[j as int],
            key,
            value,
        );
    }
}

/// Verification accepts exactly the linked paths from the root: it returns
/// `value` if and only if the root has 32 bytes and some first nodes of the
/// proof are a linked path from the root commitment that binds `value` to
/// the nibbles of the key. So every proof that a trie hands out for a key it
/// holds, being such a path, yields the stored value, and no value is
/// returned that such a path does not bind.
pub proof fn lemma_verification_accepts_exactly_linked_paths(
    root: Seq<u8>,
    key: Seq<u8>,
    proof: Seq<Seq<u8>>,
    value: Seq<u8>,
)
    ensures
        verify_spec(root, key, proof) == Ok::<Seq<u8>, VerificationError>(value) <==> root.len()
            == 32 && exists|cursors: Seq<CursorModel>|
            is_linked_path(proof, cursors, start(root), nibbles_of(key), value),
{
    lemma_walk_accepts_exactly_linked_paths(proof, start(root), nibbles_of(key), value);
    if proof.len() == 0 {
        assert forall|cursors: Seq<CursorModel>|
            !is_linked_path(proof, cursors, start(root), nibbles_of(key), value) by {}
    }
}

} // verus!
