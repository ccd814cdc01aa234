//! Proof verifier: walks an ordered list of encoded trie nodes from the root
//! commitment towards the key, checking the hash linkage of every node and
//! consuming the key nibble by nibble, until a value or a failure is reached.

use crate::decoder::{decode_node, decoded_node, ItemModel, NodeItem, NodeModel, NodeView};
use crate::hash::{hash_node, node_digest, root_commitment};
use crate::nibbles::{
    bytes_to_nibbles,
    decode_hex_prefix,
    hex_prefix_is_leaf,
    hex_prefix_nibbles,
    nibbles_of,
};
use vstd::prelude::*;
use vstd::slice::slice_to_vec;

verus! {

/// Why a proof was not accepted.
#[derive(Clone, Copy, Debug, PartialEq, Eq, Structural)]
pub enum VerificationError {
    /// The root commitment is not 32 bytes long.
    InvalidRoot,
    /// The proof holds no node.
    EmptyProof,
    /// The node at `index` neither hashes to nor equals what its parent
    /// refers to.
    HashMismatch { index: usize },
    /// The node at `index`, or the item of it that was needed, does not
    /// decode.
    MalformedNode { index: usize },
    /// The path of the node at `index` is longer than what is left of the key.
    KeyTooShort { index: usize },
    /// The path of the node at `index` differs from the key at nibble
    /// `position` of the key.
    PathMismatch { index: usize, position: usize },
    /// A leaf was reached with `remaining` nibbles of the key unread.
    KeyNotFullyConsumed { remaining: usize },
    /// The branch node at `index` has no child under `nibble`.
    EmptyBranch { index: usize, nibble: u8 },
    /// The key ends at the branch node at `index`, which holds no value.
    NoValueAtBranchTerminus { index: usize },
    /// The node at `index` has `count` items, neither 2 nor 17.
    InvalidNodeArity { index: usize, count: usize },
    /// Every node was consumed and none gave a value.
    ProofIncomplete,
}

/// The traversal state between two nodes.
#[derive(Debug, PartialEq, Eq)]
pub struct Cursor {
    /// What the next node must hash to, or equal if it is short enough to
    /// stand inline in its parent.
    pub expected: Vec<u8>,
    /// How many nibbles of the key have been consumed.
    pub key_index: usize,
}

/// The mathematical value of a [`Cursor`].
pub struct CursorModel {
    pub expected: Seq<u8>,
    pub key_index: nat,
}

impl View for Cursor {
    type V = CursorModel;

    open spec fn view(&self) -> CursorModel {
        CursorModel { expected: self.expected@, key_index: self.key_index as nat }
    }
}

/// What visiting one node leads to.
#[derive(Debug, PartialEq, Eq)]
pub enum Step {
    /// The traversal goes on to the next node with this cursor.
    Continue(Cursor),
    /// The traversal ends here, with the value or with a failure.
    Finish(Result<Vec<u8>, VerificationError>),
}

/// The mathematical value of a [`Step`].
pub enum StepModel {
    Continue(CursorModel),
    Finish(Result<Seq<u8>, VerificationError>),
}

/// The view of a verification result: the value as a sequence of bytes.
pub open spec fn result_view(r: Result<Vec<u8>, VerificationError>) -> Result<
    Seq<u8>,
    VerificationError,
> {
    match r {
        Ok(value) => Ok(value@),
        Err(e) => Err(e),
    }
}

impl View for Step {
    type V = StepModel;

    open spec fn view(&self) -> StepModel {
        match self {
            Step::Continue(cursor) => StepModel::Continue(cursor@),
            Step::Finish(r) => StepModel::Finish(result_view(*r)),
        }
    }
}

/// The proof as a sequence of byte strings.
pub open spec fn proof_nodes(proof: Seq<Vec<u8>>) -> Seq<Seq<u8>> {
    Seq::new(proof.len(), |i: int| proof[i]@)
}

// ---------------------------------------------------------------------------
// Hash linkage
// ---------------------------------------------------------------------------
/// A node is linked to its parent when its digest is what the parent refers
/// to, or when it is shorter than 32 bytes and is itself what the parent
/// holds.
pub open spec fn link_holds(node: Seq<u8>, digest: Seq<u8>, expected: Seq<u8>) -> bool {
    digest == expected || (node.len() < 32 && node == expected)
}

/// Whether two byte strings are equal.
pub fn bytes_equal(a: &[u8], b: &[u8]) -> (same: bool)
    ensures
        same == (a@ == b@),
{
    if a.len() != b.len() {
        return false;
    }
    let mut i: usize = 0;
    while i < a.len()
        invariant
            a@.len() == b@.len(),
            i <= a@.len(),
            forall|k: int| 0 <= k < i ==> a@[k] == b@[k],
        decreases a@.len() - i,
    {
        if a[i] != b[i] {
            return false;
        }
        i = i + 1;
    }
    assert(a@ =~= b@);
    true
}

/// Checks the hash linkage of one node, given its digest.
pub fn check_link(node: &[u8], digest: &[u8], expected: &[u8]) -> (linked: bool)
    ensures
        linked == link_holds(node@, digest@, expected@),
{
    if bytes_equal(digest, expected) {
        true
    } else {
        node.len() < 32 && bytes_equal(node, expected)
    }
}

// ---------------------------------------------------------------------------
// Path consumption
// ---------------------------------------------------------------------------
/// How many nibbles of `path`, counted from `done` on, agree with the key
/// read from `from + done` on, before the path ends, the key ends or the two
/// differ; the result counts the `done` nibbles too.
pub open spec fn matched_len(path: Seq<u8>, key: Seq<u8>, from: nat, done: nat) -> nat
    decreases path.len() - done,
{
    if done < path.len() && from + done < key.len() && path[done as int] == key[(from
        + done) as int] {
        matched_len(path, key, from, done + 1)
    } else {
        done
    }
}

/// The outcome of holding a node's path against the key from nibble `from`
/// on: the new key index when the whole path agrees, `KeyTooShort` when the
/// key ends first, `PathMismatch` at the first nibble that differs.
pub open spec fn consume_path_spec(path: Seq<u8>, key: Seq<u8>, from: nat, index: usize) -> Result<
    nat,
    VerificationError,
> {
    let m = matched_len(path, key, from, 0);
    if m == path.len() {
        Ok(from + m)
    } else if from + m >= key.len() {
        Err(VerificationError::KeyTooShort { index })
    } else {
        Err(VerificationError::PathMismatch { index, position: (from + m) as usize })
    }
}

/// Holds the path of the node at `index` against the key from `key_index` on.
pub fn consume_path(path: &[u8], key_nibbles: &[u8], key_index: usize, index: usize) -> (r: Result<
    usize,
    VerificationError,
>)
    ensures
        match r {
            Ok(next) => consume_path_spec(path@, key_nibbles@, key_index as nat, index) == Ok::<
                nat,
                VerificationError,
            >(next as nat),
            Err(e) => consume_path_spec(path@, key_nibbles@, key_index as nat, index) == Err::<
                nat,
                VerificationError,
            >(e),
        },
{
    let mut done: usize = 0;
    let mut at: usize = key_index;
    while done < path.len()
        invariant
            done <= path@.len(),
            at == key_index + done,
            matched_len(path@, key_nibbles@, key_index as nat, done as nat) == matched_len(
                path@,
                key_nibbles@,
                key_index as nat,
                0,
            ),
        decreases path@.len() - done,
    {
        if at >= key_nibbles.len() {
            return Err(VerificationError::KeyTooShort { index });
        }
        if path[done] != key_nibbles[at] {
            return Err(VerificationError::PathMismatch { index, position: at });
        }
        done = done + 1;
        at = at + 1;
    }
    Ok(at)
}

// ---------------------------------------------------------------------------
// One node
// ---------------------------------------------------------------------------
/// The item in `slot` of a decoded node, if the node has it.
pub open spec fn item_at(node: NodeModel, slot: int) -> Option<ItemModel> {
    if 0 <= slot < node.items.len() {
        node.items[slot]
    } else {
        None
    }
}

/// What a parent refers its child by: the raw encoding of a nested list (a
/// node that stands inline), else the decoded byte string, which is the
/// child's hash when it has 32 bytes.
pub open spec fn child_reference(item: ItemModel) -> Option<Seq<u8>> {
    if item.is_list {
        Some(item.raw)
    } else {
        item.data
    }
}

/// The failure of a node that does not decode.
pub open spec fn malformed(index: usize) -> StepModel {
    StepModel::Finish(Err(VerificationError::MalformedNode { index }))
}

/// The step from a node towards the child that `item` refers to.
pub open spec fn descend(item: Option<ItemModel>, index: usize, key_index: nat) -> StepModel {
    match item {
        None => malformed(index),
        Some(child) => match child_reference(child) {
            None => malformed(index),
            Some(expected) => StepModel::Continue(CursorModel { expected, key_index }),
        },
    }
}

/// The end of the traversal at the value that `item` holds.
pub open spec fn yield_value(item: Option<ItemModel>, index: usize) -> StepModel {
    match item {
        None => malformed(index),
        Some(holder) => match holder.data {
            None => malformed(index),
            Some(value) => StepModel::Finish(Ok(value)),
        },
    }
}

/// A node of two items: a leaf or an extension, told apart by the flag of
/// its hex-prefix path. The path must agree with the key; a leaf must use
/// the key up and then gives its value, an extension refers to its child.
pub open spec fn short_node_step(
    node: NodeModel,
    index: usize,
    cursor: CursorModel,
    key: Seq<u8>,
) -> StepModel {
    match item_at(node, 0) {
        None => malformed(index),
        Some(first) => match first.data {
            None => malformed(index),
            Some(encoded_path) => match consume_path_spec(
                hex_prefix_nibbles(encoded_path),
                key,
                cursor.key_index,
                index,
            ) {
                Err(e) => StepModel::Finish(Err(e)),
                Ok(next) => if hex_prefix_is_leaf(encoded_path) {
                    if next != key.len() {
                        StepModel::Finish(
                            Err(
                                VerificationError::KeyNotFullyConsumed {
                                    remaining: (key.len() - next) as usize,
                                },
                            ),
                        )
                    } else {
                        yield_value(item_at(node, 1), index)
                    }
                } else {
                    descend(item_at(node, 1), index, next)
                },
            },
        },
    }
}

/// A node of seventeen items: with the key used up it gives the value in
/// its last slot, else it refers to the child under the key's next nibble.
pub open spec fn branch_step(
    node: NodeModel,
    index: usize,
    cursor: CursorModel,
    key: Seq<u8>,
) -> StepModel {
    if cursor.key_index >= key.len() {
        match item_at(node, 16) {
            None => malformed(index),
            Some(terminal) => if terminal.is_empty {
                StepModel::Finish(Err(VerificationError::NoValueAtBranchTerminus { index }))
            } else {
                yield_value(Some(terminal), index)
            },
        }
    } else {
        let nibble = key[cursor.key_index as int];
        match item_at(node, nibble as int) {
            None => malformed(index),
            Some(child) => if child.is_empty {
                StepModel::Finish(Err(VerificationError::EmptyBranch { index, nibble }))
            } else {
                descend(Some(child), index, cursor.key_index + 1)
            },
        }
    }
}

/// What a decoded node leads to, by its arity.
pub open spec fn step_spec(
    node: NodeModel,
    index: usize,
    cursor: CursorModel,
    key: Seq<u8>,
) -> StepModel {
    if node.count == 2 {
        short_node_step(node, index, cursor, key)
    } else if node.count == 17 {
        branch_step(node, index, cursor, key)
    } else {
        StepModel::Finish(
            Err(VerificationError::InvalidNodeArity { index, count: node.count as usize }),
        )
    }
}

fn get_item(node: &NodeView, slot: usize) -> (item: Option<&NodeItem>)
    ensures
        match item {
            Some(it) => item_at(node@, slot as int) == Some(it@),
            None => item_at(node@, slot as int) is None,
        },
{
    if slot < node.items.len() {
        match &node.items[slot] {
            Some(it) => Some(it),
            None => None,
        }
    } else {
        None
    }
}

fn get_data(item: Option<&NodeItem>) -> (data: Option<&Vec<u8>>)
    ensures
        match data {
            Some(bytes) => item is Some && item->Some_0@.data == Some(bytes@),
            None => item is None || item->Some_0@.data is None,
        },
{
    match item {
        None => None,
        Some(it) => match &it.data {
            Some(bytes) => Some(bytes),
            None => None,
        },
    }
}

fn fail(index: usize) -> (out: Step)
    ensures
        out@ == malformed(index),
{
    Step::Finish(Err(VerificationError::MalformedNode { index }))
}

fn descend_to(item: Option<&NodeItem>, index: usize, key_index: usize) -> (out: Step)
    ensures
        out@ == descend(
            match item {
                Some(it) => Some(it@),
                None => None,
            },
            index,
            key_index as nat,
        ),
{
    match item {
        None => fail(index),
        Some(child) => {
            if child.is_list {
                Step::Continue(Cursor { expected: slice_to_vec(child.raw.as_slice()), key_index })
            } else {
                match &child.data {
                    None => fail(index),
                    Some(bytes) => Step::Continue(
                        Cursor { expected: slice_to_vec(bytes.as_slice()), key_index },
                    ),
                }
            }
        },
    }
}

fn value_of(item: Option<&NodeItem>, index: usize) -> (out: Step)
    ensures
        out@ == yield_value(
            match item {
                Some(it) => Some(it@),
                None => None,
            },
            index,
        ),
{
    match get_data(item) {
        None => fail(index),
        Some(bytes) => Step::Finish(Ok(slice_to_vec(bytes.as_slice()))),
    }
}

/// Takes one step of the traversal at an already decoded node: the node at
/// `index` of the proof, reached with `cursor`.
pub fn step(node: &NodeView, index: usize, cursor: &Cursor, key_nibbles: &[u8]) -> (out: Step)
    requires
        cursor.key_index <= key_nibbles@.len(),
    ensures
        out@ == step_spec(node@, index, cursor@, key_nibbles@),
        out matches Step::Continue(next) ==> cursor.key_index <= next.key_index
            <= key_nibbles@.len(),
{
    if node.count == 2 {
        let encoded_path = match get_data(get_item(node, 0)) {
            None => {
                return fail(index);
            },
            Some(bytes) => bytes,
        };
        let (path, is_leaf) = decode_hex_prefix(encoded_path.as_slice());
        let next: usize = match consume_path(
            path.as_slice(),
            key_nibbles,
            cursor.key_index,
            index,
        ) {
            Err(e) => {
                return Step::Finish(Err(e));
            },
            Ok(next) => next,
        };
        proof {
            lemma_matched_len_bounds(path@, key_nibbles@, cursor.key_index as nat, 0);
        }
        if is_leaf {
            if next != key_nibbles.len() {
                Step::Finish(
                    Err(
                        VerificationError::KeyNotFullyConsumed {
                            remaining: key_nibbles.len() - next,
                        },
                    ),
                )
            } else {
                value_of(get_item(node, 1), index)
            }
        } else {
            descend_to(get_item(node, 1), index, next)
        }
    } else if node.count == 17 {
        if cursor.key_index >= key_nibbles.len() {
            match get_item(node, 16) {
                None => fail(index),
                Some(terminal) => {
                    if terminal.is_empty {
                        Step::Finish(Err(VerificationError::NoValueAtBranchTerminus { index }))
                    } else {
                        value_of(Some(terminal), index)
                    }
                },
            }
        } else {
            let nibble: u8 = key_nibbles[cursor.key_index];
            match get_item(node, nibble as usize) {
                None => fail(index),
                Some(child) => {
                    if child.is_empty {
                        Step::Finish(Err(VerificationError::EmptyBranch { index, nibble }))
                    } else {
                        descend_to(Some(child), index, cursor.key_index + 1)
                    }
                },
            }
        }
    } else {
        Step::Finish(Err(VerificationError::InvalidNodeArity { index, count: node.count }))
    }
}

/// The nibbles that agree are at most the path, at most what is left of the
/// key, and at least those already counted.
pub proof fn lemma_matched_len_bounds(path: Seq<u8>, key: Seq<u8>, from: nat, done: nat)
    requires
        done <= path.len(),
    ensures
        done <= matched_len(path, key, from, done) <= path.len(),
        from + done <= key.len() ==> from + matched_len(path, key, from, done) <= key.len(),
    decreases path.len() - done,
{
    if done < path.len() && from + done < key.len() && path[done as int] == key[(from
        + done) as int] {
        lemma_matched_len_bounds(path, key, from, done + 1);
    }
}

// ---------------------------------------------------------------------------
// The walk
// ---------------------------------------------------------------------------
/// What the node `node`, standing at `index` of the proof and reached with
/// `cursor`, leads to: a hash mismatch unless it is linked to its parent, a
/// decode failure unless it is an encoded list, else the step that its
/// decoded form gives.
pub open spec fn visit_spec(
    node: Seq<u8>,
    index: usize,
    cursor: CursorModel,
    key: Seq<u8>,
) -> StepModel {
    if !link_holds(node, node_digest(node), cursor.expected) {
        StepModel::Finish(Err(VerificationError::HashMismatch { index }))
    } else {
        match decoded_node(node) {
            None => malformed(index),
            Some(view) => step_spec(view, index, cursor, key),
        }
    }
}

/// The result of walking the nodes of `proof` from index `i` on, with
/// `cursor`: the first node that ends the traversal decides; a proof that
/// runs out is incomplete.
pub open spec fn walk(proof: Seq<Seq<u8>>, i: nat, cursor: CursorModel, key: Seq<u8>) -> Result<
    Seq<u8>,
    VerificationError,
>
    decreases proof.len() - i,
{
    if i >= proof.len() {
        Err(VerificationError::ProofIncomplete)
    } else {
        match visit_spec(proof[i as int], i as usize, cursor, key) {
            StepModel::Finish(r) => r,
            StepModel::Continue(next) => walk(proof, i + 1, next, key),
        }
    }
}

/// The cursor that the traversal starts with: the root commitment, and no
/// nibble of the key consumed.
pub open spec fn start(root: Seq<u8>) -> CursorModel {
    CursorModel { expected: root, key_index: 0 }
}

/// The result of verifying `proof` for `key` against `root`.
pub open spec fn verify_spec(root: Seq<u8>, key: Seq<u8>, proof: Seq<Seq<u8>>) -> Result<
    Seq<u8>,
    VerificationError,
> {
    if root.len() != 32 {
        Err(VerificationError::InvalidRoot)
    } else if proof.len() == 0 {
        Err(VerificationError::EmptyProof)
    } else {
        walk(proof, 0, start(root), nibbles_of(key))
    }
}

/// Visits one encoded node: checks its hash linkage, decodes it and takes
/// the step that it gives.
pub fn visit(node: &[u8], index: usize, cursor: &Cursor, key_nibbles: &[u8]) -> (out: Step)
    requires
        cursor.key_index <= key_nibbles@.len(),
    ensures
        out@ == visit_spec(node@, index, cursor@, key_nibbles@),
        out matches Step::Continue(next) ==> cursor.key_index <= next.key_index
            <= key_nibbles@.len(),
{
    let digest: [u8; 32] = hash_node(node);
    if !check_link(node, digest.as_slice(), cursor.expected.as_slice()) {
        return Step::Finish(Err(VerificationError::HashMismatch { index }));
    }
    match decode_node(node) {
        None => fail(index),
        Some(view) => step(&view, index, cursor, key_nibbles),
    }
}

/// Verifies a Merkle Patricia Trie inclusion proof.
///
/// `root` is the 32-byte commitment of the trie, `key` the encoded lookup
/// key, `proof` the encoded nodes from the root towards the key. The result
/// is the value bound to the key, or the reason why the proof does not give
/// one.
pub fn verify_proof(root: &[u8], key: &[u8], proof: &[Vec<u8>]) -> (result: Result<
    Vec<u8>,
    VerificationError,
>)
    ensures
        result_view(result) == verify_spec(root@, key@, proof_nodes(proof@)),
        root@.len() != 32 ==> result == Err::<Vec<u8>, VerificationError>(
            VerificationError::InvalidRoot,
        ),
        root@.len() == 32 && proof@.len() == 0 ==> result == Err::<Vec<u8>, VerificationError>(
            VerificationError::EmptyProof,
        ),
{
    if root.len() != 32 {
        return Err(VerificationError::InvalidRoot);
    }
    if proof.len() == 0 {
        return Err(VerificationError::EmptyProof);
    }
    let key_nibbles = bytes_to_nibbles(key);
    let mut cursor = Cursor { expected: root_commitment(root), key_index: 0 };
    let ghost nodes = proof_nodes(proof@);
    let mut i: usize = 0;
    while i < proof.len()
        invariant
            i <= proof@.len(),
            nodes == proof_nodes(proof@),
            key_nibbles@ == nibbles_of(key@),
            cursor.key_index <= key_nibbles@.len(),
            walk(nodes, i as nat, cursor@, key_nibbles@) == verify_spec(root@, key@, nodes),
        decreases proof@.len() - i,
    {
        match visit(proof[i].as_slice(), i, &cursor, key_nibbles.as_slice()) {
            Step::Finish(r) => {
                return r;
            },
            Step::Continue(next) => {
                cursor = next;
            },
        }
        i = i + 1;
    }
    Err(VerificationError::ProofIncomplete)
}

} // verus!
