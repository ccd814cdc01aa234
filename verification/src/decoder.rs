//! Node decoder: what the proof verifier reads of one encoded trie node.
//!
//! The encoding itself is the business of the `rlp` crate. This module calls
//! it through a handful of trusted functions and gathers what they return in
//! [`NodeView`], a type of plain values on which the verifier's logic works.

use rlp::{DecoderError, Rlp};
use vstd::prelude::*;
use vstd::slice::slice_to_vec;

verus! {

#[verifier::external_type_specification]
#[verifier::external_body]
pub struct ExDecoderError(rlp::DecoderError);

/// The number of items that `rlp` counts in an encoded list, or `None` where
/// it reports an error (the encoding is not a list).
pub uninterp spec fn rlp_item_count(encoded: Seq<u8>) -> Option<nat>;

/// The encoding of the item at `index` of an encoded list, as `rlp` finds it,
/// or `None` where it reports an error.
pub uninterp spec fn rlp_item(encoded: Seq<u8>, index: nat) -> Option<Seq<u8>>;

/// The byte string that `rlp` decodes from an encoded item, or `None` where it
/// reports an error (the item is a list, or is cut short).
pub uninterp spec fn rlp_data(encoded: Seq<u8>) -> Option<Seq<u8>>;

/// An encoded item is a list when its first byte is at least `0xc0`.
pub open spec fn rlp_is_list(encoded: Seq<u8>) -> bool {
    encoded.len() > 0 && encoded[0] >= 0xc0
}

/// An encoded item is empty when it starts with the empty byte string
/// (`0x80`) or the empty list (`0xc0`).
pub open spec fn rlp_is_empty(encoded: Seq<u8>) -> bool {
    encoded.len() > 0 && (encoded[0] == 0xc0 || encoded[0] == 0x80)
}

/// Trusted: `rlp::Rlp::item_count` on a fresh view of `encoded`. The count, or
/// its failure, is a function of the bytes alone, named [`rlp_item_count`].
#[verifier::external_body]
fn item_count(encoded: &[u8]) -> (r: Result<usize, DecoderError>)
    ensures
        match r {
            Ok(n) => rlp_item_count(encoded@) == Some(n as nat),
            Err(_) => rlp_item_count(encoded@) is None,
        },
{
    Rlp::new(encoded).item_count()
}

/// Trusted: `rlp::Rlp::at` on a fresh view of `encoded`, followed by
/// `rlp::Rlp::as_raw` on the item found. The item's bytes, or the failure, are
/// a function of the list's bytes and the index, named [`rlp_item`].
#[verifier::external_body]
fn item_raw<'a>(encoded: &'a [u8], index: usize) -> (r: Result<&'a [u8], DecoderError>)
    ensures
        match r {
            Ok(raw) => rlp_item(encoded@, index as nat) == Some(raw@),
            Err(_) => rlp_item(encoded@, index as nat) is None,
        },
{
    match Rlp::new(encoded).at(index) {
        Ok(item) => Ok(item.as_raw()),
        Err(e) => Err(e),
    }
}

/// Trusted: `rlp::Rlp::as_val` for `Vec<u8>` on a fresh view of `encoded`. The
/// decoded byte string, or the failure, is a function of the bytes alone,
/// named [`rlp_data`].
#[verifier::external_body]
fn item_data(encoded: &[u8]) -> (r: Result<Vec<u8>, DecoderError>)
    ensures
        match r {
            Ok(data) => rlp_data(encoded@) == Some(data@),
            Err(_) => rlp_data(encoded@) is None,
        },
{
    Rlp::new(encoded).as_val::<Vec<u8>>()
}

/// Trusted: `rlp::Rlp::is_list` on a fresh view of `encoded`, which looks at
/// the first byte only.
#[verifier::external_body]
fn item_is_list(encoded: &[u8]) -> (r: bool)
    ensures
        r == rlp_is_list(encoded@),
{
    Rlp::new(encoded).is_list()
}

/// Trusted: `rlp::Rlp::is_empty` on a fresh view of `encoded`, which looks at
/// the first byte only.
#[verifier::external_body]
fn item_is_empty(encoded: &[u8]) -> (r: bool)
    ensures
        r == rlp_is_empty(encoded@),
{
    Rlp::new(encoded).is_empty()
}

/// One item of a decoded node.
#[derive(Debug, PartialEq, Eq)]
pub struct NodeItem {
    /// The item's own encoding, header included.
    pub raw: Vec<u8>,
    /// Whether the item is a nested list.
    pub is_list: bool,
    /// Whether the item is the empty byte string or the empty list.
    pub is_empty: bool,
    /// The byte string that the item holds; `None` where it holds none.
    pub data: Option<Vec<u8>>,
}

/// The mathematical value of a [`NodeItem`].
pub struct ItemModel {
    pub raw: Seq<u8>,
    pub is_list: bool,
    pub is_empty: bool,
    pub data: Option<Seq<u8>>,
}

/// One proof entry as the verifier sees it: how many items the node has and,
/// for a node of 2 or 17 items, each of them.
#[derive(Debug, PartialEq, Eq)]
pub struct NodeView {
    /// The number of items in the node.
    pub count: usize,
    /// The items, where `count` is 2 or 17; empty otherwise. An entry is
    /// `None` where the item cannot be reached in the encoding.
    pub items: Vec<Option<NodeItem>>,
}

/// The mathematical value of a [`NodeView`].
pub struct NodeModel {
    pub count: nat,
    pub items: Seq<Option<ItemModel>>,
}

/// The view of an optional byte vector.
pub open spec fn bytes_opt_view(data: Option<Vec<u8>>) -> Option<Seq<u8>> {
    match data {
        Some(bytes) => Some(bytes@),
        None => None,
    }
}

/// The view of an optional item.
pub open spec fn item_opt_view(item: Option<NodeItem>) -> Option<ItemModel> {
    match item {
        Some(it) => Some(it@),
        None => None,
    }
}

impl View for NodeItem {
    type V = ItemModel;

    open spec fn view(&self) -> ItemModel {
        ItemModel {
            raw: self.raw@,
            is_list: self.is_list,
            is_empty: self.is_empty,
            data: bytes_opt_view(self.data),
        }
    }
}

impl View for NodeView {
    type V = NodeModel;

    open spec fn view(&self) -> NodeModel {
        NodeModel {
            count: self.count as nat,
            items: Seq::new(self.items@.len(), |i: int| item_opt_view(self.items@[i])),
        }
    }
}

/// What the decoder reports of one item, given the item's encoding.
pub open spec fn decoded_item(raw: Seq<u8>) -> ItemModel {
    ItemModel {
        raw,
        is_list: rlp_is_list(raw),
        is_empty: rlp_is_empty(raw),
        data: rlp_data(raw),
    }
}

/// What the decoder reports of the item at `index` of an encoded node.
pub open spec fn decoded_item_at(encoded: Seq<u8>, index: nat) -> Option<ItemModel> {
    match rlp_item(encoded, index) {
        Some(raw) => Some(decoded_item(raw)),
        None => None,
    }
}

/// Whether a node with `count` items has the arity of a trie node.
pub open spec fn is_trie_arity(count: nat) -> bool {
    count == 2 || count == 17
}

/// What the decoder reports of an encoded node: `None` where the encoding is
/// no list; else the item count and, for a trie node, every item.
pub open spec fn decoded_node(encoded: Seq<u8>) -> Option<NodeModel> {
    match rlp_item_count(encoded) {
        None => None,
        Some(count) => Some(
            NodeModel {
                count,
                items: if is_trie_arity(count) {
                    Seq::new(count, |i: int| decoded_item_at(encoded, i as nat))
                } else {
                    Seq::empty()
                },
            },
        ),
    }
}

/// Reads the item at `index` of an encoded node.
fn read_item(encoded: &[u8], index: usize) -> (item: Option<NodeItem>)
    ensures
        item_opt_view(item) == decoded_item_at(encoded@, index as nat),
{
    match item_raw(encoded, index) {
        Err(_) => None,
        Ok(raw) => {
            let data: Option<Vec<u8>> = match item_data(raw) {
                Ok(bytes) => Some(bytes),
                Err(_) => None,
            };
            Some(
                NodeItem {
                    raw: slice_to_vec(raw),
                    is_list: item_is_list(raw),
                    is_empty: item_is_empty(raw),
                    data,
                },
            )
        },
    }
}

/// Decodes one proof entry. Fails where the entry is not an encoded list.
pub fn decode_node(encoded: &[u8]) -> (node: Option<NodeView>)
    ensures
        match node {
            Some(view) => decoded_node(encoded@) == Some(view@),
            None => decoded_node(encoded@) is None,
        },
{
    let count: usize = match item_count(encoded) {
        Ok(n) => n,
        Err(_) => {
            return None;
        },
    };
    let mut items: Vec<Option<NodeItem>> = Vec::new();
    if count == 2 || count == 17 {
        let mut i: usize = 0;
        while i < count
            invariant
                i <= count,
                items@.len() == i,
                forall|k: int|
                    0 <= k < i ==> item_opt_view(#[trigger] items@[k]) == decoded_item_at(
                        encoded@,
                        k as nat,
                    ),
            decreases count - i,
        {
            let item = read_item(encoded, i);
            items.push(item);
            i = i + 1;
        }
    }
    let view = NodeView { count, items };
    proof {
        let model = decoded_node(encoded@)->Some_0;
        assert(view@.items =~= model.items);
    }
    Some(view)
}

} // verus!
