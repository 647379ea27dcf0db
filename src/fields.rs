//! Reading typed fields out of decoded dictionaries.

use vstd::prelude::*;
use crate::bencode::{Node, SpecNode, SpecValue, view_nodes, view_node};
use crate::text::utf8_of;

verus! {

/// The node under `k`, if `n` is a dictionary that has that key.
pub open spec fn field(n: SpecNode, k: Seq<char>) -> Option<SpecNode> {
    match n.value {
        SpecValue::Dictionary(m) => if m.contains_key(k) {
            Some(m[k])
        } else {
            None
        },
        _ => None,
    }
}

/// The text a node holds, if it is a byte-string holding UTF-8.
pub open spec fn text_of(n: SpecNode) -> Option<Seq<char>> {
    match n.value {
        SpecValue::ByteString(b) => utf8_of(b),
        _ => None,
    }
}

/// The integer a node holds, if it is an integer.
pub open spec fn integer_of(n: SpecNode) -> Option<int> {
    match n.value {
        SpecValue::Integer(i) => Some(i),
        _ => None,
    }
}

/// The bytes a node holds, if it is a byte-string.
pub open spec fn bytes_of(n: SpecNode) -> Option<Seq<u8>> {
    match n.value {
        SpecValue::ByteString(b) => Some(b),
        _ => None,
    }
}

/// The elements of a node, if it is a list.
pub open spec fn list_of(n: SpecNode) -> Option<Seq<SpecNode>> {
    match n.value {
        SpecValue::List(l) => Some(l),
        _ => None,
    }
}

pub open spec fn text_field(n: SpecNode, k: Seq<char>) -> Option<Seq<char>> {
    match field(n, k) {
        Some(v) => text_of(v),
        None => None,
    }
}

pub open spec fn integer_field(n: SpecNode, k: Seq<char>) -> Option<int> {
    match field(n, k) {
        Some(v) => integer_of(v),
        None => None,
    }
}

pub open spec fn bytes_field(n: SpecNode, k: Seq<char>) -> Option<Seq<u8>> {
    match field(n, k) {
        Some(v) => bytes_of(v),
        None => None,
    }
}

pub open spec fn list_field(n: SpecNode, k: Seq<char>) -> Option<Seq<SpecNode>> {
    match field(n, k) {
        Some(v) => list_of(v),
        None => None,
    }
}

/// The model of a list of nodes is the list of their models.
pub proof fn lemma_view_nodes_index(s: Seq<Node>)
    ensures
        view_nodes(s).len() == s.len(),
        forall|i: int| 0 <= i < s.len() ==> #[trigger] view_nodes(s)[i] == view_node(s[i]),
    decreases s.len(),
{
    if s.len() > 0 {
        lemma_view_nodes_index(s.drop_last());
        assert forall|i: int| 0 <= i < s.len() implies #[trigger] view_nodes(s)[i] == view_node(
            s[i],
        ) by {
            if i < s.len() - 1 {
                assert(s.drop_last()[i] == s[i]);
            }
        }
    }
}

/// The text stored under `key` in the dictionary `n`.
pub fn get_text(n: &Node, key: &str) -> (r: Option<String>)
    ensures
        r matches Some(t) ==> text_field(n@, key@) == Some(t@),
        r is None ==> text_field(n@, key@) is None,
{
    match n.get(key) {
        Some(v) => match v.as_str() {
            Some(t) => Some(t.to_owned()),
            None => None,
        },
        None => None,
    }
}

/// The integer stored under `key` in the dictionary `n`.
pub fn get_integer(n: &Node, key: &str) -> (r: Option<i64>)
    ensures
        r matches Some(i) ==> integer_field(n@, key@) == Some(i as int),
        r is None ==> integer_field(n@, key@) is None,
{
    match n.get(key) {
        Some(v) => v.as_integer(),
        None => None,
    }
}

/// The bytes stored under `key` in the dictionary `n`.
pub fn get_bytes<'a>(n: &'a Node, key: &str) -> (r: Option<&'a Vec<u8>>)
    ensures
        r matches Some(b) ==> bytes_field(n@, key@) == Some(b@),
        r is None ==> bytes_field(n@, key@) is None,
{
    match n.get(key) {
        Some(v) => v.as_byte_string(),
        None => None,
    }
}

/// The list stored under `key` in the dictionary `n`.
pub fn get_list<'a>(n: &'a Node, key: &str) -> (r: Option<&'a Vec<Node>>)
    ensures
        r matches Some(l) ==> list_field(n@, key@) == Some(view_nodes(l@)),
        r is None ==> list_field(n@, key@) is None,
{
    match n.get(key) {
        Some(v) => v.as_list(),
        None => None,
    }
}

} // verus!
