//! How a decoded value relates to the bytes around it: decoding never looks
//! past the end of a value, and a value cut short is always reported as such.

use vstd::prelude::*;
use crate::bencode::{
    SpecNode, SpecValue, Step, find, spec_integer, spec_byte_string, spec_value, spec_list_items,
    spec_dictionary_entries, spec_parse, ParseError, END_TAG, LENGTH_SEPARATOR, MAX_DEPTH, INTEGER_TAG,
    LIST_TAG, DICTIONARY_TAG, is_digit,
};

verus! {

broadcast use vstd::map::axiom_map_index_decreases_finite;

/// `s` and `t` hold the same first `n` bytes.
pub open spec fn agree(s: Seq<u8>, t: Seq<u8>, n: int) -> bool {
    &&& 0 <= n <= s.len()
    &&& n <= t.len()
    &&& forall|i: int| 0 <= i < n ==> #[trigger] s[i] == t[i]
}

proof fn lemma_find_bounds(s: Seq<u8>, from: int, c: u8)
    ensures
        find(s, from, c) matches Some(j) ==> 0 <= from <= j < s.len() && s[j] == c && forall|
            i: int,
        | from <= i < j ==> s[i] != c,
        find(s, from, c) is None ==> forall|i: int| 0 <= from <= i < s.len() ==> s[i] != c,
    decreases s.len() - from,
{
    if 0 <= from < s.len() && s[from] != c {
        lemma_find_bounds(s, from + 1, c);
    }
}

proof fn lemma_find_first(t: Seq<u8>, from: int, c: u8, j: int)
    requires
        0 <= from <= j < t.len(),
        t[j] == c,
        forall|i: int| from <= i < j ==> t[i] != c,
    ensures
        find(t, from, c) == Some(j),
    decreases j - from,
{
    if from < j {
        lemma_find_first(t, from + 1, c, j);
    }
}

proof fn lemma_find_none(t: Seq<u8>, from: int, c: u8)
    requires
        0 <= from,
        forall|i: int| from <= i < t.len() ==> t[i] != c,
    ensures
        find(t, from, c) is None,
    decreases t.len() - from,
{
    if from < t.len() {
        lemma_find_none(t, from + 1, c);
    }
}

proof fn lemma_integer_stable(s: Seq<u8>, t: Seq<u8>, p: int)
    requires
        0 <= p < s.len(),
        spec_integer(s, p) matches Step::Decoded(_, e) && agree(s, t, e),
    ensures
        spec_integer(t, p) == spec_integer(s, p),
{
    lemma_find_bounds(s, p + 1, END_TAG);
    let j = find(s, p + 1, END_TAG)->Some_0;
    assert(t[p] == s[p]);
    assert forall|i: int| p + 1 <= i < j implies t[i] != END_TAG by {
        assert(s[i] == t[i]);
    }
    lemma_find_first(t, p + 1, END_TAG, j);
    assert(t.subrange(p + 1, j) =~= s.subrange(p + 1, j));
}

proof fn lemma_byte_string_stable(s: Seq<u8>, t: Seq<u8>, p: int)
    requires
        0 <= p < s.len(),
        spec_byte_string(s, p) matches Step::Decoded(_, e) && agree(s, t, e),
    ensures
        spec_byte_string(t, p) == spec_byte_string(s, p),
{
    lemma_find_bounds(s, p, LENGTH_SEPARATOR);
    let c = find(s, p, LENGTH_SEPARATOR)->Some_0;
    let e = spec_byte_string(s, p)->Decoded_1;
    assert(t[p] == s[p]);
    assert forall|i: int| p <= i < c implies t[i] != LENGTH_SEPARATOR by {
        assert(s[i] == t[i]);
    }
    lemma_find_first(t, p, LENGTH_SEPARATOR, c);
    assert(t.subrange(p, c) =~= s.subrange(p, c));
    assert(t.subrange(c + 1, e) =~= s.subrange(c + 1, e));
}

proof fn lemma_items_bounds(s: Seq<u8>, p: int, d: nat, acc: Seq<SpecNode>)
    ensures
        spec_list_items(s, p, d, acc) matches Ok((_, e)) ==> p < e <= s.len(),
    decreases s.len() - p,
{
    if 0 <= p < s.len() && s[p] != END_TAG {
        if let Ok(n) = spec_value(s, p, d) {
            if p < n.end <= s.len() {
                lemma_items_bounds(s, n.end, d, acc.push(n));
            }
        }
    }
}

proof fn lemma_entries_bounds(s: Seq<u8>, p: int, d: nat, acc: Map<Seq<char>, SpecNode>)
    ensures
        spec_dictionary_entries(s, p, d, acc) matches Ok((_, e)) ==> p < e <= s.len(),
    decreases s.len() - p,
{
    if 0 <= p < s.len() && s[p] != END_TAG {
        if let Step::Decoded(SpecValue::ByteString(k), kend) = spec_byte_string(s, p) {
            if let Some(key) = crate::text::utf8_of(k) {
                if let Ok(n) = spec_value(s, kend, d) {
                    if p < n.end <= s.len() {
                        lemma_entries_bounds(s, n.end, d, acc.insert(key, n));
                    }
                }
            }
        }
    }
}

/// A decoded value starts where decoding began and ends within the input.
pub proof fn lemma_value_bounds(s: Seq<u8>, p: int, d: nat)
    ensures
        spec_value(s, p, d) matches Ok(n) ==> n.start == p && p < n.end <= s.len(),
{
    if 0 <= p < s.len() {
        lemma_find_bounds(s, p + 1, END_TAG);
        lemma_find_bounds(s, p, LENGTH_SEPARATOR);
        if d > 0 {
            lemma_items_bounds(s, p + 1, (d - 1) as nat, Seq::empty());
            lemma_entries_bounds(s, p + 1, (d - 1) as nat, Map::empty());
        }
    }
}

/// Decoding a value reads only the bytes of its own encoding.
pub proof fn lemma_value_stable(s: Seq<u8>, t: Seq<u8>, p: int, d: nat)
    requires
        spec_value(s, p, d) matches Ok(n) && agree(s, t, n.end),
    ensures
        spec_value(t, p, d) == spec_value(s, p, d),
    decreases s.len() - p, 2nat,
{
    lemma_value_bounds(s, p, d);
    lemma_find_bounds(s, p + 1, END_TAG);
    lemma_find_bounds(s, p, LENGTH_SEPARATOR);
    assert(t[p] == s[p]);
    if s[p] == INTEGER_TAG {
        lemma_integer_stable(s, t, p);
    } else if is_digit(s[p]) {
        lemma_byte_string_stable(s, t, p);
    } else if d > 0 && s[p] == LIST_TAG {
        lemma_items_stable(s, t, p + 1, (d - 1) as nat, Seq::empty());
    } else if d > 0 && s[p] == DICTIONARY_TAG {
        lemma_entries_stable(s, t, p + 1, (d - 1) as nat, Map::empty());
    }
}

proof fn lemma_items_stable(s: Seq<u8>, t: Seq<u8>, p: int, d: nat, acc: Seq<SpecNode>)
    requires
        spec_list_items(s, p, d, acc) matches Ok((_, e)) && agree(s, t, e),
    ensures
        spec_list_items(t, p, d, acc) == spec_list_items(s, p, d, acc),
    decreases s.len() - p, 3nat,
{
    lemma_items_bounds(s, p, d, acc);
    assert(t[p] == s[p]);
    if s[p] != END_TAG {
        let n = spec_value(s, p, d)->Ok_0;
        lemma_items_bounds(s, n.end, d, acc.push(n));
        lemma_value_stable(s, t, p, d);
        lemma_items_stable(s, t, n.end, d, acc.push(n));
    }
}

proof fn lemma_entries_stable(
    s: Seq<u8>,
    t: Seq<u8>,
    p: int,
    d: nat,
    acc: Map<Seq<char>, SpecNode>,
)
    requires
        spec_dictionary_entries(s, p, d, acc) matches Ok((_, e)) && agree(s, t, e),
    ensures
        spec_dictionary_entries(t, p, d, acc) == spec_dictionary_entries(s, p, d, acc),
    decreases s.len() - p, 3nat,
{
    lemma_entries_bounds(s, p, d, acc);
    assert(t[p] == s[p]);
    if s[p] != END_TAG {
        let kend = spec_byte_string(s, p)->Decoded_1;
        let k = spec_byte_string(s, p)->Decoded_0->ByteString_0;
        let key = crate::text::utf8_of(k)->Some_0;
        let n = spec_value(s, kend, d)->Ok_0;
        lemma_value_bounds(s, kend, d);
        lemma_entries_bounds(s, n.end, d, acc.insert(key, n));
        lemma_byte_string_stable(s, t, p);
        lemma_value_stable(s, t, kend, d);
        lemma_entries_stable(s, t, n.end, d, acc.insert(key, n));
    }
}

proof fn lemma_integer_truncated(s: Seq<u8>, p: int, k: int)
    requires
        0 <= p < k,
        spec_integer(s, p) matches Step::Decoded(_, e) && k < e,
    ensures
        spec_integer(s.subrange(0, k), p) == Step::Invalid(ParseError::UnexpectedEndOfData),
{
    let t = s.subrange(0, k);
    lemma_find_bounds(s, p + 1, END_TAG);
    assert(t[p] == s[p]);
    assert forall|i: int| p + 1 <= i < t.len() implies t[i] != END_TAG by {
        assert(s[i] == t[i]);
    }
    lemma_find_none(t, p + 1, END_TAG);
}

proof fn lemma_byte_string_truncated(s: Seq<u8>, p: int, k: int)
    requires
        0 <= p < k,
        spec_byte_string(s, p) matches Step::Decoded(_, e) && k < e,
    ensures
        spec_byte_string(s.subrange(0, k), p) == Step::Invalid(ParseError::UnexpectedEndOfData),
{
    let t = s.subrange(0, k);
    lemma_find_bounds(s, p, LENGTH_SEPARATOR);
    let c = find(s, p, LENGTH_SEPARATOR)->Some_0;
    assert(t[p] == s[p]);
    if k <= c {
        assert forall|i: int| p <= i < t.len() implies t[i] != LENGTH_SEPARATOR by {
            assert(s[i] == t[i]);
        }
        lemma_find_none(t, p, LENGTH_SEPARATOR);
    } else {
        assert forall|i: int| p <= i < c implies t[i] != LENGTH_SEPARATOR by {
            assert(s[i] == t[i]);
        }
        assert(t[c] == s[c]);
        lemma_find_first(t, p, LENGTH_SEPARATOR, c);
        assert(t.subrange(p, c) =~= s.subrange(p, c));
    }
}

/// A value cut short anywhere inside its encoding is reported as ending early.
pub proof fn lemma_value_truncated(s: Seq<u8>, p: int, d: nat, k: int)
    requires
        spec_value(s, p, d) matches Ok(n) && p <= k < n.end,
    ensures
        spec_value(s.subrange(0, k), p, d) == Err::<SpecNode, ParseError>(
            ParseError::UnexpectedEndOfData,
        ),
    decreases s.len() - p, 2nat,
{
    let t = s.subrange(0, k);
    lemma_value_bounds(s, p, d);
    if p < k {
        lemma_find_bounds(s, p + 1, END_TAG);
        lemma_find_bounds(s, p, LENGTH_SEPARATOR);
        assert(t[p] == s[p]);
        if s[p] == INTEGER_TAG {
            lemma_integer_truncated(s, p, k);
        } else if is_digit(s[p]) {
            lemma_byte_string_truncated(s, p, k);
        } else if d > 0 && s[p] == LIST_TAG {
            lemma_items_truncated(s, p + 1, (d - 1) as nat, Seq::empty(), k);
        } else if d > 0 && s[p] == DICTIONARY_TAG {
            lemma_entries_truncated(s, p + 1, (d - 1) as nat, Map::empty(), k);
        }
    }
}

proof fn lemma_items_truncated(s: Seq<u8>, p: int, d: nat, acc: Seq<SpecNode>, k: int)
    requires
        spec_list_items(s, p, d, acc) matches Ok((_, e)) && p <= k < e,
    ensures
        spec_list_items(s.subrange(0, k), p, d, acc) == Err::<(Seq<SpecNode>, int), ParseError>(
            ParseError::UnexpectedEndOfData,
        ),
    decreases s.len() - p, 3nat,
{
    let t = s.subrange(0, k);
    lemma_items_bounds(s, p, d, acc);
    if p < k {
        assert(t[p] == s[p]);
        let n = spec_value(s, p, d)->Ok_0;
        lemma_items_bounds(s, n.end, d, acc.push(n));
        if k < n.end {
            lemma_value_truncated(s, p, d, k);
        } else {
            lemma_value_stable(s, t, p, d);
            lemma_items_truncated(s, n.end, d, acc.push(n), k);
        }
    }
}

proof fn lemma_entries_truncated(
    s: Seq<u8>,
    p: int,
    d: nat,
    acc: Map<Seq<char>, SpecNode>,
    k: int,
)
    requires
        spec_dictionary_entries(s, p, d, acc) matches Ok((_, e)) && p <= k < e,
    ensures
        spec_dictionary_entries(s.subrange(0, k), p, d, acc) == Err::<
            (Map<Seq<char>, SpecNode>, int),
            ParseError,
        >(ParseError::UnexpectedEndOfData),
    decreases s.len() - p, 3nat,
{
    let t = s.subrange(0, k);
    lemma_entries_bounds(s, p, d, acc);
    if p < k {
        assert(t[p] == s[p]);
        let kend = spec_byte_string(s, p)->Decoded_1;
        let kb = spec_byte_string(s, p)->Decoded_0->ByteString_0;
        let key = crate::text::utf8_of(kb)->Some_0;
        let n = spec_value(s, kend, d)->Ok_0;
        lemma_value_bounds(s, kend, d);
        lemma_entries_bounds(s, n.end, d, acc.insert(key, n));
        if k < kend {
            lemma_byte_string_truncated(s, p, k);
        } else {
            lemma_byte_string_stable(s, t, p);
            if k < n.end {
                lemma_value_truncated(s, kend, d, k);
            } else {
                lemma_value_stable(s, t, kend, d);
                lemma_entries_truncated(s, n.end, d, acc.insert(key, n), k);
            }
        }
    }
}

/// A document decodes to one node spanning all of it, and any bytes appended
/// after it are rejected as trailing data.
pub proof fn lemma_trailing_data_rejected(doc: Seq<u8>, extra: Seq<u8>)
    requires
        spec_parse(doc) is Ok,
        extra.len() > 0,
    ensures
        spec_parse(doc)->Ok_0.start == 0,
        spec_parse(doc)->Ok_0.end == doc.len(),
        spec_parse(doc + extra) == Err::<SpecNode, ParseError>(ParseError::DataAfterBencode),
{
    lemma_value_bounds(doc, 0, MAX_DEPTH as nat);
    let n = spec_value(doc, 0, MAX_DEPTH as nat)->Ok_0;
    assert forall|i: int| 0 <= i < n.end implies #[trigger] doc[i] == (doc + extra)[i] by {}
    lemma_value_stable(doc, doc + extra, 0, MAX_DEPTH as nat);
}

/// Every strict, non-empty prefix of a document is rejected as ending early.
pub proof fn lemma_truncation_rejected(doc: Seq<u8>, k: int)
    requires
        spec_parse(doc) is Ok,
        0 < k < doc.len(),
    ensures
        spec_parse(doc.subrange(0, k)) == Err::<SpecNode, ParseError>(
            ParseError::UnexpectedEndOfData,
        ),
{
    lemma_value_truncated(doc, 0, MAX_DEPTH as nat, k);
}

/// Nodes laid out in order, each within `lo + 1 .. hi`, each itself nested.
pub open spec fn nodes_within(items: Seq<SpecNode>, lo: int, hi: int) -> bool
    decreases items, 0nat,
{
    &&& forall|i: int|
        0 <= i < items.len() ==> lo < #[trigger] items[i].start && items[i].end <= hi
    &&& forall|i: int, j: int|
        0 <= i < j < items.len() ==> #[trigger] items[i].end <= #[trigger] items[j].start
    &&& forall|i: int| 0 <= i < items.len() ==> spans_nested(#[trigger] items[i])
}

/// A finite mapping whose values each lie within `lo + 1 .. hi` and are
/// each themselves nested.
pub open spec fn map_within(m: Map<Seq<char>, SpecNode>, lo: int, hi: int) -> bool
    decreases m, 0nat,
{
    &&& m.dom().finite()
    &&& forall|k: Seq<char>| #[trigger]
        m.contains_key(k) ==> lo < m[k].start && m[k].end <= hi && spans_nested(m[k])
}

/// A node's span is not empty, and the span of each of its children lies in
/// the parent's interior, strictly between its opening and closing bytes;
/// the children of a list are laid out in order without overlap.
pub open spec fn spans_nested(n: SpecNode) -> bool
    decreases n, 1nat,
{
    &&& n.start < n.end
    &&& match n.value {
        SpecValue::List(items) => nodes_within(items, n.start, n.end - 1),
        SpecValue::Dictionary(m) => map_within(m, n.start, n.end - 1),
        _ => true,
    }
}

proof fn lemma_node_nested(s: Seq<u8>, p: int, d: nat)
    ensures
        spec_value(s, p, d) matches Ok(n) ==> spans_nested(n),
    decreases s.len() - p, 2nat,
{
    lemma_value_bounds(s, p, d);
    if 0 <= p < s.len() && d > 0 {
        if s[p] == LIST_TAG {
            lemma_items_nested(s, p + 1, (d - 1) as nat, Seq::empty(), p);
        } else if s[p] == DICTIONARY_TAG {
            lemma_entries_nested(s, p + 1, (d - 1) as nat, Map::empty(), p);
        }
    }
}

proof fn lemma_items_nested(s: Seq<u8>, p: int, d: nat, acc: Seq<SpecNode>, lo: int)
    requires
        lo < p,
        nodes_within(acc, lo, p),
    ensures
        spec_list_items(s, p, d, acc) matches Ok((all, e)) ==> nodes_within(all, lo, e - 1),
    decreases s.len() - p, 3nat,
{
    if 0 <= p < s.len() && s[p] != END_TAG {
        if let Ok(n) = spec_value(s, p, d) {
            if p < n.end <= s.len() {
                lemma_node_nested(s, p, d);
                lemma_value_bounds(s, p, d);
                let next = acc.push(n);
                assert forall|i: int| 0 <= i < next.len() implies lo < #[trigger] next[i].start
                    && next[i].end <= n.end by {
                    if i < acc.len() {
                        assert(next[i] == acc[i]);
                    }
                }
                assert forall|i: int, j: int| 0 <= i < j < next.len() implies #[trigger] next[i].end
                    <= #[trigger] next[j].start by {
                    assert(next[i] == acc[i]);
                    if j < acc.len() {
                        assert(next[j] == acc[j]);
                    }
                }
                assert forall|i: int| 0 <= i < next.len() implies spans_nested(#[trigger] next[i]) by {
                    if i < acc.len() {
                        assert(next[i] == acc[i]);
                    }
                }
                lemma_items_nested(s, n.end, d, next, lo);
            }
        }
    }
}

proof fn lemma_entries_nested(
    s: Seq<u8>,
    p: int,
    d: nat,
    acc: Map<Seq<char>, SpecNode>,
    lo: int,
)
    requires
        lo < p,
        map_within(acc, lo, p),
    ensures
        spec_dictionary_entries(s, p, d, acc) matches Ok((m, e)) ==> map_within(m, lo, e - 1),
    decreases s.len() - p, 3nat,
{
    if 0 <= p < s.len() && s[p] != END_TAG {
        if let Step::Decoded(SpecValue::ByteString(kb), kend) = spec_byte_string(s, p) {
            if let Some(key) = crate::text::utf8_of(kb) {
                if p < kend {
                    if let Ok(n) = spec_value(s, kend, d) {
                        if p < n.end <= s.len() {
                            lemma_node_nested(s, kend, d);
                            lemma_value_bounds(s, kend, d);
                            let next = acc.insert(key, n);
                            assert(map_within(next, lo, n.end));
                            lemma_entries_nested(s, n.end, d, next, lo);
                        }
                    }
                }
            }
        }
    }
}

/// In a decoded document every node's span is non-empty and lies within the
/// document, and each child's span lies strictly inside its parent's
/// interior, list elements in order and without overlap.
pub proof fn lemma_spans_nested(doc: Seq<u8>)
    requires
        spec_parse(doc) is Ok,
    ensures
        spec_parse(doc)->Ok_0.start == 0,
        spec_parse(doc)->Ok_0.end == doc.len(),
        spans_nested(spec_parse(doc)->Ok_0),
{
    lemma_value_bounds(doc, 0, MAX_DEPTH as nat);
    lemma_node_nested(doc, 0, MAX_DEPTH as nat);
}

} // verus!
