//! Bencode decoding into a tree of values, each annotated with the exact byte
//! range it occupied in the input.

use vstd::prelude::*;
use crate::text::{
    utf8_of, literal_i64, usize_of, utf8_text, parse_i64, parse_usize, lemma_leading_plus,
    lemma_plus_start, lemma_literal_without_plus,
};

verus! {

/// Leading byte of an integer: `i`.
pub const INTEGER_TAG: u8 = 0x69;
/// Leading byte of a list: `l`.
pub const LIST_TAG: u8 = 0x6c;
/// Leading byte of a dictionary: `d`.
pub const DICTIONARY_TAG: u8 = 0x64;
/// Terminator of integers, lists and dictionaries: `e`.
pub const END_TAG: u8 = 0x65;
/// The byte of `+`, which an integer literal may not start with.
pub const PLUS_SIGN: u8 = 0x2b;
/// Separator between a byte-string's length and its payload: `:`.
pub const LENGTH_SEPARATOR: u8 = 0x3a;
/// How many lists and dictionaries may enclose one another.
pub const MAX_DEPTH: usize = 512;

/// Why a buffer is not a bencode document.
#[derive(Clone, Copy, Debug, PartialEq, Eq, Structural)]
pub enum ParseError {
    /// A complete value was followed by more bytes.
    DataAfterBencode,
    /// The input ended inside a value that had already been recognised.
    UnexpectedEndOfData,
    /// No kind of value starts with the leading byte.
    InvalidPrefix,
    /// Text was expected inside an integer and the bytes are not UTF-8. The
    /// integer decoder folds this case into `InvalidInteger`, with every
    /// other malformed literal.
    NonUtf8Integer,
    /// A dictionary key is not UTF-8.
    NonUtf8DictKey,
    /// An integer (or a byte-string length) is malformed or out of range.
    InvalidInteger,
    /// A dictionary key position holds something other than a byte-string.
    NonByteStringDictKey,
    /// Lists and dictionaries are nested deeper than `MAX_DEPTH`.
    NestingTooDeep,
}

/// A decoded value.
pub enum Value {
    Integer(i64),
    ByteString(Vec<u8>),
    List(Vec<Node>),
    /// Entries with pairwise distinct keys; their order carries no meaning.
    Dictionary(Vec<(String, Node)>),
}

/// A decoded value with the half-open byte range `start..end` that its
/// encoding occupied in the input, framing bytes included.
pub struct Node {
    pub value: Value,
    pub start: usize,
    pub end: usize,
}

/// Mathematical model of a decoded value.
pub ghost enum SpecValue {
    Integer(int),
    ByteString(Seq<u8>),
    List(Seq<SpecNode>),
    Dictionary(Map<Seq<char>, SpecNode>),
}

/// Mathematical model of a node: a value and its span.
pub ghost struct SpecNode {
    pub value: SpecValue,
    pub start: int,
    pub end: int,
}

/// Outcome of one decoder on the input at a position.
pub enum Attempt {
    /// The leading byte does not start this kind of value.
    NotApplicable,
    /// The leading byte starts this kind of value, but the encoding is malformed.
    Invalid(ParseError),
    /// The value, and the position just past its encoding.
    Decoded(Value, usize),
}

/// Model of an `Attempt`.
pub ghost enum Step {
    NotApplicable,
    Invalid(ParseError),
    Decoded(SpecValue, int),
}

pub open spec fn view_value(v: Value) -> SpecValue
    decreases v,
{
    match v {
        Value::Integer(i) => SpecValue::Integer(i as int),
        Value::ByteString(b) => SpecValue::ByteString(b@),
        Value::List(l) => SpecValue::List(view_nodes(l@)),
        Value::Dictionary(d) => SpecValue::Dictionary(view_entries(d@)),
    }
}

pub open spec fn view_node(n: Node) -> SpecNode
    decreases n,
{
    SpecNode { value: view_value(n.value), start: n.start as int, end: n.end as int }
}

pub open spec fn view_nodes(s: Seq<Node>) -> Seq<SpecNode>
    decreases s,
{
    if s.len() == 0 {
        Seq::empty()
    } else {
        view_nodes(s.drop_last()).push(view_node(s.last()))
    }
}

/// The mapping that a sequence of entries denotes, a later entry taking
/// precedence over an earlier one with the same key.
pub open spec fn view_entries(s: Seq<(String, Node)>) -> Map<Seq<char>, SpecNode>
    decreases s,
{
    if s.len() == 0 {
        Map::empty()
    } else {
        view_entries(s.drop_last()).insert(s.last().0@, view_node(s.last().1))
    }
}

impl View for Node {
    type V = SpecNode;

    open spec fn view(&self) -> SpecNode {
        view_node(*self)
    }
}

impl View for Value {
    type V = SpecValue;

    open spec fn view(&self) -> SpecValue {
        view_value(*self)
    }
}

impl View for Attempt {
    type V = Step;

    open spec fn view(&self) -> Step {
        match *self {
            Attempt::NotApplicable => Step::NotApplicable,
            Attempt::Invalid(e) => Step::Invalid(e),
            Attempt::Decoded(v, end) => Step::Decoded(view_value(v), end as int),
        }
    }
}

pub open spec fn is_digit(b: u8) -> bool {
    0x30 <= b && b <= 0x39
}

/// The first position at or after `from` that holds `c`.
pub open spec fn find(s: Seq<u8>, from: int, c: u8) -> Option<int>
    decreases s.len() - from,
{
    if from < 0 || from >= s.len() {
        None
    } else if s[from] == c {
        Some(from)
    } else {
        find(s, from + 1, c)
    }
}

/// The integer decoder on `s` at `pos`: `i`, an optional `-` and one or more
/// digits, `e`.
pub open spec fn spec_integer(s: Seq<u8>, pos: int) -> Step {
    if s[pos] != INTEGER_TAG {
        Step::NotApplicable
    } else {
        match find(s, pos + 1, END_TAG) {
            None => Step::Invalid(ParseError::UnexpectedEndOfData),
            Some(e) => match utf8_of(s.subrange(pos + 1, e)) {
                Some(t) => match literal_i64(t) {
                    Some(v) => Step::Decoded(SpecValue::Integer(v as int), e + 1),
                    None => Step::Invalid(ParseError::InvalidInteger),
                },
                None => Step::Invalid(ParseError::InvalidInteger),
            },
        }
    }
}

/// The byte-string decoder on `s` at `pos`: a decimal length, `:`, and that
/// many payload bytes.
pub open spec fn spec_byte_string(s: Seq<u8>, pos: int) -> Step {
    if !is_digit(s[pos]) {
        Step::NotApplicable
    } else {
        match find(s, pos, LENGTH_SEPARATOR) {
            None => Step::Invalid(ParseError::UnexpectedEndOfData),
            Some(c) => match utf8_of(s.subrange(pos, c)) {
                Some(t) => match usize_of(t) {
                    Some(n) => if c + 1 + n > s.len() {
                        Step::Invalid(ParseError::UnexpectedEndOfData)
                    } else {
                        Step::Decoded(
                            SpecValue::ByteString(s.subrange(c + 1, c + 1 + n)),
                            c + 1 + n,
                        )
                    },
                    None => Step::Invalid(ParseError::InvalidInteger),
                },
                None => Step::Invalid(ParseError::InvalidInteger),
            },
        }
    }
}


/// Dispatches on the leading byte of `s` at `pos` and decodes one value,
/// allowing `depth` more levels of lists and dictionaries.
pub open spec fn spec_value(s: Seq<u8>, pos: int, depth: nat) -> Result<SpecNode, ParseError>
    decreases s.len() - pos, 2nat,
{
    if pos < 0 || pos >= s.len() {
        Err(ParseError::UnexpectedEndOfData)
    } else {
        match spec_integer(s, pos) {
            Step::Decoded(v, end) => Ok(SpecNode { value: v, start: pos, end }),
            Step::Invalid(e) => Err(e),
            Step::NotApplicable => match spec_byte_string(s, pos) {
                Step::Decoded(v, end) => Ok(SpecNode { value: v, start: pos, end }),
                Step::Invalid(e) => Err(e),
                Step::NotApplicable => match spec_list(s, pos, depth) {
                    Step::Decoded(v, end) => Ok(SpecNode { value: v, start: pos, end }),
                    Step::Invalid(e) => Err(e),
                    Step::NotApplicable => match spec_dictionary(s, pos, depth) {
                        Step::Decoded(v, end) => Ok(SpecNode { value: v, start: pos, end }),
                        Step::Invalid(e) => Err(e),
                        Step::NotApplicable => Err(ParseError::InvalidPrefix),
                    },
                },
            },
        }
    }
}

/// The list decoder on `s` at `pos`: `l`, values, `e`.
pub open spec fn spec_list(s: Seq<u8>, pos: int, depth: nat) -> Step
    decreases s.len() - pos, 1nat,
{
    if pos < 0 || pos >= s.len() || s[pos] != LIST_TAG {
        Step::NotApplicable
    } else if depth == 0 {
        Step::Invalid(ParseError::NestingTooDeep)
    } else {
        match spec_list_items(s, pos + 1, (depth - 1) as nat, Seq::empty()) {
            Ok((items, end)) => Step::Decoded(SpecValue::List(items), end),
            Err(e) => Step::Invalid(e),
        }
    }
}

/// The elements of a list from `p` on, appended to `acc`, and the position
/// just past the list's terminator.
pub open spec fn spec_list_items(s: Seq<u8>, p: int, depth: nat, acc: Seq<SpecNode>) -> Result<
    (Seq<SpecNode>, int),
    ParseError,
>
    decreases s.len() - p, 3nat,
{
    if p < 0 || p >= s.len() {
        Err(ParseError::UnexpectedEndOfData)
    } else if s[p] == END_TAG {
        Ok((acc, p + 1))
    } else {
        match spec_value(s, p, depth) {
            Err(e) => Err(e),
            Ok(n) => if n.end <= p || n.end > s.len() {
                Err(ParseError::UnexpectedEndOfData)
            } else {
                spec_list_items(s, n.end, depth, acc.push(n))
            },
        }
    }
}

/// The dictionary decoder on `s` at `pos`: `d`, key and value pairs, `e`.
pub open spec fn spec_dictionary(s: Seq<u8>, pos: int, depth: nat) -> Step
    decreases s.len() - pos, 1nat,
{
    if pos < 0 || pos >= s.len() || s[pos] != DICTIONARY_TAG {
        Step::NotApplicable
    } else if depth == 0 {
        Step::Invalid(ParseError::NestingTooDeep)
    } else {
        match spec_dictionary_entries(s, pos + 1, (depth - 1) as nat, Map::empty()) {
            Ok((m, end)) => Step::Decoded(SpecValue::Dictionary(m), end),
            Err(e) => Step::Invalid(e),
        }
    }
}

/// The entries of a dictionary from `p` on, inserted into `acc` in order (a
/// repeated key keeps its last value), and the position just past the
/// dictionary's terminator.
pub open spec fn spec_dictionary_entries(
    s: Seq<u8>,
    p: int,
    depth: nat,
    acc: Map<Seq<char>, SpecNode>,
) -> Result<(Map<Seq<char>, SpecNode>, int), ParseError>
    decreases s.len() - p, 3nat,
{
    if p < 0 || p >= s.len() {
        Err(ParseError::UnexpectedEndOfData)
    } else if s[p] == END_TAG {
        Ok((acc, p + 1))
    } else {
        match spec_byte_string(s, p) {
            Step::NotApplicable => Err(ParseError::NonByteStringDictKey),
            Step::Invalid(e) => Err(e),
            Step::Decoded(SpecValue::ByteString(k), kend) => match utf8_of(k) {
                None => Err(ParseError::NonUtf8DictKey),
                Some(key) => if kend <= p {
                    Err(ParseError::UnexpectedEndOfData)
                } else {
                    match spec_value(s, kend, depth) {
                        Err(e) => Err(e),
                        Ok(n) => if n.end <= p || n.end > s.len() {
                            Err(ParseError::UnexpectedEndOfData)
                        } else {
                            spec_dictionary_entries(s, n.end, depth, acc.insert(key, n))
                        },
                    }
                },
            },
            Step::Decoded(_, _) => Err(ParseError::NonByteStringDictKey),
        }
    }
}

/// The whole of `s` as one document: a single value and nothing after it.
pub open spec fn spec_parse(s: Seq<u8>) -> Result<SpecNode, ParseError> {
    match spec_value(s, 0, MAX_DEPTH as nat) {
        Err(e) => Err(e),
        Ok(n) => if n.end == s.len() {
            Ok(n)
        } else {
            Err(ParseError::DataAfterBencode)
        },
    }
}

pub open spec fn view_result(r: Result<Node, ParseError>) -> Result<SpecNode, ParseError> {
    match r {
        Ok(n) => Ok(n@),
        Err(e) => Err(e),
    }
}

/// Every dictionary in a value, at any depth, has pairwise distinct keys.
pub open spec fn wf_value(v: Value) -> bool
    decreases v,
{
    match v {
        Value::List(l) => forall|i: int| 0 <= i < l@.len() ==> wf_value(#[trigger] l@[i].value),
        Value::Dictionary(d) => keys_unique(d@) && forall|i: int|
            0 <= i < d@.len() ==> wf_value(#[trigger] d@[i].1.value),
        _ => true,
    }
}

/// No two entries share a key.
pub open spec fn keys_unique(s: Seq<(String, Node)>) -> bool {
    forall|i: int, j: int| 0 <= i < j < s.len() ==> s[i].0@ != s[j].0@
}

fn find_byte(content: &[u8], from: usize, c: u8) -> (r: Option<usize>)
    requires
        from <= content@.len(),
    ensures
        r matches Some(j) ==> find(content@, from as int, c) == Some(j as int) && from <= j
            < content@.len(),
        r is None ==> find(content@, from as int, c) is None,
{
    let mut i: usize = from;
    while i < content.len()
        invariant
            from <= i <= content@.len(),
            find(content@, from as int, c) == find(content@, i as int, c),
        decreases content@.len() - i,
    {
        if content[i] == c {
            return Some(i);
        }
        i = i + 1;
    }
    None
}

fn copy_range(content: &[u8], from: usize, to: usize) -> (r: Vec<u8>)
    requires
        from <= to <= content@.len(),
    ensures
        r@ == content@.subrange(from as int, to as int),
{
    let mut r: Vec<u8> = Vec::new();
    let mut i: usize = from;
    while i < to
        invariant
            from <= i <= to <= content@.len(),
            r@ == content@.subrange(from as int, i as int),
        decreases to - i,
    {
        r.push(content[i]);
        i = i + 1;
    }
    r
}

fn parse_integer(content: &[u8], pos: usize) -> (r: Attempt)
    requires
        pos < content@.len(),
    ensures
        r@ == spec_integer(content@, pos as int),
        r matches Attempt::Decoded(_, end) ==> pos < end <= content@.len(),
{
    if content[pos] != INTEGER_TAG {
        return Attempt::NotApplicable;
    }
    let e = match find_byte(content, pos + 1, END_TAG) {
        Some(e) => e,
        None => return Attempt::Invalid(ParseError::UnexpectedEndOfData),
    };
    let ghost b = content@.subrange(pos + 1, e as int);
    if e > pos + 1 && content[pos + 1] == PLUS_SIGN {
        proof {
            if crate::text::utf8_of(b) is Some {
                lemma_leading_plus(b);
                lemma_plus_start(vstd::utf8::decode_utf8(b));
            }
        }
        return Attempt::Invalid(ParseError::InvalidInteger);
    }
    let literal = match utf8_text(&content[pos + 1..e]) {
        Some(t) => t,
        None => return Attempt::Invalid(ParseError::InvalidInteger),
    };
    proof {
        if b.len() > 0 {
            lemma_leading_plus(b);
        }
        lemma_literal_without_plus(literal@);
    }
    match parse_i64(literal) {
        Some(v) => Attempt::Decoded(Value::Integer(v), e + 1),
        None => Attempt::Invalid(ParseError::InvalidInteger),
    }
}

fn parse_byte_string(content: &[u8], pos: usize) -> (r: Attempt)
    requires
        pos < content@.len(),
    ensures
        r@ == spec_byte_string(content@, pos as int),
        r matches Attempt::Decoded(v, end) ==> v is ByteString && pos < end <= content@.len(),
{
    let first = content[pos];
    if !(0x30 <= first && first <= 0x39) {
        return Attempt::NotApplicable;
    }
    let colon = match find_byte(content, pos, LENGTH_SEPARATOR) {
        Some(c) => c,
        None => return Attempt::Invalid(ParseError::UnexpectedEndOfData),
    };
    let literal = match utf8_text(&content[pos..colon]) {
        Some(t) => t,
        None => return Attempt::Invalid(ParseError::InvalidInteger),
    };
    let length = match parse_usize(literal) {
        Some(n) => n,
        None => return Attempt::Invalid(ParseError::InvalidInteger),
    };
    let payload_start = colon + 1;
    if length > content.len() - payload_start {
        return Attempt::Invalid(ParseError::UnexpectedEndOfData);
    }
    let end = payload_start + length;
    Attempt::Decoded(Value::ByteString(copy_range(content, payload_start, end)), end)
}

proof fn lemma_view_nodes_push(s: Seq<Node>, n: Node)
    ensures
        view_nodes(s.push(n)) == view_nodes(s).push(n@),
{
    assert(s.push(n).drop_last() =~= s);
}

proof fn lemma_view_entries_push(s: Seq<(String, Node)>, e: (String, Node))
    ensures
        view_entries(s.push(e)) == view_entries(s).insert(e.0@, e.1@),
{
    assert(s.push(e).drop_last() =~= s);
}

/// Replacing the node of an entry is inserting into the mapping, when keys
/// are unique.
proof fn lemma_view_entries_update(s: Seq<(String, Node)>, i: int, e: (String, Node))
    requires
        keys_unique(s),
        0 <= i < s.len(),
        s[i].0@ == e.0@,
    ensures
        view_entries(s.update(i, e)) == view_entries(s).insert(e.0@, e.1@),
    decreases s.len(),
{
    let t = s.update(i, e);
    if i == s.len() - 1 {
        assert(t.drop_last() =~= s.drop_last());
        assert(view_entries(t) =~= view_entries(s).insert(e.0@, e.1@));
    } else {
        assert(t.drop_last() =~= s.drop_last().update(i, e));
        lemma_view_entries_update(s.drop_last(), i, e);
        assert(s.last().0@ != e.0@);
        assert(view_entries(t) =~= view_entries(s).insert(e.0@, e.1@));
    }
}

/// Adds an entry, replacing the node of an entry with the same key.
fn insert_entry(entries: &mut Vec<(String, Node)>, key: String, node: Node)
    requires
        keys_unique(old(entries)@),
    ensures
        keys_unique(final(entries)@),
        view_entries(final(entries)@) == view_entries(old(entries)@).insert(key@, node@),
        forall|j: int|
            0 <= j < final(entries)@.len() ==> (j < old(entries)@.len() && #[trigger] final(entries)@[j]
                == old(entries)@[j]) || final(entries)@[j] == (key, node),
{
    let mut i: usize = 0;
    while i < entries.len()
        invariant
            0 <= i <= entries@.len(),
            entries@ == old(entries)@,
            keys_unique(entries@),
            forall|j: int| 0 <= j < i ==> entries@[j].0@ != key@,
        decreases entries@.len() - i,
    {
        if entries[i].0 == key {
            proof {
                lemma_view_entries_update(entries@, i as int, (key, node));
            }
            entries.set(i, (key, node));
            return;
        }
        i = i + 1;
    }
    proof {
        lemma_view_entries_push(entries@, (key, node));
    }
    entries.push((key, node));
}

fn parse_list(content: &[u8], pos: usize, depth: usize) -> (r: Attempt)
    requires
        pos < content@.len(),
    ensures
        r@ == spec_list(content@, pos as int, depth as nat),
        r matches Attempt::Decoded(v, end) ==> pos < end <= content@.len() && wf_value(v),
    decreases content@.len() - pos, 1nat,
{
    if content[pos] != LIST_TAG {
        return Attempt::NotApplicable;
    }
    if depth == 0 {
        return Attempt::Invalid(ParseError::NestingTooDeep);
    }
    let ghost s = content@;
    let ghost inner = (depth - 1) as nat;
    let mut list: Vec<Node> = Vec::new();
    let mut p: usize = pos + 1;
    loop
        invariant
            pos < p <= s.len(),
            s == content@,
            inner == depth - 1,
            forall|j: int| 0 <= j < list@.len() ==> wf_value(#[trigger] list@[j].value),
            spec_list(s, pos as int, depth as nat) == match spec_list_items(
                s,
                pos + 1,
                inner,
                Seq::empty(),
            ) {
                Ok((items, end)) => Step::Decoded(SpecValue::List(items), end),
                Err(e) => Step::Invalid(e),
            },
            spec_list_items(s, pos + 1, inner, Seq::empty()) == spec_list_items(
                s,
                p as int,
                inner,
                view_nodes(list@),
            ),
        decreases s.len() - p,
    {
        if p == content.len() {
            return Attempt::Invalid(ParseError::UnexpectedEndOfData);
        }
        if content[p] == END_TAG {
            return Attempt::Decoded(Value::List(list), p + 1);
        }
        match parse_value(content, p, depth - 1) {
            Err(e) => return Attempt::Invalid(e),
            Ok(node) => {
                let end = node.end;
                proof {
                    lemma_view_nodes_push(list@, node);
                }
                list.push(node);
                p = end;
            },
        }
    }
}

fn parse_dictionary(content: &[u8], pos: usize, depth: usize) -> (r: Attempt)
    requires
        pos < content@.len(),
    ensures
        r@ == spec_dictionary(content@, pos as int, depth as nat),
        r matches Attempt::Decoded(v, end) ==> pos < end <= content@.len() && wf_value(v),
    decreases content@.len() - pos, 1nat,
{
    if content[pos] != DICTIONARY_TAG {
        return Attempt::NotApplicable;
    }
    if depth == 0 {
        return Attempt::Invalid(ParseError::NestingTooDeep);
    }
    let ghost s = content@;
    let ghost inner = (depth - 1) as nat;
    let mut entries: Vec<(String, Node)> = Vec::new();
    let mut p: usize = pos + 1;
    loop
        invariant
            pos < p <= s.len(),
            s == content@,
            inner == depth - 1,
            keys_unique(entries@),
            forall|j: int| 0 <= j < entries@.len() ==> wf_value(#[trigger] entries@[j].1.value),
            spec_dictionary(s, pos as int, depth as nat) == match spec_dictionary_entries(
                s,
                pos + 1,
                inner,
                Map::empty(),
            ) {
                Ok((m, end)) => Step::Decoded(SpecValue::Dictionary(m), end),
                Err(e) => Step::Invalid(e),
            },
            spec_dictionary_entries(s, pos + 1, inner, Map::empty()) == spec_dictionary_entries(
                s,
                p as int,
                inner,
                view_entries(entries@),
            ),
        decreases s.len() - p,
    {
        if p == content.len() {
            return Attempt::Invalid(ParseError::UnexpectedEndOfData);
        }
        if content[p] == END_TAG {
            return Attempt::Decoded(Value::Dictionary(entries), p + 1);
        }
        let (key_bytes, key_end) = match parse_byte_string(content, p) {
            Attempt::NotApplicable => return Attempt::Invalid(ParseError::NonByteStringDictKey),
            Attempt::Invalid(e) => return Attempt::Invalid(e),
            Attempt::Decoded(Value::ByteString(b), end) => (b, end),
            Attempt::Decoded(_, _) => return Attempt::Invalid(ParseError::NonByteStringDictKey),
        };
        let key = match utf8_text(key_bytes.as_slice()) {
            Some(t) => t.to_owned(),
            None => return Attempt::Invalid(ParseError::NonUtf8DictKey),
        };
        match parse_value(content, key_end, depth - 1) {
            Err(e) => return Attempt::Invalid(e),
            Ok(node) => {
                let end = node.end;
                insert_entry(&mut entries, key, node);
                p = end;
            },
        }
    }
}

/// Decodes one value at `pos`, allowing `depth` more levels of nesting.
fn parse_value(content: &[u8], pos: usize, depth: usize) -> (r: Result<Node, ParseError>)
    requires
        pos <= content@.len(),
    ensures
        view_result(r) == spec_value(content@, pos as int, depth as nat),
        r matches Ok(n) ==> n.start == pos && pos < n.end <= content@.len() && n.wf(),
    decreases content@.len() - pos, 2nat,
{
    if pos == content.len() {
        return Err(ParseError::UnexpectedEndOfData);
    }
    let attempt = match parse_integer(content, pos) {
        Attempt::NotApplicable => match parse_byte_string(content, pos) {
            Attempt::NotApplicable => match parse_list(content, pos, depth) {
                Attempt::NotApplicable => parse_dictionary(content, pos, depth),
                other => other,
            },
            other => other,
        },
        other => other,
    };
    match attempt {
        Attempt::Decoded(value, end) => Ok(Node { value, start: pos, end }),
        Attempt::Invalid(e) => Err(e),
        Attempt::NotApplicable => Err(ParseError::InvalidPrefix),
    }
}

/// Decodes `content` as one bencode document. Every node's span is a range of
/// positions in `content`; the root's covers all of it.
pub fn parse(content: &[u8]) -> (r: Result<Node, ParseError>)
    ensures
        view_result(r) == spec_parse(content@),
        r matches Ok(n) ==> n.wf(),
{
    let node = parse_value(content, 0, MAX_DEPTH)?;
    if node.end == content.len() {
        Ok(node)
    } else {
        Err(ParseError::DataAfterBencode)
    }
}

proof fn lemma_view_entries_absent(s: Seq<(String, Node)>, k: Seq<char>)
    requires
        forall|j: int| 0 <= j < s.len() ==> s[j].0@ != k,
    ensures
        !view_entries(s).contains_key(k),
    decreases s.len(),
{
    if s.len() > 0 {
        lemma_view_entries_absent(s.drop_last(), k);
    }
}

proof fn lemma_view_entries_last(s: Seq<(String, Node)>, k: Seq<char>, i: int)
    requires
        0 <= i < s.len(),
        s[i].0@ == k,
        forall|j: int| i < j < s.len() ==> s[j].0@ != k,
    ensures
        view_entries(s).contains_key(k),
        view_entries(s)[k] == view_node(s[i].1),
    decreases s.len(),
{
    if i < s.len() - 1 {
        lemma_view_entries_last(s.drop_last(), k, i);
    }
}

impl Node {
    /// Every dictionary in this tree has pairwise distinct keys.
    pub open spec fn wf(&self) -> bool {
        wf_value(self.value)
    }

    /// The integer, if this is an integer.
    pub fn as_integer(&self) -> (r: Option<i64>)
        ensures
            r matches Some(i) ==> self@.value == SpecValue::Integer(i as int),
            r is None ==> !(self@.value is Integer),
    {
        if let Value::Integer(i) = self.value {
            Some(i)
        } else {
            None
        }
    }

    /// The payload, if this is a byte-string.
    pub fn as_byte_string(&self) -> (r: Option<&Vec<u8>>)
        ensures
            r matches Some(b) ==> self@.value == SpecValue::ByteString(b@),
            r is None ==> !(self@.value is ByteString),
    {
        if let Value::ByteString(bs) = &self.value {
            Some(bs)
        } else {
            None
        }
    }

    /// The payload read as text, if this is a byte-string holding UTF-8.
    pub fn as_str(&self) -> (r: Option<&str>)
        ensures
            r matches Some(t) ==> self@.value matches SpecValue::ByteString(b) && utf8_of(b)
                == Some(t@),
            r is None ==> !(self@.value matches SpecValue::ByteString(b) && utf8_of(b) is Some),
    {
        utf8_text(self.as_byte_string()?.as_slice())
    }

    /// The elements, if this is a list.
    pub fn as_list(&self) -> (r: Option<&Vec<Node>>)
        ensures
            r matches Some(l) ==> self@.value == SpecValue::List(view_nodes(l@)),
            r is None ==> !(self@.value is List),
    {
        if let Value::List(l) = &self.value {
            Some(l)
        } else {
            None
        }
    }

    /// The entries, if this is a dictionary.
    pub fn as_dictionary(&self) -> (r: Option<&Vec<(String, Node)>>)
        ensures
            r matches Some(d) ==> self@.value == SpecValue::Dictionary(view_entries(d@)),
            r is None ==> !(self@.value is Dictionary),
    {
        if let Value::Dictionary(d) = &self.value {
            Some(d)
        } else {
            None
        }
    }

    /// The node stored under `key`, if this is a dictionary that has that key.
    pub fn get(&self, key: &str) -> (r: Option<&Node>)
        ensures
            r matches Some(n) ==> self@.value matches SpecValue::Dictionary(m) && m.contains_key(
                key@,
            ) && m[key@] == n@,
            r is None ==> !(self@.value matches SpecValue::Dictionary(m) && m.contains_key(key@)),
    {
        let entries = match &self.value {
            Value::Dictionary(d) => d,
            _ => return None,
        };
        let wanted = key.to_owned();
        let mut i: usize = entries.len();
        while i > 0
            invariant
                i <= entries@.len(),
                wanted@ == key@,
                self@.value == SpecValue::Dictionary(view_entries(entries@)),
                forall|j: int| i <= j < entries@.len() ==> entries@[j].0@ != key@,
            decreases i,
        {
            i = i - 1;
            if entries[i].0 == wanted {
                proof {
                    lemma_view_entries_last(entries@, key@, i as int);
                }
                return Some(&entries[i].1);
            }
        }
        proof {
            lemma_view_entries_absent(entries@, key@);
        }
        None
    }
}

} // verus!
