//! A readable text form of a decoded tree.

use vstd::prelude::*;
use vstd::std_specs::vec::axiom_vec_index_decreases;
use crate::bencode::{Node, Value};
use vstd::string::StringExecFns;
use crate::text::{utf8_of, utf8_text, signed_decimal_of, signed_decimal};

verus! {

broadcast use axiom_vec_index_decreases;

/// The text form of a node: `Integer: ` and the number; a byte-string's text
/// in quotes, or a placeholder when it is not UTF-8; a list's elements in
/// brackets; a dictionary's entries as indented `key: value` lines in braces.
pub open spec fn render(n: Node) -> Seq<char>
    decreases n,
{
    match n.value {
        Value::Integer(i) => "Integer: "@ + signed_decimal_of(i as int),
        Value::ByteString(b) => match utf8_of(b@) {
            Some(t) => "\""@ + t + "\""@,
            None => "\"[non-utf8 byte string]\""@,
        },
        Value::List(l) => "["@ + render_list(l@) + "]"@,
        Value::Dictionary(d) => "{\n"@ + render_entries(d@) + " \n}"@,
    }
}

/// Rendered elements joined by `, `.
pub open spec fn render_list(s: Seq<Node>) -> Seq<char>
    decreases s,
{
    if s.len() == 0 {
        Seq::empty()
    } else if s.len() == 1 {
        render(s.last())
    } else {
        render_list(s.drop_last()) + ", "@ + render(s.last())
    }
}

/// Rendered entries, each a tab, the key, `: ` and the value, joined by `, `
/// and a line break.
pub open spec fn render_entries(s: Seq<(String, Node)>) -> Seq<char>
    decreases s,
{
    if s.len() == 0 {
        Seq::empty()
    } else if s.len() == 1 {
        "\t"@ + s.last().0@ + ": "@ + render(s.last().1)
    } else {
        render_entries(s.drop_last()) + ", \n"@ + ("\t"@ + s.last().0@ + ": "@ + render(
            s.last().1,
        ))
    }
}

impl Node {
    /// The text form of this node and everything below it.
    pub fn to_text(&self) -> (r: String)
        ensures
            r@ == render(*self),
        decreases self,
    {
        match &self.value {
            Value::Integer(i) => {
                let mut s = "Integer: ".to_owned();
                s.append(signed_decimal(*i).as_str());
                s
            },
            Value::ByteString(b) => match utf8_text(b.as_slice()) {
                Some(t) => {
                    let mut s = "\"".to_owned();
                    s.append(t);
                    s.append("\"");
                    s
                },
                None => "\"[non-utf8 byte string]\"".to_owned(),
            },
            Value::List(l) => {
                let mut s = "[".to_owned();
                let mut i: usize = 0;
                while i < l.len()
                    invariant
                        i <= l@.len(),
                        self.value == Value::List(*l),
                        s@ == "["@ + render_list(l@.subrange(0, i as int)),
                    decreases l@.len() - i,
                {
                    assert(l@.subrange(0, i + 1).drop_last() =~= l@.subrange(0, i as int));
                    if i > 0 {
                        s.append(", ");
                    }
                    proof {
                        assert(decreases_to!(*self => self.value->List_0));
                        assert(decreases_to!(*l => l@[i as int]));
                    }
                    let part = l[i].to_text();
                    s.append(part.as_str());
                    i = i + 1;
                }
                assert(l@.subrange(0, i as int) =~= l@);
                s.append("]");
                s
            },
            Value::Dictionary(d) => {
                let mut s = "{\n".to_owned();
                let mut i: usize = 0;
                while i < d.len()
                    invariant
                        i <= d@.len(),
                        self.value == Value::Dictionary(*d),
                        s@ == "{\n"@ + render_entries(d@.subrange(0, i as int)),
                    decreases d@.len() - i,
                {
                    assert(d@.subrange(0, i + 1).drop_last() =~= d@.subrange(0, i as int));
                    if i > 0 {
                        s.append(", \n");
                    }
                    s.append("\t");
                    s.append(d[i].0.as_str());
                    s.append(": ");
                    proof {
                        assert(decreases_to!(*self => self.value->Dictionary_0));
                        assert(decreases_to!(*d => d@[i as int]));
                        assert(decreases_to!(d@[i as int] => d@[i as int].1));
                    }
                    let part = d[i].1.to_text();
                    s.append(part.as_str());
                    i = i + 1;
                }
                assert(d@.subrange(0, i as int) =~= d@);
                s.append(" \n}");
                s
            },
        }
    }
}

} // verus!
