//! The document tree and the mathematical model of its flattening.
use vstd::prelude::*;

use crate::text::decimal;

verus! {

/// A parsed document: scalars, ordered arrays and objects whose members keep
/// the order in which the parser produced them.
#[derive(Debug)]
pub enum Value {
    Null,
    Bool(bool),
    /// A number, held as the canonical text that its parser gives it.
    Number(String),
    String(String),
    Array(Vec<Value>),
    Object(Vec<(String, Value)>),
}

/// A character that may stand in a path segment without quotes.
pub open spec fn is_key_char(c: char) -> bool {
    ('a' <= c && c <= 'z') || ('A' <= c && c <= 'Z') || ('0' <= c && c <= '9') || c == '_'
}

/// A key that is rendered verbatim.
pub open spec fn is_plain_key(k: Seq<char>) -> bool {
    k.len() > 0 && forall|i: int| 0 <= i < k.len() ==> is_key_char(#[trigger] k[i])
}

/// `k` with every `"` written as `\"`.
pub open spec fn quote_escaped(k: Seq<char>) -> Seq<char>
    decreases k.len(),
{
    if k.len() == 0 {
        seq![]
    } else if k.last() == '"' {
        quote_escaped(k.drop_last()) + seq!['\\', '"']
    } else {
        quote_escaped(k.drop_last()).push(k.last())
    }
}

/// `s` with every newline written as the two characters `\` `n`.
pub open spec fn newline_escaped(s: Seq<char>) -> Seq<char>
    decreases s.len(),
{
    if s.len() == 0 {
        seq![]
    } else if s.last() == '\n' {
        newline_escaped(s.drop_last()) + seq!['\\', 'n']
    } else {
        newline_escaped(s.drop_last()).push(s.last())
    }
}

/// How an object key appears as a path segment.
pub open spec fn escaped_key(k: Seq<char>) -> Seq<char> {
    if is_plain_key(k) {
        k
    } else {
        seq!['"'] + quote_escaped(k) + seq!['"']
    }
}

/// How a string value appears in a line.
pub open spec fn quoted_string(s: Seq<char>) -> Seq<char> {
    seq!['"'] + newline_escaped(s) + seq!['"']
}

/// The path of the member named `k` of the object at `path`.
pub open spec fn member_path(path: Seq<char>, k: Seq<char>) -> Seq<char> {
    if path.len() > 0 && path.last() == '.' {
        path + escaped_key(k)
    } else {
        path.push('.') + escaped_key(k)
    }
}

/// The path of element `i` of the array at `path`.
pub open spec fn element_path(path: Seq<char>, i: nat) -> Seq<char> {
    path.push('[') + decimal(i).push(']')
}

/// The leaves of `v` below `path`, in the order in which they are written:
/// each scalar and each empty container, with its path.
pub open spec fn leaves(path: Seq<char>, v: Value) -> Seq<(Seq<char>, Value)>
    decreases v, 1nat, 0nat,
{
    match v {
        Value::Object(m) => {
            if m@.len() > 0 {
                member_leaves(path, v, m@.len())
            } else {
                seq![(path, v)]
            }
        },
        Value::Array(a) => {
            if a@.len() > 0 {
                element_leaves(path, v, a@.len())
            } else {
                seq![(path, v)]
            }
        },
        _ => seq![(path, v)],
    }
}

/// The leaves of the first `n` members of the object `v`.
pub open spec fn member_leaves(path: Seq<char>, v: Value, n: nat) -> Seq<(Seq<char>, Value)>
    decreases v, 0nat, n,
{
    match v {
        Value::Object(m) => {
            if n == 0 || n > m@.len() {
                seq![]
            } else {
                let (k, c) = m@[n - 1];
                member_leaves(path, v, (n - 1) as nat) + leaves(member_path(path, k@), c)
            }
        },
        _ => seq![],
    }
}

/// The leaves of the first `n` elements of the array `v`.
pub open spec fn element_leaves(path: Seq<char>, v: Value, n: nat) -> Seq<(Seq<char>, Value)>
    decreases v, 0nat, n,
{
    match v {
        Value::Array(a) => {
            if n == 0 || n > a@.len() {
                seq![]
            } else {
                element_leaves(path, v, (n - 1) as nat) + leaves(
                    element_path(path, (n - 1) as nat),
                    a@[n - 1],
                )
            }
        },
        _ => seq![],
    }
}

/// The text that stands right of ` => ` for a leaf.
pub open spec fn value_text(v: Value) -> Seq<char> {
    match v {
        Value::Null => seq!['n', 'u', 'l', 'l'],
        Value::Bool(b) => if b { seq!['t', 'r', 'u', 'e'] } else { seq!['f', 'a', 'l', 's', 'e'] },
        Value::Number(n) => n@,
        Value::String(s) => quoted_string(s@),
        Value::Array(_) => seq!['[', ']'],
        Value::Object(_) => seq!['{', '}'],
    }
}

/// Every object in `v`, at any depth, holds each key at most once.
pub open spec fn has_distinct_keys(v: Value) -> bool
    decreases v,
{
    match v {
        Value::Object(m) => (forall|i: int, j: int|
            0 <= i < j < m@.len() ==> (#[trigger] m@[i]).0@ != (#[trigger] m@[j]).0@) && (forall|i: int|
            0 <= i < m@.len() ==> has_distinct_keys(#[trigger] m@[i].1)),
        Value::Array(a) => forall|i: int| 0 <= i < a@.len() ==> has_distinct_keys(#[trigger] a@[i]),
        _ => true,
    }
}

} // verus!
