//! Properties of the flattening and of the rendered lines, stated over the
//! model that the walker and the writer are proved against.
use vstd::prelude::*;

use crate::console::{leaf_line, reset_codes};
use crate::options::{color_enabled, CmdColor};
use crate::value::{
    element_leaves, element_path, escaped_key, is_plain_key, leaves, member_leaves, member_path,
    newline_escaped, quote_escaped, quoted_string, value_text, Value,
};
use crate::text::{decimal, lemma_decimal_injective};
use crate::value_writer::lines_text;

verus! {

/// `q` starts with `p`.
pub open spec fn extends(q: Seq<char>, p: Seq<char>) -> bool {
    p.len() <= q.len() && q.subrange(0, p.len() as int) == p
}

/// The number of lines written for the first `n` members of `m` below `path`.
pub open spec fn member_line_count(path: Seq<char>, m: Seq<(String, Value)>, n: nat) -> nat
    decreases n,
{
    if n == 0 || n > m.len() {
        0
    } else {
        member_line_count(path, m, (n - 1) as nat) + leaves(member_path(path, m[n - 1].0@), m[n - 1].1).len()
    }
}

proof fn lemma_extends_trans(r: Seq<char>, q: Seq<char>, p: Seq<char>)
    requires
        extends(r, q),
        extends(q, p),
    ensures
        extends(r, p),
{
    assert(r.subrange(0, p.len() as int) =~= q.subrange(0, p.len() as int));
}

proof fn lemma_member_path_extends(path: Seq<char>, k: Seq<char>)
    ensures
        extends(member_path(path, k), path),
        member_path(path, k).len() > path.len(),
{
    assert(escaped_key(k).len() > 0);
    assert(member_path(path, k).subrange(0, path.len() as int) =~= path);
}

proof fn lemma_element_path_extends(path: Seq<char>, i: nat)
    ensures
        extends(element_path(path, i), path),
        element_path(path, i).len() > path.len(),
{
    assert(element_path(path, i).subrange(0, path.len() as int) =~= path);
}

/// Every leaf below `path` has a path that starts with `path`.
proof fn lemma_leaf_paths(path: Seq<char>, v: Value)
    ensures
        forall|j: int|
            0 <= j < leaves(path, v).len() ==> extends(#[trigger] leaves(path, v)[j].0, path),
    decreases v, 1nat, 0nat,
{
    match v {
        Value::Object(m) => {
            if m@.len() > 0 {
                lemma_member_leaf_paths(path, v, m@.len());
                assert(leaves(path, v) == member_leaves(path, v, m@.len()));
            } else {
                assert(path.subrange(0, path.len() as int) =~= path);
            }
        },
        Value::Array(a) => {
            if a@.len() > 0 {
                lemma_element_leaf_paths(path, v, a@.len());
                assert(leaves(path, v) == element_leaves(path, v, a@.len()));
            } else {
                assert(path.subrange(0, path.len() as int) =~= path);
            }
        },
        _ => {
            assert(path.subrange(0, path.len() as int) =~= path);
        },
    }
}

/// Every leaf of the first `n` members has a path longer than `path` that
/// starts with it.
proof fn lemma_member_leaf_paths(path: Seq<char>, v: Value, n: nat)
    ensures
        forall|j: int|
            0 <= j < member_leaves(path, v, n).len() ==> extends(
                #[trigger] member_leaves(path, v, n)[j].0,
                path,
            ) && member_leaves(path, v, n)[j].0.len() > path.len(),
    decreases v, 0nat, n,
{
    match v {
        Value::Object(m) => {
            if n == 0 || n > m@.len() {
            } else {
                let (k, c) = m@[n - 1];
                let cp = member_path(path, k@);
                lemma_member_leaf_paths(path, v, (n - 1) as nat);
                lemma_leaf_paths(cp, c);
                lemma_member_path_extends(path, k@);
                let done = member_leaves(path, v, (n - 1) as nat);
                let more = leaves(cp, c);
                assert forall|j: int| 0 <= j < member_leaves(path, v, n).len() implies extends(
                    #[trigger] member_leaves(path, v, n)[j].0,
                    path,
                ) && member_leaves(path, v, n)[j].0.len() > path.len() by {
                    if j >= done.len() {
                        assert(member_leaves(path, v, n)[j] == more[j - done.len()]);
                        lemma_extends_trans(more[j - done.len()].0, cp, path);
                    } else {
                        assert(member_leaves(path, v, n)[j] == done[j]);
                    }
                }
            }
        },
        _ => {},
    }
}

/// Every leaf of the first `n` elements has a path longer than `path` that
/// starts with it.
proof fn lemma_element_leaf_paths(path: Seq<char>, v: Value, n: nat)
    ensures
        forall|j: int|
            0 <= j < element_leaves(path, v, n).len() ==> extends(
                #[trigger] element_leaves(path, v, n)[j].0,
                path,
            ) && element_leaves(path, v, n)[j].0.len() > path.len(),
    decreases v, 0nat, n,
{
    match v {
        Value::Array(a) => {
            if n == 0 || n > a@.len() {
            } else {
                let cp = element_path(path, (n - 1) as nat);
                let c = a@[n - 1];
                lemma_element_leaf_paths(path, v, (n - 1) as nat);
                lemma_leaf_paths(cp, c);
                lemma_element_path_extends(path, (n - 1) as nat);
                let done = element_leaves(path, v, (n - 1) as nat);
                let more = leaves(cp, c);
                assert forall|j: int| 0 <= j < element_leaves(path, v, n).len() implies extends(
                    #[trigger] element_leaves(path, v, n)[j].0,
                    path,
                ) && element_leaves(path, v, n)[j].0.len() > path.len() by {
                    if j >= done.len() {
                        assert(element_leaves(path, v, n)[j] == more[j - done.len()]);
                        lemma_extends_trans(more[j - done.len()].0, cp, path);
                    } else {
                        assert(element_leaves(path, v, n)[j] == done[j]);
                    }
                }
            }
        },
        _ => {},
    }
}

proof fn lemma_member_line_count(path: Seq<char>, v: Value, n: nat)
    requires
        v is Object,
    ensures
        member_leaves(path, v, n).len() == member_line_count(path, v->Object_0@, n),
    decreases n,
{
    if n > 0 {
        lemma_member_line_count(path, v, (n - 1) as nat);
    }
}

/// A scalar is written as exactly one line, at the path it was given.
pub proof fn lemma_scalar_is_one_line(path: Seq<char>, v: Value, ansi: bool)
    requires
        !(v is Object),
        !(v is Array),
    ensures
        leaves(path, v) == seq![(path, v)],
        lines_text(leaves(path, v), ansi) == leaf_line(path, v, ansi),
{
    let one = seq![(path, v)];
    assert(one.drop_last() =~= Seq::<(Seq<char>, Value)>::empty());
    assert(lines_text(one.drop_last(), ansi) =~= Seq::<char>::empty());
    assert(lines_text(one, ansi) =~= leaf_line(path, v, ansi));
}

/// A non-empty object is written as the lines of its members, one member
/// after another, and as nothing of its own: as many lines as its members
/// have together, each at a path below the object's.
pub proof fn lemma_object_is_its_members(path: Seq<char>, m: Vec<(String, Value)>)
    requires
        m@.len() > 0,
    ensures
        leaves(path, Value::Object(m)) == member_leaves(path, Value::Object(m), m@.len()),
        leaves(path, Value::Object(m)).len() == member_line_count(path, m@, m@.len()),
        forall|j: int|
            0 <= j < leaves(path, Value::Object(m)).len() ==> extends(
                #[trigger] leaves(path, Value::Object(m))[j].0,
                path,
            ) && leaves(path, Value::Object(m))[j].0.len() > path.len(),
{
    let v = Value::Object(m);
    lemma_member_line_count(path, v, m@.len());
    lemma_member_leaf_paths(path, v, m@.len());
}

/// An empty object or array is written as one line, `{}` or `[]`, at its own
/// path.
pub proof fn lemma_empty_container_is_one_line(path: Seq<char>, v: Value, ansi: bool)
    requires
        match v {
            Value::Object(m) => m@.len() == 0,
            Value::Array(a) => a@.len() == 0,
            _ => false,
        },
    ensures
        leaves(path, v) == seq![(path, v)],
        lines_text(leaves(path, v), ansi) == leaf_line(path, v, ansi),
        value_text(v) == (if v is Object {
            seq!['{', '}']
        } else {
            seq!['[', ']']
        }),
{
    let one = seq![(path, v)];
    assert(one.drop_last() =~= Seq::<(Seq<char>, Value)>::empty());
    assert(lines_text(one.drop_last(), ansi) =~= Seq::<char>::empty());
    assert(lines_text(one, ansi) =~= leaf_line(path, v, ansi));
}

/// Escaping quotes in a key works character by character.
pub proof fn lemma_quote_escaped_concat(a: Seq<char>, b: Seq<char>)
    ensures
        quote_escaped(a + b) == quote_escaped(a) + quote_escaped(b),
    decreases b.len(),
{
    if b.len() == 0 {
        assert(a + b =~= a);
        assert(quote_escaped(b) =~= Seq::<char>::empty());
        assert(quote_escaped(a) + quote_escaped(b) =~= quote_escaped(a));
    } else {
        assert((a + b).drop_last() =~= a + b.drop_last());
        assert((a + b).last() == b.last());
        lemma_quote_escaped_concat(a, b.drop_last());
        assert(quote_escaped(a + b) =~= quote_escaped(a) + quote_escaped(b));
    }
}

/// Escaping newlines in a string value works character by character.
pub proof fn lemma_newline_escaped_concat(a: Seq<char>, b: Seq<char>)
    ensures
        newline_escaped(a + b) == newline_escaped(a) + newline_escaped(b),
    decreases b.len(),
{
    if b.len() == 0 {
        assert(a + b =~= a);
        assert(newline_escaped(b) =~= Seq::<char>::empty());
        assert(newline_escaped(a) + newline_escaped(b) =~= newline_escaped(a));
    } else {
        assert((a + b).drop_last() =~= a + b.drop_last());
        assert((a + b).last() == b.last());
        lemma_newline_escaped_concat(a, b.drop_last());
        assert(newline_escaped(a + b) =~= newline_escaped(a) + newline_escaped(b));
    }
}

/// A key of ASCII letters, digits and underscores stands in a path as it is.
/// A key with any other character, such as a space, a bracket or a hyphen,
/// or an empty key, stands in double quotes; inside them a `"` of the key is
/// written `\"` and any other character as it is.
pub proof fn lemma_key_escaping(k: Seq<char>, c: char)
    ensures
        is_plain_key(k) ==> escaped_key(k) == k,
        !is_plain_key(k) ==> escaped_key(k) == seq!['"'] + quote_escaped(k) + seq!['"'],
        k.contains(' ') || k.contains('[') || k.contains(']') || k.contains('-') || k.contains('"')
            || k.len() == 0 ==> !is_plain_key(k),
        quote_escaped(seq!['"']) == seq!['\\', '"'],
        c != '"' ==> quote_escaped(seq![c]) == seq![c],
{
    assert(seq!['"'].drop_last() =~= Seq::<char>::empty());
    assert(seq![c].drop_last() =~= Seq::<char>::empty());
    assert(quote_escaped(Seq::<char>::empty()) =~= Seq::<char>::empty());
    assert(seq!['"'].last() == '"');
    assert(quote_escaped(seq!['"']) =~= seq!['\\', '"']);
    if c != '"' {
        assert(quote_escaped(seq![c]) =~= seq![c]);
    }
}

/// A string value is written in double quotes; a newline in it is written as
/// the two characters `\` `n`, any other character as it is.
pub proof fn lemma_string_rendering(s: String, c: char)
    ensures
        value_text(Value::String(s)) == seq!['"'] + newline_escaped(s@) + seq!['"'],
        newline_escaped(seq!['\n']) == seq!['\\', 'n'],
        c != '\n' ==> newline_escaped(seq![c]) == seq![c],
{
    assert(seq!['\n'].drop_last() =~= Seq::<char>::empty());
    assert(seq![c].drop_last() =~= Seq::<char>::empty());
    assert(newline_escaped(Seq::<char>::empty()) =~= Seq::<char>::empty());
    assert(seq!['\n'].last() == '\n');
    assert(newline_escaped(seq!['\n']) =~= seq!['\\', 'n']);
    if c != '\n' {
        assert(newline_escaped(seq![c]) =~= seq![c]);
    }
}

/// `Never` colors nothing, `Always` colors whatever the output is, and `Auto`
/// colors exactly when the output is a terminal. A plain line is the path,
/// ` => `, the value text and a newline, with no escape character beyond
/// those of its path and value; a colored line starts with an ANSI sequence.
pub proof fn lemma_color_modes(path: Seq<char>, v: Value, is_terminal: bool)
    ensures
        !color_enabled(CmdColor::Never, is_terminal),
        color_enabled(CmdColor::Always, is_terminal),
        color_enabled(CmdColor::Auto, is_terminal) == is_terminal,
        leaf_line(path, v, false) == path + seq![' ', '=', '>', ' '] + value_text(v).push('\n'),
        !path.contains('\x1b') && !value_text(v).contains('\x1b') ==> !leaf_line(
            path,
            v,
            false,
        ).contains('\x1b'),
        leaf_line(path, v, true).len() >= 4,
        leaf_line(path, v, true).subrange(0, 4) == reset_codes(),
{
    let plain = path + seq![' ', '=', '>', ' '] + value_text(v).push('\n');
    assert(leaf_line(path, v, false) =~= plain);
    if !path.contains('\x1b') && !value_text(v).contains('\x1b') {
        assert forall|i: int| 0 <= i < plain.len() implies plain[i] != '\x1b' by {
            if i < path.len() {
                assert(plain[i] == path[i]);
            } else if i < path.len() + 4 {
            } else if i < plain.len() - 1 {
                assert(plain[i] == value_text(v)[i - path.len() - 4]);
            }
        }
    }
    assert(leaf_line(path, v, true).subrange(0, 4) =~= reset_codes());
}

/// A key escaped for a path never has fewer characters than the key.
proof fn lemma_quote_escaped_len(k: Seq<char>)
    ensures
        quote_escaped(k).len() >= k.len(),
    decreases k.len(),
{
    if k.len() > 0 {
        lemma_quote_escaped_len(k.drop_last());
    }
}

/// Escaping quotes can be undone: different keys escape differently.
pub proof fn lemma_quote_escaped_injective(a: Seq<char>, b: Seq<char>)
    requires
        quote_escaped(a) == quote_escaped(b),
    ensures
        a == b,
    decreases a.len(),
{
    lemma_quote_escaped_len(a);
    lemma_quote_escaped_len(b);
    if a.len() == 0 || b.len() == 0 {
        if a.len() == 0 {
            assert(a =~= Seq::<char>::empty());
        }
        if b.len() == 0 {
            assert(b =~= Seq::<char>::empty());
        }
        assert(quote_escaped(Seq::<char>::empty()) =~= Seq::<char>::empty());
        assert(a =~= b);
    } else {
        let qa = quote_escaped(a);
        let ra = quote_escaped(a.drop_last());
        let rb = quote_escaped(b.drop_last());
        if a.last() == '"' && b.last() == '"' {
            assert(ra =~= qa.subrange(0, qa.len() - 2));
            assert(rb =~= qa.subrange(0, qa.len() - 2));
        } else if a.last() != '"' && b.last() != '"' {
            assert(ra =~= qa.drop_last());
            assert(rb =~= qa.drop_last());
            assert(qa.last() == a.last());
            assert(quote_escaped(b).last() == b.last());
        } else if a.last() == '"' {
            assert(qa.last() == '"');
            assert(quote_escaped(b).last() == b.last());
        } else {
            assert(quote_escaped(b).last() == '"');
            assert(qa.last() == a.last());
        }
        lemma_quote_escaped_injective(a.drop_last(), b.drop_last());
        assert(a =~= a.drop_last().push(a.last()));
        assert(b =~= b.drop_last().push(b.last()));
    }
}

/// Escaping keys for paths can be undone: different keys give different
/// path segments.
pub proof fn lemma_escaped_key_injective(a: Seq<char>, b: Seq<char>)
    requires
        escaped_key(a) == escaped_key(b),
    ensures
        a == b,
{
    if is_plain_key(a) && !is_plain_key(b) {
        assert(escaped_key(a)[0] == a[0]);
        assert(escaped_key(b)[0] == '"');
    } else if !is_plain_key(a) && is_plain_key(b) {
        assert(escaped_key(b)[0] == b[0]);
        assert(escaped_key(a)[0] == '"');
    } else if !is_plain_key(a) && !is_plain_key(b) {
        let e = escaped_key(a);
        assert(quote_escaped(a) =~= e.subrange(1, e.len() - 1));
        assert(quote_escaped(b) =~= e.subrange(1, e.len() - 1));
        lemma_quote_escaped_injective(a, b);
    }
}

/// Members with different keys stand at different paths.
pub proof fn lemma_member_paths_distinct(path: Seq<char>, a: Seq<char>, b: Seq<char>)
    requires
        a != b,
    ensures
        member_path(path, a) != member_path(path, b),
{
    let pre = if path.len() > 0 && path.last() == '.' { path } else { path.push('.') };
    if member_path(path, a) == member_path(path, b) {
        let m = member_path(path, a);
        assert(escaped_key(a) =~= m.subrange(pre.len() as int, m.len() as int));
        assert(escaped_key(b) =~= m.subrange(pre.len() as int, m.len() as int));
        lemma_escaped_key_injective(a, b);
    }
}

/// Elements with different indices stand at different paths.
pub proof fn lemma_element_paths_distinct(path: Seq<char>, i: nat, j: nat)
    requires
        i != j,
    ensures
        element_path(path, i) != element_path(path, j),
{
    if element_path(path, i) == element_path(path, j) {
        let m = element_path(path, i);
        assert(decimal(i) =~= m.subrange(path.len() as int + 1, m.len() as int - 1));
        assert(decimal(j) =~= m.subrange(path.len() as int + 1, m.len() as int - 1));
        lemma_decimal_injective(i, j);
    }
}

} // verus!
