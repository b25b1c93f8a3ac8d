//! Walks a value tree and writes one line per leaf.
use vstd::prelude::*;
use vstd::string::StringExecFns;
use vstd::utf8::*;

use crate::console::{leaf_line, line_text, spec_string_style, ConsoleWriter};
use crate::error::Error;
use crate::laws::{lemma_empty_container_is_one_line, lemma_scalar_is_one_line};
use crate::options::{color_enabled, use_color, CmdColor};
use crate::text::{index_text, lemma_encode_utf8_concat, push_char};
use crate::value::{
    element_leaves, element_path, escaped_key, is_key_char, is_plain_key, leaves, member_leaves,
    member_path, newline_escaped, quote_escaped, quoted_string, Value,
};

verus! {

/// Whether `c` may stand in a path segment without quotes.
pub fn is_key_char_exec(c: char) -> (r: bool)
    ensures
        r == is_key_char(c),
{
    ('a' <= c && c <= 'z') || ('A' <= c && c <= 'Z') || ('0' <= c && c <= '9') || c == '_'
}

/// The value in double quotes, each newline written as `\` `n`.
pub fn escape_str_value(value: &str) -> (r: String)
    ensures
        r@ == quoted_string(value@),
{
    let mut out = String::new();
    push_char(&mut out, '"');
    let ghost s = value@;
    for c in it: value.chars()
        invariant
            it.seq() == s,
            out@ == seq!['"'] + newline_escaped(s.take(it.index() as int)),
    {
        let ghost i = it.index() as int;
        if c == '\n' {
            push_char(&mut out, '\\');
            push_char(&mut out, 'n');
        } else {
            push_char(&mut out, c);
        }
        proof {
            assert(s.take(i + 1).drop_last() =~= s.take(i));
            assert(s.take(i + 1).last() == c);
            assert(out@ =~= seq!['"'] + newline_escaped(s.take(i + 1)));
        }
    }
    push_char(&mut out, '"');
    proof {
        assert(s.take(s.len() as int) =~= s);
        assert(out@ =~= quoted_string(s));
    }
    out
}

/// Whether every character of `k` may stand unquoted, and `k` is not empty.
fn is_plain_key_exec(k: &str) -> (r: bool)
    ensures
        r == is_plain_key(k@),
{
    let ghost s = k@;
    let mut all = true;
    let mut any = false;
    for c in it: k.chars()
        invariant
            it.seq() == s,
            any == (it.index() > 0),
            all == (forall|j: int| 0 <= j < it.index() ==> is_key_char(#[trigger] s[j])),
    {
        let ghost i = it.index() as int;
        proof {
            assert(s[i] == c);
        }
        any = true;
        all = all && is_key_char_exec(c);
        proof {
            if all {
                assert forall|j: int| 0 <= j < i + 1 implies is_key_char(#[trigger] s[j]) by {
                    if j < i {
                    } else {
                        assert(s[j] == c);
                    }
                }
            } else {
                if is_key_char(c) {
                    let j = choose|j: int| 0 <= j < i && !is_key_char(#[trigger] s[j]);
                    assert(!is_key_char(s[j]));
                } else {
                    assert(!is_key_char(s[i]));
                }
            }
        }
    }
    any && all
}

/// A key as a path segment: verbatim when it is a non-empty run of ASCII
/// letters, digits and underscores; otherwise in double quotes, with each
/// `"` in it written as `\"`.
pub fn escape_path_element(p: String) -> (r: String)
    ensures
        r@ == escaped_key(p@),
{
    if is_plain_key_exec(p.as_str()) {
        return p;
    }
    let mut out = String::new();
    push_char(&mut out, '"');
    let ghost s = p@;
    for c in it: p.as_str().chars()
        invariant
            it.seq() == s,
            out@ == seq!['"'] + quote_escaped(s.take(it.index() as int)),
    {
        let ghost i = it.index() as int;
        if c == '"' {
            push_char(&mut out, '\\');
            push_char(&mut out, '"');
        } else {
            push_char(&mut out, c);
        }
        proof {
            assert(s.take(i + 1).drop_last() =~= s.take(i));
            assert(s.take(i + 1).last() == c);
            assert(out@ =~= seq!['"'] + quote_escaped(s.take(i + 1)));
        }
    }
    push_char(&mut out, '"');
    proof {
        assert(s.take(s.len() as int) =~= s);
        assert(out@ =~= escaped_key(s));
    }
    out
}

/// The lines of a sequence of leaves, one after another.
pub open spec fn lines_text(ls: Seq<(Seq<char>, Value)>, ansi: bool) -> Seq<char>
    decreases ls.len(),
{
    if ls.len() == 0 {
        seq![]
    } else {
        lines_text(ls.drop_last(), ansi) + leaf_line(ls.last().0, ls.last().1, ansi)
    }
}

/// The lines of two runs of leaves are the lines of each, in turn.
pub proof fn lemma_lines_text_concat(a: Seq<(Seq<char>, Value)>, b: Seq<(Seq<char>, Value)>, ansi: bool)
    ensures
        lines_text(a + b, ansi) == lines_text(a, ansi) + lines_text(b, ansi),
    decreases b.len(),
{
    if b.len() == 0 {
        assert(a + b =~= a);
        assert(lines_text(a, ansi) + lines_text(b, ansi) =~= lines_text(a, ansi));
    } else {
        assert((a + b).drop_last() =~= a + b.drop_last());
        assert((a + b).last() == b.last());
        lemma_lines_text_concat(a, b.drop_last(), ansi);
        assert(lines_text(a + b, ansi) =~= lines_text(a, ansi) + lines_text(b, ansi));
    }
}

/// Whether `path` ends with a dot, as the root path does.
fn ends_with_dot(path: &str) -> (r: bool)
    ensures
        r == (path@.len() > 0 && path@.last() == '.'),
{
    let n = path.unicode_len();
    n > 0 && path.get_char(n - 1) == '.'
}

/// Writes the leaves of `value` below `path` through `writer`, depth first
/// and in order: members and elements in the order they are held, one line
/// for each scalar and one `{}` or `[]` line for each empty container.
pub fn print_value(path: &str, value: &Value, writer: &mut ConsoleWriter) -> (r: Result<(), Error>)
    requires
        old(writer).wf(),
    ensures
        r is Ok,
        final(writer).wf(),
        final(writer).is_ansi() == old(writer).is_ansi(),
        final(writer).written() == old(writer).written() + encode_utf8(
            lines_text(leaves(path@, *value), old(writer).is_ansi()),
        ),
    decreases value,
{
    let ghost ansi = writer.is_ansi();
    let ghost start = writer.written();
    proof {
        if !(*value is Object) && !(*value is Array) {
            lemma_scalar_is_one_line(path@, *value, ansi);
        }
    }
    match value {
        Value::Object(o) => {
            if o.len() > 0 {
                let mut prefix = path.to_owned();
                if !ends_with_dot(path) {
                    push_char(&mut prefix, '.');
                }
                let mut i: usize = 0;
                proof {
                    assert(lines_text(member_leaves(path@, *value, 0), ansi) =~= Seq::<char>::empty());
                    assert(writer.written() =~= start + encode_utf8(Seq::<char>::empty()));
                }
                while i < o.len()
                    invariant
                        writer.wf(),
                        writer.is_ansi() == ansi,
                        i <= o@.len(),
                        prefix@ == (if path@.len() > 0 && path@.last() == '.' {
                            path@
                        } else {
                            path@.push('.')
                        }),
                        *value == Value::Object(*o),
                        writer.written() == start + encode_utf8(
                            lines_text(member_leaves(path@, *value, i as nat), ansi),
                        ),
                    decreases o@.len() - i,
                {
                    let key = o[i].0.clone();
                    let child = &o[i].1;
                    let mut child_path = prefix.clone();
                    let escaped = escape_path_element(key);
                    child_path.append(escaped.as_str());
                    let ghost before = writer.written();
                    print_value(child_path.as_str(), child, writer)?;
                    proof {
                        let done = member_leaves(path@, *value, i as nat);
                        let more = leaves(member_path(path@, o@[i as int].0@), o@[i as int].1);
                        assert(child_path@ =~= member_path(path@, o@[i as int].0@));
                        assert(member_leaves(path@, *value, (i + 1) as nat) == done + more);
                        lemma_lines_text_concat(done, more, ansi);
                        lemma_encode_utf8_concat(lines_text(done, ansi), lines_text(more, ansi));
                        assert(writer.written() =~= start + encode_utf8(
                            lines_text(member_leaves(path@, *value, (i + 1) as nat), ansi),
                        ));
                    }
                    i = i + 1;
                }
                proof {
                    assert(leaves(path@, *value) == member_leaves(path@, *value, o@.len()));
                }
                Ok(())
            } else {
                let marker = "{}";
                proof {
                    reveal_strlit("{}");
                    assert(marker@ =~= seq!['{', '}']);
                    lemma_empty_container_is_one_line(path@, *value, ansi);
                }
                writer.write_raw(path, marker)
            }
        },
        Value::Array(a) => {
            if a.len() > 0 {
                let mut i: usize = 0;
                proof {
                    assert(lines_text(element_leaves(path@, *value, 0), ansi) =~= Seq::<char>::empty());
                    assert(writer.written() =~= start + encode_utf8(Seq::<char>::empty()));
                }
                while i < a.len()
                    invariant
                        writer.wf(),
                        writer.is_ansi() == ansi,
                        i <= a@.len(),
                        *value == Value::Array(*a),
                        writer.written() == start + encode_utf8(
                            lines_text(element_leaves(path@, *value, i as nat), ansi),
                        ),
                    decreases a@.len() - i,
                {
                    let mut child_path = path.to_owned();
                    push_char(&mut child_path, '[');
                    let index = index_text(i);
                    child_path.append(index.as_str());
                    push_char(&mut child_path, ']');
                    print_value(child_path.as_str(), &a[i], writer)?;
                    proof {
                        let done = element_leaves(path@, *value, i as nat);
                        let more = leaves(element_path(path@, i as nat), a@[i as int]);
                        assert(child_path@ =~= element_path(path@, i as nat));
                        assert(element_leaves(path@, *value, (i + 1) as nat) == done + more);
                        lemma_lines_text_concat(done, more, ansi);
                        lemma_encode_utf8_concat(lines_text(done, ansi), lines_text(more, ansi));
                        assert(writer.written() =~= start + encode_utf8(
                            lines_text(element_leaves(path@, *value, (i + 1) as nat), ansi),
                        ));
                    }
                    i = i + 1;
                }
                proof {
                    assert(leaves(path@, *value) == element_leaves(path@, *value, a@.len()));
                }
                Ok(())
            } else {
                let marker = "[]";
                proof {
                    reveal_strlit("[]");
                    assert(marker@ =~= seq!['[', ']']);
                    lemma_empty_container_is_one_line(path@, *value, ansi);
                }
                writer.write_raw(path, marker)
            }
        },
        Value::String(s) => {
            proof {
                assert(leaf_line(path@, *value, ansi) == line_text(
                    path@,
                    quoted_string(s@),
                    Some(spec_string_style()),
                    ansi,
                ));
            }
            writer.write_string(path, s.as_str())
        },
        Value::Number(n) => {
            proof {
                assert(leaf_line(path@, *value, ansi) == line_text(path@, n@, None, ansi));
            }
            writer.write_number(path, n.as_str())
        },
        Value::Bool(b) => writer.write_bool(path, *b),
        Value::Null => writer.write_null(path),
    }
}

/// Relies on `atty::is` for standard output: whether it is a terminal. This
/// depends on how the process was started, so nothing is promised of it.
#[verifier::external_body]
fn stdout_is_terminal() -> (r: bool) {
    atty::is(atty::Stream::Stdout)
}

/// A writer with nothing written, colored as `color` asks for an output that
/// is, or is not, a terminal.
pub fn writer_for(color: CmdColor, is_terminal: bool) -> (r: ConsoleWriter)
    ensures
        r.wf(),
        r.written() == Seq::<u8>::empty(),
        r.is_ansi() == color_enabled(color, is_terminal),
{
    ConsoleWriter::new(use_color(color, is_terminal))
}

/// A writer for standard output with nothing written: colored when `color`
/// is `Always`, plain when it is `Never`, and for `Auto` colored exactly when
/// standard output is a terminal.
pub fn get_writer(color: CmdColor) -> (r: ConsoleWriter)
    ensures
        r.wf(),
        r.written() == Seq::<u8>::empty(),
        color == CmdColor::Always ==> r.is_ansi(),
        color == CmdColor::Never ==> !r.is_ansi(),
{
    let is_terminal = stdout_is_terminal();
    writer_for(color, is_terminal)
}

} // verus!
