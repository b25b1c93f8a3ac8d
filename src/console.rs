//! Renders one leaf as one line, plain or with ANSI colors, through termcolor.
use std::io::Write;
use termcolor::{Buffer, Color, ColorSpec, WriteColor};
use vstd::prelude::*;
use vstd::utf8::*;

use crate::error::Error;
use crate::text::lemma_encode_utf8_concat;
use crate::value::{quoted_string, value_text, Value};
use crate::value_writer::escape_str_value;

verus! {

#[verifier::external_type_specification]
#[verifier::external_body]
pub struct ExBuffer(termcolor::Buffer);

/// The bytes that a termcolor buffer holds.
pub uninterp spec fn buffer_bytes(b: termcolor::Buffer) -> Seq<u8>;

/// Whether a termcolor buffer writes ANSI escape sequences for colors.
pub uninterp spec fn buffer_is_ansi(b: termcolor::Buffer) -> bool;

/// The foreground colors that lines use.
#[derive(Clone, Copy, Debug, PartialEq, Eq)]
pub enum Hue {
    Black,
    Blue,
    Green,
}

/// A text style: an optional foreground color and boldness.
#[derive(Clone, Copy, Debug, PartialEq, Eq)]
pub struct Style {
    pub fg: Option<Hue>,
    pub bold: bool,
}

/// The digit that selects a hue in an ANSI foreground sequence.
pub open spec fn hue_digit(h: Hue) -> char {
    match h {
        Hue::Black => '0',
        Hue::Green => '2',
        Hue::Blue => '4',
    }
}

/// The sequence that resets all styling.
pub open spec fn reset_codes() -> Seq<char> {
    seq!['\x1b', '[', '0', 'm']
}

/// The sequences that termcolor writes to switch to `s`: a reset, bold if
/// asked for, then the foreground color.
pub open spec fn style_codes(s: Style) -> Seq<char> {
    reset_codes() + (if s.bold {
        seq!['\x1b', '[', '1', 'm']
    } else {
        seq![]
    }) + match s.fg {
        Some(h) => seq!['\x1b', '[', '3', hue_digit(h), 'm'],
        None => seq![],
    }
}

/// `t` wearing style `s`, which is reset after it; `t` alone without colors.
pub open spec fn styled(s: Style, t: Seq<char>, ansi: bool) -> Seq<char> {
    if ansi {
        style_codes(s) + t + reset_codes()
    } else {
        t
    }
}

pub open spec fn spec_key_style() -> Style {
    Style { fg: Some(Hue::Blue), bold: false }
}

pub open spec fn spec_string_style() -> Style {
    Style { fg: Some(Hue::Green), bold: false }
}

pub open spec fn spec_null_style() -> Style {
    Style { fg: Some(Hue::Black), bold: true }
}

pub open spec fn spec_raw_style() -> Style {
    Style { fg: None, bold: true }
}

/// One output line: the path, ` => `, the value text and a newline.
pub open spec fn line_text(path: Seq<char>, value: Seq<char>, style: Option<Style>, ansi: bool) -> Seq<
    char,
> {
    styled(spec_key_style(), path, ansi) + seq![' ', '=', '>', ' '] + match style {
        Some(s) => styled(s, value.push('\n'), ansi),
        None => value.push('\n'),
    }
}

/// The style of the value part of a leaf's line.
pub open spec fn value_style(v: Value) -> Option<Style> {
    match v {
        Value::String(_) => Some(spec_string_style()),
        Value::Null => Some(spec_null_style()),
        Value::Array(_) => Some(spec_raw_style()),
        Value::Object(_) => Some(spec_raw_style()),
        _ => None,
    }
}

/// The line written for the leaf `v` at `path`.
pub open spec fn leaf_line(path: Seq<char>, v: Value, ansi: bool) -> Seq<char> {
    line_text(path, crate::value::value_text(v), value_style(v), ansi)
}

/// Relies on termcolor's `Buffer::ansi`: an empty buffer that writes colors
/// as ANSI escape sequences.
#[verifier::external_body]
fn ansi_buffer() -> (r: Buffer)
    ensures
        buffer_bytes(r) == Seq::<u8>::empty(),
        buffer_is_ansi(r),
{
    Buffer::ansi()
}

/// Relies on termcolor's `Buffer::no_color`: an empty buffer that drops all
/// color directives.
#[verifier::external_body]
fn plain_buffer() -> (r: Buffer)
    ensures
        buffer_bytes(r) == Seq::<u8>::empty(),
        !buffer_is_ansi(r),
{
    Buffer::no_color()
}

/// Relies on termcolor's `WriteColor::set_color` for `Buffer`: an ANSI buffer
/// appends a reset, `ESC[1m` when bold, then `ESC[3<n>m` for the foreground;
/// a plain buffer appends nothing. Writing to memory cannot fail.
#[verifier::external_body]
fn buffer_set_style(b: &mut Buffer, s: Style) -> (r: std::io::Result<()>)
    ensures
        r is Ok,
        buffer_is_ansi(*final(b)) == buffer_is_ansi(*old(b)),
        buffer_bytes(*final(b)) == buffer_bytes(*old(b)) + (if buffer_is_ansi(*old(b)) {
            encode_utf8(style_codes(s))
        } else {
            Seq::<u8>::empty()
        }),
{
    let mut spec = ColorSpec::new();
    spec.set_bold(s.bold);
    match s.fg {
        Some(Hue::Black) => spec.set_fg(Some(Color::Black)),
        Some(Hue::Blue) => spec.set_fg(Some(Color::Blue)),
        Some(Hue::Green) => spec.set_fg(Some(Color::Green)),
        None => spec.set_fg(None),
    };
    b.set_color(&spec)
}

/// Relies on termcolor's `WriteColor::reset` for `Buffer`: an ANSI buffer
/// appends `ESC[0m`, a plain one nothing.
#[verifier::external_body]
fn buffer_reset(b: &mut Buffer) -> (r: std::io::Result<()>)
    ensures
        r is Ok,
        buffer_is_ansi(*final(b)) == buffer_is_ansi(*old(b)),
        buffer_bytes(*final(b)) == buffer_bytes(*old(b)) + (if buffer_is_ansi(*old(b)) {
            encode_utf8(reset_codes())
        } else {
            Seq::<u8>::empty()
        }),
{
    b.reset()
}

/// Relies on `io::Write::write_all` for termcolor's `Buffer`: appends the
/// UTF-8 bytes of `s` to the buffer's vector.
#[verifier::external_body]
fn buffer_write(b: &mut Buffer, s: &str) -> (r: std::io::Result<()>)
    ensures
        r is Ok,
        buffer_is_ansi(*final(b)) == buffer_is_ansi(*old(b)),
        buffer_bytes(*final(b)) == buffer_bytes(*old(b)) + encode_utf8(s@),
{
    b.write_all(s.as_bytes())
}

/// Relies on termcolor's `WriteColor::supports_color` for `Buffer`: true
/// exactly for an ANSI buffer.
#[verifier::external_body]
fn buffer_supports_color(b: &Buffer) -> (r: bool)
    ensures
        r == buffer_is_ansi(*b),
{
    b.supports_color()
}

/// Relies on termcolor's `Buffer::as_slice`: the bytes held.
#[verifier::external_body]
fn buffer_slice(b: &Buffer) -> (r: &[u8])
    ensures
        r@ == buffer_bytes(*b),
{
    b.as_slice()
}

/// Relies on termcolor's `Buffer::clear`: empties the buffer, keeping its kind.
#[verifier::external_body]
fn buffer_clear(b: &mut Buffer)
    ensures
        buffer_is_ansi(*final(b)) == buffer_is_ansi(*old(b)),
        buffer_bytes(*final(b)) == Seq::<u8>::empty(),
{
    b.clear()
}

/// Relies on `std::str::from_utf8`: succeeds exactly on valid UTF-8 and then
/// holds the characters that the bytes encode.
#[verifier::external_body]
fn decode_utf8_text(bytes: &[u8]) -> (r: Result<&str, std::str::Utf8Error>)
    ensures
        match r {
            Ok(s) => encode_utf8(s@) == bytes@,
            Err(_) => !valid_utf8(bytes@),
        },
{
    std::str::from_utf8(bytes)
}

pub fn key_style() -> (r: Style)
    ensures
        r == spec_key_style(),
{
    Style { fg: Some(Hue::Blue), bold: false }
}

pub fn string_style() -> (r: Style)
    ensures
        r == spec_string_style(),
{
    Style { fg: Some(Hue::Green), bold: false }
}

pub fn null_style() -> (r: Style)
    ensures
        r == spec_null_style(),
{
    Style { fg: Some(Hue::Black), bold: true }
}

pub fn raw_style() -> (r: Style)
    ensures
        r == spec_raw_style(),
{
    Style { fg: None, bold: true }
}

/// `bytes` grows by the encoding of `piece` to the encoding of `t + piece`.
proof fn lemma_extend(before: Seq<u8>, after: Seq<u8>, t: Seq<char>, piece: Seq<char>)
    requires
        before == encode_utf8(t),
        after == before + encode_utf8(piece),
    ensures
        after == encode_utf8(t + piece),
{
    lemma_encode_utf8_concat(t, piece);
}

/// Either `codes` or nothing, as a colored or a plain buffer writes them.
pub open spec fn codes_if(ansi: bool, codes: Seq<char>) -> Seq<char> {
    if ansi {
        codes
    } else {
        seq![]
    }
}

/// Writes each leaf as one line into an output that it owns: the path in
/// blue, ` => `, then the value in a style of its kind. A scratch buffer
/// decides whether colors are written.
pub struct ConsoleWriter {
    output: Vec<u8>,
    buffer: Buffer,
}

impl ConsoleWriter {
    /// The scratch buffer is empty between lines.
    pub closed spec fn wf(&self) -> bool {
        buffer_bytes(self.buffer) == Seq::<u8>::empty()
    }

    /// Whether lines carry ANSI colors.
    pub closed spec fn is_ansi(&self) -> bool {
        buffer_is_ansi(self.buffer)
    }

    /// The bytes written so far.
    pub closed spec fn written(&self) -> Seq<u8> {
        self.output@
    }

    /// A writer with nothing written, colored or plain.
    pub fn new(colored: bool) -> (r: ConsoleWriter)
        ensures
            r.wf(),
            r.is_ansi() == colored,
            r.written() == Seq::<u8>::empty(),
    {
        let buffer = if colored {
            ansi_buffer()
        } else {
            plain_buffer()
        };
        ConsoleWriter { output: Vec::new(), buffer }
    }

    /// Whether lines carry ANSI colors.
    pub fn colored(&self) -> (r: bool)
        ensures
            r == self.is_ansi(),
    {
        buffer_supports_color(&self.buffer)
    }

    /// The bytes written so far.
    pub fn output(&self) -> (r: &Vec<u8>)
        ensures
            r@ == self.written(),
    {
        &self.output
    }

    /// Hands over the bytes written.
    pub fn into_output(self) -> (r: Vec<u8>)
        ensures
            r@ == self.written(),
    {
        self.output
    }

    /// Writes `path => value` and a newline, the path in the key style and the
    /// value in `style` when one is given.
    pub fn write_value(&mut self, path: &str, value: &str, style: Option<Style>) -> (r: Result<
        (),
        Error,
    >)
        requires
            old(self).wf(),
        ensures
            r is Ok,
            final(self).wf(),
            final(self).is_ansi() == old(self).is_ansi(),
            final(self).written() == old(self).written() + encode_utf8(
                line_text(path@, value@, style, old(self).is_ansi()),
            ),
    {
        let ghost ansi = buffer_is_ansi(self.buffer);
        let ghost mut t: Seq<char> = seq![];
        proof {
            assert(encode_utf8(t) =~= Seq::<u8>::empty());
            assert(encode_utf8(seq![]) =~= Seq::<u8>::empty());
        }
        let ghost b0 = buffer_bytes(self.buffer);
        buffer_set_style(&mut self.buffer, key_style())?;
        proof {
            lemma_extend(b0, buffer_bytes(self.buffer), t, codes_if(ansi, style_codes(spec_key_style())));
            t = t + codes_if(ansi, style_codes(spec_key_style()));
        }
        let ghost b1 = buffer_bytes(self.buffer);
        buffer_write(&mut self.buffer, path)?;
        proof {
            lemma_extend(b1, buffer_bytes(self.buffer), t, path@);
            t = t + path@;
        }
        let ghost b2 = buffer_bytes(self.buffer);
        buffer_reset(&mut self.buffer)?;
        proof {
            lemma_extend(b2, buffer_bytes(self.buffer), t, codes_if(ansi, reset_codes()));
            t = t + codes_if(ansi, reset_codes());
        }
        let ghost b3 = buffer_bytes(self.buffer);
        let arrow = " => ";
        proof {
            reveal_strlit(" => ");
        }
        buffer_write(&mut self.buffer, arrow)?;
        proof {
            lemma_extend(b3, buffer_bytes(self.buffer), t, arrow@);
            t = t + arrow@;
        }
        let ghost head = t;
        let newline = "\n";
        proof {
            reveal_strlit("\n");
        }
        match style {
            Some(s) => {
                let ghost c0 = buffer_bytes(self.buffer);
                buffer_set_style(&mut self.buffer, s)?;
                proof {
                    lemma_extend(c0, buffer_bytes(self.buffer), t, codes_if(ansi, style_codes(s)));
                    t = t + codes_if(ansi, style_codes(s));
                }
                let ghost c1 = buffer_bytes(self.buffer);
                buffer_write(&mut self.buffer, value)?;
                proof {
                    lemma_extend(c1, buffer_bytes(self.buffer), t, value@);
                    t = t + value@;
                }
                let ghost c2 = buffer_bytes(self.buffer);
                buffer_write(&mut self.buffer, newline)?;
                proof {
                    lemma_extend(c2, buffer_bytes(self.buffer), t, newline@);
                    t = t + newline@;
                }
                let ghost c3 = buffer_bytes(self.buffer);
                buffer_reset(&mut self.buffer)?;
                proof {
                    lemma_extend(c3, buffer_bytes(self.buffer), t, codes_if(ansi, reset_codes()));
                    t = t + codes_if(ansi, reset_codes());
                    assert(t =~= head + styled(s, value@.push('\n'), ansi));
                }
            },
            None => {
                let ghost c1 = buffer_bytes(self.buffer);
                buffer_write(&mut self.buffer, value)?;
                proof {
                    lemma_extend(c1, buffer_bytes(self.buffer), t, value@);
                    t = t + value@;
                }
                let ghost c2 = buffer_bytes(self.buffer);
                buffer_write(&mut self.buffer, newline)?;
                proof {
                    lemma_extend(c2, buffer_bytes(self.buffer), t, newline@);
                    t = t + newline@;
                    assert(t =~= head + value@.push('\n'));
                }
            },
        }
        proof {
            assert(head =~= styled(spec_key_style(), path@, ansi) + seq![' ', '=', '>', ' ']);
            assert(t =~= line_text(path@, value@, style, ansi));
            encode_utf8_valid_utf8(t);
        }
        let bytes = buffer_slice(&self.buffer);
        let text = decode_utf8_text(bytes)?;
        self.output.extend_from_slice(text.as_bytes());
        proof {
            assert(self.output@ =~= old(self).output@ + encode_utf8(t));
        }
        buffer_clear(&mut self.buffer);
        Ok(())
    }

    /// Writes a string leaf: the value in double quotes, newlines escaped.
    pub fn write_string(&mut self, path: &str, value: &str) -> (r: Result<(), Error>)
        requires
            old(self).wf(),
        ensures
            r is Ok,
            final(self).wf(),
            final(self).is_ansi() == old(self).is_ansi(),
            final(self).written() == old(self).written() + encode_utf8(
                line_text(path@, quoted_string(value@), Some(spec_string_style()), old(self).is_ansi()),
            ),
    {
        let text = escape_str_value(value);
        self.write_value(path, text.as_str(), Some(string_style()))
    }

    /// Writes a number leaf by its canonical text, unstyled.
    pub fn write_number(&mut self, path: &str, value: &str) -> (r: Result<(), Error>)
        requires
            old(self).wf(),
        ensures
            r is Ok,
            final(self).wf(),
            final(self).is_ansi() == old(self).is_ansi(),
            final(self).written() == old(self).written() + encode_utf8(
                line_text(path@, value@, None, old(self).is_ansi()),
            ),
    {
        self.write_value(path, value, None)
    }

    /// Writes a boolean leaf as `true` or `false`, unstyled.
    pub fn write_bool(&mut self, path: &str, value: bool) -> (r: Result<(), Error>)
        requires
            old(self).wf(),
        ensures
            r is Ok,
            final(self).wf(),
            final(self).is_ansi() == old(self).is_ansi(),
            final(self).written() == old(self).written() + encode_utf8(
                line_text(path@, value_text(Value::Bool(value)), None, old(self).is_ansi()),
            ),
    {
        let text = if value {
            proof {
                reveal_strlit("true");
            }
            "true"
        } else {
            proof {
                reveal_strlit("false");
            }
            "false"
        };
        proof {
            assert(text@ =~= value_text(Value::Bool(value)));
        }
        self.write_value(path, text, None)
    }

    /// Writes a null leaf as `null`.
    pub fn write_null(&mut self, path: &str) -> (r: Result<(), Error>)
        requires
            old(self).wf(),
        ensures
            r is Ok,
            final(self).wf(),
            final(self).is_ansi() == old(self).is_ansi(),
            final(self).written() == old(self).written() + encode_utf8(
                line_text(path@, value_text(Value::Null), Some(spec_null_style()), old(self).is_ansi()),
            ),
    {
        let text = "null";
        proof {
            reveal_strlit("null");
            assert(text@ =~= value_text(Value::Null));
        }
        self.write_value(path, text, Some(null_style()))
    }

    /// Writes pre-formatted text, such as an empty container's marker, as it is.
    pub fn write_raw(&mut self, path: &str, value: &str) -> (r: Result<(), Error>)
        requires
            old(self).wf(),
        ensures
            r is Ok,
            final(self).wf(),
            final(self).is_ansi() == old(self).is_ansi(),
            final(self).written() == old(self).written() + encode_utf8(
                line_text(path@, value@, Some(spec_raw_style()), old(self).is_ansi()),
            ),
    {
        self.write_value(path, value, Some(raw_style()))
    }
}

} // verus!
