//! The conversion of a JSON5 text to JSON text.

use vstd::prelude::*;
use vstd::string::StringSliceAdditionalSpecFns;
use vstd::utf8::{
    decode_utf8, encode_utf8, encode_utf8_valid_utf8, is_ascii_chars, is_ascii_chars_encode_utf8,
    valid_utf8,
};
use serde::Serialize;
use serde_json::Value;
use std::string::FromUtf8Error;
use crate::indent::{detect_indent, spec_detect_indent, IndentOption, SPACE};
use crate::json::{json5_tree, json_tree, parse_json5, JsonTree};
use crate::sort::{is_key_sorted, lemma_sort_tree_of_sorted, sort_tree, sort_value};

verus! {

#[verifier::external_type_specification]
#[verifier::external_body]
pub struct ExSerdeJsonError(serde_json::Error);

#[verifier::external_type_specification]
#[verifier::external_body]
pub struct ExFromUtf8Error(FromUtf8Error);

/// Why a conversion failed.
#[derive(Debug)]
pub enum ConvertError {
    /// The input is not JSON5.
    Json5(json5::Error),
    /// The document could not be written as JSON.
    Json(serde_json::Error),
    /// The JSON written is not UTF-8.
    Utf8(FromUtf8Error),
}

/// The compact JSON text that `serde_json::to_string` writes for a tree.
pub uninterp spec fn compact_json(t: JsonTree) -> Seq<char>;

/// `serde_json::to_string` on a value. Writing a `Value` into a `Vec` never
/// fails (its map keys are strings, and the writer cannot fail), and the text
/// depends on the value's tree alone: it is named `compact_json`.
#[verifier::external_body]
fn compact_text(value: &Value) -> (res: Result<String, serde_json::Error>)
    ensures
        match res {
            Ok(text) => text@ == compact_json(json_tree(*value)),
            Err(_) => false,
        },
{
    serde_json::to_string(value)
}

/// The bytes that `serde_json` writes for a tree with a
/// `PrettyFormatter::with_indent(indent)`.
pub uninterp spec fn pretty_json(t: JsonTree, indent: Seq<u8>) -> Seq<u8>;

/// Serializes a value into a `Vec<u8>` with a `serde_json::Serializer` made
/// by `Serializer::with_formatter` and `PrettyFormatter::with_indent(indent)`,
/// and returns the bytes (`Serializer::into_inner`). Writing a `Value` into a
/// `Vec` never fails, and the bytes depend on the value's tree and the indent
/// alone: they are named `pretty_json`. They are UTF-8 when the indent is:
/// the serializer writes only UTF-8 of its own and copies the indent.
#[verifier::external_body]
fn pretty_bytes(value: &Value, indent: &[u8]) -> (res: Result<Vec<u8>, serde_json::Error>)
    ensures
        match res {
            Ok(bytes) => bytes@ == pretty_json(json_tree(*value), indent@)
                && (valid_utf8(indent@) ==> valid_utf8(bytes@)),
            Err(_) => false,
        },
{
    let formatter = serde_json::ser::PrettyFormatter::with_indent(indent);
    let mut serializer = serde_json::Serializer::with_formatter(Vec::new(), formatter);
    value.serialize(&mut serializer)?;
    Ok(serializer.into_inner())
}

/// `String::from_utf8`: the text that the bytes encode, when they are UTF-8.
#[verifier::external_body]
fn utf8_text(bytes: Vec<u8>) -> (res: Result<String, FromUtf8Error>)
    ensures
        match res {
            Ok(text) => valid_utf8(bytes@) && text@ == decode_utf8(bytes@),
            Err(_) => !valid_utf8(bytes@),
        },
{
    String::from_utf8(bytes)
}

/// `n` spaces.
pub open spec fn spaces(n: nat) -> Seq<u8> {
    Seq::new(n, |i: int| SPACE)
}

/// The indentation that an option asks for, for a given input (its bytes).
pub open spec fn chosen_indent(input: Seq<u8>, option: IndentOption) -> nat {
    match option {
        IndentOption::Auto => spec_detect_indent(input),
        IndentOption::Fixed(n) => n as nat,
    }
}

/// The JSON text of a tree at an indentation: compact for 0, otherwise
/// pretty with that many spaces per level.
pub open spec fn render(t: JsonTree, indent: nat) -> Seq<char> {
    if indent == 0 {
        compact_json(t)
    } else {
        decode_utf8(pretty_json(t, spaces(indent)))
    }
}

/// The text that a conversion gives for a parsed document: its keys sorted
/// if asked to, written at the indentation that the option asks for.
pub open spec fn converted_text(t: JsonTree, input: Seq<u8>, sort: bool, option: IndentOption) -> Seq<char> {
    render(if sort { sort_tree(t) } else { t }, chosen_indent(input, option))
}

/// `n` spaces.
fn space_bytes(n: usize) -> (bytes: Vec<u8>)
    ensures
        bytes@ == spaces(n as nat),
{
    let mut bytes: Vec<u8> = Vec::new();
    let mut i: usize = 0;
    while i < n
        invariant
            i <= n,
            bytes@ == spaces(i as nat),
        decreases n - i,
    {
        bytes.push(SPACE);
        i = i + 1;
        assert(bytes@ =~= spaces(i as nat));
    }
    bytes
}

/// The indentation that `indent` asks for: the fixed one, or for
/// `IndentOption::Auto` the one that `detect_indent` finds in the input.
pub fn indent_width(input: &str, indent: &IndentOption) -> (width: usize)
    ensures
        width == chosen_indent(input.spec_bytes(), *indent),
        indent matches IndentOption::Fixed(n) ==> width == n,
        *indent is Auto ==> width == spec_detect_indent(input.spec_bytes()),
{
    match indent {
        IndentOption::Auto => detect_indent(input),
        IndentOption::Fixed(n) => *n,
    }
}

/// Writes a document as JSON: compact when `width` is 0, otherwise pretty,
/// indenting each level by `width` spaces.
pub fn write_json(value: &Value, width: usize) -> (res: Result<String, ConvertError>)
    ensures
        res matches Ok(text) && text@ == render(json_tree(*value), width as nat),
        width == 0 ==> (res matches Ok(text) && text@ == compact_json(json_tree(*value))),
        width > 0 ==> (res matches Ok(text) && text@ == decode_utf8(pretty_json(json_tree(*value), spaces(width as nat)))),
{
    if width == 0 {
        match compact_text(value) {
            Ok(text) => Ok(text),
            Err(e) => Err(ConvertError::Json(e)),
        }
    } else {
        let unit = space_bytes(width);
        proof {
            lemma_spaces_utf8(width as nat);
        }
        let bytes = match pretty_bytes(value, unit.as_slice()) {
            Ok(bytes) => bytes,
            Err(e) => return Err(ConvertError::Json(e)),
        };
        match utf8_text(bytes) {
            Ok(text) => Ok(text),
            Err(e) => Err(ConvertError::Utf8(e)),
        }
    }
}

/// Converts a parsed document to JSON text: sorts the keys of every object
/// if `sort` is set, and writes it compact when the indentation is 0 and
/// pretty otherwise, indenting each level by that many spaces. The
/// indentation is the fixed one of `indent`, or for `IndentOption::Auto` the
/// one that `detect_indent` finds in the input text.
pub fn convert_value(value: Value, input: &str, sort: bool, indent: &IndentOption) -> (res: Result<String, ConvertError>)
    ensures
        res matches Ok(text) && text@ == converted_text(json_tree(value), input.spec_bytes(), sort, *indent),
{
    let mut value = value;
    if sort {
        sort_value(&mut value);
    }
    let width = indent_width(input, indent);
    write_json(&value, width)
}

/// Converts a JSON5 text to JSON: parses it, then converts the document as
/// `convert_value` does. It fails only where the JSON5 parser refuses the
/// text; on success the text is that of the document that the parser read.
pub fn convert(input: &str, sort: bool, indent: &IndentOption) -> (res: Result<String, ConvertError>)
    ensures
        match res {
            Ok(text) => json5_tree(input@) matches Some(t)
                && text@ == converted_text(t, input.spec_bytes(), sort, *indent),
            Err(e) => e is Json5,
        },
{
    let value = match parse_json5(input) {
        Ok(value) => value,
        Err(e) => return Err(ConvertError::Json5(e)),
    };
    convert_value(value, input, sort, indent)
}

/// Asking for sorted keys changes nothing for a document whose keys are
/// already in order at every depth.
pub proof fn lemma_sort_flag_on_sorted_document(t: JsonTree, input: Seq<u8>, option: IndentOption)
    requires
        is_key_sorted(t),
    ensures
        converted_text(t, input, true, option) == converted_text(t, input, false, option),
{
    lemma_sort_tree_of_sorted(t);
}

/// A fixed indentation is the width, whatever the input.
pub proof fn lemma_fixed_indent_width(input: Seq<u8>, n: usize)
    ensures
        chosen_indent(input, IndentOption::Fixed(n)) == n,
{
}

/// At a width above 0 a document of any kind is written pretty, with that
/// many spaces per level; at width 0 it is written compact.
pub proof fn lemma_render_by_width(t: JsonTree, width: nat)
    ensures
        width == 0 ==> render(t, width) == compact_json(t),
        width > 0 ==> render(t, width) == decode_utf8(pretty_json(t, spaces(width))),
        width > 0 ==> spaces(width).len() == width && forall|i: int| 0 <= i < width ==> #[trigger] spaces(width)[i] == 0x20u8,
{
}

/// The text of a converted document: with a fixed width above 0 it is the
/// pretty text of the document (sorted if asked) with that many spaces per
/// level, and with width 0 its compact text, whatever the input text.
pub proof fn lemma_converted_text_fixed(t: JsonTree, input: Seq<u8>, sort: bool, n: usize)
    ensures
        n == 0 ==> converted_text(t, input, sort, IndentOption::Fixed(n))
            == compact_json(if sort { sort_tree(t) } else { t }),
        n > 0 ==> converted_text(t, input, sort, IndentOption::Fixed(n))
            == decode_utf8(pretty_json(if sort { sort_tree(t) } else { t }, spaces(n as nat))),
{
}

/// `n` spaces are UTF-8.
proof fn lemma_spaces_utf8(n: nat)
    ensures
        valid_utf8(spaces(n)),
{
    let chars = Seq::new(n, |i: int| ' ');
    assert(is_ascii_chars(chars));
    is_ascii_chars_encode_utf8(chars);
    assert(encode_utf8(chars) =~= spaces(n));
    encode_utf8_valid_utf8(chars);
}

} // verus!
