//! The two whole-document conversions, and the per-file dispatch on a
//! path's extension.

use vstd::prelude::*;
use crate::value::Node;
use crate::convert::{map_a_to_b, map_b_to_a, a_to_b, b_to_a, first_null_path, paths_of,
    UnsupportedValue};
use crate::lex::{ParseErr, ParseKind};
use crate::json_in::{parse_json, json_doc};
use crate::json_out::{write_json, json_text};
use crate::toml_in::{parse_toml, toml_document};
use crate::toml_out::{write_toml, toml_doc};

verus! {

/// Why a document could not be converted.
#[derive(Debug)]
pub enum ConvError {
    /// The source text does not parse.
    Parse(ParseErr),
    /// The document holds a null, which the structured-config format
    /// cannot express; the path names it.
    Unsupported(UnsupportedValue),
    /// The document's root is not a table/object, the one shape the
    /// structured-config format cannot express.
    NotATable,
}

/// What a successful structured-config to document-object conversion
/// returns: the parsed tree, datetimes mapped to strings, serialized.
pub open spec fn convert_toml2json_ok(input: Seq<u8>, out: Seq<u8>) -> bool {
    toml_document(input) matches Ok(tree) && out == json_text(a_to_b(tree), Seq::empty())
}

/// What a successful document-object to structured-config conversion
/// returns: the parsed tree, null-free with a table root, serialized.
pub open spec fn convert_json2toml_ok(input: Seq<u8>, out: Seq<u8>) -> bool {
    json_doc(input) matches Ok(tree) && !tree.has_null() && (tree matches Node::Table(entries)
        && out == toml_doc(entries))
}

/// When the document-object to structured-config conversion succeeds:
/// the text parses, holds no null, and its root is an object.
pub open spec fn json2toml_succeeds(input: Seq<u8>) -> bool {
    json_doc(input) matches Ok(tree) && !tree.has_null() && tree matches Node::Table(_)
}

/// Converts structured-config text to pretty-printed document-object
/// text: parse, map datetimes to strings, serialize.
pub fn convert_toml2json(input: &Vec<u8>) -> (r: Result<Vec<u8>, ConvError>)
    ensures
        match r {
            Ok(out) => toml_document(input@) matches Ok(tree) && tree.wf() && out@
                == json_text(a_to_b(tree), Seq::empty()),
            Err(ConvError::Parse(e)) => toml_document(input@) == Err::<Node, _>((
                e.pos as int,
                e.kind,
            )),
            Err(_) => false,
        },
{
    match parse_toml(input) {
        Err(e) => Err(ConvError::Parse(e)),
        Ok(v) => {
            proof {
                crate::toml_in::lemma_toml_document_wf(input@);
            }
            let w = map_a_to_b(&v);
            Ok(write_json(&w))
        },
    }
}

/// Converts document-object text to structured-config text: parse, reject
/// nulls with their key path, serialize. A document whose root is not an
/// object is refused.
pub fn convert_json2toml(input: &Vec<u8>) -> (r: Result<Vec<u8>, ConvError>)
    ensures
        match r {
            Ok(out) => json_doc(input@) matches Ok(tree) && tree.wf() && !tree.has_null() && (
            tree matches Node::Table(entries) && out@ == toml_doc(entries)),
            Err(ConvError::Parse(e)) => json_doc(input@) == Err::<Node, _>((
                e.pos as int,
                e.kind,
            )),
            Err(ConvError::Unsupported(u)) => json_doc(input@) matches Ok(tree)
                && tree.has_null() && paths_of(u.path@) == first_null_path(tree),
            Err(ConvError::NotATable) => json_doc(input@) matches Ok(tree) && !tree.has_null()
                && !(tree matches Node::Table(_)),
        },
{
    match parse_json(input) {
        Err(e) => Err(ConvError::Parse(e)),
        Ok(v) => {
            proof {
                crate::json_in::lemma_json_doc_wf(input@);
            }
            match map_b_to_a(&v) {
                Err(u) => Err(ConvError::Unsupported(u)),
                Ok(w) => {
                    match write_toml(&w) {
                        Some(out) => Ok(out),
                        None => Err(ConvError::NotATable),
                    }
                },
            }
        },
    }
}

} // verus!
