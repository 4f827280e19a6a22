//! Per-file dispatch: what to do with a path, read from its extension.
//!
//! A `.toml` path is converted to a `.json` sibling and a `.json` path to
//! a `.toml` sibling; a path with any other extension is left alone (a
//! documented no-op); a path without an extension is an error.

use vstd::prelude::*;
use crate::pipeline::{ConvError, convert_toml2json, convert_json2toml};
use crate::lex::copy_range;
use crate::escape::append_bytes;

verus! {

broadcast use vstd::std_specs::vec::group_vec_axioms, vstd::seq::group_seq_axioms;

/// Index of the last occurrence of `b` in `s`, or -1.
pub open spec fn rlast(s: Seq<u8>, b: u8) -> int
    decreases s.len(),
{
    if s.len() == 0 {
        -1
    } else if s.last() == b {
        s.len() - 1
    } else {
        rlast(s.drop_last(), b)
    }
}

/// Where a path's extension starts (the byte after the name's last dot),
/// or -1 when the name has none. A leading dot in the name (a hidden
/// file) does not start an extension.
pub open spec fn ext_start(s: Seq<u8>) -> int {
    let sl = rlast(s, 47);
    let d = rlast(s, 46);
    if d > sl + 1 {
        d + 1
    } else {
        -1
    }
}

/// The path's extension, if it has one.
pub open spec fn ext_of(s: Seq<u8>) -> Option<Seq<u8>> {
    if ext_start(s) >= 0 {
        Some(s.subrange(ext_start(s), s.len() as int))
    } else {
        None
    }
}

/// The path with its extension replaced by `new` (the dot is kept).
pub open spec fn with_ext(s: Seq<u8>, new: Seq<u8>) -> Seq<u8> {
    s.subrange(0, ext_start(s)) + new
}

/// The bytes of `toml`.
pub open spec fn toml_ext() -> Seq<u8> {
    seq![116u8, 111u8, 109u8, 108u8]
}

/// The bytes of `json`.
pub open spec fn json_ext() -> Seq<u8> {
    seq![106u8, 115u8, 111u8, 110u8]
}

/// What handling one file came to.
pub enum FileOutcome {
    /// Write `data` to the sibling `path`.
    Produce { path: Vec<u8>, data: Vec<u8> },
    /// The extension is neither format's: leave the file alone.
    Skip,
    /// The path has no extension.
    NoExtension,
    /// The content could not be converted.
    Fail(ConvError),
}

/// `rlast` finds exactly the last occurrence of `b`.
proof fn lemma_rlast(s: Seq<u8>, b: u8)
    ensures
        rlast(s, b) == -1 || 0 <= rlast(s, b) < s.len(),
        rlast(s, b) == -1 <==> (forall|j: int| 0 <= j < s.len() ==> s[j] != b),
        rlast(s, b) >= 0 ==> {
            let i = rlast(s, b);
            &&& 0 <= i < s.len()
            &&& s[i] == b
            &&& forall|j: int| i < j < s.len() ==> s[j] != b
        },
    decreases s.len(),
{
    if s.len() > 0 && s.last() != b {
        let rest = s.drop_last();
        lemma_rlast(rest, b);
        assert(forall|j: int| 0 <= j < rest.len() ==> #[trigger] rest[j] == s[j]);
        if rlast(rest, b) == -1 {
            assert forall|j: int| 0 <= j < s.len() implies s[j] != b by {
                if j < s.len() - 1 {
                    assert(rest[j] != b);
                }
            }
        } else {
            let i = rlast(rest, b);
            assert(s[i] == rest[i]);
            assert forall|j: int| i < j < s.len() implies s[j] != b by {
                if j < s.len() - 1 {
                    assert(rest[j] != b);
                }
            }
        }
    }
}

/// Index of the last occurrence of `b` in `s`, or `None`.
fn rlast_at(s: &Vec<u8>, b: u8) -> (r: Option<usize>)
    ensures
        match r {
            Some(i) => rlast(s@, b) == i as int && i < s.len(),
            None => rlast(s@, b) == -1,
        },
{
    proof {
        lemma_rlast(s@, b);
    }
    let mut i = s.len();
    while i > 0
        invariant
            i <= s.len(),
            forall|j: int| i <= j < s@.len() ==> s@[j] != b,
        decreases i,
    {
        i -= 1;
        if s[i] == b {
            proof {
                lemma_rlast(s@, b);
                let ri = rlast(s@, b);
                assert(ri != -1);
                if ri < i as int {
                    assert(s@[i as int] != b);
                }
            }
            return Some(i);
        }
    }
    proof {
        lemma_rlast(s@, b);
    }
    None
}

/// Decides what to do with the file at `path` holding `content`:
/// converts toward the sibling format, skips an unknown extension, and
/// rejects a path without one.
pub fn convert_for_path(path: &Vec<u8>, content: &Vec<u8>) -> (r: FileOutcome)
    ensures
        match r {
            FileOutcome::NoExtension => ext_of(path@) is None,
            FileOutcome::Skip => ext_of(path@) matches Some(e) && e != toml_ext() && e
                != json_ext(),
            FileOutcome::Produce { path: out_path, data } => {
                ||| (ext_of(path@) == Some(toml_ext()) && out_path@ == with_ext(
                    path@,
                    json_ext(),
                ) && crate::pipeline::convert_toml2json_ok(content@, data@))
                ||| (ext_of(path@) == Some(json_ext()) && out_path@ == with_ext(
                    path@,
                    toml_ext(),
                ) && crate::pipeline::convert_json2toml_ok(content@, data@))
            },
            FileOutcome::Fail(e) => {
                ||| (ext_of(path@) == Some(toml_ext()) && (e matches ConvError::Parse(p)
                    && crate::toml_in::toml_document(content@) == Err::<
                    crate::value::Node,
                    _,
                >((p.pos as int, p.kind))))
                ||| (ext_of(path@) == Some(json_ext()) && !crate::pipeline::json2toml_succeeds(
                    content@,
                ))
            },
        },
{
    let sl = rlast_at(path, 47);
    let d = rlast_at(path, 46);
    let start: usize = match (d, sl) {
        (Some(di), Some(si)) => {
            if di > si + 1 {
                di + 1
            } else {
                return FileOutcome::NoExtension;
            }
        },
        (Some(di), None) => {
            if di > 0 {
                di + 1
            } else {
                return FileOutcome::NoExtension;
            }
        },
        _ => {
            return FileOutcome::NoExtension;
        },
    };
    proof {
        assert(ext_start(path@) == start as int);
    }
    let ext = copy_range(path, start, path.len());
    let is_toml = ext.len() == 4 && ext[0] == 116 && ext[1] == 111 && ext[2] == 109 && ext[3]
        == 108;
    let is_json = ext.len() == 4 && ext[0] == 106 && ext[1] == 115 && ext[2] == 111 && ext[3]
        == 110;
    proof {
        if is_toml {
            assert(ext@ =~= toml_ext());
        }
        if is_json {
            assert(ext@ =~= json_ext());
        }
        if !is_toml {
            assert(ext@ != toml_ext());
        }
        if !is_json {
            assert(ext@ != json_ext());
        }
    }
    if is_toml {
        match convert_toml2json(content) {
            Ok(data) => {
                let mut out_path = copy_range(path, 0, start);
                let mut e2: Vec<u8> = Vec::new();
                e2.push(106);
                e2.push(115);
                e2.push(111);
                e2.push(110);
                append_bytes(&mut out_path, &e2);
                proof {
                    assert(e2@ =~= json_ext());
                    assert(out_path@ =~= with_ext(path@, json_ext()));
                }
                FileOutcome::Produce { path: out_path, data }
            },
            Err(e) => FileOutcome::Fail(e),
        }
    } else if is_json {
        match convert_json2toml(content) {
            Ok(data) => {
                let mut out_path = copy_range(path, 0, start);
                let mut e2: Vec<u8> = Vec::new();
                e2.push(116);
                e2.push(111);
                e2.push(109);
                e2.push(108);
                append_bytes(&mut out_path, &e2);
                proof {
                    assert(e2@ =~= toml_ext());
                    assert(out_path@ =~= with_ext(path@, toml_ext()));
                }
                FileOutcome::Produce { path: out_path, data }
            },
            Err(e) => FileOutcome::Fail(e),
        }
    } else {
        FileOutcome::Skip
    }
}

} // verus!
