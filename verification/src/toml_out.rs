//! The structured-config writer: a value tree serialized as key/value
//! lines and nested `[section]` blocks, keys in insertion order.
//!
//! Within a table, plain values are written first as `key = value` lines;
//! sub-tables follow as sections, each headed by its dotted path. Arrays
//! are written inline (`[1, 2.5, "s"]`), with any table inside an array
//! written as an inline table (`{ k = v }`). A document whose root is not
//! a table has no representation and is refused; a tree holding a null is
//! outside this writer's domain (the conversion mapper rejects such trees
//! before they reach it).

use vstd::prelude::*;
use crate::value::{Value, Node, node_of, nodes_of, entry_nodes_of, lemma_nodes_of,
    lemma_entry_nodes_of, seq_has_null, entries_have_null, lemma_seq_has_null,
    lemma_entries_have_null};
use crate::num::{int_literal, i64_literal};
use crate::escape::{quoted, write_quoted, append_bytes};
use crate::convert::clone_bytes;

verus! {

broadcast use vstd::std_specs::vec::group_vec_axioms, vstd::seq::group_seq_axioms;

/// A byte a bare (unquoted) key may consist of: letters, digits, `_`, `-`.
pub open spec fn is_bare_byte(b: u8) -> bool {
    (65 <= b <= 90) || (97 <= b <= 122) || (48 <= b <= 57) || b == 95 || b == 45
}

/// Whether a key can be written without quotes.
pub open spec fn bare_key_ok(k: Seq<u8>) -> bool {
    k.len() > 0 && forall|i: int| 0 <= i < k.len() ==> is_bare_byte(#[trigger] k[i])
}

/// The written form of a key: bare when possible, quoted otherwise.
pub open spec fn toml_key(k: Seq<u8>) -> Seq<u8> {
    if bare_key_ok(k) {
        k
    } else {
        quoted(k)
    }
}

/// The inline (single-line) form of a value.
pub open spec fn toml_inline(n: Node) -> Seq<u8>
    decreases n,
{
    match n {
        Node::Null => Seq::empty(),
        Node::Bool(b) => if b {
            seq![116u8, 114u8, 117u8, 101u8]
        } else {
            seq![102u8, 97u8, 108u8, 115u8, 101u8]
        },
        Node::Int(i) => int_literal(i),
        Node::Float(t) => t,
        Node::Str(t) => quoted(t),
        Node::DateTime(_, t) => t,
        Node::Arr(items) => if items.len() == 0 {
            seq![91u8, 93u8]
        } else {
            seq![91u8] + toml_inline_items(items) + seq![93u8]
        },
        Node::Table(entries) => if entries.len() == 0 {
            seq![123u8, 125u8]
        } else {
            seq![123u8, 32u8] + toml_inline_entries(entries) + seq![32u8, 125u8]
        },
    }
}

/// Array items inline, separated by `, `.
pub open spec fn toml_inline_items(items: Seq<Node>) -> Seq<u8>
    decreases items,
{
    if items.len() == 0 {
        Seq::empty()
    } else if items.len() == 1 {
        toml_inline(items.last())
    } else {
        toml_inline_items(items.drop_last()) + seq![44u8, 32u8] + toml_inline(items.last())
    }
}

/// Inline-table entries, `key = value`, separated by `, `.
pub open spec fn toml_inline_entries(entries: Seq<(Seq<u8>, Node)>) -> Seq<u8>
    decreases entries,
{
    if entries.len() == 0 {
        Seq::empty()
    } else if entries.len() == 1 {
        toml_key(entries.last().0) + seq![32u8, 61u8, 32u8] + toml_inline(entries.last().1)
    } else {
        toml_inline_entries(entries.drop_last()) + seq![44u8, 32u8] + toml_key(entries.last().0)
            + seq![32u8, 61u8, 32u8] + toml_inline(entries.last().1)
    }
}

/// A dotted key path, each segment bare or quoted.
pub open spec fn dotted(path: Seq<Seq<u8>>) -> Seq<u8>
    decreases path,
{
    if path.len() == 0 {
        Seq::empty()
    } else if path.len() == 1 {
        toml_key(path.last())
    } else {
        dotted(path.drop_last()) + seq![46u8] + toml_key(path.last())
    }
}

/// The `key = value` lines of a table's non-table entries, in order.
pub open spec fn scalar_lines(entries: Seq<(Seq<u8>, Node)>) -> Seq<u8>
    decreases entries,
{
    if entries.len() == 0 {
        Seq::empty()
    } else {
        scalar_lines(entries.drop_last()) + (match entries.last().1 {
            Node::Table(_) => Seq::<u8>::empty(),
            v => toml_key(entries.last().0) + seq![32u8, 61u8, 32u8] + toml_inline(v) + seq![
                10u8,
            ],
        })
    }
}

/// The `[section]` blocks of a table's sub-tables, in order, each headed
/// by its full dotted path.
pub open spec fn table_blocks(path: Seq<Seq<u8>>, entries: Seq<(Seq<u8>, Node)>) -> Seq<u8>
    decreases entries, 0int,
{
    if entries.len() == 0 {
        Seq::empty()
    } else {
        table_blocks(path, entries.drop_last()) + (match entries.last().1 {
            Node::Table(sub) => seq![91u8] + dotted(path.push(entries.last().0)) + seq![
                93u8,
                10u8,
            ] + toml_body(path.push(entries.last().0), sub),
            _ => Seq::<u8>::empty(),
        })
    }
}

/// The whole text of a table at `path`: its plain lines, then its
/// sub-table sections.
pub open spec fn toml_body(path: Seq<Seq<u8>>, entries: Seq<(Seq<u8>, Node)>) -> Seq<u8>
    decreases entries, 1int,
{
    scalar_lines(entries) + table_blocks(path, entries)
}

/// The text of a whole document whose root table has these entries.
pub open spec fn toml_doc(entries: Seq<(Seq<u8>, Node)>) -> Seq<u8> {
    toml_body(Seq::empty(), entries)
}

proof fn lemma_scalar_lines_push(entries: Seq<(Seq<u8>, Node)>, x: (Seq<u8>, Node))
    ensures
        scalar_lines(entries.push(x)) == scalar_lines(entries) + (match x.1 {
            Node::Table(_) => Seq::<u8>::empty(),
            v => toml_key(x.0) + seq![32u8, 61u8, 32u8] + toml_inline(v) + seq![10u8],
        }),
{
    assert(entries.push(x).drop_last() =~= entries);
    assert(entries.push(x).last() == x);
}

proof fn lemma_table_blocks_push(
    path: Seq<Seq<u8>>,
    entries: Seq<(Seq<u8>, Node)>,
    x: (Seq<u8>, Node),
)
    ensures
        table_blocks(path, entries.push(x)) == table_blocks(path, entries) + (match x.1 {
            Node::Table(sub) => seq![91u8] + dotted(path.push(x.0)) + seq![93u8, 10u8]
                + toml_body(path.push(x.0), sub),
            _ => Seq::<u8>::empty(),
        }),
{
    assert(entries.push(x).drop_last() =~= entries);
    assert(entries.push(x).last() == x);
}

proof fn lemma_dotted_push(path: Seq<Seq<u8>>, k: Seq<u8>)
    ensures
        dotted(path.push(k)) == if path.len() == 0 {
            toml_key(k)
        } else {
            dotted(path) + seq![46u8] + toml_key(k)
        },
{
    assert(path.push(k).drop_last() =~= path);
    assert(path.push(k).last() == k);
}

/// A written key is never empty, so a dotted path of at least one segment
/// is never empty either.
proof fn lemma_dotted_nonempty(path: Seq<Seq<u8>>)
    ensures
        path.len() > 0 ==> dotted(path).len() > 0,
    decreases path,
{
    if path.len() > 0 {
        lemma_dotted_nonempty(path.drop_last());
    }
}

/// Appends the written form of a key to `out`.
fn write_key(k: &Vec<u8>, out: &mut Vec<u8>)
    ensures
        final(out)@ == old(out)@ + toml_key(k@),
{
    let mut bare = k.len() > 0;
    let mut i: usize = 0;
    while i < k.len()
        invariant
            i <= k.len(),
            bare == (k@.len() > 0 && forall|j: int|
                0 <= j < i ==> is_bare_byte(#[trigger] k@[j])),
        decreases k.len() - i,
    {
        let b = k[i];
        if !((65 <= b && b <= 90) || (97 <= b && b <= 122) || (48 <= b && b <= 57) || b == 95
            || b == 45) {
            bare = false;
        }
        i += 1;
    }
    if bare {
        assert(bare_key_ok(k@));
        append_bytes(out, k);
    } else {
        assert(!bare_key_ok(k@));
        write_quoted(k, out);
    }
}

/// Appends the inline form of `v` to `out`.
pub fn write_toml_inline(v: &Value, out: &mut Vec<u8>)
    requires
        !v@.has_null(),
    ensures
        final(out)@ == old(out)@ + toml_inline(v@),
    decreases v,
{
    let ghost base = out@;
    match v {
        Value::Null => {
            assert(false);
        },
        Value::Bool(b) => {
            if *b {
                out.push(116);
                out.push(114);
                out.push(117);
                out.push(101);
            } else {
                out.push(102);
                out.push(97);
                out.push(108);
                out.push(115);
                out.push(101);
            }
            assert(out@ =~= base + toml_inline(v@));
        },
        Value::Int(i) => {
            let d = i64_literal(*i);
            append_bytes(out, &d);
        },
        Value::Float(t) => {
            append_bytes(out, t);
        },
        Value::Str(t) => {
            write_quoted(t, out);
        },
        Value::DateTime(_, t) => {
            append_bytes(out, t);
        },
        Value::Arr(items) => {
            if items.len() == 0 {
                out.push(91);
                out.push(93);
                assert(out@ =~= base + toml_inline(v@));
            } else {
                out.push(91);
                let ghost ns = nodes_of(items@);
                proof {
                    lemma_nodes_of(items@);
                    lemma_seq_has_null(ns);
                }
                let mut idx: usize = 0;
                while idx < items.len()
                    invariant
                        0 < items@.len(),
                        idx <= items.len(),
                        ns == nodes_of(items@),
                        ns.len() == items@.len(),
                        forall|j: int|
                            0 <= j < items@.len() ==> #[trigger] ns[j] == node_of(items@[j]),
                        forall|j: int| 0 <= j < ns.len() ==> !(#[trigger] ns[j]).has_null(),
                        decreases_to!(*v => items@),
                        out@ == base + seq![91u8] + toml_inline_items(ns.take(idx as int)),
                    decreases items.len() - idx,
                {
                    if idx > 0 {
                        out.push(44);
                        out.push(32);
                    }
                    proof {
                        assert(node_of(items@[idx as int]) == ns[idx as int]);
                        assert(!ns[idx as int].has_null());
                    }
                    write_toml_inline(&items[idx], out);
                    proof {
                        assert(ns.take(idx + 1) =~= ns.take(idx as int).push(ns[idx as int]));
                        assert(ns.take(idx + 1).drop_last() =~= ns.take(idx as int));
                        assert(out@ =~= base + seq![91u8] + toml_inline_items(ns.take(idx + 1)));
                    }
                    idx += 1;
                }
                out.push(93);
                proof {
                    assert(ns.take(ns.len() as int) =~= ns);
                    assert(out@ =~= base + toml_inline(v@));
                }
            }
        },
        Value::Table(entries) => {
            if entries.len() == 0 {
                out.push(123);
                out.push(125);
                assert(out@ =~= base + toml_inline(v@));
            } else {
                out.push(123);
                out.push(32);
                let ghost ens = entry_nodes_of(entries@);
                proof {
                    lemma_entry_nodes_of(entries@);
                    lemma_entries_have_null(ens);
                }
                let mut idx: usize = 0;
                while idx < entries.len()
                    invariant
                        0 < entries@.len(),
                        idx <= entries.len(),
                        ens == entry_nodes_of(entries@),
                        ens.len() == entries@.len(),
                        forall|j: int|
                            0 <= j < entries@.len() ==> #[trigger] ens[j] == (
                            entries@[j].0@,
                            node_of(entries@[j].1),
                            ),
                        forall|j: int| 0 <= j < ens.len() ==> !(#[trigger] ens[j].1).has_null(),
                        decreases_to!(*v => entries@),
                        out@ == base + seq![123u8, 32u8] + toml_inline_entries(
                            ens.take(idx as int),
                        ),
                    decreases entries.len() - idx,
                {
                    if idx > 0 {
                        out.push(44);
                        out.push(32);
                    }
                    write_key(&entries[idx].0, out);
                    out.push(32);
                    out.push(61);
                    out.push(32);
                    proof {
                        assert(node_of(entries@[idx as int].1) == ens[idx as int].1);
                        assert(!ens[idx as int].1.has_null());
                    }
                    write_toml_inline(&entries[idx].1, out);
                    proof {
                        assert(ens.take(idx + 1) =~= ens.take(idx as int).push(ens[idx as int]));
                        assert(ens.take(idx + 1).drop_last() =~= ens.take(idx as int));
                        assert(out@ =~= base + seq![123u8, 32u8] + toml_inline_entries(
                            ens.take(idx + 1),
                        ));
                    }
                    idx += 1;
                }
                out.push(32);
                out.push(125);
                proof {
                    assert(ens.take(ens.len() as int) =~= ens);
                    assert(out@ =~= base + toml_inline(v@));
                }
            }
        },
    }
}

/// Appends the text of a table's entries at `path` to `out`; `pref` is the
/// rendered dotted form of `path`.
fn write_toml_table(
    entries: &Vec<(Vec<u8>, Value)>,
    pref: &Vec<u8>,
    Ghost(path): Ghost<Seq<Seq<u8>>>,
    out: &mut Vec<u8>,
)
    requires
        pref@ == dotted(path),
        !entries_have_null(entry_nodes_of(entries@)),
    ensures
        final(out)@ == old(out)@ + toml_body(path, entry_nodes_of(entries@)),
    decreases entries,
{
    let ghost base = out@;
    let ghost ens = entry_nodes_of(entries@);
    proof {
        lemma_entry_nodes_of(entries@);
        lemma_entries_have_null(ens);
    }
    let mut idx: usize = 0;
    while idx < entries.len()
        invariant
            idx <= entries.len(),
            ens == entry_nodes_of(entries@),
            ens.len() == entries@.len(),
            forall|j: int|
                0 <= j < entries@.len() ==> #[trigger] ens[j] == (
                entries@[j].0@,
                node_of(entries@[j].1),
                ),
            forall|j: int| 0 <= j < ens.len() ==> !(#[trigger] ens[j].1).has_null(),
            out@ == base + scalar_lines(ens.take(idx as int)),
        decreases entries.len() - idx,
    {
        let is_table = match &entries[idx].1 {
            Value::Table(_) => true,
            _ => false,
        };
        if !is_table {
            write_key(&entries[idx].0, out);
            out.push(32);
            out.push(61);
            out.push(32);
            proof {
                assert(node_of(entries@[idx as int].1) == ens[idx as int].1);
                assert(!ens[idx as int].1.has_null());
            }
            write_toml_inline(&entries[idx].1, out);
            out.push(10);
        }
        proof {
            lemma_scalar_lines_push(ens.take(idx as int), ens[idx as int]);
            assert(ens.take(idx + 1) =~= ens.take(idx as int).push(ens[idx as int]));
            assert(out@ =~= base + scalar_lines(ens.take(idx + 1)));
        }
        idx += 1;
    }
    proof {
        assert(ens.take(ens.len() as int) =~= ens);
    }
    let ghost mid = out@;
    let mut idx2: usize = 0;
    while idx2 < entries.len()
        invariant
            idx2 <= entries.len(),
            ens == entry_nodes_of(entries@),
            ens.len() == entries@.len(),
            forall|j: int|
                0 <= j < entries@.len() ==> #[trigger] ens[j] == (
                entries@[j].0@,
                node_of(entries@[j].1),
                ),
            forall|j: int| 0 <= j < ens.len() ==> !(#[trigger] ens[j].1).has_null(),
            pref@ == dotted(path),
            decreases_to!(*entries => entries@),
            out@ == mid + table_blocks(path, ens.take(idx2 as int)),
        decreases entries.len() - idx2,
    {
        match &entries[idx2].1 {
            Value::Table(sub) => {
                let mut pref2 = clone_bytes(pref);
                if pref2.len() > 0 {
                    pref2.push(46);
                }
                write_key(&entries[idx2].0, &mut pref2);
                proof {
                    lemma_dotted_nonempty(path);
                    lemma_dotted_push(path, entries@[idx2 as int].0@);
                    assert(pref2@ =~= dotted(path.push(entries@[idx2 as int].0@)));
                }
                out.push(91);
                append_bytes(out, &pref2);
                out.push(93);
                out.push(10);
                proof {
                    assert(node_of(entries@[idx2 as int].1) == ens[idx2 as int].1);
                    assert(!ens[idx2 as int].1.has_null());
                }
                write_toml_table(
                    sub,
                    &pref2,
                    Ghost(path.push(entries@[idx2 as int].0@)),
                    out,
                );
            },
            _ => {},
        }
        proof {
            lemma_table_blocks_push(path, ens.take(idx2 as int), ens[idx2 as int]);
            assert(ens.take(idx2 + 1) =~= ens.take(idx2 as int).push(ens[idx2 as int]));
            assert(out@ =~= mid + table_blocks(path, ens.take(idx2 + 1)));
        }
        idx2 += 1;
    }
    proof {
        assert(ens.take(ens.len() as int) =~= ens);
        assert(out@ =~= base + toml_body(path, ens));
    }
}

/// Serializes a whole tree as structured-config text. Returns `None`
/// exactly when the root is not a table, the one shape the format cannot
/// express.
pub fn write_toml(v: &Value) -> (r: Option<Vec<u8>>)
    requires
        !v@.has_null(),
    ensures
        match r {
            Some(o) => v@ matches Node::Table(entries) && o@ == toml_doc(entries),
            None => !(v@ matches Node::Table(_)),
        },
{
    match v {
        Value::Table(entries) => {
            let pref: Vec<u8> = Vec::new();
            let mut out: Vec<u8> = Vec::new();
            proof {
                assert(pref@ =~= dotted(Seq::<Seq<u8>>::empty()));
            }
            write_toml_table(entries, &pref, Ghost(Seq::empty()), &mut out);
            proof {
                assert(out@ =~= toml_doc(entry_nodes_of(entries@)));
            }
            Some(out)
        },
        _ => None,
    }
}

} // verus!
