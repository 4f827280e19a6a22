//! The document-object writer: a value tree serialized as pretty-printed
//! text with two-space indentation and keys in insertion order.
//!
//! Datetimes, which the format cannot express natively, are written as
//! quoted strings of their literal text, matching the conversion mapper's
//! policy.

use vstd::prelude::*;
use crate::value::{Value, Node};
use crate::num::{int_literal, i64_literal};
use crate::escape::{quoted, write_quoted, append_bytes};
use crate::convert::clone_bytes;

verus! {

broadcast use vstd::std_specs::vec::group_vec_axioms, vstd::seq::group_seq_axioms;

/// The serialized text of `n`, where `ind` is the indentation (spaces) of
/// the line `n` starts on.
pub open spec fn json_text(n: Node, ind: Seq<u8>) -> Seq<u8>
    decreases n,
{
    match n {
        Node::Null => seq![110u8, 117u8, 108u8, 108u8],
        Node::Bool(b) => if b {
            seq![116u8, 114u8, 117u8, 101u8]
        } else {
            seq![102u8, 97u8, 108u8, 115u8, 101u8]
        },
        Node::Int(i) => int_literal(i),
        Node::Float(t) => t,
        Node::Str(t) => quoted(t),
        Node::DateTime(_, t) => quoted(t),
        Node::Arr(items) => if items.len() == 0 {
            seq![91u8, 93u8]
        } else {
            seq![91u8, 10u8] + json_items(items, ind + seq![32u8, 32u8]) + seq![10u8] + ind
                + seq![93u8]
        },
        Node::Table(entries) => if entries.len() == 0 {
            seq![123u8, 125u8]
        } else {
            seq![123u8, 10u8] + json_entries(entries, ind + seq![32u8, 32u8]) + seq![10u8] + ind
                + seq![125u8]
        },
    }
}

/// Array items, one per line at indentation `ind`, separated by `,`.
pub open spec fn json_items(items: Seq<Node>, ind: Seq<u8>) -> Seq<u8>
    decreases items,
{
    if items.len() == 0 {
        Seq::empty()
    } else if items.len() == 1 {
        ind + json_text(items.last(), ind)
    } else {
        json_items(items.drop_last(), ind) + seq![44u8, 10u8] + ind + json_text(
            items.last(),
            ind,
        )
    }
}

/// Object entries, one `"key": value` per line at indentation `ind`,
/// separated by `,`, in entry order.
pub open spec fn json_entries(entries: Seq<(Seq<u8>, Node)>, ind: Seq<u8>) -> Seq<u8>
    decreases entries,
{
    if entries.len() == 0 {
        Seq::empty()
    } else if entries.len() == 1 {
        ind + quoted(entries.last().0) + seq![58u8, 32u8] + json_text(entries.last().1, ind)
    } else {
        json_entries(entries.drop_last(), ind) + seq![44u8, 10u8] + ind + quoted(
            entries.last().0,
        ) + seq![58u8, 32u8] + json_text(entries.last().1, ind)
    }
}

proof fn lemma_json_items_push(items: Seq<Node>, x: Node, ind: Seq<u8>)
    ensures
        json_items(items.push(x), ind) == if items.len() == 0 {
            ind + json_text(x, ind)
        } else {
            json_items(items, ind) + seq![44u8, 10u8] + ind + json_text(x, ind)
        },
{
    assert(items.push(x).drop_last() =~= items);
    assert(items.push(x).last() == x);
}

proof fn lemma_json_entries_push(entries: Seq<(Seq<u8>, Node)>, x: (Seq<u8>, Node), ind: Seq<u8>)
    ensures
        json_entries(entries.push(x), ind) == if entries.len() == 0 {
            ind + quoted(x.0) + seq![58u8, 32u8] + json_text(x.1, ind)
        } else {
            json_entries(entries, ind) + seq![44u8, 10u8] + ind + quoted(x.0) + seq![58u8, 32u8]
                + json_text(x.1, ind)
        },
{
    assert(entries.push(x).drop_last() =~= entries);
    assert(entries.push(x).last() == x);
}

/// Serializes `v`, appending to `out`, with `ind` the current indentation.
pub fn write_json_node(v: &Value, ind: &Vec<u8>, out: &mut Vec<u8>)
    ensures
        final(out)@ == old(out)@ + json_text(v@, ind@),
    decreases v,
{
    let ghost base = out@;
    match v {
        Value::Null => {
            out.push(110);
            out.push(117);
            out.push(108);
            out.push(108);
            assert(out@ =~= base + json_text(v@, ind@));
        },
        Value::Bool(b) => {
            if *b {
                out.push(116);
                out.push(114);
                out.push(117);
                out.push(101);
            } else {
                out.push(102);
                out.push(97);
                out.push(108);
                out.push(115);
                out.push(101);
            }
            assert(out@ =~= base + json_text(v@, ind@));
        },
        Value::Int(i) => {
            let d = i64_literal(*i);
            append_bytes(out, &d);
        },
        Value::Float(t) => {
            append_bytes(out, t);
        },
        Value::Str(t) => {
            write_quoted(t, out);
        },
        Value::DateTime(_, t) => {
            write_quoted(t, out);
        },
        Value::Arr(items) => {
            if items.len() == 0 {
                out.push(91);
                out.push(93);
                assert(out@ =~= base + json_text(v@, ind@));
            } else {
                out.push(91);
                out.push(10);
                let mut ind2 = clone_bytes(ind);
                ind2.push(32);
                ind2.push(32);
                assert(ind2@ =~= ind@ + seq![32u8, 32u8]);
                let ghost ns = crate::value::nodes_of(items@);
                proof {
                    crate::value::lemma_nodes_of(items@);
                }
                let mut idx: usize = 0;
                while idx < items.len()
                    invariant
                        idx <= items.len(),
                        ns == crate::value::nodes_of(items@),
                        ns.len() == items@.len(),
                        forall|j: int|
                            0 <= j < items@.len() ==> #[trigger] ns[j] == crate::value::node_of(
                                items@[j],
                            ),
                        decreases_to!(*v => items@),
                        ind2@ == ind@ + seq![32u8, 32u8],
                        out@ == base + seq![91u8, 10u8] + json_items(
                            ns.take(idx as int),
                            ind2@,
                        ),
                    decreases items.len() - idx,
                {
                    if idx > 0 {
                        out.push(44);
                        out.push(10);
                    }
                    append_bytes(out, &ind2);
                    write_json_node(&items[idx], &ind2, out);
                    proof {
                        lemma_json_items_push(ns.take(idx as int), ns[idx as int], ind2@);
                        assert(ns.take(idx + 1) =~= ns.take(idx as int).push(ns[idx as int]));
                        assert(out@ =~= base + seq![91u8, 10u8] + json_items(
                            ns.take(idx + 1),
                            ind2@,
                        ));
                    }
                    idx += 1;
                }
                out.push(10);
                append_bytes(out, ind);
                out.push(93);
                proof {
                    assert(ns.take(ns.len() as int) =~= ns);
                    assert(out@ =~= base + json_text(v@, ind@));
                }
            }
        },
        Value::Table(entries) => {
            if entries.len() == 0 {
                out.push(123);
                out.push(125);
                assert(out@ =~= base + json_text(v@, ind@));
            } else {
                out.push(123);
                out.push(10);
                let mut ind2 = clone_bytes(ind);
                ind2.push(32);
                ind2.push(32);
                assert(ind2@ =~= ind@ + seq![32u8, 32u8]);
                let ghost ens = crate::value::entry_nodes_of(entries@);
                proof {
                    crate::value::lemma_entry_nodes_of(entries@);
                }
                let mut idx: usize = 0;
                while idx < entries.len()
                    invariant
                        idx <= entries.len(),
                        ens == crate::value::entry_nodes_of(entries@),
                        ens.len() == entries@.len(),
                        forall|j: int|
                            0 <= j < entries@.len() ==> #[trigger] ens[j] == (
                            entries@[j].0@,
                            crate::value::node_of(entries@[j].1),
                            ),
                        decreases_to!(*v => entries@),
                        ind2@ == ind@ + seq![32u8, 32u8],
                        out@ == base + seq![123u8, 10u8] + json_entries(
                            ens.take(idx as int),
                            ind2@,
                        ),
                    decreases entries.len() - idx,
                {
                    if idx > 0 {
                        out.push(44);
                        out.push(10);
                    }
                    append_bytes(out, &ind2);
                    write_quoted(&entries[idx].0, out);
                    out.push(58);
                    out.push(32);
                    write_json_node(&entries[idx].1, &ind2, out);
                    proof {
                        lemma_json_entries_push(ens.take(idx as int), ens[idx as int], ind2@);
                        assert(ens.take(idx + 1) =~= ens.take(idx as int).push(ens[idx as int]));
                        assert(out@ =~= base + seq![123u8, 10u8] + json_entries(
                            ens.take(idx + 1),
                            ind2@,
                        ));
                    }
                    idx += 1;
                }
                out.push(10);
                append_bytes(out, ind);
                out.push(125);
                proof {
                    assert(ens.take(ens.len() as int) =~= ens);
                    assert(out@ =~= base + json_text(v@, ind@));
                }
            }
        },
    }
}

/// Serializes a whole tree as pretty-printed document-object text.
pub fn write_json(v: &Value) -> (r: Vec<u8>)
    ensures
        r@ == json_text(v@, Seq::empty()),
{
    let ind: Vec<u8> = Vec::new();
    let mut out: Vec<u8> = Vec::new();
    write_json_node(v, &ind, &mut out);
    proof {
        assert(out@ =~= json_text(v@, Seq::empty()));
    }
    out
}

} // verus!
