//! The conversion mapper: the value-to-value step between the two formats.
//!
//! Going from the structured-config domain to the document-object domain
//! (`map_a_to_b`), datetimes become plain strings carrying their literal
//! text, since the target format has no datetime type; everything else maps
//! structurally. Going back (`map_b_to_a`), a null has no representation in
//! the structured-config format, so the whole document is rejected with the
//! key path of the first null found, rather than dropping the key silently.

use vstd::prelude::*;
use crate::value::{Value, Node, node_of, nodes_of, entry_nodes_of, lemma_nodes_of,
    lemma_entry_nodes_of, seq_has_null, entries_have_null, seq_has_datetime,
    entries_have_datetime, lemma_seq_has_null, lemma_entries_have_null};
use crate::num::dec_digits;

verus! {

broadcast use vstd::std_specs::vec::group_vec_axioms, vstd::seq::group_seq_axioms;

/// The A-to-B mapping on trees: datetimes become strings of their literal
/// text; arrays and tables map element-wise; all else is unchanged.
pub open spec fn a_to_b(n: Node) -> Node
    decreases n,
{
    match n {
        Node::DateTime(_, t) => Node::Str(t),
        Node::Arr(items) => Node::Arr(a_to_b_seq(items)),
        Node::Table(entries) => Node::Table(a_to_b_entries(entries)),
        other => other,
    }
}

/// Element-wise `a_to_b` over an array's items.
pub open spec fn a_to_b_seq(items: Seq<Node>) -> Seq<Node>
    decreases items,
{
    if items.len() == 0 {
        Seq::empty()
    } else {
        a_to_b_seq(items.drop_last()).push(a_to_b(items.last()))
    }
}

/// Element-wise `a_to_b` over a table's entries; keys are unchanged.
pub open spec fn a_to_b_entries(entries: Seq<(Seq<u8>, Node)>) -> Seq<(Seq<u8>, Node)>
    decreases entries,
{
    if entries.len() == 0 {
        Seq::empty()
    } else {
        a_to_b_entries(entries.drop_last()).push(
            (entries.last().0, a_to_b(entries.last().1)),
        )
    }
}

/// Index of the first item whose subtree holds a null, or -1 when none does.
pub open spec fn first_null_idx(items: Seq<Node>) -> int
    decreases items.len(),
{
    if items.len() == 0 {
        -1
    } else if items.first().has_null() {
        0
    } else {
        let rest = first_null_idx(items.drop_first());
        if rest < 0 {
            -1
        } else {
            rest + 1
        }
    }
}

/// Index of the first entry whose value's subtree holds a null, or -1.
pub open spec fn first_null_ent_idx(entries: Seq<(Seq<u8>, Node)>) -> int
    decreases entries.len(),
{
    if entries.len() == 0 {
        -1
    } else if entries.first().1.has_null() {
        0
    } else {
        let rest = first_null_ent_idx(entries.drop_first());
        if rest < 0 {
            -1
        } else {
            rest + 1
        }
    }
}

/// The key path of the first null in `n`, in document order: table keys and
/// array indexes (as decimal text), outermost first. Meaningful only when
/// `n.has_null()`.
pub open spec fn first_null_path(n: Node) -> Seq<Seq<u8>>
    decreases n,
{
    match n {
        Node::Arr(items) => {
            let i = first_null_idx(items);
            if 0 <= i < items.len() {
                seq![dec_digits(i as nat)] + first_null_path(items[i])
            } else {
                Seq::empty()
            }
        },
        Node::Table(entries) => {
            let i = first_null_ent_idx(entries);
            if 0 <= i < entries.len() {
                seq![entries[i].0] + first_null_path(entries[i].1)
            } else {
                Seq::empty()
            }
        },
        _ => Seq::empty(),
    }
}

/// The B-to-A mapping on trees: a tree with a null is rejected with the
/// path of its first null; any other tree passes through unchanged (in
/// particular, strings are never re-typed into datetimes).
pub open spec fn b_to_a(n: Node) -> Result<Node, Seq<Seq<u8>>> {
    if n.has_null() {
        Err(first_null_path(n))
    } else {
        Ok(n)
    }
}

/// `first_null_idx` finds exactly the first item with a null: -1 when no
/// item has one, else the least index whose item has one.
pub proof fn lemma_first_null_idx(items: Seq<Node>)
    ensures
        first_null_idx(items) == -1 <==> (forall|j: int|
            0 <= j < items.len() ==> !(#[trigger] items[j]).has_null()),
        first_null_idx(items) >= 0 ==> {
            let i = first_null_idx(items);
            &&& 0 <= i < items.len()
            &&& items[i].has_null()
            &&& forall|j: int| 0 <= j < i ==> !(#[trigger] items[j]).has_null()
        },
    decreases items.len(),
{
    if items.len() > 0 && !items.first().has_null() {
        let rest = items.drop_first();
        lemma_first_null_idx(rest);
        assert(forall|j: int| 0 <= j < rest.len() ==> #[trigger] rest[j] == items[j + 1]);
        if first_null_idx(rest) == -1 {
            assert forall|j: int| 0 <= j < items.len() implies !(#[trigger] items[j]).has_null()
            by {
                if j > 0 {
                    assert(items[j] == rest[j - 1]);
                }
            }
        } else {
            let i = first_null_idx(rest);
            assert(items[i + 1] == rest[i]);
            assert forall|j: int| 0 <= j < i + 1 implies !(#[trigger] items[j]).has_null() by {
                if j > 0 {
                    assert(items[j] == rest[j - 1]);
                }
            }
        }
    }
}

/// `first_null_ent_idx` finds exactly the first entry whose value has a null.
pub proof fn lemma_first_null_ent_idx(entries: Seq<(Seq<u8>, Node)>)
    ensures
        first_null_ent_idx(entries) == -1 <==> (forall|j: int|
            0 <= j < entries.len() ==> !(#[trigger] entries[j]).1.has_null()),
        first_null_ent_idx(entries) >= 0 ==> {
            let i = first_null_ent_idx(entries);
            &&& 0 <= i < entries.len()
            &&& entries[i].1.has_null()
            &&& forall|j: int| 0 <= j < i ==> !(#[trigger] entries[j]).1.has_null()
        },
    decreases entries.len(),
{
    if entries.len() > 0 && !entries.first().1.has_null() {
        let rest = entries.drop_first();
        lemma_first_null_ent_idx(rest);
        assert(forall|j: int| 0 <= j < rest.len() ==> #[trigger] rest[j] == entries[j + 1]);
        if first_null_ent_idx(rest) == -1 {
            assert forall|j: int| 0 <= j < entries.len() implies !(#[trigger] entries[j]).1.has_null()
            by {
                if j > 0 {
                    assert(entries[j] == rest[j - 1]);
                }
            }
        } else {
            let i = first_null_ent_idx(rest);
            assert(entries[i + 1] == rest[i]);
            assert forall|j: int| 0 <= j < i + 1 implies !(#[trigger] entries[j]).1.has_null() by {
                if j > 0 {
                    assert(entries[j] == rest[j - 1]);
                }
            }
        }
    }
}

/// Mapping A-to-B leaves no datetime behind: every datetime becomes a string.
pub proof fn lemma_a_to_b_no_datetime(n: Node)
    ensures
        !a_to_b(n).has_datetime(),
    decreases n,
{
    match n {
        Node::Arr(items) => {
            lemma_a_to_b_seq_no_datetime(items);
        },
        Node::Table(entries) => {
            lemma_a_to_b_entries_no_datetime(entries);
        },
        _ => {},
    }
}

/// Sequence form of `lemma_a_to_b_no_datetime`.
pub proof fn lemma_a_to_b_seq_no_datetime(items: Seq<Node>)
    ensures
        !seq_has_datetime(a_to_b_seq(items)),
    decreases items,
{
    if items.len() > 0 {
        lemma_a_to_b_seq_no_datetime(items.drop_last());
        lemma_a_to_b_no_datetime(items.last());
        let s = a_to_b_seq(items);
        assert(s.drop_last() =~= a_to_b_seq(items.drop_last()));
    }
}

/// Entry form of `lemma_a_to_b_no_datetime`.
pub proof fn lemma_a_to_b_entries_no_datetime(entries: Seq<(Seq<u8>, Node)>)
    ensures
        !entries_have_datetime(a_to_b_entries(entries)),
    decreases entries,
{
    if entries.len() > 0 {
        lemma_a_to_b_entries_no_datetime(entries.drop_last());
        lemma_a_to_b_no_datetime(entries.last().1);
        let s = a_to_b_entries(entries);
        assert(s.drop_last() =~= a_to_b_entries(entries.drop_last()));
    }
}

/// Mapping A-to-B neither adds nor removes nulls.
pub proof fn lemma_a_to_b_has_null(n: Node)
    ensures
        a_to_b(n).has_null() == n.has_null(),
    decreases n,
{
    match n {
        Node::Arr(items) => {
            lemma_a_to_b_seq_null(items);
        },
        Node::Table(entries) => {
            lemma_a_to_b_entries_null(entries);
        },
        _ => {},
    }
}

/// Sequence form of `lemma_a_to_b_has_null`.
pub proof fn lemma_a_to_b_seq_null(items: Seq<Node>)
    ensures
        seq_has_null(a_to_b_seq(items)) == seq_has_null(items),
    decreases items,
{
    if items.len() > 0 {
        lemma_a_to_b_seq_null(items.drop_last());
        lemma_a_to_b_has_null(items.last());
        let s = a_to_b_seq(items);
        assert(s.drop_last() =~= a_to_b_seq(items.drop_last()));
    }
}

/// Entry form of `lemma_a_to_b_has_null`.
pub proof fn lemma_a_to_b_entries_null(entries: Seq<(Seq<u8>, Node)>)
    ensures
        entries_have_null(a_to_b_entries(entries)) == entries_have_null(entries),
    decreases entries,
{
    if entries.len() > 0 {
        lemma_a_to_b_entries_null(entries.drop_last());
        lemma_a_to_b_has_null(entries.last().1);
        let s = a_to_b_entries(entries);
        assert(s.drop_last() =~= a_to_b_entries(entries.drop_last()));
    }
}

/// On a tree without datetimes, the A-to-B mapping is the identity.
pub proof fn lemma_a_to_b_identity(n: Node)
    requires
        !n.has_datetime(),
    ensures
        a_to_b(n) == n,
    decreases n,
{
    match n {
        Node::Arr(items) => {
            lemma_a_to_b_seq_identity(items);
        },
        Node::Table(entries) => {
            lemma_a_to_b_entries_identity(entries);
        },
        _ => {},
    }
}

/// Sequence form of `lemma_a_to_b_identity`.
pub proof fn lemma_a_to_b_seq_identity(items: Seq<Node>)
    requires
        !seq_has_datetime(items),
    ensures
        a_to_b_seq(items) == items,
    decreases items,
{
    if items.len() > 0 {
        lemma_a_to_b_seq_identity(items.drop_last());
        lemma_a_to_b_identity(items.last());
        assert(a_to_b_seq(items) =~= items);
    } else {
        assert(a_to_b_seq(items) =~= items);
    }
}

/// Entry form of `lemma_a_to_b_identity`.
pub proof fn lemma_a_to_b_entries_identity(entries: Seq<(Seq<u8>, Node)>)
    requires
        !entries_have_datetime(entries),
    ensures
        a_to_b_entries(entries) == entries,
    decreases entries,
{
    if entries.len() > 0 {
        lemma_a_to_b_entries_identity(entries.drop_last());
        lemma_a_to_b_identity(entries.last().1);
        assert(a_to_b_entries(entries) =~= entries);
    } else {
        assert(a_to_b_entries(entries) =~= entries);
    }
}

/// A tree expressible in both formats without loss (no datetime, no null)
/// survives the round trip A-to-B-to-A unchanged, structure and order
/// included.
pub proof fn lemma_round_trip(n: Node)
    requires
        !n.has_datetime(),
        !n.has_null(),
    ensures
        b_to_a(a_to_b(n)) == Ok::<Node, Seq<Seq<u8>>>(n),
{
    lemma_a_to_b_identity(n);
}

/// A tree with datetimes always maps A-to-B (datetimes become strings), and
/// mapping the result back succeeds without re-typing those strings: the
/// B-to-A direction returns the mapped tree unchanged, datetime-free.
pub proof fn lemma_datetime_stays_string(n: Node)
    requires
        !n.has_null(),
    ensures
        !a_to_b(n).has_datetime(),
        b_to_a(a_to_b(n)) == Ok::<Node, Seq<Seq<u8>>>(a_to_b(n)),
{
    lemma_a_to_b_no_datetime(n);
    lemma_a_to_b_has_null(n);
}

/// A tree holding a null anywhere is rejected by the B-to-A mapping, with
/// the key path of its first null.
pub proof fn lemma_null_rejected(n: Node)
    requires
        n.has_null(),
    ensures
        b_to_a(n) == Err::<Node, Seq<Seq<u8>>>(first_null_path(n)),
{
}

/// Appending an item views as appending its node.
pub proof fn lemma_nodes_of_push(s: Seq<Value>, x: Value)
    ensures
        nodes_of(s.push(x)) == nodes_of(s).push(node_of(x)),
{
    assert(s.push(x).drop_last() =~= s);
    assert(s.push(x).last() == x);
}

/// Appending an entry views as appending its key and node.
pub proof fn lemma_entry_nodes_of_push(s: Seq<(Vec<u8>, Value)>, x: (Vec<u8>, Value))
    ensures
        entry_nodes_of(s.push(x)) == entry_nodes_of(s).push((x.0@, node_of(x.1))),
{
    assert(s.push(x).drop_last() =~= s);
    assert(s.push(x).last() == x);
}

/// `a_to_b_seq` distributes over push.
pub proof fn lemma_a_to_b_seq_push(s: Seq<Node>, x: Node)
    ensures
        a_to_b_seq(s.push(x)) == a_to_b_seq(s).push(a_to_b(x)),
{
    assert(s.push(x).drop_last() =~= s);
    assert(s.push(x).last() == x);
}

/// `a_to_b_entries` distributes over push.
pub proof fn lemma_a_to_b_entries_push(s: Seq<(Seq<u8>, Node)>, x: (Seq<u8>, Node))
    ensures
        a_to_b_entries(s.push(x)) == a_to_b_entries(s).push((x.0, a_to_b(x.1))),
{
    assert(s.push(x).drop_last() =~= s);
    assert(s.push(x).last() == x);
}

/// A fresh copy of a byte vector.
pub fn clone_bytes(t: &Vec<u8>) -> (r: Vec<u8>)
    ensures
        r@ == t@,
{
    let mut r: Vec<u8> = Vec::new();
    let mut i: usize = 0;
    while i < t.len()
        invariant
            i <= t.len(),
            r@ == t@.subrange(0, i as int),
        decreases t.len() - i,
    {
        r.push(t[i]);
        assert(r@ =~= t@.subrange(0, i + 1));
        i += 1;
    }
    assert(r@ =~= t@);
    r
}

/// Maps a structured-config tree into the document-object domain:
/// datetimes become strings of their literal text, all else maps
/// structurally, order preserved.
pub fn map_a_to_b(v: &Value) -> (r: Value)
    ensures
        r@ == a_to_b(v@),
    decreases v,
{
    match v {
        Value::Null => Value::Null,
        Value::Bool(b) => Value::Bool(*b),
        Value::Int(i) => Value::Int(*i),
        Value::Float(t) => Value::Float(clone_bytes(t)),
        Value::Str(t) => Value::Str(clone_bytes(t)),
        Value::DateTime(_, t) => Value::Str(clone_bytes(t)),
        Value::Arr(items) => Value::Arr(map_arr_a_to_b(items)),
        Value::Table(entries) => Value::Table(map_table_a_to_b(entries)),
    }
}

/// Element-wise A-to-B mapping of an array's items.
fn map_arr_a_to_b(items: &Vec<Value>) -> (r: Vec<Value>)
    ensures
        nodes_of(r@) == a_to_b_seq(nodes_of(items@)),
    decreases items,
{
    let mut out: Vec<Value> = Vec::new();
    let mut idx: usize = 0;
    while idx < items.len()
        invariant
            idx <= items.len(),
            nodes_of(out@) == a_to_b_seq(nodes_of(items@.take(idx as int))),
        decreases items.len() - idx,
    {
        let ghost prefix = items@.take(idx as int);
        let m = map_a_to_b(&items[idx]);
        let ghost out0 = out@;
        out.push(m);
        proof {
            assert(items@.take(idx + 1) =~= prefix.push(items@[idx as int]));
            lemma_nodes_of_push(prefix, items@[idx as int]);
            lemma_a_to_b_seq_push(nodes_of(prefix), node_of(items@[idx as int]));
            lemma_nodes_of_push(out0, m);
        }
        idx += 1;
    }
    proof {
        assert(items@.take(items@.len() as int) =~= items@);
    }
    out
}

/// Element-wise A-to-B mapping of a table's entries; keys are unchanged.
fn map_table_a_to_b(entries: &Vec<(Vec<u8>, Value)>) -> (r: Vec<(Vec<u8>, Value)>)
    ensures
        entry_nodes_of(r@) == a_to_b_entries(entry_nodes_of(entries@)),
    decreases entries,
{
    let mut out: Vec<(Vec<u8>, Value)> = Vec::new();
    let mut idx: usize = 0;
    while idx < entries.len()
        invariant
            idx <= entries.len(),
            entry_nodes_of(out@) == a_to_b_entries(entry_nodes_of(entries@.take(idx as int))),
        decreases entries.len() - idx,
    {
        let ghost prefix = entries@.take(idx as int);
        let key = clone_bytes(&entries[idx].0);
        let m = map_a_to_b(&entries[idx].1);
        let pair = (key, m);
        let ghost out0 = out@;
        let ghost gpair = pair;
        out.push(pair);
        proof {
            assert(entries@.take(idx + 1) =~= prefix.push(entries@[idx as int]));
            lemma_entry_nodes_of_push(prefix, entries@[idx as int]);
            lemma_a_to_b_entries_push(
                entry_nodes_of(prefix),
                (entries@[idx as int].0@, node_of(entries@[idx as int].1)),
            );
            lemma_entry_nodes_of_push(out0, gpair);
        }
        idx += 1;
    }
    proof {
        assert(entries@.take(entries@.len() as int) =~= entries@);
    }
    out
}

/// The byte views of a list of path segments.
pub open spec fn paths_of(segs: Seq<Vec<u8>>) -> Seq<Seq<u8>> {
    Seq::new(segs.len(), |i: int| segs[i]@)
}

/// The rejection produced by the B-to-A mapping: the key path of the first
/// null in the document, outermost segment first (array indexes appear as
/// decimal text).
#[derive(Debug)]
pub struct UnsupportedValue {
    pub path: Vec<Vec<u8>>,
}

/// Prepending a segment prepends its view.
proof fn lemma_paths_of_insert0(segs: Seq<Vec<u8>>, x: Vec<u8>)
    ensures
        paths_of(segs.insert(0, x)) == seq![x@] + paths_of(segs),
{
    assert(paths_of(segs.insert(0, x)) =~= seq![x@] + paths_of(segs));
}

/// Maps a document-object tree back into the structured-config domain: a
/// tree holding a null anywhere is rejected with the key path of its first
/// null; any other tree comes back unchanged (strings stay strings).
pub fn map_b_to_a(v: &Value) -> (r: Result<Value, UnsupportedValue>)
    ensures
        match r {
            Ok(w) => !v@.has_null() && w@ == v@,
            Err(e) => v@.has_null() && paths_of(e.path@) == first_null_path(v@),
        },
    decreases v,
{
    match v {
        Value::Null => {
            let e = UnsupportedValue { path: Vec::new() };
            proof {
                assert(paths_of(e.path@) =~= Seq::<Seq<u8>>::empty());
                assert(first_null_path(v@) =~= Seq::<Seq<u8>>::empty());
            }
            Err(e)
        },
        Value::Bool(b) => Ok(Value::Bool(*b)),
        Value::Int(i) => Ok(Value::Int(*i)),
        Value::Float(t) => Ok(Value::Float(clone_bytes(t))),
        Value::Str(t) => Ok(Value::Str(clone_bytes(t))),
        Value::DateTime(k, t) => Ok(Value::DateTime(*k, clone_bytes(t))),
        Value::Arr(items) => {
            match map_b_arr(items) {
                Ok(out) => Ok(Value::Arr(out)),
                Err(e) => Err(e),
            }
        },
        Value::Table(entries) => {
            match map_b_table(entries) {
                Ok(out) => Ok(Value::Table(out)),
                Err(e) => Err(e),
            }
        },
    }
}

/// Element-wise B-to-A mapping of an array's items; an error is tagged
/// with the offending index.
fn map_b_arr(items: &Vec<Value>) -> (r: Result<Vec<Value>, UnsupportedValue>)
    ensures
        match r {
            Ok(out) => !seq_has_null(nodes_of(items@)) && nodes_of(out@) == nodes_of(items@),
            Err(e) => seq_has_null(nodes_of(items@)) && paths_of(e.path@) == first_null_path(
                Node::Arr(nodes_of(items@)),
            ),
        },
    decreases items,
{
    let ghost ns = nodes_of(items@);
    proof {
        lemma_nodes_of(items@);
    }
    let mut out: Vec<Value> = Vec::new();
    let mut idx: usize = 0;
    while idx < items.len()
        invariant
            idx <= items.len(),
            ns == nodes_of(items@),
            nodes_of(items@).len() == items@.len(),
            forall|j: int|
                0 <= j < items@.len() ==> #[trigger] nodes_of(items@)[j] == node_of(items@[j]),
            nodes_of(out@) == nodes_of(items@.take(idx as int)),
            forall|j: int| 0 <= j < idx ==> !(#[trigger] ns[j]).has_null(),
        decreases items.len() - idx,
    {
        let ghost prefix = items@.take(idx as int);
        match map_b_to_a(&items[idx]) {
            Ok(w) => {
                let ghost out0 = out@;
                out.push(w);
                proof {
                    assert(items@.take(idx + 1) =~= prefix.push(items@[idx as int]));
                    lemma_nodes_of_push(prefix, items@[idx as int]);
                    lemma_nodes_of_push(out0, w);
                }
            },
            Err(mut e) => {
                proof {
                    lemma_first_null_idx(ns);
                    lemma_seq_has_null(ns);
                    assert(ns[idx as int].has_null());
                    assert(first_null_idx(ns) == idx as int);
                }
                let ghost segs0 = e.path@;
                let seg = crate::num::u64_dec(idx as u64);
                e.path.insert(0, seg);
                proof {
                    lemma_paths_of_insert0(segs0, seg);
                    assert(paths_of(e.path@) == seq![dec_digits(idx as nat)] + first_null_path(
                        ns[idx as int],
                    ));
                }
                return Err(e);
            },
        }
        idx += 1;
    }
    proof {
        assert(items@.take(items@.len() as int) =~= items@);
        lemma_seq_has_null(ns);
    }
    Ok(out)
}

/// Element-wise B-to-A mapping of a table's entries; an error is tagged
/// with the offending key.
fn map_b_table(entries: &Vec<(Vec<u8>, Value)>) -> (r: Result<
    Vec<(Vec<u8>, Value)>,
    UnsupportedValue,
>)
    ensures
        match r {
            Ok(out) => !entries_have_null(entry_nodes_of(entries@)) && entry_nodes_of(out@)
                == entry_nodes_of(entries@),
            Err(e) => entries_have_null(entry_nodes_of(entries@)) && paths_of(e.path@)
                == first_null_path(Node::Table(entry_nodes_of(entries@))),
        },
    decreases entries,
{
    let ghost ens = entry_nodes_of(entries@);
    proof {
        lemma_entry_nodes_of(entries@);
    }
    let mut out: Vec<(Vec<u8>, Value)> = Vec::new();
    let mut idx: usize = 0;
    while idx < entries.len()
        invariant
            idx <= entries.len(),
            ens == entry_nodes_of(entries@),
            entry_nodes_of(entries@).len() == entries@.len(),
            forall|j: int|
                0 <= j < entries@.len() ==> #[trigger] entry_nodes_of(entries@)[j] == (
                entries@[j].0@,
                node_of(entries@[j].1),
                ),
            entry_nodes_of(out@) == entry_nodes_of(entries@.take(idx as int)),
            forall|j: int| 0 <= j < idx ==> !(#[trigger] ens[j].1).has_null(),
        decreases entries.len() - idx,
    {
        let ghost prefix = entries@.take(idx as int);
        match map_b_to_a(&entries[idx].1) {
            Ok(w) => {
                let key = clone_bytes(&entries[idx].0);
                let pair = (key, w);
                let ghost out0 = out@;
                let ghost gpair = pair;
                out.push(pair);
                proof {
                    assert(entries@.take(idx + 1) =~= prefix.push(entries@[idx as int]));
                    lemma_entry_nodes_of_push(prefix, entries@[idx as int]);
                    lemma_entry_nodes_of_push(out0, gpair);
                    assert(entry_nodes_of(out@) =~= entry_nodes_of(entries@.take(idx + 1)));
                }
            },
            Err(mut e) => {
                proof {
                    lemma_first_null_ent_idx(ens);
                    lemma_entries_have_null(ens);
                    assert(ens[idx as int].1.has_null());
                    assert(first_null_ent_idx(ens) == idx as int);
                }
                let ghost segs0 = e.path@;
                let seg = clone_bytes(&entries[idx].0);
                e.path.insert(0, seg);
                proof {
                    lemma_paths_of_insert0(segs0, seg);
                    assert(paths_of(e.path@) == seq![ens[idx as int].0] + first_null_path(
                        ens[idx as int].1,
                    ));
                }
                return Err(e);
            },
        }
        idx += 1;
    }
    proof {
        assert(entries@.take(entries@.len() as int) =~= entries@);
        lemma_entries_have_null(ens);
    }
    Ok(out)
}


} // verus!
