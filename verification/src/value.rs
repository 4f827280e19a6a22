//! The common value tree into which both document formats are parsed and
//! from which both are serialized.
//!
//! Text is handled as UTF-8 bytes throughout: string payloads, float
//! literals and datetime literals are byte vectors, so the whole model is
//! plain data that contracts can speak about through `Node`, its
//! mathematical view.

use vstd::prelude::*;

verus! {

broadcast use vstd::std_specs::vec::group_vec_axioms, vstd::seq::group_seq_axioms;

/// The shape of a datetime literal: the structured-config format
/// distinguishes four datetime subtypes, and the conversion policy needs to
/// know which one a value carries.
#[derive(Clone, Copy, PartialEq, Eq, Structural, Debug)]
pub enum DtKind {
    /// Date, time and a UTC offset (`1979-05-27T07:32:00Z`).
    Offset,
    /// Date and time without an offset (`1979-05-27T07:32:00`).
    LocalDateTime,
    /// Date only (`1979-05-27`).
    LocalDate,
    /// Time only (`07:32:00`).
    LocalTime,
}

/// A value expressible in at least one of the two formats.
///
/// `Float` and `DateTime` carry the literal text of the value rather than a
/// machine number: the literal is what both writers emit, so integers and
/// floats are never conflated and datetimes keep their exact spelling.
/// A `Table` keeps its entries in insertion order; both readers reject a
/// key repeated at one level, so its keys are unique.
pub enum Value {
    /// The document-object format's null; the structured-config format
    /// cannot express it.
    Null,
    Bool(bool),
    Int(i64),
    /// A float, kept as its literal text (digits with a fraction and/or
    /// exponent part), e.g. `42.0`.
    Float(Vec<u8>),
    /// UTF-8 string contents (already unescaped).
    Str(Vec<u8>),
    /// A datetime, kept as its literal text together with its subtype.
    DateTime(DtKind, Vec<u8>),
    Arr(Vec<Value>),
    /// Key/value pairs in insertion order.
    Table(Vec<(Vec<u8>, Value)>),
}

/// The mathematical view of a `Value`: the same tree over `Seq`, `int` and
/// `bool`. All contracts in this crate are stated over `Node`.
#[verifier::ext_equal]
pub enum Node {
    Null,
    Bool(bool),
    Int(int),
    Float(Seq<u8>),
    Str(Seq<u8>),
    DateTime(DtKind, Seq<u8>),
    Arr(Seq<Node>),
    Table(Seq<(Seq<u8>, Node)>),
}

/// The view of a `Value` as a `Node`, defined structurally.
pub open spec fn node_of(v: Value) -> Node
    decreases v,
{
    match v {
        Value::Null => Node::Null,
        Value::Bool(b) => Node::Bool(b),
        Value::Int(i) => Node::Int(i as int),
        Value::Float(t) => Node::Float(t@),
        Value::Str(t) => Node::Str(t@),
        Value::DateTime(k, t) => Node::DateTime(k, t@),
        Value::Arr(items) => Node::Arr(nodes_of(items@)),
        Value::Table(entries) => Node::Table(entry_nodes_of(entries@)),
    }
}

/// Element-wise view of an array's items.
pub open spec fn nodes_of(items: Seq<Value>) -> Seq<Node>
    decreases items,
{
    if items.len() == 0 {
        Seq::empty()
    } else {
        nodes_of(items.drop_last()).push(node_of(items.last()))
    }
}

/// Element-wise view of a table's entries.
pub open spec fn entry_nodes_of(entries: Seq<(Vec<u8>, Value)>) -> Seq<(Seq<u8>, Node)>
    decreases entries,
{
    if entries.len() == 0 {
        Seq::empty()
    } else {
        entry_nodes_of(entries.drop_last()).push(
            (entries.last().0@, node_of(entries.last().1)),
        )
    }
}

impl View for Value {
    type V = Node;

    open spec fn view(&self) -> Node {
        node_of(*self)
    }
}

/// `nodes_of` is the element-wise image of `node_of`.
pub proof fn lemma_nodes_of(items: Seq<Value>)
    ensures
        nodes_of(items).len() == items.len(),
        forall|i: int| 0 <= i < items.len() ==> #[trigger] nodes_of(items)[i] == node_of(items[i]),
    decreases items.len(),
{
    if items.len() > 0 {
        lemma_nodes_of(items.drop_last());
    }
}

/// `entry_nodes_of` is the element-wise image of the entry view.
pub proof fn lemma_entry_nodes_of(entries: Seq<(Vec<u8>, Value)>)
    ensures
        entry_nodes_of(entries).len() == entries.len(),
        forall|i: int|
            0 <= i < entries.len() ==> #[trigger] entry_nodes_of(entries)[i] == (
            entries[i].0@,
            node_of(entries[i].1),
            ),
    decreases entries.len(),
{
    if entries.len() > 0 {
        lemma_entry_nodes_of(entries.drop_last());
    }
}

/// Whether a table (given as its entry sequence) holds an entry under `key`.
pub open spec fn table_has_key(entries: Seq<(Seq<u8>, Node)>, key: Seq<u8>) -> bool {
    exists|i: int| 0 <= i < entries.len() && entries[i].0 == key
}

/// Keys of a table are pairwise distinct.
pub open spec fn keys_unique(entries: Seq<(Seq<u8>, Node)>) -> bool {
    forall|i: int, j: int| 0 <= i < j < entries.len() ==> entries[i].0 != entries[j].0
}

/// Adding a fresh key keeps a table's keys distinct.
pub proof fn lemma_keys_unique_push(entries: Seq<(Seq<u8>, Node)>, key: Seq<u8>, val: Node)
    requires
        keys_unique(entries),
        !table_has_key(entries, key),
    ensures
        keys_unique(entries.push((key, val))),
{
    let s = entries.push((key, val));
    assert forall|i: int, j: int| 0 <= i < j < s.len() implies s[i].0 != s[j].0 by {
        if j < entries.len() {
            assert(s[i] == entries[i] && s[j] == entries[j]);
        } else {
            assert(s[i] == entries[i] && s[j] == (key, val));
            assert(entries[i].0 != key);
        }
    }
}

impl Node {
    /// Well-formedness: every table in the tree has pairwise distinct keys.
    pub open spec fn wf(self) -> bool
        decreases self,
    {
        match self {
            Node::Arr(items) => seq_all_wf(items),
            Node::Table(entries) => keys_unique(entries) && entries_all_wf(entries),
            _ => true,
        }
    }

    /// Whether the tree holds a `Null` anywhere.
    pub open spec fn has_null(self) -> bool
        decreases self,
    {
        match self {
            Node::Null => true,
            Node::Arr(items) => seq_has_null(items),
            Node::Table(entries) => entries_have_null(entries),
            _ => false,
        }
    }

    /// Whether the tree holds a datetime anywhere.
    pub open spec fn has_datetime(self) -> bool
        decreases self,
    {
        match self {
            Node::DateTime(_, _) => true,
            Node::Arr(items) => seq_has_datetime(items),
            Node::Table(entries) => entries_have_datetime(entries),
            _ => false,
        }
    }
}

/// Every item of the sequence is well-formed.
pub open spec fn seq_all_wf(items: Seq<Node>) -> bool
    decreases items,
{
    items.len() == 0 || (seq_all_wf(items.drop_last()) && items.last().wf())
}

/// Every entry's value is well-formed.
pub open spec fn entries_all_wf(entries: Seq<(Seq<u8>, Node)>) -> bool
    decreases entries,
{
    entries.len() == 0 || (entries_all_wf(entries.drop_last()) && entries.last().1.wf())
}

/// `seq_all_wf` holds exactly when every item is well-formed.
pub proof fn lemma_seq_all_wf(items: Seq<Node>)
    ensures
        seq_all_wf(items) <==> (forall|i: int|
            0 <= i < items.len() ==> (#[trigger] items[i]).wf()),
    decreases items.len(),
{
    if items.len() > 0 {
        lemma_seq_all_wf(items.drop_last());
        if seq_all_wf(items) {
            assert forall|i: int| 0 <= i < items.len() implies (#[trigger] items[i]).wf() by {
                if i < items.len() - 1 {
                    assert(items.drop_last()[i].wf());
                }
            }
        }
        if forall|i: int| 0 <= i < items.len() ==> (#[trigger] items[i]).wf() {
            assert forall|i: int|
                0 <= i < items.len() - 1 implies (#[trigger] items.drop_last()[i]).wf() by {
                assert(items.drop_last()[i] == items[i]);
            }
        }
    }
}

/// `entries_all_wf` holds exactly when every entry's value is well-formed.
pub proof fn lemma_entries_all_wf(entries: Seq<(Seq<u8>, Node)>)
    ensures
        entries_all_wf(entries) <==> (forall|i: int|
            0 <= i < entries.len() ==> (#[trigger] entries[i].1).wf()),
    decreases entries.len(),
{
    if entries.len() > 0 {
        lemma_entries_all_wf(entries.drop_last());
        if entries_all_wf(entries) {
            assert forall|i: int|
                0 <= i < entries.len() implies (#[trigger] entries[i].1).wf() by {
                if i < entries.len() - 1 {
                    assert(entries.drop_last()[i].1.wf());
                }
            }
        }
        if forall|i: int| 0 <= i < entries.len() ==> (#[trigger] entries[i].1).wf() {
            assert forall|i: int|
                0 <= i < entries.len() - 1 implies (#[trigger] entries.drop_last()[
                i].1).wf() by {
                assert(entries.drop_last()[i] == entries[i]);
            }
        }
    }
}

/// Some item of the sequence holds a null.
pub open spec fn seq_has_null(items: Seq<Node>) -> bool
    decreases items,
{
    items.len() != 0 && (seq_has_null(items.drop_last()) || items.last().has_null())
}

/// Some entry's value holds a null.
pub open spec fn entries_have_null(entries: Seq<(Seq<u8>, Node)>) -> bool
    decreases entries,
{
    entries.len() != 0 && (entries_have_null(entries.drop_last())
        || entries.last().1.has_null())
}

/// Some item of the sequence holds a datetime.
pub open spec fn seq_has_datetime(items: Seq<Node>) -> bool
    decreases items,
{
    items.len() != 0 && (seq_has_datetime(items.drop_last()) || items.last().has_datetime())
}

/// Some entry's value holds a datetime.
pub open spec fn entries_have_datetime(entries: Seq<(Seq<u8>, Node)>) -> bool
    decreases entries,
{
    entries.len() != 0 && (entries_have_datetime(entries.drop_last())
        || entries.last().1.has_datetime())
}

/// `seq_has_null` holds exactly when some item has a null.
pub proof fn lemma_seq_has_null(items: Seq<Node>)
    ensures
        seq_has_null(items) <==> exists|i: int|
            0 <= i < items.len() && (#[trigger] items[i]).has_null(),
    decreases items.len(),
{
    if items.len() > 0 {
        lemma_seq_has_null(items.drop_last());
        if seq_has_null(items.drop_last()) {
            let i = choose|i: int|
                0 <= i < items.len() - 1 && (#[trigger] items.drop_last()[i]).has_null();
            assert(items[i].has_null());
        }
        if exists|i: int| 0 <= i < items.len() && (#[trigger] items[i]).has_null() {
            let i = choose|i: int| 0 <= i < items.len() && (#[trigger] items[i]).has_null();
            if i < items.len() - 1 {
                assert(items.drop_last()[i].has_null());
            }
        }
    }
}

/// `entries_have_null` holds exactly when some entry's value has a null.
pub proof fn lemma_entries_have_null(entries: Seq<(Seq<u8>, Node)>)
    ensures
        entries_have_null(entries) <==> exists|i: int|
            0 <= i < entries.len() && (#[trigger] entries[i].1).has_null(),
    decreases entries.len(),
{
    if entries.len() > 0 {
        lemma_entries_have_null(entries.drop_last());
        if entries_have_null(entries.drop_last()) {
            let i = choose|i: int|
                0 <= i < entries.len() - 1 && (#[trigger] entries.drop_last()[i].1).has_null();
            assert(entries[i].1.has_null());
        }
        if exists|i: int| 0 <= i < entries.len() && (#[trigger] entries[i].1).has_null() {
            let i = choose|i: int|
                0 <= i < entries.len() && (#[trigger] entries[i].1).has_null();
            if i < entries.len() - 1 {
                assert(entries.drop_last()[i].1.has_null());
            }
        }
    }
}

} // verus!
