//! The structured-config reader: text to value tree.
//!
//! Grammar: `key = value` lines, `[dotted.section]` headers, comments
//! (`#` to end of line), and blank lines. Keys are bare
//! (letters, digits, `_`, `-`) or quoted. Values are quoted strings,
//! booleans, integers (64 signed bits; anything larger is rejected),
//! floats kept as their literal text, datetimes in four shapes (offset,
//! local date-time, local date, local time) kept as their literal text,
//! single-line arrays, and inline tables. A key defined twice at the same
//! level, or a section header repeating an existing path, is rejected.

use vstd::prelude::*;
use crate::value::{Value, Node, DtKind, node_of, nodes_of, entry_nodes_of, table_has_key};
use crate::num::is_digit;
use crate::lex::{ParseKind, ParseErr, bump, parse_string, parse_number, scan_digits};
use crate::toml_out::is_bare_byte;

verus! {

broadcast use vstd::std_specs::vec::group_vec_axioms, vstd::seq::group_seq_axioms;

/// Whitespace within a line (space, tab, and a bare carriage return).
pub open spec fn is_tws(b: u8) -> bool {
    b == 32 || b == 9 || b == 13
}

/// First position at or after `i` holding no line whitespace.
pub open spec fn skip_tws(s: Seq<u8>, i: int) -> int
    decreases s.len() - i,
{
    if 0 <= i < s.len() && is_tws(s[i]) {
        skip_tws(s, i + 1)
    } else {
        i
    }
}

/// `skip_tws` moves forward and not past the end.
pub proof fn lemma_skip_tws(s: Seq<u8>, i: int)
    ensures
        i <= skip_tws(s, i),
        i <= s.len() ==> skip_tws(s, i) <= s.len(),
    decreases s.len() - i,
{
    if 0 <= i < s.len() && is_tws(s[i]) {
        lemma_skip_tws(s, i + 1);
    }
}

/// First position at or after `i` holding a newline, or the end.
pub open spec fn scan_to_nl(s: Seq<u8>, i: int) -> int
    decreases s.len() - i,
{
    if 0 <= i < s.len() && s[i] != 10 {
        scan_to_nl(s, i + 1)
    } else {
        i
    }
}

/// `scan_to_nl` moves forward and not past the end.
pub proof fn lemma_scan_to_nl(s: Seq<u8>, i: int)
    ensures
        i <= scan_to_nl(s, i),
        i <= s.len() ==> scan_to_nl(s, i) <= s.len(),
    decreases s.len() - i,
{
    if 0 <= i < s.len() && s[i] != 10 {
        lemma_scan_to_nl(s, i + 1);
    }
}

/// End of the bare-key run starting at `i`.
pub open spec fn scan_bare(s: Seq<u8>, i: int) -> int
    decreases s.len() - i,
{
    if 0 <= i < s.len() && is_bare_byte(s[i]) {
        scan_bare(s, i + 1)
    } else {
        i
    }
}

/// `scan_bare` moves forward and not past the end.
pub proof fn lemma_scan_bare(s: Seq<u8>, i: int)
    ensures
        i <= scan_bare(s, i),
        i <= s.len() ==> scan_bare(s, i) <= s.len(),
    decreases s.len() - i,
{
    if 0 <= i < s.len() && is_bare_byte(s[i]) {
        lemma_scan_bare(s, i + 1);
    }
}

/// One key at `i`: bare or quoted.
pub open spec fn parse_key(s: Seq<u8>, i: int) -> Result<(Seq<u8>, int), (int, ParseKind)> {
    if !(0 <= i < s.len()) {
        Err((i, ParseKind::Syntax))
    } else if s[i] == 34 {
        parse_string(s, i)
    } else {
        let e = scan_bare(s, i);
        if e == i {
            Err((i, ParseKind::Syntax))
        } else {
            Ok((s.subrange(i, e), e))
        }
    }
}

/// A dotted key path from `i` (line whitespace around dots allowed);
/// returns the segments and the position of the first byte after the path.
pub open spec fn parse_path(s: Seq<u8>, i: int, acc: Seq<Seq<u8>>) -> Result<
    (Seq<Seq<u8>>, int),
    (int, ParseKind),
>
    decreases s.len() - i,
    via parse_path_dec
{
    let j = skip_tws(s, i);
    if i < 0 {
        Err((i, ParseKind::Syntax))
    } else {
        match parse_key(s, j) {
            Err(e) => Err(e),
            Ok((k, n)) => {
                let m = skip_tws(s, bump(j, n));
                if m < s.len() && s[m] == 46 {
                    parse_path(s, m + 1, acc.push(k))
                } else {
                    Ok((acc.push(k), m))
                }
            },
        }
    }
}

#[via_fn]
proof fn parse_path_dec(s: Seq<u8>, i: int, acc: Seq<Seq<u8>>) {
    assert forall|x: int| #[trigger] skip_tws(s, x) >= x && (x <= s.len() ==> skip_tws(s, x)
        <= s.len()) by {
        lemma_skip_tws(s, x);
    }
}

/// Whether a date (`DDDD-`) starts at `i`.
pub open spec fn date_starts(s: Seq<u8>, i: int) -> bool {
    i + 5 <= s.len() && is_digit(s[i]) && is_digit(s[i + 1]) && is_digit(s[i + 2]) && is_digit(
        s[i + 3],
    ) && s[i + 4] == 45
}

/// Whether a time (`DD:`) starts at `i`.
pub open spec fn time_starts(s: Seq<u8>, i: int) -> bool {
    i + 3 <= s.len() && is_digit(s[i]) && is_digit(s[i + 1]) && s[i + 2] == 58
}

/// End of a full date shape (`DDDD-DD-DD`) at `i`, if it is one.
pub open spec fn date_shape(s: Seq<u8>, i: int) -> Option<int> {
    if i + 10 <= s.len() && is_digit(s[i]) && is_digit(s[i + 1]) && is_digit(s[i + 2])
        && is_digit(s[i + 3]) && s[i + 4] == 45 && is_digit(s[i + 5]) && is_digit(s[i + 6]) && s[
        i + 7] == 45 && is_digit(s[i + 8]) && is_digit(s[i + 9]) {
        Some(i + 10)
    } else {
        None
    }
}

/// End of a time shape (`DD:DD:DD` with optional `.` fraction) at `i`.
pub open spec fn time_shape(s: Seq<u8>, i: int) -> Option<int> {
    if i + 8 <= s.len() && is_digit(s[i]) && is_digit(s[i + 1]) && s[i + 2] == 58 && is_digit(
        s[i + 3],
    ) && is_digit(s[i + 4]) && s[i + 5] == 58 && is_digit(s[i + 6]) && is_digit(s[i + 7]) {
        if i + 8 < s.len() && s[i + 8] == 46 {
            let fe = scan_digits(s, i + 9);
            if fe > i + 9 {
                Some(fe)
            } else {
                None
            }
        } else {
            Some(i + 8)
        }
    } else {
        None
    }
}

/// End of a UTC-offset shape (`Z` or `+DD:DD`/`-DD:DD`) at `i`.
pub open spec fn offset_shape(s: Seq<u8>, i: int) -> Option<int> {
    if i < s.len() && (s[i] == 90 || s[i] == 122) {
        Some(i + 1)
    } else if i + 6 <= s.len() && (s[i] == 43 || s[i] == 45) && is_digit(s[i + 1]) && is_digit(
        s[i + 2],
    ) && s[i + 3] == 58 && is_digit(s[i + 4]) && is_digit(s[i + 5]) {
        Some(i + 6)
    } else {
        None
    }
}

/// The datetime literal at `i`: one of the four shapes, kept as its text.
pub open spec fn parse_datetime(s: Seq<u8>, i: int) -> Result<(Node, int), (int, ParseKind)> {
    match date_shape(s, i) {
        Some(de) => {
            if de < s.len() && (s[de] == 84 || s[de] == 116) {
                match time_shape(s, de + 1) {
                    None => Err((de + 1, ParseKind::Datetime)),
                    Some(te) => match offset_shape(s, te) {
                        Some(oe) => Ok((
                            Node::DateTime(DtKind::Offset, s.subrange(i, oe)),
                            oe,
                        )),
                        None => Ok((
                            Node::DateTime(DtKind::LocalDateTime, s.subrange(i, te)),
                            te,
                        )),
                    },
                }
            } else {
                Ok((Node::DateTime(DtKind::LocalDate, s.subrange(i, de)), de))
            }
        },
        None => match time_shape(s, i) {
            Some(te) => Ok((Node::DateTime(DtKind::LocalTime, s.subrange(i, te)), te)),
            None => Err((i, ParseKind::Datetime)),
        },
    }
}

/// An inline value at `i` (no leading whitespace).
pub open spec fn toml_value(s: Seq<u8>, i: int) -> Result<(Node, int), (int, ParseKind)>
    decreases s.len() - i, 0int,
{
    if i >= s.len() || i < 0 {
        Err((i, ParseKind::Syntax))
    } else if s[i] == 34 {
        match parse_string(s, i) {
            Ok((t, n)) => Ok((Node::Str(t), n)),
            Err(e) => Err(e),
        }
    } else if s[i] == 116 {
        if i + 4 <= s.len() && s[i + 1] == 114 && s[i + 2] == 117 && s[i + 3] == 101 {
            Ok((Node::Bool(true), i + 4))
        } else {
            Err((i, ParseKind::Syntax))
        }
    } else if s[i] == 102 {
        if i + 5 <= s.len() && s[i + 1] == 97 && s[i + 2] == 108 && s[i + 3] == 115 && s[i + 4]
            == 101 {
            Ok((Node::Bool(false), i + 5))
        } else {
            Err((i, ParseKind::Syntax))
        }
    } else if s[i] == 91 {
        toml_items(s, i + 1, Seq::empty(), true)
    } else if s[i] == 123 {
        toml_entries(s, i + 1, Seq::empty(), true)
    } else if s[i] == 45 {
        parse_number(s, i, false)
    } else if is_digit(s[i]) {
        if date_starts(s, i) || time_starts(s, i) {
            parse_datetime(s, i)
        } else {
            parse_number(s, i, false)
        }
    } else {
        Err((i, ParseKind::Syntax))
    }
}

/// Array items from `i` (just after `[` or a `,`), single line.
pub open spec fn toml_items(s: Seq<u8>, i: int, acc: Seq<Node>, first: bool) -> Result<
    (Node, int),
    (int, ParseKind),
>
    decreases s.len() - i, 1int,
    via toml_items_dec
{
    let j = skip_tws(s, i);
    if i < 0 || j >= s.len() {
        Err((j, ParseKind::Syntax))
    } else if first && s[j] == 93 {
        Ok((Node::Arr(acc), j + 1))
    } else {
        match toml_value(s, j) {
            Err(e) => Err(e),
            Ok((v, n0)) => {
                let k = skip_tws(s, bump(j, n0));
                if k >= s.len() {
                    Err((k, ParseKind::Syntax))
                } else if s[k] == 44 {
                    toml_items(s, k + 1, acc.push(v), false)
                } else if s[k] == 93 {
                    Ok((Node::Arr(acc.push(v)), k + 1))
                } else {
                    Err((k, ParseKind::Syntax))
                }
            },
        }
    }
}

/// Inline-table entries from `i` (just after `{` or a `,`).
pub open spec fn toml_entries(
    s: Seq<u8>,
    i: int,
    acc: Seq<(Seq<u8>, Node)>,
    first: bool,
) -> Result<(Node, int), (int, ParseKind)>
    decreases s.len() - i, 1int,
    via toml_entries_dec
{
    let j = skip_tws(s, i);
    if i < 0 || j >= s.len() {
        Err((j, ParseKind::Syntax))
    } else if first && s[j] == 125 {
        Ok((Node::Table(acc), j + 1))
    } else {
        match parse_key(s, j) {
            Err(e) => Err(e),
            Ok((key, n1)) => {
                if table_has_key(acc, key) {
                    Err((j, ParseKind::DuplicateKey))
                } else {
                    let k = skip_tws(s, bump(j, n1));
                    if k >= s.len() || s[k] != 61 {
                        Err((k, ParseKind::Syntax))
                    } else {
                        let m = skip_tws(s, k + 1);
                        match toml_value(s, m) {
                            Err(e) => Err(e),
                            Ok((v, n2)) => {
                                let q = skip_tws(s, bump(m, n2));
                                if q >= s.len() {
                                    Err((q, ParseKind::Syntax))
                                } else if s[q] == 44 {
                                    toml_entries(s, q + 1, acc.push((key, v)), false)
                                } else if s[q] == 125 {
                                    Ok((Node::Table(acc.push((key, v))), q + 1))
                                } else {
                                    Err((q, ParseKind::Syntax))
                                }
                            },
                        }
                    }
                }
            },
        }
    }
}

#[via_fn]
proof fn toml_items_dec(s: Seq<u8>, i: int, acc: Seq<Node>, first: bool) {
    assert forall|x: int| #[trigger] skip_tws(s, x) >= x && (x <= s.len() ==> skip_tws(s, x)
        <= s.len()) by {
        lemma_skip_tws(s, x);
    }
}

#[via_fn]
proof fn toml_entries_dec(s: Seq<u8>, i: int, acc: Seq<(Seq<u8>, Node)>, first: bool) {
    assert forall|x: int| #[trigger] skip_tws(s, x) >= x && (x <= s.len() ==> skip_tws(s, x)
        <= s.len()) by {
        lemma_skip_tws(s, x);
    }
}

/// Index of `key` in a table's entries, or -1.
pub open spec fn find_key(entries: Seq<(Seq<u8>, Node)>, key: Seq<u8>) -> int
    decreases entries.len(),
{
    if entries.len() == 0 {
        -1
    } else if entries.first().0 == key {
        0
    } else {
        let rest = find_key(entries.drop_first(), key);
        if rest < 0 {
            -1
        } else {
            rest + 1
        }
    }
}

/// `find_key` finds exactly the first entry under `key`.
pub proof fn lemma_find_key(entries: Seq<(Seq<u8>, Node)>, key: Seq<u8>)
    ensures
        find_key(entries, key) == -1 <==> (forall|j: int|
            0 <= j < entries.len() ==> (#[trigger] entries[j]).0 != key),
        find_key(entries, key) >= 0 ==> {
            let i = find_key(entries, key);
            &&& 0 <= i < entries.len()
            &&& entries[i].0 == key
            &&& forall|j: int| 0 <= j < i ==> (#[trigger] entries[j]).0 != key
        },
    decreases entries.len(),
{
    if entries.len() > 0 && entries.first().0 != key {
        let rest = entries.drop_first();
        lemma_find_key(rest, key);
        assert(forall|j: int| 0 <= j < rest.len() ==> #[trigger] rest[j] == entries[j + 1]);
        if find_key(rest, key) == -1 {
            assert forall|j: int| 0 <= j < entries.len() implies (#[trigger] entries[j]).0
                != key by {
                if j > 0 {
                    assert(entries[j] == rest[j - 1]);
                }
            }
        } else {
            let i = find_key(rest, key);
            assert(entries[i + 1] == rest[i]);
            assert forall|j: int| 0 <= j < i + 1 implies (#[trigger] entries[j]).0 != key by {
                if j > 0 {
                    assert(entries[j] == rest[j - 1]);
                }
            }
        }
    }
}

/// Inserts `key = val` into the table reached from `root` along `path`;
/// `None` when the path runs through a non-table or is broken, or when the
/// key already exists at the target level.
pub open spec fn insert_at(
    root: Seq<(Seq<u8>, Node)>,
    path: Seq<Seq<u8>>,
    key: Seq<u8>,
    val: Node,
) -> Option<Seq<(Seq<u8>, Node)>>
    decreases path.len(),
{
    if path.len() == 0 {
        if table_has_key(root, key) {
            None
        } else {
            Some(root.push((key, val)))
        }
    } else {
        let idx = find_key(root, path.first());
        if idx < 0 {
            None
        } else {
            match root[idx].1 {
                Node::Table(sub) => match insert_at(sub, path.drop_first(), key, val) {
                    None => None,
                    Some(sub2) => Some(root.update(idx, (root[idx].0, Node::Table(sub2)))),
                },
                _ => None,
            }
        }
    }
}

/// A chain of empty tables along `path` (the last one empty).
pub open spec fn make_path(path: Seq<Seq<u8>>) -> Node
    decreases path.len(),
{
    if path.len() == 0 {
        Node::Table(Seq::empty())
    } else {
        Node::Table(seq![(path.first(), make_path(path.drop_first()))])
    }
}

/// Creates the (so far absent) table named by `path`, building
/// intermediate tables as needed; `None` when the full path already names
/// something, or runs through a non-table.
pub open spec fn insert_table_at(root: Seq<(Seq<u8>, Node)>, path: Seq<Seq<u8>>) -> Option<
    Seq<(Seq<u8>, Node)>,
>
    decreases path.len(),
{
    if path.len() == 0 {
        None
    } else {
        let idx = find_key(root, path.first());
        if idx < 0 {
            Some(root.push((path.first(), make_path(path.drop_first()))))
        } else if path.len() == 1 {
            None
        } else {
            match root[idx].1 {
                Node::Table(sub) => match insert_table_at(sub, path.drop_first()) {
                    None => None,
                    Some(sub2) => Some(root.update(idx, (root[idx].0, Node::Table(sub2)))),
                },
                _ => None,
            }
        }
    }
}

/// The rest of a line after a value or header: optional line whitespace,
/// optional comment, then a newline or the end. Returns where the next
/// line starts.
pub open spec fn line_end(s: Seq<u8>, i: int) -> Result<int, (int, ParseKind)> {
    let j = skip_tws(s, i);
    if j >= s.len() {
        Ok(s.len() as int)
    } else if s[j] == 10 {
        Ok(j + 1)
    } else if s[j] == 35 {
        let e = scan_to_nl(s, j);
        if e >= s.len() {
            Ok(e)
        } else {
            Ok(e + 1)
        }
    } else {
        Err((j, ParseKind::Syntax))
    }
}

/// A successful `line_end` never points past the end.
pub proof fn lemma_line_end(s: Seq<u8>, i: int)
    ensures
        match line_end(s, i) {
            Ok(c) => c <= s.len(),
            Err(_) => true,
        },
{
    lemma_skip_tws(s, i);
    lemma_scan_to_nl(s, skip_tws(s, i));
}

/// The lines of a document from `i`: `root` is the tree built so far and
/// `cur` the path of the section the following keys land in.
pub open spec fn parse_lines(
    s: Seq<u8>,
    i: int,
    root: Seq<(Seq<u8>, Node)>,
    cur: Seq<Seq<u8>>,
) -> Result<Seq<(Seq<u8>, Node)>, (int, ParseKind)>
    decreases s.len() - i,
    via parse_lines_dec
{
    let j = skip_tws(s, i);
    if i < 0 {
        Err((i, ParseKind::Syntax))
    } else if j >= s.len() {
        Ok(root)
    } else if s[j] == 10 {
        parse_lines(s, j + 1, root, cur)
    } else if s[j] == 35 {
        let e = scan_to_nl(s, j);
        parse_lines(s, bump(j, e), root, cur)
    } else if s[j] == 91 {
        match parse_path(s, j + 1, Seq::empty()) {
            Err(e) => Err(e),
            Ok((path, m)) => {
                if m < s.len() && s[m] == 93 {
                    match insert_table_at(root, path) {
                        None => Err((j, ParseKind::DuplicateKey)),
                        Some(root2) => match line_end(s, m + 1) {
                            Err(e) => Err(e),
                            Ok(c) => parse_lines(s, bump(j, c), root2, path),
                        },
                    }
                } else {
                    Err((m, ParseKind::Syntax))
                }
            },
        }
    } else {
        match parse_key(s, j) {
            Err(e) => Err(e),
            Ok((key, n)) => {
                let m = skip_tws(s, bump(j, n));
                if m < s.len() && s[m] == 61 {
                    let w = skip_tws(s, m + 1);
                    match toml_value(s, w) {
                        Err(e) => Err(e),
                        Ok((v, n2)) => match line_end(s, bump(w, n2)) {
                            Err(e) => Err(e),
                            Ok(c) => match insert_at(root, cur, key, v) {
                                None => Err((j, ParseKind::DuplicateKey)),
                                Some(root2) => parse_lines(s, bump(j, c), root2, cur),
                            },
                        },
                    }
                } else {
                    Err((m, ParseKind::Syntax))
                }
            },
        }
    }
}

#[via_fn]
proof fn parse_lines_dec(s: Seq<u8>, i: int, root: Seq<(Seq<u8>, Node)>, cur: Seq<Seq<u8>>) {
    assert forall|x: int| #[trigger] skip_tws(s, x) >= x && (x <= s.len() ==> skip_tws(s, x)
        <= s.len()) by {
        lemma_skip_tws(s, x);
    }
    assert forall|x: int| #[trigger] scan_to_nl(s, x) >= x && (x <= s.len() ==> scan_to_nl(
        s,
        x,
    ) <= s.len()) by {
        lemma_scan_to_nl(s, x);
    }
    assert forall|x: int| line_end(s, x) is Ok implies (#[trigger] line_end(s, x))->Ok_0
        <= s.len() by {
        lemma_line_end(s, x);
    }
}

/// A whole document: its lines build one root table.
pub open spec fn toml_document(s: Seq<u8>) -> Result<Node, (int, ParseKind)> {
    match parse_lines(s, 0, Seq::empty(), Seq::empty()) {
        Ok(root) => Ok(Node::Table(root)),
        Err(e) => Err(e),
    }
}

/// First position at or after `i` holding no line whitespace.
fn skip_tws_at(s: &Vec<u8>, i: usize) -> (r: usize)
    requires
        i <= s.len(),
    ensures
        r as int == skip_tws(s@, i as int),
        i <= r <= s.len(),
{
    let mut cur = i;
    while cur < s.len() && (s[cur] == 32 || s[cur] == 9 || s[cur] == 13)
        invariant
            i <= cur <= s.len(),
            skip_tws(s@, i as int) == skip_tws(s@, cur as int),
        decreases s.len() - cur,
    {
        cur += 1;
    }
    proof {
        lemma_skip_tws(s@, i as int);
    }
    cur
}

/// First position at or after `i` holding a newline, or the end.
fn scan_to_nl_at(s: &Vec<u8>, i: usize) -> (r: usize)
    requires
        i <= s.len(),
    ensures
        r as int == scan_to_nl(s@, i as int),
        i <= r <= s.len(),
{
    let mut cur = i;
    while cur < s.len() && s[cur] != 10
        invariant
            i <= cur <= s.len(),
            scan_to_nl(s@, i as int) == scan_to_nl(s@, cur as int),
        decreases s.len() - cur,
    {
        cur += 1;
    }
    proof {
        lemma_scan_to_nl(s@, i as int);
    }
    cur
}

/// One key at `i`, bare or quoted, as `parse_key` defines it.
fn parse_key_at(s: &Vec<u8>, i: usize) -> (r: Result<(Vec<u8>, usize), ParseErr>)
    requires
        i <= s.len(),
    ensures
        match r {
            Ok((k, n)) => parse_key(s@, i as int) == Ok::<_, (int, ParseKind)>((
                k@,
                n as int,
            )) && i < n <= s.len(),
            Err(e) => parse_key(s@, i as int) == Err::<(Seq<u8>, int), _>((
                e.pos as int,
                e.kind,
            )),
        },
{
    if i >= s.len() {
        return Err(ParseErr { pos: i, kind: ParseKind::Syntax });
    }
    if s[i] == 34 {
        return match crate::lex::parse_string_at(s, i) {
            Ok((t, n)) => Ok((t, n)),
            Err(e) => Err(e),
        };
    }
    let mut cur = i;
    while cur < s.len() && ((65 <= s[cur] && s[cur] <= 90) || (97 <= s[cur] && s[cur] <= 122)
        || (48 <= s[cur] && s[cur] <= 57) || s[cur] == 95 || s[cur] == 45)
        invariant
            i <= cur <= s.len(),
            scan_bare(s@, i as int) == scan_bare(s@, cur as int),
        decreases s.len() - cur,
    {
        cur += 1;
    }
    proof {
        lemma_scan_bare(s@, i as int);
    }
    if cur == i {
        Err(ParseErr { pos: i, kind: ParseKind::Syntax })
    } else {
        let k = crate::lex::copy_range(s, i, cur);
        Ok((k, cur))
    }
}

/// A dotted key path from `i`, as `parse_path` defines it.
fn parse_path_at(s: &Vec<u8>, i: usize) -> (r: Result<(Vec<Vec<u8>>, usize), ParseErr>)
    requires
        i <= s.len(),
    ensures
        match r {
            Ok((p, n)) => parse_path(s@, i as int, Seq::empty()) == Ok::<
                _,
                (int, ParseKind),
            >((crate::convert::paths_of(p@), n as int)) && n <= s.len(),
            Err(e) => parse_path(s@, i as int, Seq::empty()) == Err::<(Seq<Seq<u8>>, int), _>((
                e.pos as int,
                e.kind,
            )),
        },
{
    let mut acc: Vec<Vec<u8>> = Vec::new();
    let mut cur = i;
    proof {
        assert(crate::convert::paths_of(acc@) =~= Seq::<Seq<u8>>::empty());
    }
    loop
        invariant
            i <= cur <= s.len(),
            parse_path(s@, i as int, Seq::empty()) == parse_path(
                s@,
                cur as int,
                crate::convert::paths_of(acc@),
            ),
        decreases s@.len() - cur,
    {
        let j = skip_tws_at(s, cur);
        match parse_key_at(s, j) {
            Err(e) => {
                return Err(e);
            },
            Ok((k, n)) => {
                let nb = if n > j {
                    n
                } else {
                    j + 1
                };
                proof {
                    assert(nb as int == bump(j as int, n as int));
                }
                let m = skip_tws_at(s, nb);
                let ghost acc0 = acc@;
                let ghost gk = k;
                acc.push(k);
                proof {
                    assert(crate::convert::paths_of(acc@) =~= crate::convert::paths_of(
                        acc0,
                    ).push(gk@));
                }
                if m < s.len() && s[m] == 46 {
                    cur = m + 1;
                } else {
                    return Ok((acc, m));
                }
            },
        }
    }
}

/// End of a full date shape at `i`, as `date_shape` defines it.
fn date_shape_at(s: &Vec<u8>, i: usize) -> (r: Option<usize>)
    requires
        i <= s.len(),
    ensures
        match r {
            Some(n) => date_shape(s@, i as int) == Some(n as int) && i < n <= s.len(),
            None => date_shape(s@, i as int) is None,
        },
{
    if s.len() - i >= 10 && s[i] >= 48 && s[i] <= 57 && s[i + 1] >= 48 && s[i + 1] <= 57 && s[i
        + 2] >= 48 && s[i + 2] <= 57 && s[i + 3] >= 48 && s[i + 3] <= 57 && s[i + 4] == 45 && s[
        i + 5] >= 48 && s[i + 5] <= 57 && s[i + 6] >= 48 && s[i + 6] <= 57 && s[i + 7] == 45
        && s[i + 8] >= 48 && s[i + 8] <= 57 && s[i + 9] >= 48 && s[i + 9] <= 57 {
        Some(i + 10)
    } else {
        None
    }
}

/// End of a time shape at `i`, as `time_shape` defines it.
fn time_shape_at(s: &Vec<u8>, i: usize) -> (r: Option<usize>)
    requires
        i <= s.len(),
    ensures
        match r {
            Some(n) => time_shape(s@, i as int) == Some(n as int) && i < n <= s.len(),
            None => time_shape(s@, i as int) is None,
        },
{
    if s.len() - i >= 8 && s[i] >= 48 && s[i] <= 57 && s[i + 1] >= 48 && s[i + 1] <= 57 && s[i
        + 2] == 58 && s[i + 3] >= 48 && s[i + 3] <= 57 && s[i + 4] >= 48 && s[i + 4] <= 57 && s[
        i + 5] == 58 && s[i + 6] >= 48 && s[i + 6] <= 57 && s[i + 7] >= 48 && s[i + 7] <= 57 {
        if s.len() - i >= 9 && s[i + 8] == 46 {
            let mut cur = i + 9;
            while cur < s.len() && 48 <= s[cur] && s[cur] <= 57
                invariant
                    i + 9 <= cur <= s.len(),
                    scan_digits(s@, i + 9) == scan_digits(s@, cur as int),
                decreases s.len() - cur,
            {
                cur += 1;
            }
            proof {
                assert(scan_digits(s@, cur as int) == cur as int);
                crate::lex::lemma_scan_digits(s@, i + 9);
            }
            if cur > i + 9 {
                Some(cur)
            } else {
                None
            }
        } else {
            Some(i + 8)
        }
    } else {
        None
    }
}

/// End of a UTC-offset shape at `i`, as `offset_shape` defines it.
fn offset_shape_at(s: &Vec<u8>, i: usize) -> (r: Option<usize>)
    requires
        i <= s.len(),
    ensures
        match r {
            Some(n) => offset_shape(s@, i as int) == Some(n as int) && i < n <= s.len(),
            None => offset_shape(s@, i as int) is None,
        },
{
    if i < s.len() && (s[i] == 90 || s[i] == 122) {
        Some(i + 1)
    } else if s.len() - i >= 6 && (s[i] == 43 || s[i] == 45) && s[i + 1] >= 48 && s[i + 1] <= 57
        && s[i + 2] >= 48 && s[i + 2] <= 57 && s[i + 3] == 58 && s[i + 4] >= 48 && s[i + 4]
        <= 57 && s[i + 5] >= 48 && s[i + 5] <= 57 {
        Some(i + 6)
    } else {
        None
    }
}

/// The datetime literal at `i`, as `parse_datetime` defines it.
fn parse_datetime_at(s: &Vec<u8>, i: usize) -> (r: Result<(Value, usize), ParseErr>)
    requires
        i <= s.len(),
    ensures
        match r {
            Ok((v, n)) => parse_datetime(s@, i as int) == Ok::<_, (int, ParseKind)>((
                v@,
                n as int,
            )) && i < n <= s.len(),
            Err(e) => parse_datetime(s@, i as int) == Err::<(Node, int), _>((
                e.pos as int,
                e.kind,
            )),
        },
{
    match date_shape_at(s, i) {
        Some(de) => {
            if de < s.len() && (s[de] == 84 || s[de] == 116) {
                match time_shape_at(s, de + 1) {
                    None => Err(ParseErr { pos: de + 1, kind: ParseKind::Datetime }),
                    Some(te) => match offset_shape_at(s, te) {
                        Some(oe) => {
                            let lit = crate::lex::copy_range(s, i, oe);
                            Ok((Value::DateTime(DtKind::Offset, lit), oe))
                        },
                        None => {
                            let lit = crate::lex::copy_range(s, i, te);
                            Ok((Value::DateTime(DtKind::LocalDateTime, lit), te))
                        },
                    },
                }
            } else {
                let lit = crate::lex::copy_range(s, i, de);
                Ok((Value::DateTime(DtKind::LocalDate, lit), de))
            }
        },
        None => match time_shape_at(s, i) {
            Some(te) => {
                let lit = crate::lex::copy_range(s, i, te);
                Ok((Value::DateTime(DtKind::LocalTime, lit), te))
            },
            None => Err(ParseErr { pos: i, kind: ParseKind::Datetime }),
        },
    }
}

/// The inline value at `i`, as `toml_value` defines it.
fn toml_value_at(s: &Vec<u8>, i: usize) -> (r: Result<(Value, usize), ParseErr>)
    requires
        i <= s.len(),
    ensures
        match r {
            Ok((v, n)) => toml_value(s@, i as int) == Ok::<_, (int, ParseKind)>((
                v@,
                n as int,
            )) && i < n <= s.len(),
            Err(e) => toml_value(s@, i as int) == Err::<(Node, int), _>((
                e.pos as int,
                e.kind,
            )),
        },
    decreases s@.len() - i, 0int,
{
    if i >= s.len() {
        return Err(ParseErr { pos: i, kind: ParseKind::Syntax });
    }
    let b = s[i];
    if b == 34 {
        match crate::lex::parse_string_at(s, i) {
            Ok((t, n)) => Ok((Value::Str(t), n)),
            Err(e) => Err(e),
        }
    } else if b == 116 {
        if s.len() - i >= 4 && s[i + 1] == 114 && s[i + 2] == 117 && s[i + 3] == 101 {
            Ok((Value::Bool(true), i + 4))
        } else {
            Err(ParseErr { pos: i, kind: ParseKind::Syntax })
        }
    } else if b == 102 {
        if s.len() - i >= 5 && s[i + 1] == 97 && s[i + 2] == 108 && s[i + 3] == 115 && s[i + 4]
            == 101 {
            Ok((Value::Bool(false), i + 5))
        } else {
            Err(ParseErr { pos: i, kind: ParseKind::Syntax })
        }
    } else if b == 91 {
        toml_items_at(s, i + 1)
    } else if b == 123 {
        toml_entries_at(s, i + 1)
    } else if b == 45 {
        crate::lex::parse_number_at(s, i, false)
    } else if 48 <= b && b <= 57 {
        let is_date = s.len() - i >= 5 && 48 <= s[i + 1] && s[i + 1] <= 57 && 48 <= s[i + 2]
            && s[i + 2] <= 57 && 48 <= s[i + 3] && s[i + 3] <= 57 && s[i + 4] == 45;
        let is_time = s.len() - i >= 3 && 48 <= s[i + 1] && s[i + 1] <= 57 && s[i + 2] == 58;
        if is_date || is_time {
            parse_datetime_at(s, i)
        } else {
            crate::lex::parse_number_at(s, i, false)
        }
    } else {
        Err(ParseErr { pos: i, kind: ParseKind::Syntax })
    }
}

/// The array items from `i` (just after `[`), as `toml_items` defines
/// them.
fn toml_items_at(s: &Vec<u8>, i: usize) -> (r: Result<(Value, usize), ParseErr>)
    requires
        i <= s.len(),
    ensures
        match r {
            Ok((v, n)) => toml_items(s@, i as int, Seq::empty(), true) == Ok::<
                _,
                (int, ParseKind),
            >((v@, n as int)) && i < n <= s.len(),
            Err(e) => toml_items(s@, i as int, Seq::empty(), true) == Err::<(Node, int), _>((
                e.pos as int,
                e.kind,
            )),
        },
    decreases s@.len() - i, 1int,
{
    let mut accv: Vec<Value> = Vec::new();
    let mut cur = i;
    let mut first = true;
    proof {
        assert(nodes_of(accv@) =~= Seq::<Node>::empty());
    }
    loop
        invariant
            i <= cur <= s.len(),
            toml_items(s@, i as int, Seq::empty(), true) == toml_items(
                s@,
                cur as int,
                nodes_of(accv@),
                first,
            ),
        decreases s@.len() - cur,
    {
        let j = skip_tws_at(s, cur);
        if j >= s.len() {
            return Err(ParseErr { pos: j, kind: ParseKind::Syntax });
        }
        if first && s[j] == 93 {
            let out = Value::Arr(accv);
            return Ok((out, j + 1));
        }
        match toml_value_at(s, j) {
            Err(e) => {
                return Err(e);
            },
            Ok((v, n0)) => {
                let n = if n0 > j {
                    n0
                } else {
                    j + 1
                };
                proof {
                    assert(n as int == bump(j as int, n0 as int));
                }
                let k = skip_tws_at(s, n);
                if k >= s.len() {
                    return Err(ParseErr { pos: k, kind: ParseKind::Syntax });
                }
                if s[k] == 44 {
                    let ghost gv = v;
                    let ghost acc0 = accv@;
                    accv.push(v);
                    proof {
                        crate::convert::lemma_nodes_of_push(acc0, gv);
                    }
                    cur = k + 1;
                    first = false;
                } else if s[k] == 93 {
                    let ghost gv = v;
                    let ghost acc0 = accv@;
                    accv.push(v);
                    proof {
                        crate::convert::lemma_nodes_of_push(acc0, gv);
                    }
                    let out = Value::Arr(accv);
                    return Ok((out, k + 1));
                } else {
                    return Err(ParseErr { pos: k, kind: ParseKind::Syntax });
                }
            },
        }
    }
}

/// The inline-table entries from `i` (just after `{`), as `toml_entries`
/// defines them.
fn toml_entries_at(s: &Vec<u8>, i: usize) -> (r: Result<(Value, usize), ParseErr>)
    requires
        i <= s.len(),
    ensures
        match r {
            Ok((v, n)) => toml_entries(s@, i as int, Seq::empty(), true) == Ok::<
                _,
                (int, ParseKind),
            >((v@, n as int)) && i < n <= s.len(),
            Err(e) => toml_entries(s@, i as int, Seq::empty(), true) == Err::<
                (Node, int),
                _,
            >((e.pos as int, e.kind)),
        },
    decreases s@.len() - i, 1int,
{
    let mut accv: Vec<(Vec<u8>, Value)> = Vec::new();
    let mut cur = i;
    let mut first = true;
    proof {
        assert(entry_nodes_of(accv@) =~= Seq::<(Seq<u8>, Node)>::empty());
    }
    loop
        invariant
            i <= cur <= s.len(),
            toml_entries(s@, i as int, Seq::empty(), true) == toml_entries(
                s@,
                cur as int,
                entry_nodes_of(accv@),
                first,
            ),
        decreases s@.len() - cur,
    {
        let j = skip_tws_at(s, cur);
        if j >= s.len() {
            return Err(ParseErr { pos: j, kind: ParseKind::Syntax });
        }
        if first && s[j] == 125 {
            let out = Value::Table(accv);
            return Ok((out, j + 1));
        }
        match parse_key_at(s, j) {
            Err(e) => {
                return Err(e);
            },
            Ok((key, n1)) => {
                if crate::lex::has_key_at(&accv, &key) {
                    return Err(ParseErr { pos: j, kind: ParseKind::DuplicateKey });
                }
                let n1b = if n1 > j {
                    n1
                } else {
                    j + 1
                };
                proof {
                    assert(n1b as int == bump(j as int, n1 as int));
                }
                let k = skip_tws_at(s, n1b);
                if k >= s.len() || s[k] != 61 {
                    return Err(ParseErr { pos: k, kind: ParseKind::Syntax });
                }
                let m = skip_tws_at(s, k + 1);
                match toml_value_at(s, m) {
                    Err(e) => {
                        return Err(e);
                    },
                    Ok((v, n2)) => {
                        let n2b = if n2 > m {
                            n2
                        } else {
                            m + 1
                        };
                        proof {
                            assert(n2b as int == bump(m as int, n2 as int));
                        }
                        let q = skip_tws_at(s, n2b);
                        if q >= s.len() {
                            return Err(ParseErr { pos: q, kind: ParseKind::Syntax });
                        }
                        if s[q] == 44 {
                            let pair = (key, v);
                            let ghost gpair = pair;
                            let ghost acc0 = accv@;
                            accv.push(pair);
                            proof {
                                crate::convert::lemma_entry_nodes_of_push(acc0, gpair);
                            }
                            cur = q + 1;
                            first = false;
                        } else if s[q] == 125 {
                            let pair = (key, v);
                            let ghost gpair = pair;
                            let ghost acc0 = accv@;
                            accv.push(pair);
                            proof {
                                crate::convert::lemma_entry_nodes_of_push(acc0, gpair);
                            }
                            let out = Value::Table(accv);
                            return Ok((out, q + 1));
                        } else {
                            return Err(ParseErr { pos: q, kind: ParseKind::Syntax });
                        }
                    },
                }
            },
        }
    }
}

/// Index of `key` among the entries, as `find_key` defines it.
fn find_key_at(entries: &Vec<(Vec<u8>, Value)>, key: &Vec<u8>) -> (r: Option<usize>)
    ensures
        match r {
            Some(ix) => find_key(entry_nodes_of(entries@), key@) == ix as int && ix
                < entries.len(),
            None => find_key(entry_nodes_of(entries@), key@) == -1,
        },
{
    proof {
        crate::value::lemma_entry_nodes_of(entries@);
        lemma_find_key(entry_nodes_of(entries@), key@);
    }
    let ghost ens = entry_nodes_of(entries@);
    let mut i: usize = 0;
    while i < entries.len()
        invariant
            i <= entries.len(),
            ens == entry_nodes_of(entries@),
            ens.len() == entries@.len(),
            forall|j: int|
                0 <= j < entries@.len() ==> #[trigger] ens[j] == (
                entries@[j].0@,
                node_of(entries@[j].1),
                ),
            forall|j: int| 0 <= j < i ==> (#[trigger] ens[j]).0 != key@,
        decreases entries.len() - i,
    {
        if crate::lex::bytes_eq(&entries[i].0, key) {
            proof {
                lemma_find_key(ens, key@);
                assert(ens[i as int].0 == key@);
                let fidx = find_key(ens, key@);
                assert(fidx != -1);
                if fidx < i as int {
                    assert(ens[fidx].0 != key@);
                }
                if fidx > i as int {
                    assert(ens[i as int].0 != key@);
                }
            }
            return Some(i);
        }
        i += 1;
    }
    proof {
        lemma_find_key(ens, key@);
    }
    None
}

/// Inserts `key = val` into the table reached from `root` along the path
/// segments from `d` on, as `insert_at` defines it.
fn insert_at_x(
    root: Vec<(Vec<u8>, Value)>,
    path: &Vec<Vec<u8>>,
    d: usize,
    key: Vec<u8>,
    val: Value,
) -> (r: Option<Vec<(Vec<u8>, Value)>>)
    requires
        d <= path.len(),
    ensures
        match r {
            Some(out) => insert_at(
                entry_nodes_of(root@),
                crate::convert::paths_of(path@).skip(d as int),
                key@,
                node_of(val),
            ) == Some(entry_nodes_of(out@)),
            None => insert_at(
                entry_nodes_of(root@),
                crate::convert::paths_of(path@).skip(d as int),
                key@,
                node_of(val),
            ) is None,
        },
    decreases path.len() - d,
{
    let ghost ens = entry_nodes_of(root@);
    let ghost p = crate::convert::paths_of(path@).skip(d as int);
    if d == path.len() {
        proof {
            assert(p =~= Seq::<Seq<u8>>::empty());
        }
        if crate::lex::has_key_at(&root, &key) {
            None
        } else {
            let mut root2 = root;
            let ghost r0 = root2@;
            let ghost gpair = (key@, node_of(val));
            root2.push((key, val));
            proof {
                crate::value::lemma_entry_nodes_of(r0);
                crate::value::lemma_entry_nodes_of(root2@);
                assert(entry_nodes_of(root2@) =~= ens.push(gpair));
            }
            Some(root2)
        }
    } else {
        proof {
            assert(p.first() == path@[d as int]@);
        }
        match find_key_at(&root, &path[d]) {
            None => None,
            Some(ix) => {
                proof {
                    lemma_find_key(ens, path@[d as int]@);
                    crate::value::lemma_entry_nodes_of(root@);
                }
                let mut root2 = root;
                let (k0, v0) = root2.remove(ix);
                match v0 {
                    Value::Table(sub) => {
                        proof {
                            assert(ens[ix as int].1 == node_of(Value::Table(sub)));
                            assert(p.drop_first() =~= crate::convert::paths_of(path@).skip(
                                d + 1,
                            ));
                        }
                        match insert_at_x(sub, path, d + 1, key, val) {
                            None => None,
                            Some(sub2) => {
                                let ghost r2 = root2@;
                                let pair = (k0, Value::Table(sub2));
                                let ghost gpair = pair;
                                root2.insert(ix, pair);
                                proof {
                                    assert(root2@ =~= root@.update(ix as int, gpair));
                                    crate::value::lemma_entry_nodes_of(root2@);
                                    assert(entry_nodes_of(root2@) =~= ens.update(
                                        ix as int,
                                        (ens[ix as int].0, node_of(gpair.1)),
                                    ));
                                }
                                Some(root2)
                            },
                        }
                    },
                    _ => None,
                }
            },
        }
    }
}

/// Builds the chain of empty tables for the path segments from `d` on.
fn make_path_x(path: &Vec<Vec<u8>>, d: usize) -> (r: Value)
    requires
        d <= path.len(),
    ensures
        node_of(r) == make_path(crate::convert::paths_of(path@).skip(d as int)),
    decreases path.len() - d,
{
    let ghost p = crate::convert::paths_of(path@).skip(d as int);
    if d == path.len() {
        proof {
            assert(p =~= Seq::<Seq<u8>>::empty());
        }
        let empty: Vec<(Vec<u8>, Value)> = Vec::new();
        let out = Value::Table(empty);
        proof {
            assert(entry_nodes_of(Seq::<(Vec<u8>, Value)>::empty()) =~= Seq::<
                (Seq<u8>, Node),
            >::empty());
        }
        out
    } else {
        let key = crate::convert::clone_bytes(&path[d]);
        let inner = make_path_x(path, d + 1);
        let mut entries: Vec<(Vec<u8>, Value)> = Vec::new();
        let ghost gpair = (key@, node_of(inner));
        entries.push((key, inner));
        proof {
            assert(p.first() == path@[d as int]@);
            assert(p.drop_first() =~= crate::convert::paths_of(path@).skip(d + 1));
            crate::value::lemma_entry_nodes_of(entries@);
            assert(entry_nodes_of(entries@) =~= seq![gpair]);
        }
        Value::Table(entries)
    }
}

/// Creates the table named by the path segments from `d` on, as
/// `insert_table_at` defines it.
fn insert_table_at_x(root: Vec<(Vec<u8>, Value)>, path: &Vec<Vec<u8>>, d: usize) -> (r: Option<
    Vec<(Vec<u8>, Value)>,
>)
    requires
        d <= path.len(),
    ensures
        match r {
            Some(out) => insert_table_at(
                entry_nodes_of(root@),
                crate::convert::paths_of(path@).skip(d as int),
            ) == Some(entry_nodes_of(out@)),
            None => insert_table_at(
                entry_nodes_of(root@),
                crate::convert::paths_of(path@).skip(d as int),
            ) is None,
        },
    decreases path.len() - d,
{
    let ghost ens = entry_nodes_of(root@);
    let ghost p = crate::convert::paths_of(path@).skip(d as int);
    if d == path.len() {
        proof {
            assert(p =~= Seq::<Seq<u8>>::empty());
        }
        None
    } else {
        proof {
            assert(p.first() == path@[d as int]@);
            assert(p.drop_first() =~= crate::convert::paths_of(path@).skip(d + 1));
        }
        match find_key_at(&root, &path[d]) {
            None => {
                let key = crate::convert::clone_bytes(&path[d]);
                let nested = make_path_x(path, d + 1);
                let mut root2 = root;
                let ghost r0 = root2@;
                let ghost gpair = (key@, node_of(nested));
                root2.push((key, nested));
                proof {
                    crate::value::lemma_entry_nodes_of(r0);
                    crate::value::lemma_entry_nodes_of(root2@);
                    assert(entry_nodes_of(root2@) =~= ens.push(gpair));
                }
                Some(root2)
            },
            Some(ix) => {
                if d + 1 == path.len() {
                    proof {
                        assert(p.len() == 1);
                    }
                    None
                } else {
                    proof {
                        lemma_find_key(ens, path@[d as int]@);
                        crate::value::lemma_entry_nodes_of(root@);
                    }
                    let mut root2 = root;
                    let (k0, v0) = root2.remove(ix);
                    match v0 {
                        Value::Table(sub) => {
                            proof {
                                assert(ens[ix as int].1 == node_of(Value::Table(sub)));
                            }
                            match insert_table_at_x(sub, path, d + 1) {
                                None => None,
                                Some(sub2) => {
                                    let pair = (k0, Value::Table(sub2));
                                    let ghost gpair = pair;
                                    root2.insert(ix, pair);
                                    proof {
                                        assert(root2@ =~= root@.update(ix as int, gpair));
                                        crate::value::lemma_entry_nodes_of(root2@);
                                        assert(entry_nodes_of(root2@) =~= ens.update(
                                            ix as int,
                                            (ens[ix as int].0, node_of(gpair.1)),
                                        ));
                                    }
                                    Some(root2)
                                },
                            }
                        },
                        _ => None,
                    }
                }
            },
        }
    }
}

/// The rest of a line, as `line_end` defines it.
fn line_end_at(s: &Vec<u8>, i: usize) -> (r: Result<usize, ParseErr>)
    requires
        i <= s.len(),
    ensures
        match r {
            Ok(c) => line_end(s@, i as int) == Ok::<_, (int, ParseKind)>(c as int) && c
                <= s.len(),
            Err(e) => line_end(s@, i as int) == Err::<int, _>((e.pos as int, e.kind)),
        },
{
    let j = skip_tws_at(s, i);
    if j >= s.len() {
        Ok(s.len())
    } else if s[j] == 10 {
        Ok(j + 1)
    } else if s[j] == 35 {
        let e = scan_to_nl_at(s, j);
        if e >= s.len() {
            Ok(e)
        } else {
            Ok(e + 1)
        }
    } else {
        Err(ParseErr { pos: j, kind: ParseKind::Syntax })
    }
}

/// Parses a whole document into its root table.
pub fn parse_toml(s: &Vec<u8>) -> (r: Result<Value, ParseErr>)
    ensures
        match r {
            Ok(v) => toml_document(s@) == Ok::<_, (int, ParseKind)>(v@),
            Err(e) => toml_document(s@) == Err::<Node, _>((e.pos as int, e.kind)),
        },
{
    let mut root: Vec<(Vec<u8>, Value)> = Vec::new();
    let mut cur: Vec<Vec<u8>> = Vec::new();
    let mut pos: usize = 0;
    proof {
        assert(entry_nodes_of(root@) =~= Seq::<(Seq<u8>, Node)>::empty());
        assert(crate::convert::paths_of(cur@) =~= Seq::<Seq<u8>>::empty());
    }
    loop
        invariant
            pos <= s.len(),
            parse_lines(s@, 0, Seq::empty(), Seq::empty()) == parse_lines(
                s@,
                pos as int,
                entry_nodes_of(root@),
                crate::convert::paths_of(cur@),
            ),
        decreases s@.len() - pos,
    {
        let j = skip_tws_at(s, pos);
        if j >= s.len() {
            let out = Value::Table(root);
            return Ok(out);
        }
        if s[j] == 10 {
            pos = j + 1;
        } else if s[j] == 35 {
            let e = scan_to_nl_at(s, j);
            pos = if e > j {
                e
            } else {
                j + 1
            };
            proof {
                assert(pos as int == bump(j as int, scan_to_nl(s@, j as int)));
            }
        } else if s[j] == 91 {
            match parse_path_at(s, j + 1) {
                Err(e) => {
                    return Err(e);
                },
                Ok((path2, m)) => {
                    if m < s.len() && s[m] == 93 {
                        match insert_table_at_x(root, &path2, 0) {
                            None => {
                                proof {
                                    assert(crate::convert::paths_of(path2@).skip(0)
                                        =~= crate::convert::paths_of(path2@));
                                }
                                return Err(ParseErr {
                                    pos: j,
                                    kind: ParseKind::DuplicateKey,
                                });
                            },
                            Some(root2) => {
                                proof {
                                    assert(crate::convert::paths_of(path2@).skip(0)
                                        =~= crate::convert::paths_of(path2@));
                                }
                                match line_end_at(s, m + 1) {
                                    Err(e) => {
                                        return Err(e);
                                    },
                                    Ok(c) => {
                                        root = root2;
                                        cur = path2;
                                        pos = if c > j {
                                            c
                                        } else {
                                            j + 1
                                        };
                                        proof {
                                            assert(pos as int == bump(j as int, c as int));
                                        }
                                    },
                                }
                            },
                        }
                    } else {
                        return Err(ParseErr { pos: m, kind: ParseKind::Syntax });
                    }
                },
            }
        } else {
            match parse_key_at(s, j) {
                Err(e) => {
                    return Err(e);
                },
                Ok((key, n)) => {
                    let nb = if n > j {
                        n
                    } else {
                        j + 1
                    };
                    proof {
                        assert(nb as int == bump(j as int, n as int));
                    }
                    let m2 = skip_tws_at(s, nb);
                    if m2 < s.len() && s[m2] == 61 {
                        let w = skip_tws_at(s, m2 + 1);
                        match toml_value_at(s, w) {
                            Err(e) => {
                                return Err(e);
                            },
                            Ok((v, n2)) => {
                                let n2b = if n2 > w {
                                    n2
                                } else {
                                    w + 1
                                };
                                proof {
                                    assert(n2b as int == bump(w as int, n2 as int));
                                }
                                match line_end_at(s, n2b) {
                                    Err(e) => {
                                        return Err(e);
                                    },
                                    Ok(c) => {
                                        match insert_at_x(root, &cur, 0, key, v) {
                                            None => {
                                                proof {
                                                    assert(crate::convert::paths_of(
                                                        cur@,
                                                    ).skip(0) =~= crate::convert::paths_of(
                                                        cur@,
                                                    ));
                                                }
                                                return Err(ParseErr {
                                                    pos: j,
                                                    kind: ParseKind::DuplicateKey,
                                                });
                                            },
                                            Some(root2) => {
                                                proof {
                                                    assert(crate::convert::paths_of(
                                                        cur@,
                                                    ).skip(0) =~= crate::convert::paths_of(
                                                        cur@,
                                                    ));
                                                }
                                                root = root2;
                                                pos = if c > j {
                                                    c
                                                } else {
                                                    j + 1
                                                };
                                                proof {
                                                    assert(pos as int == bump(
                                                        j as int,
                                                        c as int,
                                                    ));
                                                }
                                            },
                                        }
                                    },
                                }
                            },
                        }
                    } else {
                        return Err(ParseErr { pos: m2, kind: ParseKind::Syntax });
                    }
                },
            }
        }
    }
}

/// `make_path` builds well-formed tables.
proof fn lemma_make_path_wf(path: Seq<Seq<u8>>)
    ensures
        make_path(path).wf(),
    decreases path.len(),
{
    if path.len() > 0 {
        lemma_make_path_wf(path.drop_first());
        let e = seq![(path.first(), make_path(path.drop_first()))];
        assert(e.drop_last() =~= Seq::<(Seq<u8>, Node)>::empty());
        assert(crate::value::entries_all_wf(e.drop_last()));
        assert(e.last() == (path.first(), make_path(path.drop_first())));
        assert(crate::value::entries_all_wf(e));
    }
}

/// `insert_at` keeps the tree well-formed.
proof fn lemma_insert_at_wf(
    root: Seq<(Seq<u8>, Node)>,
    path: Seq<Seq<u8>>,
    key: Seq<u8>,
    val: Node,
)
    requires
        Node::Table(root).wf(),
        val.wf(),
    ensures
        insert_at(root, path, key, val) matches Some(out) ==> Node::Table(out).wf(),
    decreases path.len(),
{
    crate::value::lemma_entries_all_wf(root);
    if path.len() == 0 {
        if !table_has_key(root, key) {
            crate::value::lemma_keys_unique_push(root, key, val);
            assert(root.push((key, val)).drop_last() =~= root);
        }
    } else {
        lemma_find_key(root, path.first());
        let idx = find_key(root, path.first());
        if idx >= 0 {
            match root[idx].1 {
                Node::Table(sub) => {
                    assert(root[idx].1.wf());
                    lemma_insert_at_wf(sub, path.drop_first(), key, val);
                    match insert_at(sub, path.drop_first(), key, val) {
                        None => {},
                        Some(sub2) => {
                            let out = root.update(idx, (root[idx].0, Node::Table(sub2)));
                            assert(forall|i: int|
                                0 <= i < out.len() ==> (#[trigger] out[i]).0 == root[i].0);
                            assert(crate::value::keys_unique(out));
                            crate::value::lemma_entries_all_wf(out);
                            assert forall|i: int|
                                0 <= i < out.len() implies (#[trigger] out[i].1).wf() by {
                                if i != idx {
                                    assert(out[i] == root[i]);
                                }
                            }
                        },
                    }
                },
                _ => {},
            }
        }
    }
}

/// `insert_table_at` keeps the tree well-formed.
proof fn lemma_insert_table_at_wf(root: Seq<(Seq<u8>, Node)>, path: Seq<Seq<u8>>)
    requires
        Node::Table(root).wf(),
    ensures
        insert_table_at(root, path) matches Some(out) ==> Node::Table(out).wf(),
    decreases path.len(),
{
    crate::value::lemma_entries_all_wf(root);
    if path.len() > 0 {
        lemma_find_key(root, path.first());
        let idx = find_key(root, path.first());
        if idx < 0 {
            assert(!table_has_key(root, path.first()));
            lemma_make_path_wf(path.drop_first());
            crate::value::lemma_keys_unique_push(
                root,
                path.first(),
                make_path(path.drop_first()),
            );
            assert(root.push((path.first(), make_path(path.drop_first()))).drop_last()
                =~= root);
        } else if path.len() > 1 {
            match root[idx].1 {
                Node::Table(sub) => {
                    assert(root[idx].1.wf());
                    lemma_insert_table_at_wf(sub, path.drop_first());
                    match insert_table_at(sub, path.drop_first()) {
                        None => {},
                        Some(sub2) => {
                            let out = root.update(idx, (root[idx].0, Node::Table(sub2)));
                            assert(forall|i: int|
                                0 <= i < out.len() ==> (#[trigger] out[i]).0 == root[i].0);
                            assert(crate::value::keys_unique(out));
                            crate::value::lemma_entries_all_wf(out);
                            assert forall|i: int|
                                0 <= i < out.len() implies (#[trigger] out[i].1).wf() by {
                                if i != idx {
                                    assert(out[i] == root[i]);
                                }
                            }
                        },
                    }
                },
                _ => {},
            }
        }
    }
}

/// A value the reader returns is well-formed.
proof fn lemma_toml_value_wf(s: Seq<u8>, i: int)
    ensures
        toml_value(s, i) matches Ok((v, _)) ==> v.wf(),
    decreases s.len() - i, 0int,
{
    if 0 <= i < s.len() {
        if s[i] == 91 {
            lemma_toml_items_wf(s, i + 1, Seq::empty(), true);
        } else if s[i] == 123 {
            lemma_toml_entries_wf(s, i + 1, Seq::empty(), true);
        }
    }
}

/// Array form of `lemma_toml_value_wf`.
proof fn lemma_toml_items_wf(s: Seq<u8>, i: int, acc: Seq<Node>, first: bool)
    requires
        crate::value::seq_all_wf(acc),
    ensures
        toml_items(s, i, acc, first) matches Ok((v, _)) ==> v.wf(),
    decreases s.len() - i, 1int,
{
    lemma_skip_tws(s, i);
    let j = skip_tws(s, i);
    if !(i < 0 || j >= s.len()) && !(first && s[j] == 93) {
        match toml_value(s, j) {
            Err(_) => {},
            Ok((v, n0)) => {
                lemma_toml_value_wf(s, j);
                lemma_skip_tws(s, bump(j, n0));
                let k = skip_tws(s, bump(j, n0));
                if k < s.len() {
                    assert(acc.push(v).drop_last() =~= acc);
                    if s[k] == 44 {
                        lemma_toml_items_wf(s, k + 1, acc.push(v), false);
                    }
                }
            },
        }
    }
}

/// Inline-table form of `lemma_toml_value_wf`.
proof fn lemma_toml_entries_wf(s: Seq<u8>, i: int, acc: Seq<(Seq<u8>, Node)>, first: bool)
    requires
        crate::value::keys_unique(acc),
        crate::value::entries_all_wf(acc),
    ensures
        toml_entries(s, i, acc, first) matches Ok((v, _)) ==> v.wf(),
    decreases s.len() - i, 1int,
{
    lemma_skip_tws(s, i);
    let j = skip_tws(s, i);
    if !(i < 0 || j >= s.len()) && !(first && s[j] == 125) {
        match parse_key(s, j) {
            Err(_) => {},
            Ok((key, n1)) => {
                if !table_has_key(acc, key) {
                    lemma_skip_tws(s, bump(j, n1));
                    let k = skip_tws(s, bump(j, n1));
                    if !(k >= s.len() || s[k] != 61) {
                        lemma_skip_tws(s, k + 1);
                        let m = skip_tws(s, k + 1);
                        match toml_value(s, m) {
                            Err(_) => {},
                            Ok((v, n2)) => {
                                lemma_toml_value_wf(s, m);
                                lemma_skip_tws(s, bump(m, n2));
                                let q = skip_tws(s, bump(m, n2));
                                if q < s.len() {
                                    crate::value::lemma_keys_unique_push(acc, key, v);
                                    assert(acc.push((key, v)).drop_last() =~= acc);
                                    if s[q] == 44 {
                                        lemma_toml_entries_wf(
                                            s,
                                            q + 1,
                                            acc.push((key, v)),
                                            false,
                                        );
                                    }
                                }
                            },
                        }
                    }
                }
            },
        }
    }
}

/// `parse_lines` keeps the root table well-formed.
proof fn lemma_parse_lines_wf(
    s: Seq<u8>,
    i: int,
    root: Seq<(Seq<u8>, Node)>,
    cur: Seq<Seq<u8>>,
)
    requires
        Node::Table(root).wf(),
    ensures
        parse_lines(s, i, root, cur) matches Ok(out) ==> Node::Table(out).wf(),
    decreases s.len() - i,
{
    lemma_skip_tws(s, i);
    let j = skip_tws(s, i);
    if i < 0 || j >= s.len() {
    } else if s[j] == 10 {
        lemma_parse_lines_wf(s, j + 1, root, cur);
    } else if s[j] == 35 {
        lemma_scan_to_nl(s, j);
        lemma_parse_lines_wf(s, bump(j, scan_to_nl(s, j)), root, cur);
    } else if s[j] == 91 {
        match parse_path(s, j + 1, Seq::empty()) {
            Err(_) => {},
            Ok((path, m)) => {
                if m < s.len() && s[m] == 93 {
                    lemma_insert_table_at_wf(root, path);
                    match insert_table_at(root, path) {
                        None => {},
                        Some(root2) => match line_end(s, m + 1) {
                            Err(_) => {},
                            Ok(c) => {
                                lemma_line_end(s, m + 1);
                                lemma_parse_lines_wf(s, bump(j, c), root2, path);
                            },
                        },
                    }
                }
            },
        }
    } else {
        match parse_key(s, j) {
            Err(_) => {},
            Ok((key, n)) => {
                lemma_skip_tws(s, bump(j, n));
                let m = skip_tws(s, bump(j, n));
                if m < s.len() && s[m] == 61 {
                    lemma_skip_tws(s, m + 1);
                    let w = skip_tws(s, m + 1);
                    match toml_value(s, w) {
                        Err(_) => {},
                        Ok((v, n2)) => {
                            lemma_toml_value_wf(s, w);
                            match line_end(s, bump(w, n2)) {
                                Err(_) => {},
                                Ok(c) => {
                                    lemma_line_end(s, bump(w, n2));
                                    lemma_insert_at_wf(root, cur, key, v);
                                    match insert_at(root, cur, key, v) {
                                        None => {},
                                        Some(root2) => {
                                            lemma_parse_lines_wf(s, bump(j, c), root2, cur);
                                        },
                                    }
                                },
                            }
                        },
                    }
                }
            },
        }
    }
}

/// Every tree the reader accepts is well-formed: table keys are pairwise
/// distinct at every level, since a repeated key or section is a parse
/// rejection.
pub proof fn lemma_toml_document_wf(s: Seq<u8>)
    ensures
        toml_document(s) matches Ok(v) ==> v.wf(),
{
    assert(Node::Table(Seq::empty()).wf());
    lemma_parse_lines_wf(s, 0, Seq::empty(), Seq::empty());
}

} // verus!