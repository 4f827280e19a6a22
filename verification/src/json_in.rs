//! The document-object reader: text to value tree.
//!
//! Grammar: objects, arrays, strings, numbers, `true`/`false`/`null`,
//! with the usual whitespace. A number with a fraction or exponent part,
//! or an integer that does not fit 64 signed bits, becomes a float node
//! carrying its literal text; any other number becomes an integer node.
//! Strings accept the short escapes (`\"`, `\\`, `\/`, `\b`, `\f`, `\n`,
//! `\r`, `\t`); the `\uXXXX` escape is not accepted and is rejected as a
//! syntax error. A key repeated within one object is rejected rather than
//! silently overwritten.

use vstd::prelude::*;
use crate::value::{Value, Node, nodes_of, entry_nodes_of, table_has_key};
use crate::num::is_digit;
use crate::lex::{ParseKind, ParseErr, is_ws, skip_ws, lemma_skip_ws, bump, parse_string,
    parse_number, skip_ws_at, has_key_at, parse_string_at, parse_number_at};

verus! {

broadcast use vstd::std_specs::vec::group_vec_axioms, vstd::seq::group_seq_axioms;

/// A parsed value starting at `i`, which must hold no whitespace.
pub open spec fn parse_value(s: Seq<u8>, i: int) -> Result<(Node, int), (int, ParseKind)>
    decreases s.len() - i, 0int,
{
    if i >= s.len() || i < 0 {
        Err((i, ParseKind::Syntax))
    } else if s[i] == 110 {
        if i + 4 <= s.len() && s[i + 1] == 117 && s[i + 2] == 108 && s[i + 3] == 108 {
            Ok((Node::Null, i + 4))
        } else {
            Err((i, ParseKind::Syntax))
        }
    } else if s[i] == 116 {
        if i + 4 <= s.len() && s[i + 1] == 114 && s[i + 2] == 117 && s[i + 3] == 101 {
            Ok((Node::Bool(true), i + 4))
        } else {
            Err((i, ParseKind::Syntax))
        }
    } else if s[i] == 102 {
        if i + 5 <= s.len() && s[i + 1] == 97 && s[i + 2] == 108 && s[i + 3] == 115 && s[i + 4]
            == 101 {
            Ok((Node::Bool(false), i + 5))
        } else {
            Err((i, ParseKind::Syntax))
        }
    } else if s[i] == 34 {
        match parse_string(s, i) {
            Ok((t, n)) => Ok((Node::Str(t), n)),
            Err(e) => Err(e),
        }
    } else if s[i] == 91 {
        parse_elems(s, i + 1, Seq::empty(), true)
    } else if s[i] == 123 {
        parse_members(s, i + 1, Seq::empty(), true)
    } else if s[i] == 45 || is_digit(s[i]) {
        parse_number(s, i, true)
    } else {
        Err((i, ParseKind::Syntax))
    }
}

/// Array items from `i` (just after `[` or a `,`); `first` tells whether
/// a closing `]` may come immediately.
pub open spec fn parse_elems(s: Seq<u8>, i: int, acc: Seq<Node>, first: bool) -> Result<
    (Node, int),
    (int, ParseKind),
>
    decreases s.len() - i, 1int,
    via parse_elems_dec
{
    let j = skip_ws(s, i);
    if i < 0 || j >= s.len() {
        Err((j, ParseKind::Syntax))
    } else if first && s[j] == 93 {
        Ok((Node::Arr(acc), j + 1))
    } else {
        match parse_value(s, j) {
            Err(e) => Err(e),
            Ok((v, n0)) => {
                let k = skip_ws(s, bump(j, n0));
                if k >= s.len() {
                    Err((k, ParseKind::Syntax))
                } else if s[k] == 44 {
                    parse_elems(s, k + 1, acc.push(v), false)
                } else if s[k] == 93 {
                    Ok((Node::Arr(acc.push(v)), k + 1))
                } else {
                    Err((k, ParseKind::Syntax))
                }
            },
        }
    }
}

/// Object members from `i` (just after `{` or a `,`); `first` tells
/// whether a closing `}` may come immediately. A repeated key is rejected.
pub open spec fn parse_members(
    s: Seq<u8>,
    i: int,
    acc: Seq<(Seq<u8>, Node)>,
    first: bool,
) -> Result<(Node, int), (int, ParseKind)>
    decreases s.len() - i, 1int,
    via parse_members_dec
{
    let j = skip_ws(s, i);
    if i < 0 || j >= s.len() {
        Err((j, ParseKind::Syntax))
    } else if first && s[j] == 125 {
        Ok((Node::Table(acc), j + 1))
    } else if s[j] != 34 {
        Err((j, ParseKind::Syntax))
    } else {
        match parse_string(s, j) {
            Err(e) => Err(e),
            Ok((key, n1)) => {
                if table_has_key(acc, key) {
                    Err((j, ParseKind::DuplicateKey))
                } else {
                    let k = skip_ws(s, bump(j, n1));
                    if k >= s.len() || s[k] != 58 {
                        Err((k, ParseKind::Syntax))
                    } else {
                        let m = skip_ws(s, k + 1);
                        match parse_value(s, m) {
                            Err(e) => Err(e),
                            Ok((v, n2)) => {
                                let q = skip_ws(s, bump(m, n2));
                                if q >= s.len() {
                                    Err((q, ParseKind::Syntax))
                                } else if s[q] == 44 {
                                    parse_members(s, q + 1, acc.push((key, v)), false)
                                } else if s[q] == 125 {
                                    Ok((Node::Table(acc.push((key, v))), q + 1))
                                } else {
                                    Err((q, ParseKind::Syntax))
                                }
                            },
                        }
                    }
                }
            },
        }
    }
}

#[via_fn]
proof fn parse_elems_dec(s: Seq<u8>, i: int, acc: Seq<Node>, first: bool) {
    assert forall|x: int| #[trigger] skip_ws(s, x) >= x && (x <= s.len() ==> skip_ws(s, x)
        <= s.len()) by {
        lemma_skip_ws(s, x);
    }
}

#[via_fn]
proof fn parse_members_dec(s: Seq<u8>, i: int, acc: Seq<(Seq<u8>, Node)>, first: bool) {
    assert forall|x: int| #[trigger] skip_ws(s, x) >= x && (x <= s.len() ==> skip_ws(s, x)
        <= s.len()) by {
        lemma_skip_ws(s, x);
    }
}

/// A whole document: one value, surrounded by whitespace only.
pub open spec fn json_doc(s: Seq<u8>) -> Result<Node, (int, ParseKind)> {
    let j = skip_ws(s, 0);
    match parse_value(s, j) {
        Err(e) => Err(e),
        Ok((v, n)) => {
            let k = skip_ws(s, bump(j, n));
            if k == s.len() {
                Ok(v)
            } else {
                Err((k, ParseKind::Syntax))
            }
        },
    }
}

/// The value starting at `i`, as the spec `parse_value` defines it.
fn parse_value_at(s: &Vec<u8>, i: usize) -> (r: Result<(Value, usize), ParseErr>)
    requires
        i <= s.len(),
    ensures
        match r {
            Ok((v, n)) => parse_value(s@, i as int) == Ok::<_, (int, ParseKind)>((
                v@,
                n as int,
            )) && i < n <= s.len(),
            Err(e) => parse_value(s@, i as int) == Err::<(Node, int), _>((
                e.pos as int,
                e.kind,
            )),
        },
    decreases s@.len() - i, 0int,
{
    if i >= s.len() {
        return Err(ParseErr { pos: i, kind: ParseKind::Syntax });
    }
    let b = s[i];
    if b == 110 {
        if s.len() - i >= 4 && s[i + 1] == 117 && s[i + 2] == 108 && s[i + 3] == 108 {
            Ok((Value::Null, i + 4))
        } else {
            Err(ParseErr { pos: i, kind: ParseKind::Syntax })
        }
    } else if b == 116 {
        if s.len() - i >= 4 && s[i + 1] == 114 && s[i + 2] == 117 && s[i + 3] == 101 {
            Ok((Value::Bool(true), i + 4))
        } else {
            Err(ParseErr { pos: i, kind: ParseKind::Syntax })
        }
    } else if b == 102 {
        if s.len() - i >= 5 && s[i + 1] == 97 && s[i + 2] == 108 && s[i + 3] == 115 && s[i + 4]
            == 101 {
            Ok((Value::Bool(false), i + 5))
        } else {
            Err(ParseErr { pos: i, kind: ParseKind::Syntax })
        }
    } else if b == 34 {
        match parse_string_at(s, i) {
            Ok((t, n)) => Ok((Value::Str(t), n)),
            Err(e) => Err(e),
        }
    } else if b == 91 {
        parse_elems_at(s, i + 1)
    } else if b == 123 {
        parse_members_at(s, i + 1)
    } else if b == 45 || (48 <= b && b <= 57) {
        parse_number_at(s, i, true)
    } else {
        Err(ParseErr { pos: i, kind: ParseKind::Syntax })
    }
}

/// The array items from `i` (just after `[`), as `parse_elems` defines
/// them.
fn parse_elems_at(s: &Vec<u8>, i: usize) -> (r: Result<(Value, usize), ParseErr>)
    requires
        i <= s.len(),
    ensures
        match r {
            Ok((v, n)) => parse_elems(s@, i as int, Seq::empty(), true) == Ok::<
                _,
                (int, ParseKind),
            >((v@, n as int)) && i < n <= s.len(),
            Err(e) => parse_elems(s@, i as int, Seq::empty(), true) == Err::<(Node, int), _>((
                e.pos as int,
                e.kind,
            )),
        },
    decreases s@.len() - i, 1int,
{
    let mut accv: Vec<Value> = Vec::new();
    let mut cur = i;
    let mut first = true;
    proof {
        assert(nodes_of(accv@) =~= Seq::<Node>::empty());
    }
    loop
        invariant
            i <= cur <= s.len(),
            parse_elems(s@, i as int, Seq::empty(), true) == parse_elems(
                s@,
                cur as int,
                nodes_of(accv@),
                first,
            ),
        decreases s@.len() - cur,
    {
        let ghost ns = nodes_of(accv@);
        let j = skip_ws_at(s, cur);
        if j >= s.len() {
            return Err(ParseErr { pos: j, kind: ParseKind::Syntax });
        }
        if first && s[j] == 93 {
            let out = Value::Arr(accv);
            return Ok((out, j + 1));
        }
        match parse_value_at(s, j) {
            Err(e) => {
                return Err(e);
            },
            Ok((v, n0)) => {
                let n = if n0 > j {
                    n0
                } else {
                    j + 1
                };
                proof {
                    assert(n as int == bump(j as int, n0 as int));
                }
                let k = skip_ws_at(s, n);
                if k >= s.len() {
                    return Err(ParseErr { pos: k, kind: ParseKind::Syntax });
                }
                if s[k] == 44 {
                    let ghost gv = v;
                    let ghost acc0 = accv@;
                    accv.push(v);
                    proof {
                        crate::convert::lemma_nodes_of_push(acc0, gv);
                    }
                    cur = k + 1;
                    first = false;
                } else if s[k] == 93 {
                    let ghost gv = v;
                    let ghost acc0 = accv@;
                    accv.push(v);
                    proof {
                        crate::convert::lemma_nodes_of_push(acc0, gv);
                    }
                    let out = Value::Arr(accv);
                    return Ok((out, k + 1));
                } else {
                    return Err(ParseErr { pos: k, kind: ParseKind::Syntax });
                }
            },
        }
    }
}

/// The object members from `i` (just after `{`), as `parse_members`
/// defines them.
fn parse_members_at(s: &Vec<u8>, i: usize) -> (r: Result<(Value, usize), ParseErr>)
    requires
        i <= s.len(),
    ensures
        match r {
            Ok((v, n)) => parse_members(s@, i as int, Seq::empty(), true) == Ok::<
                _,
                (int, ParseKind),
            >((v@, n as int)) && i < n <= s.len(),
            Err(e) => parse_members(s@, i as int, Seq::empty(), true) == Err::<
                (Node, int),
                _,
            >((e.pos as int, e.kind)),
        },
    decreases s@.len() - i, 1int,
{
    let mut accv: Vec<(Vec<u8>, Value)> = Vec::new();
    let mut cur = i;
    let mut first = true;
    proof {
        assert(entry_nodes_of(accv@) =~= Seq::<(Seq<u8>, Node)>::empty());
    }
    loop
        invariant
            i <= cur <= s.len(),
            parse_members(s@, i as int, Seq::empty(), true) == parse_members(
                s@,
                cur as int,
                entry_nodes_of(accv@),
                first,
            ),
        decreases s@.len() - cur,
    {
        let ghost ens = entry_nodes_of(accv@);
        let j = skip_ws_at(s, cur);
        if j >= s.len() {
            return Err(ParseErr { pos: j, kind: ParseKind::Syntax });
        }
        if first && s[j] == 125 {
            let out = Value::Table(accv);
            return Ok((out, j + 1));
        }
        if s[j] != 34 {
            return Err(ParseErr { pos: j, kind: ParseKind::Syntax });
        }
        match parse_string_at(s, j) {
            Err(e) => {
                return Err(e);
            },
            Ok((key, n1)) => {
                if has_key_at(&accv, &key) {
                    return Err(ParseErr { pos: j, kind: ParseKind::DuplicateKey });
                }
                let n1b = if n1 > j {
                    n1
                } else {
                    j + 1
                };
                proof {
                    assert(n1b as int == bump(j as int, n1 as int));
                }
                let k = skip_ws_at(s, n1b);
                if k >= s.len() || s[k] != 58 {
                    return Err(ParseErr { pos: k, kind: ParseKind::Syntax });
                }
                let m = skip_ws_at(s, k + 1);
                match parse_value_at(s, m) {
                    Err(e) => {
                        return Err(e);
                    },
                    Ok((v, n2)) => {
                        let n2b = if n2 > m {
                            n2
                        } else {
                            m + 1
                        };
                        proof {
                            assert(n2b as int == bump(m as int, n2 as int));
                        }
                        let q = skip_ws_at(s, n2b);
                        if q >= s.len() {
                            return Err(ParseErr { pos: q, kind: ParseKind::Syntax });
                        }
                        if s[q] == 44 {
                            let pair = (key, v);
                            let ghost gpair = pair;
                            let ghost acc0 = accv@;
                            accv.push(pair);
                            proof {
                                crate::convert::lemma_entry_nodes_of_push(acc0, gpair);
                            }
                            cur = q + 1;
                            first = false;
                        } else if s[q] == 125 {
                            let pair = (key, v);
                            let ghost gpair = pair;
                            let ghost acc0 = accv@;
                            accv.push(pair);
                            proof {
                                crate::convert::lemma_entry_nodes_of_push(acc0, gpair);
                            }
                            let out = Value::Table(accv);
                            return Ok((out, q + 1));
                        } else {
                            return Err(ParseErr { pos: q, kind: ParseKind::Syntax });
                        }
                    },
                }
            },
        }
    }
}

/// Parses a whole document: one value surrounded by whitespace only.
pub fn parse_json(s: &Vec<u8>) -> (r: Result<Value, ParseErr>)
    ensures
        match r {
            Ok(v) => json_doc(s@) == Ok::<_, (int, ParseKind)>(v@),
            Err(e) => json_doc(s@) == Err::<Node, _>((e.pos as int, e.kind)),
        },
{
    let j = skip_ws_at(s, 0);
    match parse_value_at(s, j) {
        Err(e) => Err(e),
        Ok((v, n)) => {
            let nb = if n > j {
                n
            } else {
                j + 1
            };
            proof {
                assert(nb as int == bump(j as int, n as int));
            }
            let k = skip_ws_at(s, nb);
            if k == s.len() {
                Ok(v)
            } else {
                Err(ParseErr { pos: k, kind: ParseKind::Syntax })
            }
        },
    }
}

/// A value the reader returns is well-formed: each object level was
/// checked for repeated keys as it was built.
proof fn lemma_parse_value_wf(s: Seq<u8>, i: int)
    ensures
        parse_value(s, i) matches Ok((v, _)) ==> v.wf(),
    decreases s.len() - i, 0int,
{
    if 0 <= i < s.len() {
        if s[i] == 91 {
            lemma_parse_elems_wf(s, i + 1, Seq::empty(), true);
        } else if s[i] == 123 {
            lemma_parse_members_wf(s, i + 1, Seq::empty(), true);
        }
    }
}

/// Array form of `lemma_parse_value_wf`.
proof fn lemma_parse_elems_wf(s: Seq<u8>, i: int, acc: Seq<Node>, first: bool)
    requires
        crate::value::seq_all_wf(acc),
    ensures
        parse_elems(s, i, acc, first) matches Ok((v, _)) ==> v.wf(),
    decreases s.len() - i, 1int,
{
    lemma_skip_ws(s, i);
    let j = skip_ws(s, i);
    if !(i < 0 || j >= s.len()) && !(first && s[j] == 93) {
        match parse_value(s, j) {
            Err(_) => {},
            Ok((v, n0)) => {
                lemma_parse_value_wf(s, j);
                lemma_skip_ws(s, bump(j, n0));
                let k = skip_ws(s, bump(j, n0));
                if k < s.len() {
                    assert(acc.push(v).drop_last() =~= acc);
                    if s[k] == 44 {
                        lemma_parse_elems_wf(s, k + 1, acc.push(v), false);
                    }
                }
            },
        }
    }
}

/// Object form of `lemma_parse_value_wf`.
proof fn lemma_parse_members_wf(s: Seq<u8>, i: int, acc: Seq<(Seq<u8>, Node)>, first: bool)
    requires
        crate::value::keys_unique(acc),
        crate::value::entries_all_wf(acc),
    ensures
        parse_members(s, i, acc, first) matches Ok((v, _)) ==> v.wf(),
    decreases s.len() - i, 1int,
{
    lemma_skip_ws(s, i);
    let j = skip_ws(s, i);
    if !(i < 0 || j >= s.len()) && !(first && s[j] == 125) && s[j] == 34 {
        match parse_string(s, j) {
            Err(_) => {},
            Ok((key, n1)) => {
                if !table_has_key(acc, key) {
                    lemma_skip_ws(s, bump(j, n1));
                    let k = skip_ws(s, bump(j, n1));
                    if !(k >= s.len() || s[k] != 58) {
                        lemma_skip_ws(s, k + 1);
                        let m = skip_ws(s, k + 1);
                        match parse_value(s, m) {
                            Err(_) => {},
                            Ok((v, n2)) => {
                                lemma_parse_value_wf(s, m);
                                lemma_skip_ws(s, bump(m, n2));
                                let q = skip_ws(s, bump(m, n2));
                                if q < s.len() {
                                    crate::value::lemma_keys_unique_push(acc, key, v);
                                    assert(acc.push((key, v)).drop_last() =~= acc);
                                    if s[q] == 44 {
                                        lemma_parse_members_wf(
                                            s,
                                            q + 1,
                                            acc.push((key, v)),
                                            false,
                                        );
                                    }
                                }
                            },
                        }
                    }
                }
            },
        }
    }
}

/// Every tree the reader accepts is well-formed: table keys are pairwise
/// distinct at every level, since a repeated key is a parse rejection.
pub proof fn lemma_json_doc_wf(s: Seq<u8>)
    ensures
        json_doc(s) matches Ok(v) ==> v.wf(),
{
    lemma_parse_value_wf(s, skip_ws(s, 0));
}

} // verus!
