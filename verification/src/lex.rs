//! Lexical pieces shared by the two readers: rejection kinds, whitespace
//! and digit scanning, quoted strings with escapes, and number literals.
//!
//! A number with a fraction or exponent part becomes a float node carrying
//! its literal text. An integer too large for 64 signed bits becomes a
//! float node as well where the caller asks for that (`big_to_float`), and
//! a rejection otherwise.

use vstd::prelude::*;
use crate::value::{Value, Node, node_of, entry_nodes_of, table_has_key};
use crate::num::{is_digit, digits_val, all_digits, lemma_digits_val_nonneg};

verus! {

broadcast use vstd::std_specs::vec::group_vec_axioms, vstd::seq::group_seq_axioms;

/// What a parse rejection reports, beside its position.
#[derive(Clone, Copy, PartialEq, Eq, Structural, Debug)]
pub enum ParseKind {
    /// The text does not follow the grammar.
    Syntax,
    /// A key occurs twice at the same table level.
    DuplicateKey,
    /// A malformed number literal.
    Number,
    /// A malformed datetime literal.
    Datetime,
}

/// A parse rejection: byte position and kind.
#[derive(Clone, Copy, PartialEq, Eq, Structural, Debug)]
pub struct ParseErr {
    pub pos: usize,
    pub kind: ParseKind,
}

/// Format whitespace.
pub open spec fn is_ws(b: u8) -> bool {
    b == 32 || b == 9 || b == 10 || b == 13
}

/// First position at or after `i` holding no whitespace.
pub open spec fn skip_ws(s: Seq<u8>, i: int) -> int
    decreases s.len() - i,
{
    if 0 <= i < s.len() && is_ws(s[i]) {
        skip_ws(s, i + 1)
    } else {
        i
    }
}

/// `skip_ws` moves forward and not past the end.
pub proof fn lemma_skip_ws(s: Seq<u8>, i: int)
    ensures
        i <= skip_ws(s, i),
        i <= s.len() ==> skip_ws(s, i) <= s.len(),
    decreases s.len() - i,
{
    if 0 <= i < s.len() && is_ws(s[i]) {
        lemma_skip_ws(s, i + 1);
    }
}

/// End of the digit run starting at `i`.
pub open spec fn scan_digits(s: Seq<u8>, i: int) -> int
    decreases s.len() - i,
{
    if 0 <= i < s.len() && is_digit(s[i]) {
        scan_digits(s, i + 1)
    } else {
        i
    }
}

/// `scan_digits` moves forward over digits and not past the end.
pub proof fn lemma_scan_digits(s: Seq<u8>, i: int)
    ensures
        i <= scan_digits(s, i),
        i <= s.len() ==> scan_digits(s, i) <= s.len(),
        forall|j: int| i <= j < scan_digits(s, i) ==> is_digit(#[trigger] s[j]),
    decreases s.len() - i,
{
    if 0 <= i < s.len() && is_digit(s[i]) {
        lemma_scan_digits(s, i + 1);
    }
}

/// A sub-parse continuation position, guaranteed past `i`: parsers always
/// consume at least one byte, so the clamp changes nothing in practice,
/// and it lets every recursion be seen to terminate.
pub open spec fn bump(i: int, j: int) -> int {
    if j > i {
        j
    } else {
        i + 1
    }
}

/// The contents and end of a quoted string starting at `i` (which must
/// hold the opening quote); escapes decoded.
pub open spec fn parse_string_body(s: Seq<u8>, i: int, acc: Seq<u8>) -> Result<
    (Seq<u8>, int),
    (int, ParseKind),
>
    decreases s.len() - i,
{
    if i >= s.len() {
        Err((i, ParseKind::Syntax))
    } else if s[i] == 34 {
        Ok((acc, i + 1))
    } else if s[i] == 92 {
        if i + 1 >= s.len() {
            Err((i + 1, ParseKind::Syntax))
        } else {
            let e = s[i + 1];
            if e == 34 || e == 92 || e == 47 {
                parse_string_body(s, i + 2, acc.push(e))
            } else if e == 98 {
                parse_string_body(s, i + 2, acc.push(8))
            } else if e == 102 {
                parse_string_body(s, i + 2, acc.push(12))
            } else if e == 110 {
                parse_string_body(s, i + 2, acc.push(10))
            } else if e == 114 {
                parse_string_body(s, i + 2, acc.push(13))
            } else if e == 116 {
                parse_string_body(s, i + 2, acc.push(9))
            } else {
                Err((i + 1, ParseKind::Syntax))
            }
        }
    } else if s[i] < 32 {
        Err((i, ParseKind::Syntax))
    } else {
        parse_string_body(s, i + 1, acc.push(s[i]))
    }
}

/// A parsed string literal: its contents and the position after the
/// closing quote. `i` must hold the opening quote.
pub open spec fn parse_string(s: Seq<u8>, i: int) -> Result<(Seq<u8>, int), (int, ParseKind)> {
    parse_string_body(s, i + 1, Seq::empty())
}

/// A parsed number starting at `i`: an integer node when the literal has
/// no fraction or exponent part and its value fits 64 signed bits, else a
/// float node carrying the literal text.
pub open spec fn parse_number(s: Seq<u8>, i: int, big_to_float: bool) -> Result<
    (Node, int),
    (int, ParseKind),
> {
    let d0 = if 0 <= i < s.len() && s[i] == 45 {
        i + 1
    } else {
        i
    };
    if !(0 <= d0 < s.len() && is_digit(s[d0])) {
        Err((d0, ParseKind::Number))
    } else {
        let int_end = scan_digits(s, d0);
        if s[d0] == 48 && int_end > d0 + 1 {
            Err((d0, ParseKind::Number))
        } else {
            let has_frac = int_end < s.len() && s[int_end] == 46;
            let frac_end = if has_frac {
                scan_digits(s, int_end + 1)
            } else {
                int_end
            };
            if has_frac && frac_end == int_end + 1 {
                Err((int_end + 1, ParseKind::Number))
            } else {
                let has_exp = frac_end < s.len() && (s[frac_end] == 101 || s[frac_end] == 69);
                if has_exp {
                    let es = if frac_end + 1 < s.len() && (s[frac_end + 1] == 43 || s[frac_end
                        + 1] == 45) {
                        frac_end + 2
                    } else {
                        frac_end + 1
                    };
                    let exp_end = scan_digits(s, es);
                    if exp_end == es {
                        Err((es, ParseKind::Number))
                    } else {
                        Ok((Node::Float(s.subrange(i, exp_end)), exp_end))
                    }
                } else if has_frac {
                    Ok((Node::Float(s.subrange(i, frac_end)), frac_end))
                } else {
                    let v = digits_val(s.subrange(d0, int_end));
                    let sv = if d0 == i {
                        v
                    } else {
                        -v
                    };
                    if i64::MIN <= sv <= i64::MAX {
                        Ok((Node::Int(sv), int_end))
                    } else if big_to_float {
                        Ok((Node::Float(s.subrange(i, int_end)), int_end))
                    } else {
                        Err((i, ParseKind::Number))
                    }
                }
            }
        }
    }
}

/// First position at or after `i` holding no whitespace.
pub(crate) fn skip_ws_at(s: &Vec<u8>, i: usize) -> (r: usize)
    requires
        i <= s.len(),
    ensures
        r as int == skip_ws(s@, i as int),
        i <= r <= s.len(),
{
    let mut cur = i;
    while cur < s.len() && (s[cur] == 32 || s[cur] == 9 || s[cur] == 10 || s[cur] == 13)
        invariant
            i <= cur <= s.len(),
            skip_ws(s@, i as int) == skip_ws(s@, cur as int),
        decreases s.len() - cur,
    {
        cur += 1;
    }
    proof {
        lemma_skip_ws(s@, i as int);
    }
    cur
}

/// Whether two byte strings hold the same bytes.
pub(crate) fn bytes_eq(a: &Vec<u8>, b: &Vec<u8>) -> (r: bool)
    ensures
        r == (a@ == b@),
{
    if a.len() != b.len() {
        assert(a@ != b@);
        return false;
    }
    let mut i: usize = 0;
    while i < a.len()
        invariant
            i <= a.len(),
            a@.len() == b@.len(),
            forall|j: int| 0 <= j < i ==> a@[j] == b@[j],
        decreases a.len() - i,
    {
        if a[i] != b[i] {
            assert(a@ != b@);
            return false;
        }
        i += 1;
    }
    assert(a@ =~= b@);
    true
}

/// Whether `acc` already holds an entry under `key`.
pub(crate) fn has_key_at(acc: &Vec<(Vec<u8>, Value)>, key: &Vec<u8>) -> (r: bool)
    ensures
        r == table_has_key(entry_nodes_of(acc@), key@),
{
    proof {
        crate::value::lemma_entry_nodes_of(acc@);
    }
    let ghost ens = entry_nodes_of(acc@);
    let mut i: usize = 0;
    while i < acc.len()
        invariant
            i <= acc.len(),
            ens == entry_nodes_of(acc@),
            ens.len() == acc@.len(),
            forall|j: int|
                0 <= j < acc@.len() ==> #[trigger] ens[j] == (
                acc@[j].0@,
                node_of(acc@[j].1),
                ),
            forall|j: int| 0 <= j < i ==> (#[trigger] ens[j]).0 != key@,
        decreases acc.len() - i,
    {
        if bytes_eq(&acc[i].0, key) {
            assert(ens[i as int].0 == key@);
            return true;
        }
        i += 1;
    }
    assert(!table_has_key(ens, key@));
    false
}

/// The contents and end of the quoted string whose opening quote stands
/// at `i`.
pub(crate) fn parse_string_at(s: &Vec<u8>, i: usize) -> (r: Result<(Vec<u8>, usize), ParseErr>)
    requires
        i < s.len(),
    ensures
        match r {
            Ok((t, n)) => parse_string(s@, i as int) == Ok::<_, (int, ParseKind)>((
                t@,
                n as int,
            )) && i < n <= s.len(),
            Err(e) => parse_string(s@, i as int) == Err::<(Seq<u8>, int), _>((
                e.pos as int,
                e.kind,
            )),
        },
{
    let mut acc: Vec<u8> = Vec::new();
    let mut cur = i + 1;
    while cur < s.len()
        invariant
            i + 1 <= cur <= s.len(),
            parse_string(s@, i as int) == parse_string_body(s@, cur as int, acc@),
        decreases s.len() - cur,
    {
        let b = s[cur];
        if b == 34 {
            return Ok((acc, cur + 1));
        } else if b == 92 {
            if cur + 1 >= s.len() {
                return Err(ParseErr { pos: cur + 1, kind: ParseKind::Syntax });
            }
            let e = s[cur + 1];
            if e == 34 || e == 92 || e == 47 {
                acc.push(e);
            } else if e == 98 {
                acc.push(8);
            } else if e == 102 {
                acc.push(12);
            } else if e == 110 {
                acc.push(10);
            } else if e == 114 {
                acc.push(13);
            } else if e == 116 {
                acc.push(9);
            } else {
                return Err(ParseErr { pos: cur + 1, kind: ParseKind::Syntax });
            }
            cur += 2;
        } else if b < 32 {
            return Err(ParseErr { pos: cur, kind: ParseKind::Syntax });
        } else {
            acc.push(b);
            cur += 1;
        }
    }
    Err(ParseErr { pos: cur, kind: ParseKind::Syntax })
}

/// A copy of the bytes in `[a, b)`.
pub(crate) fn copy_range(s: &Vec<u8>, a: usize, b: usize) -> (r: Vec<u8>)
    requires
        a <= b <= s.len(),
    ensures
        r@ == s@.subrange(a as int, b as int),
{
    let mut r: Vec<u8> = Vec::new();
    let mut i = a;
    while i < b
        invariant
            a <= i <= b <= s.len(),
            r@ == s@.subrange(a as int, i as int),
        decreases b - i,
    {
        r.push(s[i]);
        assert(r@ =~= s@.subrange(a as int, i + 1));
        i += 1;
    }
    r
}

/// The number starting at `i`, as the spec `parse_number` defines it.
pub(crate) fn parse_number_at(s: &Vec<u8>, i: usize, big_to_float: bool) -> (r: Result<
    (Value, usize),
    ParseErr,
>)
    requires
        i < s.len(),
    ensures
        match r {
            Ok((v, n)) => parse_number(s@, i as int, big_to_float) == Ok::<_, (int, ParseKind)>((
                v@,
                n as int,
            )) && i < n <= s.len(),
            Err(e) => parse_number(s@, i as int, big_to_float) == Err::<(Node, int), _>((
                e.pos as int,
                e.kind,
            )),
        },
{
    let neg = s[i] == 45;
    let d0 = if neg {
        i + 1
    } else {
        i
    };
    if d0 >= s.len() || !(48 <= s[d0] && s[d0] <= 57) {
        return Err(ParseErr { pos: d0, kind: ParseKind::Number });
    }
    let mut j = d0;
    let mut acc: u128 = 0;
    let mut ovf = false;
    while j < s.len() && 48 <= s[j] && s[j] <= 57
        invariant
            d0 <= j <= s.len(),
            d0 < s.len(),
            scan_digits(s@, d0 as int) == scan_digits(s@, j as int),
            all_digits(s@.subrange(d0 as int, j as int)),
            !ovf ==> acc == digits_val(s@.subrange(d0 as int, j as int)) && acc
                <= 0xFFFF_FFFF_FFFF_FFFFu128,
            ovf ==> digits_val(s@.subrange(d0 as int, j as int)) > 0xFFFF_FFFF_FFFF_FFFFint,
        decreases s.len() - j,
    {
        let d = (s[j] - 48) as u128;
        let ghost sub = s@.subrange(d0 as int, j as int);
        proof {
            lemma_digits_val_nonneg(sub);
            assert(s@.subrange(d0 as int, j + 1).drop_last() =~= sub);
            assert(s@.subrange(d0 as int, j + 1).last() == s@[j as int]);
            assert(digits_val(s@.subrange(d0 as int, j + 1)) == digits_val(sub) * 10 + (s@[
                j as int] - 48));
            assert(all_digits(s@.subrange(d0 as int, j + 1)));
        }
        if !ovf {
            let next = acc * 10 + d;
            if next > 0xFFFF_FFFF_FFFF_FFFF {
                ovf = true;
            } else {
                acc = next;
            }
        }
        j += 1;
    }
    let int_end = j;
    proof {
        lemma_scan_digits(s@, d0 as int);
        assert(scan_digits(s@, j as int) == j as int);
    }
    if s[d0] == 48 && int_end > d0 + 1 {
        return Err(ParseErr { pos: d0, kind: ParseKind::Number });
    }
    let has_frac = int_end < s.len() && s[int_end] == 46;
    let mut frac_end = int_end;
    if has_frac {
        let mut k = int_end + 1;
        while k < s.len() && 48 <= s[k] && s[k] <= 57
            invariant
                int_end + 1 <= k <= s.len(),
                scan_digits(s@, int_end + 1) == scan_digits(s@, k as int),
            decreases s.len() - k,
        {
            k += 1;
        }
        proof {
            assert(scan_digits(s@, k as int) == k as int);
        }
        frac_end = k;
        if frac_end == int_end + 1 {
            return Err(ParseErr { pos: int_end + 1, kind: ParseKind::Number });
        }
    }
    let has_exp = frac_end < s.len() && (s[frac_end] == 101 || s[frac_end] == 69);
    if has_exp {
        let es = if frac_end + 1 < s.len() && (s[frac_end + 1] == 43 || s[frac_end + 1] == 45) {
            frac_end + 2
        } else {
            frac_end + 1
        };
        let mut k2 = es;
        while k2 < s.len() && 48 <= s[k2] && s[k2] <= 57
            invariant
                es <= k2 <= s.len(),
                scan_digits(s@, es as int) == scan_digits(s@, k2 as int),
            decreases s.len() - k2,
        {
            k2 += 1;
        }
        proof {
            assert(scan_digits(s@, k2 as int) == k2 as int);
        }
        let exp_end = k2;
        if exp_end == es {
            return Err(ParseErr { pos: es, kind: ParseKind::Number });
        }
        let lit = copy_range(s, i, exp_end);
        return Ok((Value::Float(lit), exp_end));
    }
    if has_frac {
        let lit = copy_range(s, i, frac_end);
        return Ok((Value::Float(lit), frac_end));
    }
    let ghost v = digits_val(s@.subrange(d0 as int, int_end as int));
    proof {
        lemma_digits_val_nonneg(s@.subrange(d0 as int, int_end as int));
    }
    if !ovf {
        if !neg && acc <= 0x7FFF_FFFF_FFFF_FFFF {
            return Ok((Value::Int(acc as i64), int_end));
        }
        if neg && acc <= 0x8000_0000_0000_0000 {
            let m = -(acc as i128);
            return Ok((Value::Int(m as i64), int_end));
        }
    }
    if big_to_float {
        let lit = copy_range(s, i, int_end);
        Ok((Value::Float(lit), int_end))
    } else {
        Err(ParseErr { pos: i, kind: ParseKind::Number })
    }
}

/// How many newlines come before `end`.
pub open spec fn count_nl(s: Seq<u8>, end: int) -> int
    decreases end,
{
    if end <= 0 {
        0
    } else {
        count_nl(s, end - 1) + if s[end - 1] == 10 {
            1int
        } else {
            0int
        }
    }
}

/// The 1-based line a byte position lies on.
pub open spec fn line_of(s: Seq<u8>, pos: int) -> int {
    1 + count_nl(s, pos)
}

/// Index of the last newline before `pos`, or -1.
pub open spec fn last_nl_before(s: Seq<u8>, pos: int) -> int
    decreases pos,
{
    if pos <= 0 {
        -1
    } else if s[pos - 1] == 10 {
        pos - 1
    } else {
        last_nl_before(s, pos - 1)
    }
}

/// The 1-based column a byte position lies on.
pub open spec fn col_of(s: Seq<u8>, pos: int) -> int {
    pos - last_nl_before(s, pos)
}

/// The 1-based line and column of a byte position, for diagnostics.
pub fn line_col_at(s: &Vec<u8>, pos: usize) -> (r: (usize, usize))
    requires
        pos <= s.len(),
        pos < usize::MAX,
    ensures
        r.0 as int == line_of(s@, pos as int),
        r.1 as int == col_of(s@, pos as int),
{
    let mut line: usize = 1;
    let mut line_start: usize = 0;
    let mut i: usize = 0;
    while i < pos
        invariant
            i <= pos <= s.len(),
            pos < usize::MAX,
            line as int == 1 + count_nl(s@, i as int),
            line_start as int == last_nl_before(s@, i as int) + 1,
            line_start <= i,
            line <= i + 1,
        decreases pos - i,
    {
        if s[i] == 10 {
            line += 1;
            line_start = i + 1;
        }
        i += 1;
    }
    (line, pos - line_start + 1)
}

} // verus!