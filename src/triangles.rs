//! Reading a number triangle: a first line with the number at the top, then
//! one line per row with its numbers separated by white space.
use vstd::prelude::*;

use crate::bigint::{
    char_value, decimal_digits, digit_of, is_decimal_text, lemma_value_push, render, render_digits,
    text_digits,
};
use crate::digits::{decimal_of, value_of};

verus! {

/// The name of the vertex at a row and column: both in decimal, joined by a
/// hyphen ("3-1").
pub fn vertex_name(row: u32, column: u32) -> (r: String)
    ensures
        r@ == render(decimal_of(row as nat)) + seq!['-'] + render(decimal_of(column as nat)),
{
    proof {
        crate::digits::lemma_decimal_of(row as nat);
        crate::digits::lemma_decimal_of(column as nat);
        reveal_strlit("-");
    }
    let mut name = render_digits(&decimal_digits(row as u64));
    name.append("-");
    let second = render_digits(&decimal_digits(column as u64));
    name.append(second.as_str());
    name
}

/// White space as Unicode defines it.
pub open spec fn is_white(c: char) -> bool {
    let u = c as u32;
    (9 <= u <= 13) || u == 32 || u == 0x85 || u == 0xA0 || u == 0x1680 || (0x2000 <= u <= 0x200A)
        || u == 0x2028 || u == 0x2029 || u == 0x202F || u == 0x205F || u == 0x3000
}

fn white(c: char) -> (r: bool)
    ensures
        r == is_white(c),
{
    let u = c as u32;
    (9 <= u && u <= 13) || u == 32 || u == 0x85 || u == 0xA0 || u == 0x1680 || (0x2000 <= u && u
        <= 0x200A) || u == 0x2028 || u == 0x2029 || u == 0x202F || u == 0x205F || u == 0x3000
}

/// The `i64` a text writes in decimal: an optional sign, '+' or '-', then at
/// least one digit; nothing for any other text or a number out of range.
pub open spec fn i64_of(t: Seq<char>) -> Option<i64> {
    let signed = t.len() > 0 && (t[0] == '-' || t[0] == '+');
    let digits = if signed {
        t.drop_first()
    } else {
        t
    };
    let magnitude = value_of(text_digits(digits)) as int;
    let v = if signed && t[0] == '-' {
        -magnitude
    } else {
        magnitude
    };
    if digits.len() == 0 || !is_decimal_text(digits) || v < i64::MIN || v > i64::MAX {
        None
    } else {
        Some(v as i64)
    }
}

/// A longer decimal text writes a number at least as large.
proof fn lemma_prefix_value(t: Seq<char>, k: int)
    requires
        0 <= k <= t.len(),
        is_decimal_text(t),
    ensures
        value_of(text_digits(t.subrange(0, k))) <= value_of(text_digits(t)),
{
    let a = text_digits(t.subrange(0, k));
    let b = text_digits(t.subrange(k, t.len() as int));
    assert(text_digits(t) =~= a + b);
    crate::digits::lemma_value_append(a, b);
    crate::digits::lemma_pow10_positive(b.len());
    assert(value_of(a) <= value_of(a) * crate::digits::pow10(b.len())) by (nonlinear_arith)
        requires
            crate::digits::pow10(b.len()) >= 1,
    ;
}

/// Reads `s[from..to]` as an `i64` (see `i64_of`).
fn parse_i64(s: &str, from: usize, to: usize) -> (r: Option<i64>)
    requires
        from <= to <= s@.len(),
    ensures
        r == i64_of(s@.subrange(from as int, to as int)),
{
    let ghost t = s@.subrange(from as int, to as int);
    let mut i = from;
    let mut negative = false;
    if i < to {
        let c = s.get_char(i);
        if c == '-' {
            negative = true;
            i += 1;
        } else if c == '+' {
            i += 1;
        }
    }
    let ghost ds = i;
    let ghost digits = s@.subrange(ds as int, to as int);
    proof {
        let signed = t.len() > 0 && (t[0] == '-' || t[0] == '+');
        assert(signed <==> ds == from + 1);
        assert(negative <==> t.len() > 0 && t[0] == '-');
        if signed {
            assert(t.drop_first() =~= digits);
        } else {
            assert(t =~= digits);
        }
    }
    if i == to {
        return None;
    }
    let limit: u64 = if negative {
        9223372036854775808
    } else {
        9223372036854775807
    };
    let mut m: u64 = 0;
    proof {
        assert(s@.subrange(ds as int, ds as int) =~= Seq::<char>::empty());
        assert(text_digits(Seq::<char>::empty()) =~= Seq::<u8>::empty());
    }
    while i < to
        invariant
            from <= ds <= i <= to <= s@.len(),
            digits == s@.subrange(ds as int, to as int),
            t == s@.subrange(from as int, to as int),
            (t.len() > 0 && (t[0] == '-' || t[0] == '+')) ==> t.drop_first() == digits,
            !(t.len() > 0 && (t[0] == '-' || t[0] == '+')) ==> t == digits,
            negative <==> t.len() > 0 && t[0] == '-',
            digits.len() > 0,
            limit == if negative {
                9223372036854775808u64
            } else {
                9223372036854775807u64
            },
            is_decimal_text(s@.subrange(ds as int, i as int)),
            m == value_of(text_digits(s@.subrange(ds as int, i as int))),
            m <= limit,
        decreases to - i,
    {
        let c = s.get_char(i);
        let ghost pre = s@.subrange(ds as int, i as int);
        let ghost post = s@.subrange(ds as int, i + 1);
        proof {
            assert(post =~= pre.push(c));
            assert(digits[i - ds] == c);
        }
        match digit_of(c) {
            None => {
                proof {
                    assert(!is_decimal_text(digits)) by {
                        assert(char_value(digits[i - ds]) is None);
                    }
                }
                return None;
            },
            Some(d) => {
                assert(d <= 9);
                proof {
                    assert(text_digits(post) =~= text_digits(pre).push(d));
                    lemma_value_push(text_digits(pre), d);
                    assert(is_decimal_text(post)) by {
                        assert forall|j: int| 0 <= j < post.len() implies (#[trigger] char_value(
                            post[j],
                        )).is_some() by {
                            if j < pre.len() {
                                assert(post[j] == pre[j]);
                            }
                        }
                    }
                }
                if m > (limit - d as u64) / 10 {
                    proof {
                        if is_decimal_text(digits) {
                            assert(post =~= digits.subrange(0, i + 1 - ds));
                            lemma_prefix_value(digits, i + 1 - ds);
                        }
                    }
                    return None;
                }
                m = m * 10 + d as u64;
            },
        }
        i += 1;
    }
    proof {
        assert(s@.subrange(ds as int, to as int) == digits);
    }
    if negative {
        if m == 9223372036854775808 {
            Some(i64::MIN)
        } else {
            Some(-(m as i64))
        }
    } else {
        Some(m as i64)
    }
}

/// The numbers written by the words of `s[pos..to]`, words being the runs of
/// characters between white space: those in `acc`, then, when `tok < pos`,
/// the word begun at `tok`, then the rest. Nothing if a word is no `i64`.
pub open spec fn scan_numbers(s: Seq<char>, pos: int, to: int, tok: int, acc: Seq<i64>) -> Option<
    Seq<i64>,
>
    decreases to - pos,
{
    if pos >= to {
        if tok < pos {
            match i64_of(s.subrange(tok, pos)) {
                Some(x) => Some(acc.push(x)),
                None => None,
            }
        } else {
            Some(acc)
        }
    } else if is_white(s[pos]) {
        if tok < pos {
            match i64_of(s.subrange(tok, pos)) {
                Some(x) => scan_numbers(s, pos + 1, to, pos + 1, acc.push(x)),
                None => None,
            }
        } else {
            scan_numbers(s, pos + 1, to, pos + 1, acc)
        }
    } else {
        scan_numbers(s, pos + 1, to, tok, acc)
    }
}

/// The numbers written by the white-space separated words of `s[from..to]`;
/// nothing if a word is no `i64`.
pub open spec fn numbers_in(s: Seq<char>, from: int, to: int) -> Option<Seq<i64>> {
    scan_numbers(s, from, to, from, Seq::empty())
}

/// Reads the numbers of the words of `s[from..to]`.
fn read_numbers(s: &str, from: usize, to: usize) -> (r: Option<Vec<i64>>)
    requires
        from <= to <= s@.len(),
    ensures
        r matches Some(v) ==> numbers_in(s@, from as int, to as int) == Some(v@),
        r is None ==> numbers_in(s@, from as int, to as int) is None,
{
    let mut out: Vec<i64> = Vec::new();
    let mut pos = from;
    let mut tok = from;
    while pos < to
        invariant
            from <= tok <= pos <= to <= s@.len(),
            numbers_in(s@, from as int, to as int) == scan_numbers(
                s@,
                pos as int,
                to as int,
                tok as int,
                out@,
            ),
        decreases to - pos,
    {
        let c = s.get_char(pos);
        if white(c) {
            if tok < pos {
                match parse_i64(s, tok, pos) {
                    Some(x) => {
                        out.push(x);
                    },
                    None => {
                        return None;
                    },
                }
            }
            tok = pos + 1;
        }
        pos += 1;
    }
    if tok < pos {
        match parse_i64(s, tok, pos) {
            Some(x) => {
                out.push(x);
            },
            None => {
                return None;
            },
        }
    }
    Some(out)
}

/// The lines of `s[pos..]` as ranges of positions, after those in `acc`, the
/// line under way beginning at `start`: a line ends at '\n', without a '\r'
/// just before it; a last line without '\n' counts when it is not empty.
pub open spec fn scan_lines(s: Seq<char>, pos: int, start: int, acc: Seq<(int, int)>) -> Seq<
    (int, int),
>
    decreases s.len() - pos,
{
    if pos >= s.len() {
        if start < pos {
            acc.push((start, pos))
        } else {
            acc
        }
    } else if s[pos] == '\n' {
        let end = if pos > start && s[pos - 1] == '\r' {
            pos - 1
        } else {
            pos
        };
        scan_lines(s, pos + 1, pos + 1, acc.push((start, end)))
    } else {
        scan_lines(s, pos + 1, start, acc)
    }
}

/// The lines of a text as ranges of positions.
pub open spec fn lines_of(s: Seq<char>) -> Seq<(int, int)> {
    scan_lines(s, 0, 0, Seq::empty())
}

/// The rows of numbers on the lines from the `k`-th on; nothing if a word on
/// one of them is no `i64`.
pub open spec fn rows_from(s: Seq<char>, ls: Seq<(int, int)>, k: int) -> Option<Seq<Seq<i64>>>
    decreases ls.len() - k,
{
    if k >= ls.len() {
        Some(Seq::empty())
    } else {
        match (numbers_in(s, ls[k].0, ls[k].1), rows_from(s, ls, k + 1)) {
            (Some(row), Some(rest)) => Some(seq![row] + rest),
            _ => None,
        }
    }
}

/// A number triangle in text: the number on the first line (0 when there is
/// no line) and the rows of numbers on the other lines; nothing if the first
/// line is not one `i64` or a word on another line is no `i64`.
pub open spec fn triangle_of(s: Seq<char>) -> Option<(i64, Seq<Seq<i64>>)> {
    let ls = lines_of(s);
    let head = if ls.len() == 0 {
        Some(0i64)
    } else {
        i64_of(s.subrange(ls[0].0, ls[0].1))
    };
    match (head, rows_from(s, ls, 1)) {
        (Some(h), Some(rows)) => Some((h, rows)),
        _ => None,
    }
}

/// The ranges of positions of the lines of `s`.
fn line_ranges(s: &str) -> (r: Vec<(usize, usize)>)
    ensures
        r@.map_values(|p: (usize, usize)| (p.0 as int, p.1 as int)) == lines_of(s@),
        forall|i: int| 0 <= i < r@.len() ==> #[trigger] r@[i].0 <= r@[i].1 <= s@.len(),
{
    let len = s.unicode_len();
    let mut out: Vec<(usize, usize)> = Vec::new();
    let mut pos: usize = 0;
    let mut start: usize = 0;
    proof {
        assert(out@.map_values(|p: (usize, usize)| (p.0 as int, p.1 as int)) =~= Seq::<
            (int, int),
        >::empty());
    }
    while pos < len
        invariant
            len == s@.len(),
            start <= pos <= len,
            lines_of(s@) == scan_lines(
                s@,
                pos as int,
                start as int,
                out@.map_values(|p: (usize, usize)| (p.0 as int, p.1 as int)),
            ),
            forall|i: int| 0 <= i < out@.len() ==> #[trigger] out@[i].0 <= out@[i].1 <= s@.len(),
        decreases len - pos,
    {
        let c = s.get_char(pos);
        if c == '\n' {
            let end = if pos > start && s.get_char(pos - 1) == '\r' {
                pos - 1
            } else {
                pos
            };
            let ghost before = out@;
            out.push((start, end));
            proof {
                assert(out@.map_values(|p: (usize, usize)| (p.0 as int, p.1 as int)) =~= before.map_values(
                    |p: (usize, usize)| (p.0 as int, p.1 as int),
                ).push((start as int, end as int)));
            }
            start = pos + 1;
        }
        pos += 1;
    }
    if start < pos {
        let ghost before = out@;
        out.push((start, pos));
        proof {
            assert(out@.map_values(|p: (usize, usize)| (p.0 as int, p.1 as int)) =~= before.map_values(
                |p: (usize, usize)| (p.0 as int, p.1 as int),
            ).push((start as int, pos as int)));
        }
    }
    out
}

/// Reads a number triangle (see `triangle_of`).
pub fn triangle_weights(triangle: &str) -> (r: Option<(i64, Vec<Vec<i64>>)>)
    ensures
        r matches Some((h, rows)) ==> triangle_of(triangle@) == Some(
            (h, rows@.map_values(|v: Vec<i64>| v@)),
        ),
        r is None ==> triangle_of(triangle@) is None,
{
    let ls = line_ranges(triangle);
    let ghost lv = ls@.map_values(|p: (usize, usize)| (p.0 as int, p.1 as int));
    let head: i64 = if ls.len() == 0 {
        0
    } else {
        match parse_i64(triangle, ls[0].0, ls[0].1) {
            Some(h) => h,
            None => {
                return None;
            },
        }
    };
    let mut rows: Vec<Vec<i64>> = Vec::new();
    let mut k: usize = 1;
    proof {
        assert(rows@.map_values(|v: Vec<i64>| v@) =~= Seq::<Seq<i64>>::empty());
    }
    while k < ls.len()
        invariant
            1 <= k,
            lv == ls@.map_values(|p: (usize, usize)| (p.0 as int, p.1 as int)),
            lv == lines_of(triangle@),
            forall|i: int| 0 <= i < ls@.len() ==> #[trigger] ls@[i].0 <= ls@[i].1 <= triangle@.len(),
            rows_from(triangle@, lv, 1) == match rows_from(triangle@, lv, k as int) {
                Some(rest) => Some(rows@.map_values(|v: Vec<i64>| v@) + rest),
                None => None,
            },
        decreases ls@.len() - k,
    {
        let (from, to) = ls[k];
        match read_numbers(triangle, from, to) {
            Some(row) => {
                let ghost before = rows@.map_values(|v: Vec<i64>| v@);
                let ghost row_v = row@;
                rows.push(row);
                proof {
                    assert(rows@.map_values(|v: Vec<i64>| v@) =~= before.push(row_v));
                    match rows_from(triangle@, lv, k + 1) {
                        Some(rest) => {
                            assert(before + (seq![row_v] + rest) =~= before.push(row_v) + rest);
                        },
                        None => {},
                    }
                }
            },
            None => {
                return None;
            },
        }
        k += 1;
    }
    proof {
        assert(rows@.map_values(|v: Vec<i64>| v@) + Seq::<Seq<i64>>::empty() =~= rows@.map_values(
            |v: Vec<i64>| v@,
        ));
    }
    Some((head, rows))
}

} // verus!
