//! The text form of a pattern: a line `(N,I,J)` of decimal integers.

use vstd::prelude::*;
use crate::utils::Pattern;

verus! {

/// The first place from `from` on that holds the byte `stop`, the length
/// where none does.
pub open spec fn field_end(bytes: Seq<u8>, from: int, stop: u8) -> int
    decreases bytes.len() - from,
{
    if from < 0 || from >= bytes.len() {
        bytes.len() as int
    } else if bytes[from] == stop {
        from
    } else {
        field_end(bytes, from + 1, stop)
    }
}

/// The bytes from `from` up to `to` are decimal digits.
pub open spec fn all_digits(bytes: Seq<u8>, from: int, to: int) -> bool {
    forall|k: int| from <= k < to ==> 0x30 <= #[trigger] bytes[k] <= 0x39
}

/// The number that the digits from `from` up to `to` write.
pub open spec fn digits_value(bytes: Seq<u8>, from: int, to: int) -> int
    decreases to - from,
{
    if to <= from {
        0
    } else {
        digits_value(bytes, from, to - 1) * 10 + (bytes[to - 1] - 0x30)
    }
}

/// The integer that the bytes from `from` up to `to` write: an optional
/// sign and at least one digit, with a value of 32 bits. `None` otherwise.
pub open spec fn number(bytes: Seq<u8>, from: int, to: int) -> Option<i32> {
    let signed = from < to && (bytes[from] == 0x2D || bytes[from] == 0x2B);
    let start = if signed {
        from + 1
    } else {
        from
    };
    let value = if from < to && bytes[from] == 0x2D {
        -digits_value(bytes, start, to)
    } else {
        digits_value(bytes, start, to)
    };
    if start >= to || !all_digits(bytes, start, to) || value < i32::MIN || value > i32::MAX {
        None
    } else {
        Some(value as i32)
    }
}

/// The pattern that a line writes. The line opens with `(`; the first
/// number runs up to the first comma, the second up to the next comma, the
/// third up to the closing `)` or the end of the line. What follows the
/// closing bracket is not looked at. `None` where the line is not of this
/// form.
pub open spec fn pattern_of_line(bytes: Seq<u8>) -> Option<Pattern> {
    if bytes.len() == 0 || bytes[0] != 0x28 {
        None
    } else {
        let e1 = field_end(bytes, 1, 0x2C);
        let e2 = field_end(bytes, e1 + 1, 0x2C);
        let e3 = field_end(bytes, e2 + 1, 0x29);
        match (number(bytes, 1, e1), number(bytes, e1 + 1, e2), number(bytes, e2 + 1, e3)) {
            (Some(n), Some(i), Some(j)) => Some((n, i, j)),
            _ => None,
        }
    }
}

/// The end of a field lies between its start and the end of the bytes.
pub proof fn lemma_field_end(bytes: Seq<u8>, from: int, stop: u8)
    requires
        0 <= from,
    ensures
        from <= field_end(bytes, from, stop) || field_end(bytes, from, stop) == bytes.len(),
        field_end(bytes, from, stop) <= bytes.len(),
    decreases bytes.len() - from,
{
    if from < bytes.len() && bytes[from] != stop {
        lemma_field_end(bytes, from + 1, stop);
    }
}

/// The digits of a longer number write no less.
proof fn lemma_digits_grow(bytes: Seq<u8>, from: int, mid: int, to: int)
    requires
        from <= mid <= to,
        all_digits(bytes, from, to),
    ensures
        0 <= digits_value(bytes, from, mid) <= digits_value(bytes, from, to),
    decreases to - mid,
{
    lemma_digits_floor(bytes, from, mid);
    if mid < to {
        lemma_digits_grow(bytes, from, mid, to - 1);
        if to - 1 >= from {
            assert(0x30 <= bytes[to - 1]);
        }
    }
}

/// Digits write a number that is not negative.
proof fn lemma_digits_floor(bytes: Seq<u8>, from: int, to: int)
    requires
        all_digits(bytes, from, to),
    ensures
        0 <= digits_value(bytes, from, to),
    decreases to - from,
{
    if to > from {
        lemma_digits_floor(bytes, from, to - 1);
        assert(0x30 <= bytes[to - 1]);
    }
}

/// The place of the first `stop` from `from` on.
fn find_end(line: &[u8], from: usize, stop: u8) -> (end: usize)
    requires
        from <= line@.len() + 1,
    ensures
        end == field_end(line@, from as int, stop),
        end <= line@.len(),
{
    let mut k = from;
    while k < line.len()
        invariant
            from <= k,
            field_end(line@, from as int, stop) == field_end(line@, k as int, stop),
        decreases line.len() - k,
    {
        if line[k] == stop {
            return k;
        }
        k += 1;
    }
    line.len()
}

/// The integer that the bytes from `from` up to `to` write.
fn read_number(line: &[u8], from: usize, to: usize) -> (found: Option<i32>)
    requires
        to <= line@.len(),
    ensures
        found == number(line@, from as int, to as int),
{
    if from >= to {
        return None;
    }
    let negative = line[from] == 0x2D;
    let start = if line[from] == 0x2D || line[from] == 0x2B {
        from + 1
    } else {
        from
    };
    if start >= to {
        return None;
    }
    let mut acc: i64 = 0;
    let mut k = start;
    while k < to
        invariant
            start <= k <= to <= line@.len(),
            from < to,
            start == (if line@[from as int] == 0x2D || line@[from as int] == 0x2B {
                from + 1
            } else {
                from as int
            }),
            all_digits(line@, start as int, k as int),
            acc == digits_value(line@, start as int, k as int),
            0 <= acc <= 0x8000_0000,
        decreases to - k,
    {
        let b = line[k];
        if b < 0x30 || b > 0x39 {
            proof {
                assert(!(0x30 <= line@[k as int] <= 0x39));
                assert(!all_digits(line@, start as int, to as int));
            }
            return None;
        }
        let next: i64 = acc * 10 + (b as i64 - 0x30);
        if next > 0x8000_0000 {
            proof {
                if all_digits(line@, start as int, to as int) {
                    lemma_digits_grow(line@, start as int, k as int + 1, to as int);
                    assert(digits_value(line@, start as int, to as int) > 0x8000_0000);
                }
            }
            return None;
        }
        acc = next;
        k += 1;
    }
    let value: i64 = if negative {
        -acc
    } else {
        acc
    };
    if value < i32::MIN as i64 || value > i32::MAX as i64 {
        return None;
    }
    Some(value as i32)
}

/// Reads a pattern from a line of the form `(N,I,J)`.
pub fn parse_pattern_line(line: &[u8]) -> (found: Option<Pattern>)
    ensures
        found == pattern_of_line(line@),
{
    if line.len() == 0 || line[0] != 0x28 {
        return None;
    }
    let e1 = find_end(line, 1, 0x2C);
    if e1 >= line.len() {
        return None;
    }
    let e2 = find_end(line, e1 + 1, 0x2C);
    if e2 >= line.len() {
        return None;
    }
    let e3 = find_end(line, e2 + 1, 0x29);
    let n = read_number(line, 1, e1);
    let i = read_number(line, e1 + 1, e2);
    let j = read_number(line, e2 + 1, e3);
    match (n, i, j) {
        (Some(n), Some(i), Some(j)) => Some((n, i, j)),
        _ => None,
    }
}

/// The patterns that the first `upto` lines write, `None` where a line
/// writes none or one of fewer than two cells.
pub open spec fn patterns_of_lines(lines: Seq<Seq<u8>>, upto: int) -> Option<Seq<Pattern>>
    decreases upto,
{
    if upto <= 0 {
        Some(Seq::empty())
    } else {
        match (patterns_of_lines(lines, upto - 1), pattern_of_line(lines[upto - 1])) {
            (Some(before), Some(p)) => if p.0 >= 2 {
                Some(before.push(p))
            } else {
                None
            },
            _ => None,
        }
    }
}

/// Where the first lines fail, all lines fail.
pub proof fn lemma_lines_fail(lines: Seq<Seq<u8>>, upto: int, all: int)
    requires
        0 <= upto <= all,
        patterns_of_lines(lines, upto) is None,
    ensures
        patterns_of_lines(lines, all) is None,
    decreases all - upto,
{
    if upto < all {
        lemma_lines_fail(lines, upto, all - 1);
    }
}

/// The bytes of each line.
pub open spec fn line_bytes(lines: Seq<String>) -> Seq<Seq<u8>> {
    Seq::new(lines.len(), |k: int| vstd::utf8::encode_utf8(lines[k]@))
}

/// Reads the patterns that the lines write.
pub fn parse_patterns(lines: &Vec<String>) -> (found: Option<Vec<Pattern>>)
    ensures
        match found {
            Some(patterns) => patterns_of_lines(line_bytes(lines@), lines@.len() as int) == Some(
                patterns@,
            ),
            None => patterns_of_lines(line_bytes(lines@), lines@.len() as int) is None,
        },
{
    let mut patterns: Vec<Pattern> = Vec::new();
    let mut k: usize = 0;
    while k < lines.len()
        invariant
            k <= lines@.len(),
            patterns_of_lines(line_bytes(lines@), k as int) == Some(patterns@),
        decreases lines.len() - k,
    {
        let bytes = lines[k].as_str().as_bytes();
        assert(bytes@ == line_bytes(lines@)[k as int]);
        match parse_pattern_line(bytes) {
            Some(p) => {
                if p.0 < 2 {
                    proof {
                        lemma_lines_fail(line_bytes(lines@), k as int + 1, lines@.len() as int);
                    }
                    return None;
                }
                patterns.push(p);
            },
            None => {
                proof {
                    lemma_lines_fail(line_bytes(lines@), k as int + 1, lines@.len() as int);
                }
                return None;
            },
        }
        k += 1;
    }
    Some(patterns)
}

} // verus!
