//! The text form of an edge: a line that holds two unsigned integers
//! separated by white space.

use vstd::prelude::*;

verus! {

/// Why a line holds no edge.
#[derive(Debug, Clone, Copy, PartialEq, Eq)]
pub enum LineError {
    /// The line is not two integers separated by white space.
    Malformed,
    /// One of the two integers does not fit in 32 bits.
    OutOfRange,
}

/// A blank, a tab, a carriage return, a vertical tab or a form feed.
pub open spec fn is_space(c: u8) -> bool {
    c == 32 || c == 9 || c == 13 || c == 11 || c == 12
}

/// A decimal digit.
pub open spec fn is_digit(c: u8) -> bool {
    48 <= c <= 57
}

/// `s` holds white space only.
pub open spec fn is_blank(s: Seq<u8>) -> bool {
    forall|i: int| 0 <= i < s.len() ==> is_space(#[trigger] s[i])
}

/// `s` holds one digit or more and nothing else.
pub open spec fn is_number(s: Seq<u8>) -> bool {
    s.len() > 0 && forall|i: int| 0 <= i < s.len() ==> is_digit(#[trigger] s[i])
}

/// The value of a sequence of decimal digits.
pub open spec fn digits_value(s: Seq<u8>) -> nat
    decreases s.len(),
{
    if s.len() == 0 {
        0
    } else {
        digits_value(s.drop_last()) * 10 + (s.last() - 48) as nat
    }
}

/// The line is white space, a number from `a` to `b`, white space, a number
/// from `c` to `d`, and white space.
pub open spec fn line_holds(line: Seq<u8>, a: int, b: int, c: int, d: int) -> bool {
    &&& 0 <= a < b < c < d <= line.len()
    &&& is_blank(line.subrange(0, a))
    &&& is_number(line.subrange(a, b))
    &&& is_blank(line.subrange(b, c))
    &&& is_number(line.subrange(c, d))
    &&& is_blank(line.subrange(d, line.len() as int))
}

/// Some two numbers make up the line.
pub open spec fn is_edge_line(line: Seq<u8>) -> bool {
    exists|a: int, b: int, c: int, d: int| line_holds(line, a, b, c, d)
}

/// What a line that holds the two numbers from `a` to `b` and from `c` to
/// `d` stands for.
pub open spec fn edge_of(line: Seq<u8>, a: int, b: int, c: int, d: int) -> Result<Option<(u32, u32)>, LineError> {
    let u = digits_value(line.subrange(a, b));
    let v = digits_value(line.subrange(c, d));
    if u <= u32::MAX && v <= u32::MAX {
        Ok(Some((u as u32, v as u32)))
    } else {
        Err(LineError::OutOfRange)
    }
}

/// The first place at or after `from` that holds no white space.
fn skip_spaces(line: &[u8], from: usize) -> (to: usize)
    requires
        from <= line@.len(),
    ensures
        from <= to <= line@.len(),
        forall|i: int| from <= i < to ==> is_space(#[trigger] line@[i]),
        to < line@.len() ==> !is_space(line@[to as int]),
{
    let mut i = from;
    while i < line.len() && (line[i] == 32 || line[i] == 9 || line[i] == 13 || line[i] == 11 || line[i] == 12)
        invariant
            from <= i <= line@.len(),
            forall|j: int| from <= j < i ==> is_space(#[trigger] line@[j]),
        decreases line@.len() - i,
    {
        i += 1;
    }
    i
}

/// Reads the digits at `from`. Returns the first place that holds no digit
/// and the value of the digits, or `None` where it does not fit in 32 bits.
fn read_digits(line: &[u8], from: usize) -> (r: (usize, Option<u32>))
    requires
        from <= line@.len(),
    ensures
        from <= r.0 <= line@.len(),
        forall|i: int| from <= i < r.0 ==> is_digit(#[trigger] line@[i]),
        r.0 < line@.len() ==> !is_digit(line@[r.0 as int]),
        match r.1 {
            Some(v) => v == digits_value(line@.subrange(from as int, r.0 as int)),
            None => digits_value(line@.subrange(from as int, r.0 as int)) > u32::MAX,
        },
{
    let mut i = from;
    let mut value: Option<u32> = Some(0);
    proof {
        assert(line@.subrange(from as int, from as int) =~= Seq::<u8>::empty());
    }
    while i < line.len() && 48 <= line[i] && line[i] <= 57
        invariant
            from <= i <= line@.len(),
            forall|j: int| from <= j < i ==> is_digit(#[trigger] line@[j]),
            match value {
                Some(v) => v == digits_value(line@.subrange(from as int, i as int)),
                None => digits_value(line@.subrange(from as int, i as int)) > u32::MAX,
            },
        decreases line@.len() - i,
    {
        let digit: u32 = (line[i] - 48) as u32;
        proof {
            let next = line@.subrange(from as int, i + 1);
            assert(next.drop_last() =~= line@.subrange(from as int, i as int));
            assert(next.last() == line@[i as int]);
        }
        value = match value {
            Some(v) => match v.checked_mul(10) {
                Some(w) => w.checked_add(digit),
                None => None,
            },
            None => None,
        };
        i += 1;
    }
    (i, value)
}

/// Reads one line of an edge list. A line of white space holds no edge; a
/// line of two numbers holds the edge between them; any other line is
/// malformed.
pub fn parse_edge_line(line: &[u8]) -> (r: Result<Option<(u32, u32)>, LineError>)
    ensures
        is_blank(line@) ==> r == Ok::<Option<(u32, u32)>, LineError>(None),
        forall|a: int, b: int, c: int, d: int| #[trigger] line_holds(line@, a, b, c, d) ==> r == edge_of(line@, a, b, c, d),
        !is_blank(line@) && !is_edge_line(line@) ==> r == Err::<Option<(u32, u32)>, LineError>(LineError::Malformed),
{
    let n = line.len();
    let a = skip_spaces(line, 0);
    let (b, u) = read_digits(line, a);
    let c = skip_spaces(line, b);
    let (d, v) = read_digits(line, c);
    let e = skip_spaces(line, d);
    proof {
        assert forall|a2: int, b2: int, c2: int, d2: int| #[trigger] line_holds(line@, a2, b2, c2, d2) implies a2 == a
            && b2 == b && c2 == c && d2 == d && e == n && a < b && b < c && c < d && !is_blank(line@) by {
            let s0 = line@.subrange(0, a2);
            let s1 = line@.subrange(a2, b2);
            let s2 = line@.subrange(b2, c2);
            let s3 = line@.subrange(c2, d2);
            let s4 = line@.subrange(d2, n as int);
            assert(is_digit(s1[0]) && s1[0] == line@[a2]);
            assert(is_digit(s3[0]) && s3[0] == line@[c2]);
            assert(is_space(s2[0]) && s2[0] == line@[b2]);
            if a2 < a {
                assert(is_space(line@[a2]));
            }
            if a < a2 {
                assert(is_space(s0[a as int]) && s0[a as int] == line@[a as int]);
            }
            assert(a2 == a);
            if b2 < b {
                assert(is_digit(line@[b2]));
            }
            if b < b2 {
                assert(is_digit(s1[b - a2]) && s1[b - a2] == line@[b as int]);
            }
            assert(b2 == b);
            if c2 < c {
                assert(is_space(line@[c2]));
            }
            if c < c2 {
                assert(is_space(s2[c - b2]) && s2[c - b2] == line@[c as int]);
            }
            assert(c2 == c);
            if d2 < d {
                if d2 < n {
                    assert(is_space(s4[0]) && s4[0] == line@[d2]);
                    assert(is_digit(line@[d2]));
                }
            }
            if d < d2 {
                assert(is_digit(s3[d - c2]) && s3[d - c2] == line@[d as int]);
            }
            assert(d2 == d);
            if e < n {
                assert(is_space(s4[e - d2]) && s4[e - d2] == line@[e as int]);
            }
            assert(!is_blank(line@)) by {
                if is_blank(line@) {
                    assert(is_space(line@[a2]));
                }
            }
        }
        if is_blank(line@) {
            if a < n {
                assert(is_space(line@[a as int]));
            }
            assert(a == n);
        }
        if a < b && b < c && c < d && e == n {
            assert(is_blank(line@.subrange(0, a as int)));
            assert(is_number(line@.subrange(a as int, b as int)));
            assert(is_blank(line@.subrange(b as int, c as int)));
            assert(is_number(line@.subrange(c as int, d as int)));
            assert(is_blank(line@.subrange(d as int, n as int)));
            assert(line_holds(line@, a as int, b as int, c as int, d as int));
        }
        if a == n {
            assert(is_blank(line@));
        }
    }
    if a == n {
        Ok(None)
    } else if a < b && b < c && c < d && e == n {
        match (u, v) {
            (Some(x), Some(y)) => Ok(Some((x, y))),
            _ => Err(LineError::OutOfRange),
        }
    } else {
        Err(LineError::Malformed)
    }
}

} // verus!
