//! The records of an edge list: two fields, each a node identifier written
//! in decimal, with white space allowed around it.

use vstd::prelude::*;

verus! {

/// `c` is white space: a character with the Unicode property `White_Space`.
pub open spec fn is_space(c: char) -> bool {
    let u = c as u32;
    ||| 0x09 <= u <= 0x0d
    ||| u == 0x20
    ||| u == 0x85
    ||| u == 0xa0
    ||| u == 0x1680
    ||| 0x2000 <= u <= 0x200a
    ||| u == 0x2028
    ||| u == 0x2029
    ||| u == 0x202f
    ||| u == 0x205f
    ||| u == 0x3000
}

/// `s` without the white space at its start.
pub open spec fn without_leading_space(s: Seq<char>) -> Seq<char>
    decreases s.len(),
{
    if s.len() > 0 && is_space(s[0]) {
        without_leading_space(s.drop_first())
    } else {
        s
    }
}

/// `s` without the white space at its end.
pub open spec fn without_trailing_space(s: Seq<char>) -> Seq<char>
    decreases s.len(),
{
    if s.len() > 0 && is_space(s.last()) {
        without_trailing_space(s.drop_last())
    } else {
        s
    }
}

/// `s` without the white space at its start and at its end.
pub open spec fn trimmed(s: Seq<char>) -> Seq<char> {
    without_trailing_space(without_leading_space(s))
}

/// `c` is one of the digits `0` to `9`.
pub open spec fn is_digit(c: char) -> bool {
    0x30 <= c as u32 <= 0x39
}

/// The value of the digit `c`; zero where `c` is no digit.
pub open spec fn digit_value(c: char) -> nat {
    if is_digit(c) {
        (c as u32 - 0x30) as nat
    } else {
        0
    }
}

/// The number that `digits` write in decimal; leading zeros count for
/// nothing.
pub open spec fn decimal(digits: Seq<char>) -> nat
    decreases digits.len(),
{
    if digits.len() == 0 {
        0
    } else {
        10 * decimal(digits.drop_last()) + digit_value(digits.last())
    }
}

/// `text` without the `+` that may stand at its start.
pub open spec fn without_plus(text: Seq<char>) -> Seq<char> {
    if text.len() > 0 && text[0] == '+' {
        text.drop_first()
    } else {
        text
    }
}

/// Every entry of `digits` is a digit.
pub open spec fn all_digits(digits: Seq<char>) -> bool {
    forall|i: int| 0 <= i < digits.len() ==> is_digit(#[trigger] digits[i])
}

/// The number that one or more digits write, where it fits in 32 bits.
/// None for anything else.
pub open spec fn number_of_digits(digits: Seq<char>) -> Option<u32> {
    if digits.len() > 0 && all_digits(digits) && decimal(digits) <= u32::MAX {
        Some(decimal(digits) as u32)
    } else {
        None
    }
}

/// The node identifier that `text` writes: an optional `+` and then one or
/// more digits, whose number fits in 32 bits. None for any other text.
pub open spec fn number_of(text: Seq<char>) -> Option<u32> {
    number_of_digits(without_plus(text))
}

/// The node identifier that a field holds: the number that the field
/// writes once the white space around it is taken off.
pub open spec fn node_of_field(field: Seq<char>) -> Option<u32> {
    number_of(trimmed(field))
}

/// The edge that two fields hold, where both hold a node identifier.
pub open spec fn edge_of_fields(first: Seq<char>, second: Seq<char>) -> Option<(u32, u32)> {
    match (node_of_field(first), node_of_field(second)) {
        (Some(a), Some(b)) => Some((a, b)),
        _ => None,
    }
}

/// The edge that a record holds: it has exactly two fields, and both hold a
/// node identifier. None for any other record.
pub open spec fn edge_of_record(fields: Seq<&str>) -> Option<(u32, u32)> {
    if fields.len() == 2 {
        edge_of_fields(fields[0]@, fields[1]@)
    } else {
        None
    }
}

/// A number is no less than the number that its leading digits write.
proof fn lemma_decimal_grows(digits: Seq<char>, n: int)
    requires
        0 <= n <= digits.len(),
    ensures
        decimal(digits.take(n)) <= decimal(digits),
    decreases digits.len() - n,
{
    if n < digits.len() {
        lemma_decimal_grows(digits, n + 1);
        assert(digits.take(n + 1).drop_last() =~= digits.take(n));
    } else {
        assert(digits.take(n) =~= digits);
    }
}

/// Leading white space of a part of `s` that reaches to its end.
proof fn lemma_leading_space_step(s: Seq<char>, lo: int)
    requires
        0 <= lo < s.len(),
        is_space(s[lo]),
    ensures
        without_leading_space(s.subrange(lo, s.len() as int)) == without_leading_space(
            s.subrange(lo + 1, s.len() as int),
        ),
{
    let part = s.subrange(lo, s.len() as int);
    assert(part.drop_first() =~= s.subrange(lo + 1, s.len() as int));
}

/// Trailing white space of a part of `s`.
proof fn lemma_trailing_space_step(s: Seq<char>, lo: int, hi: int)
    requires
        0 <= lo < hi <= s.len(),
        is_space(s[hi - 1]),
    ensures
        without_trailing_space(s.subrange(lo, hi)) == without_trailing_space(
            s.subrange(lo, hi - 1),
        ),
{
    let part = s.subrange(lo, hi);
    assert(part.drop_last() =~= s.subrange(lo, hi - 1));
}

/// Whether `c` is white space.
fn is_white_space(c: char) -> (space: bool)
    ensures
        space == is_space(c),
{
    let u: u32 = c as u32;
    (0x09 <= u && u <= 0x0d) || u == 0x20 || u == 0x85 || u == 0xa0 || u == 0x1680 || (0x2000 <= u
        && u <= 0x200a) || u == 0x2028 || u == 0x2029 || u == 0x202f || u == 0x205f || u == 0x3000
}

/// Reads the node identifier that a field holds: white space around it is
/// passed over; what is left must be an optional `+` and then digits only,
/// and the number must fit in 32 bits.
pub fn parse_node(field: &str) -> (node: Option<u32>)
    ensures
        node == node_of_field(field@),
{
    let mut text: Vec<char> = Vec::new();
    for c in it: field.chars()
        invariant
            it.seq() == field@,
            text@ == it.seq().take(it.index()),
    {
        text.push(c);
    }
    let ghost s = text@;
    assert(s == field@);
    let n: usize = text.len();
    let mut lo: usize = 0;
    proof {
        assert(s.subrange(0, n as int) =~= s);
    }
    while lo < n && is_white_space(text[lo])
        invariant
            s == text@,
            n == s.len(),
            0 <= lo <= n,
            without_leading_space(s) == without_leading_space(s.subrange(lo as int, n as int)),
        decreases n - lo,
    {
        proof {
            lemma_leading_space_step(s, lo as int);
        }
        lo += 1;
    }
    let mut hi: usize = n;
    proof {
        let rest = s.subrange(lo as int, n as int);
        if lo < n {
            assert(rest[0] == s[lo as int]);
        }
        assert(without_leading_space(rest) == rest);
    }
    while hi > lo && is_white_space(text[hi - 1])
        invariant
            s == text@,
            n == s.len(),
            0 <= lo <= hi <= n,
            trimmed(s) == without_trailing_space(s.subrange(lo as int, hi as int)),
        decreases hi - lo,
    {
        proof {
            lemma_trailing_space_step(s, lo as int, hi as int);
        }
        hi -= 1;
    }
    let ghost t = s.subrange(lo as int, hi as int);
    proof {
        if lo < hi {
            assert(t.last() == s[hi - 1]);
        }
        assert(without_trailing_space(t) == t);
        assert(trimmed(s) == t);
    }
    let mut at: usize = lo;
    if at < hi && text[at] == '+' {
        at += 1;
    }
    let ghost digits = s.subrange(at as int, hi as int);
    proof {
        if lo < hi {
            assert(t[0] == s[lo as int]);
        }
        if at > lo {
            assert(t.drop_first() =~= digits);
        } else {
            assert(t =~= digits);
        }
        assert(without_plus(t) == digits);
        assert(node_of_field(field@) == number_of_digits(digits));
    }
    if at == hi {
        return None;
    }
    let first: usize = at;
    let mut value: u64 = 0;
    proof {
        assert(digits.take(0) =~= Seq::<char>::empty());
    }
    while at < hi
        invariant
            s == text@,
            digits == s.subrange(first as int, hi as int),
            node_of_field(field@) == number_of_digits(digits),
            first <= at <= hi <= s.len(),
            forall|i: int| 0 <= i < at - first ==> is_digit(#[trigger] digits[i]),
            value == decimal(digits.take(at - first)),
            value <= u32::MAX,
        decreases hi - at,
    {
        let c: char = text[at];
        let u: u32 = c as u32;
        proof {
            assert(digits[at - first] == c);
            assert(digits.take(at - first + 1).drop_last() =~= digits.take(at - first));
            assert(digits.take(at - first + 1).last() == c);
        }
        if u < 0x30 || u > 0x39 {
            return None;
        }
        value = value * 10 + (u - 0x30) as u64;
        if value > 0xffff_ffff {
            proof {
                lemma_decimal_grows(digits, at - first + 1);
            }
            return None;
        }
        at += 1;
    }
    proof {
        assert(digits.take(at - first) =~= digits);
    }
    Some(value as u32)
}

/// Reads the edge that the two fields of a record hold; None where either
/// field holds no node identifier.
pub fn parse_edge(first: &str, second: &str) -> (edge: Option<(u32, u32)>)
    ensures
        edge == edge_of_fields(first@, second@),
{
    match parse_node(first) {
        Some(a) => match parse_node(second) {
            Some(b) => Some((a, b)),
            None => None,
        },
        None => None,
    }
}

/// Reads the edge that a record holds; None where the record does not have
/// exactly two fields or either of them holds no node identifier.
pub fn parse_record(fields: &Vec<&str>) -> (edge: Option<(u32, u32)>)
    ensures
        edge == edge_of_record(fields@),
{
    if fields.len() != 2 {
        return None;
    }
    parse_edge(fields[0], fields[1])
}

} // verus!
