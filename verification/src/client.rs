//! What a client reads from the bytes of a response.
use vstd::prelude::*;

use crate::encoding;

verus! {

/// Index of the first line break of a text.
pub open spec fn line_end(s: Seq<u8>) -> Option<int>
    decreases s.len(),
{
    if s.len() < 2 {
        None
    } else if s[0] == 0x0d && s[1] == 0x0a {
        Some(0)
    } else {
        match line_end(s.drop_first()) {
            Some(k) => Some(k + 1),
            None => None,
        }
    }
}

/// A line break lies within the text.
pub proof fn lemma_line_end_within(s: Seq<u8>)
    ensures
        line_end(s) matches Some(k) ==> 0 <= k && k + 2 <= s.len(),
    decreases s.len(),
{
    if s.len() >= 2 {
        lemma_line_end_within(s.drop_first());
    }
}

/// Whether a text begins with another.
pub open spec fn begins(s: Seq<u8>, front: Seq<u8>) -> bool {
    front.len() <= s.len() && forall|i: int| 0 <= i < front.len() ==> #[trigger] front[i] == s[i]
}

/// The value of the first header of a name, as far as the head of a response goes: up to the
/// first line that is empty.
pub open spec fn header(s: Seq<u8>, name: Seq<u8>) -> Option<Seq<u8>>
    decreases s.len(),
{
    proof {
        lemma_line_end_within(s);
    }
    match line_end(s) {
        Some(k) => if k == 0 {
            None
        } else if begins(s.take(k), name + seq![0x3au8, 0x20u8]) {
            Some(s.take(k).skip(name.len() as int + 2))
        } else {
            header(s.skip(k + 2), name)
        },
        None => None,
    }
}

/// What follows the head of a response.
pub open spec fn body(s: Seq<u8>) -> Seq<u8>
    decreases s.len(),
{
    proof {
        lemma_line_end_within(s);
    }
    match line_end(s) {
        Some(k) => if k == 0 {
            s.skip(2)
        } else {
            body(s.skip(k + 2))
        },
        None => Seq::empty(),
    }
}

/// The number that decimal digits stand for, where there are digits and nothing else.
pub open spec fn number(s: Seq<u8>) -> Option<nat>
    decreases s.len(),
{
    if s.len() == 0 || !(0x30 <= s.last() <= 0x39) {
        None
    } else if s.len() == 1 {
        Some((s.last() - 0x30) as nat)
    } else {
        match number(s.drop_last()) {
            Some(n) => Some((10 * n + (s.last() - 0x30)) as nat),
            None => None,
        }
    }
}

/// The number that the value of a header is.
pub open spec fn header_number(s: Seq<u8>, name: Seq<u8>) -> Option<nat> {
    match header(s, name) {
        Some(value) => number(value),
        None => None,
    }
}

/// The status of a response: the three digits behind the version and a space.
pub open spec fn status(s: Seq<u8>) -> Option<nat> {
    if s.len() >= 13 && begins(s, seq![0x48u8, 0x54, 0x54, 0x50, 0x2f, 0x31, 0x2e, 0x31, 0x20])
        && s[12] == 0x20 {
        number(s.subrange(9, 12))
    } else {
        None
    }
}

/// The number that two hexadecimal digits for each byte stand for, the last digit the least
/// significant.
pub open spec fn hex_value(s: Seq<u8>) -> Option<nat>
    decreases s.len(),
{
    if s.len() == 0 {
        Some(0)
    } else {
        match (hex_value(s.drop_last()), encoding::hex_digit(s.last())) {
            (Some(n), Some(d)) => Some((16 * n + d) as nat),
            _ => None,
        }
    }
}

/// What a body in chunks holds, where it is whole: each chunk is its length in hexadecimal
/// digits, a line break, the data and a line break, and one without data ends the body.
pub open spec fn dechunked(s: Seq<u8>) -> Option<Seq<u8>>
    decreases s.len(),
{
    proof {
        lemma_line_end_within(s);
    }
    match line_end(s) {
        Some(k) => match hex_value(s.take(k)) {
            Some(n) => {
                let rest = s.skip(k + 2);
                if k == 0 || rest.len() < n + 2 || rest[n as int] != 0x0d || rest[n as int + 1]
                    != 0x0a {
                    None
                } else if n == 0 {
                    if rest.len() == 2 {
                        Some(Seq::empty())
                    } else {
                        None
                    }
                } else {
                    match dechunked(rest.skip(n as int + 2)) {
                        Some(more) => Some(rest.take(n as int) + more),
                        None => None,
                    }
                }
            },
            None => None,
        },
        None => None,
    }
}

/// The text between the first quotation mark of a text and the next.
pub open spec fn quoted_part(s: Seq<u8>) -> Option<Seq<u8>> {
    match mark(s, 0x22) {
        Some(i) => match mark(s.skip(i + 1), 0x22) {
            Some(n) => Some(s.subrange(i + 1, i + 1 + n)),
            None => None,
        },
        None => None,
    }
}

/// Index of the first byte of a value.
pub open spec fn mark(s: Seq<u8>, b: u8) -> Option<int>
    decreases s.len(),
{
    if s.len() == 0 {
        None
    } else if s[0] == b {
        Some(0)
    } else {
        match mark(s.drop_first(), b) {
            Some(k) => Some(k + 1),
            None => None,
        }
    }
}

/// A byte that is found lies within the text.
pub proof fn lemma_mark_within(s: Seq<u8>, b: u8)
    ensures
        mark(s, b) matches Some(k) ==> 0 <= k < s.len(),
    decreases s.len(),
{
    if s.len() > 0 {
        lemma_mark_within(s.drop_first(), b);
    }
}

/// The text between the second closing angle bracket of a text and the opening one behind it.
pub open spec fn shown_part(s: Seq<u8>) -> Option<Seq<u8>> {
    match mark(s, 0x3e) {
        Some(i) => match mark(s.skip(i + 1), 0x3e) {
            Some(j) => {
                let rest = s.skip(i + j + 2);
                match mark(rest, 0x3c) {
                    Some(n) => Some(rest.take(n)),
                    None => None,
                }
            },
            None => None,
        },
        None => None,
    }
}

/// The byte that an entity at the front of a page's text stands for, and how long the entity is:
/// the marks that a page cannot hold as they are have entities, and every other byte stands for
/// itself.
pub open spec fn page_byte(s: Seq<u8>) -> (u8, int) {
    if begins(s, seq![0x26u8, 0x71, 0x75, 0x6f, 0x74, 0x3b]) {
        (0x22, 6)
    } else if begins(s, seq![0x26u8, 0x61, 0x6d, 0x70, 0x3b]) {
        (0x26, 5)
    } else if begins(s, seq![0x26u8, 0x6c, 0x74, 0x3b]) {
        (0x3c, 4)
    } else if begins(s, seq![0x26u8, 0x67, 0x74, 0x3b]) {
        (0x3e, 4)
    } else if begins(s, seq![0x26u8, 0x23, 0x78, 0x32, 0x37, 0x3b]) {
        (0x27, 6)
    } else if begins(s, seq![0x26u8, 0x23, 0x78, 0x32, 0x66, 0x3b]) {
        (0x2f, 6)
    } else {
        (s[0], 1)
    }
}

/// What a text of a page shows.
pub open spec fn page_text(s: Seq<u8>) -> Seq<u8>
    decreases s.len(),
{
    if s.len() == 0 {
        s
    } else {
        let (b, n) = page_byte(s);
        seq![b] + page_text(s.skip(n))
    }
}

/// Whether a byte string holds no carriage return.
pub open spec fn one_line(s: Seq<u8>) -> bool {
    forall|i: int| 0 <= i < s.len() ==> #[trigger] s[i] != 0x0d
}

pub(crate) proof fn lemma_line_end(line: Seq<u8>, rest: Seq<u8>)
    requires
        one_line(line),
    ensures
        line_end(line + seq![0x0du8, 0x0au8] + rest) == Some(line.len() as int),
    decreases line.len(),
{
    let s = line + seq![0x0du8, 0x0au8] + rest;
    if line.len() == 0 {
        assert(s[0] == 0x0d && s[1] == 0x0a);
    } else {
        let tail = line.drop_first();
        assert forall|i: int| 0 <= i < tail.len() implies #[trigger] tail[i] != 0x0d by {
            assert(tail[i] == line[i + 1]);
        }
        lemma_line_end(tail, rest);
        assert(s.drop_first() =~= tail + seq![0x0du8, 0x0au8] + rest);
        assert(s[0] == line[0]);
    }
}

/// A client reads the headers of a head line by line.
pub(crate) proof fn lemma_line(line: Seq<u8>, rest: Seq<u8>, name: Seq<u8>)
    requires
        one_line(line),
        line.len() > 0,
    ensures
        header(line + seq![0x0du8, 0x0au8] + rest, name) == if begins(
            line,
            name + seq![0x3au8, 0x20u8],
        ) {
            Some(line.skip(name.len() as int + 2))
        } else {
            header(rest, name)
        },
        body(line + seq![0x0du8, 0x0au8] + rest) == body(rest),
{
    let s = line + seq![0x0du8, 0x0au8] + rest;
    let k = line.len() as int;
    lemma_line_end(line, rest);
    assert(s.take(k) =~= line);
    assert(s.skip(k + 2) =~= rest);
}

/// The head of a response ends with an empty line.
pub(crate) proof fn lemma_head_end(more: Seq<u8>, name: Seq<u8>)
    ensures
        header(seq![0x0du8, 0x0au8] + more, name) is None,
        body(seq![0x0du8, 0x0au8] + more) == more,
{
    let s = seq![0x0du8, 0x0au8] + more;
    assert(s[0] == 0x0d && s[1] == 0x0a);
    assert(line_end(s) == Some(0int));
    assert(s.skip(2) =~= more);
}

/// The digits of a number are read back.
pub proof fn law_decimal_read(n: nat)
    ensures
        number(encoding::decimal(n)) == Some(n),
    decreases n,
{
    let d = encoding::decimal(n);
    if n >= 10 {
        law_decimal_read(n / 10);
        lemma_decimal_len(n / 10);
        assert(d.drop_last() =~= encoding::decimal(n / 10));
        assert(d.last() == (n % 10 + 0x30) as u8);
        assert(n == 10 * (n / 10) + n % 10);
    }
}

proof fn lemma_decimal_len(n: nat)
    ensures
        encoding::decimal(n).len() > 0,
    decreases n,
{
    if n >= 10 {
        lemma_decimal_len(n / 10);
    }
}

/// Digits hold no carriage return.
pub(crate) proof fn lemma_decimal_one_line(n: nat)
    ensures
        one_line(encoding::decimal(n)),
        encoding::decimal(n).len() > 0,
    decreases n,
{
    lemma_decimal_len(n);
    if n >= 10 {
        lemma_decimal_one_line(n / 10);
        let front = encoding::decimal(n / 10);
        let d = encoding::decimal(n);
        assert forall|i: int| 0 <= i < d.len() implies #[trigger] d[i] != 0x0d by {
            if i < front.len() {
                assert(d[i] == front[i]);
            }
        }
    }
}

pub(crate) proof fn lemma_one_line_add(a: Seq<u8>, b: Seq<u8>)
    requires
        one_line(a),
        one_line(b),
    ensures
        one_line(a + b),
{
    assert forall|i: int| 0 <= i < (a + b).len() implies #[trigger] (a + b)[i] != 0x0d by {
        if i < a.len() {
            assert((a + b)[i] == a[i]);
        } else {
            assert((a + b)[i] == b[i - a.len()]);
        }
    }
}

} // verus!
