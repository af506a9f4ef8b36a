//! Settings that come as texts.
use vstd::prelude::*;

use crate::bytes;

verus! {

/// The port that is listened on unless another is set.
pub const DEFAULT_PORT: u16 = 50002;

/// The most threads that are started unless another number is set.
pub const DEFAULT_MAX_THREADS: usize = 8;

/// Whether a byte is a decimal digit.
pub open spec fn is_digit(b: u8) -> bool {
    0x30 <= b <= 0x39
}

/// The number that decimal digits stand for.
pub open spec fn digits_value(s: Seq<u8>) -> int
    decreases s.len(),
{
    if s.len() == 0 {
        0
    } else {
        10 * digits_value(s.drop_last()) + (s.last() - 0x30)
    }
}

/// A text without the plus sign before it.
pub open spec fn without_plus(s: Seq<u8>) -> Seq<u8> {
    if s.len() > 0 && s[0] == 0x2b {
        s.skip(1)
    } else {
        s
    }
}

/// The number that a text stands for, where it is one and not greater than `max`: digits, with a
/// plus sign before them or not.
pub open spec fn number_in(s: Seq<u8>, max: int) -> Option<int> {
    let d = without_plus(s);
    if d.len() > 0 && (forall|i: int| 0 <= i < d.len() ==> is_digit(#[trigger] d[i]))
        && digits_value(d) <= max {
        Some(digits_value(d))
    } else {
        None
    }
}

proof fn lemma_digits_value_grows(s: Seq<u8>, k: int)
    requires
        0 <= k <= s.len(),
        forall|i: int| 0 <= i < s.len() ==> is_digit(#[trigger] s[i]),
    ensures
        0 <= digits_value(s.take(k)) <= digits_value(s),
    decreases s.len(),
{
    if s.len() == 0 {
        assert(s.take(k) =~= s);
    } else if k == s.len() {
        assert(s.take(k) =~= s);
        lemma_digits_value_grows(s.drop_last(), s.len() - 1);
        assert(s.drop_last().take(s.len() - 1) =~= s.drop_last());
        assert(is_digit(s[s.len() - 1]));
    } else {
        lemma_digits_value_grows(s.drop_last(), k);
        assert(s.drop_last().take(k) =~= s.take(k));
        assert(is_digit(s[s.len() - 1]));
    }
}

/// The number that a text stands for, where it is one and not greater than `max`.
pub fn parse_number(text: &str, max: u64) -> (r: Option<u64>)
    ensures
        match r {
            Some(n) => number_in(bytes::text(text@), max as int) == Some(n as int),
            None => number_in(bytes::text(text@), max as int) is None,
        },
{
    let b = text.as_bytes();
    let ghost d = without_plus(b@);
    let start: usize = if b.len() > 0 && b[0] == 0x2b {
        1
    } else {
        0
    };
    if b.len() == start {
        return None;
    }
    let mut value: u64 = 0;
    let mut i: usize = start;
    assert(d.take(0) =~= Seq::empty());
    while i < b.len()
        invariant
            start <= i <= b@.len(),
            start <= 1,
            d == without_plus(b@),
            b@ == bytes::text(text@),
            start == 1 <==> b@.len() > 0 && b@[0] == 0x2b,
            forall|j: int| 0 <= j < i - start ==> is_digit(#[trigger] d[j]),
            value == digits_value(d.take(i - start)),
            value <= max,
        decreases b@.len() - i,
    {
        let c = b[i];
        proof {
            assert(d[i - start] == c);
            assert(d.take(i - start + 1).drop_last() =~= d.take(i - start));
            assert(d.take(i - start + 1).last() == c);
        }
        if c < 0x30 || c > 0x39 {
            assert(!is_digit(d[i - start]));
            return None;
        }
        let digit: u64 = (c - 0x30) as u64;
        if digit > max || value > (max - digit) / 10 {
            proof {
                assert(digits_value(d.take(i - start + 1)) > max);
                if forall|j: int| 0 <= j < d.len() ==> is_digit(#[trigger] d[j]) {
                    lemma_digits_value_grows(d, i - start + 1);
                }
            }
            return None;
        }
        value = value * 10 + digit;
        i += 1;
    }
    assert(d.take(i - start) =~= d);
    Some(value)
}

/// The port to listen on, where `setting` is what is set.
pub fn port(setting: Option<&str>) -> (r: u16)
    ensures
        r == match setting {
            Some(text) => match number_in(bytes::text(text@), u16::MAX as int) {
                Some(n) => n,
                None => DEFAULT_PORT as int,
            },
            None => DEFAULT_PORT as int,
        },
{
    match setting {
        Some(text) => match parse_number(text, u16::MAX as u64) {
            Some(n) => n as u16,
            None => DEFAULT_PORT,
        },
        None => DEFAULT_PORT,
    }
}

/// How many threads to start, where `setting` is what is set and `available` how many can run
/// at once, where that is known.
pub fn thread_count(setting: Option<&str>, available: Option<usize>) -> (r: usize)
    ensures
        ({
            let unset = match available {
                Some(n) => if n < DEFAULT_MAX_THREADS {
                    n as int
                } else {
                    DEFAULT_MAX_THREADS as int
                },
                None => 1,
            };
            r == match setting {
                Some(text) => match number_in(bytes::text(text@), usize::MAX as int) {
                    Some(n) => if n == 0 {
                        unset
                    } else {
                        n
                    },
                    None => unset,
                },
                None => unset,
            }
        }),
{
    if let Some(text) = setting {
        if let Some(n) = parse_number(text, usize::MAX as u64) {
            if n != 0 {
                return n as usize;
            }
        }
    }
    match available {
        Some(n) => if n < DEFAULT_MAX_THREADS {
            n
        } else {
            DEFAULT_MAX_THREADS
        },
        None => 1,
    }
}

} // verus!
