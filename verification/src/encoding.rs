//! Written forms of bytes, numbers and names: hexadecimal, decimal, percent-encoded, HTML.
use vstd::prelude::*;

use crate::bytes;

verus! {

/// The value of a hexadecimal digit, in either case.
pub open spec fn hex_digit(b: u8) -> Option<int> {
    if 0x30 <= b <= 0x39 {
        Some(b - 0x30)
    } else if 0x41 <= b <= 0x46 {
        Some(b - 0x41 + 10)
    } else if 0x61 <= b <= 0x66 {
        Some(b - 0x61 + 10)
    } else {
        None
    }
}

/// The bytes that a text of hexadecimal digits stands for, two digits a byte.
pub open spec fn hex_bytes(s: Seq<u8>) -> Option<Seq<u8>> {
    if s.len() % 2 == 0 && forall|i: int| 0 <= i < s.len() ==> hex_digit(#[trigger] s[i]) is Some {
        Some(
            Seq::new(
                s.len() / 2,
                |i: int| (16 * hex_digit(s[2 * i])->0 + hex_digit(s[2 * i + 1])->0) as u8,
            ),
        )
    } else {
        None
    }
}

/// A text without the prefix that marks hexadecimal numbers.
pub open spec fn without_hex_prefix(s: Seq<u8>) -> Seq<u8> {
    if s.len() >= 2 && s[0] == 0x30 && (s[1] == 0x78 || s[1] == 0x58) {
        s.skip(2)
    } else {
        s
    }
}

/// The small letter or decimal digit that stands for a value below 16.
pub open spec fn hex_small(n: int) -> u8 {
    if n < 10 {
        (n + 0x30) as u8
    } else {
        (n - 10 + 0x61) as u8
    }
}

/// The capital letter or decimal digit that stands for a value below 16.
pub open spec fn hex_capital(n: int) -> u8 {
    if n < 10 {
        (n + 0x30) as u8
    } else {
        (n - 10 + 0x41) as u8
    }
}

/// The text of hexadecimal digits, small letters among them, that stands for bytes.
pub open spec fn hex_text(s: Seq<u8>) -> Seq<u8> {
    Seq::new(
        2 * s.len(),
        |i: int|
            if i % 2 == 0 {
                hex_small(s[i / 2] as int / 16)
            } else {
                hex_small(s[i / 2] as int % 16)
            },
    )
}

/// The decimal digits of a number, without leading zeros.
pub open spec fn decimal(n: nat) -> Seq<u8>
    decreases n,
{
    if n < 10 {
        seq![(n + 0x30) as u8]
    } else {
        decimal(n / 10).push((n % 10 + 0x30) as u8)
    }
}

/// What percent-encoded bytes stand for: a percent sign and two hexadecimal digits for the byte
/// of that value, every other byte for itself.
pub open spec fn percent_decoded(s: Seq<u8>) -> Seq<u8>
    decreases s.len(),
{
    if s.len() == 0 {
        s
    } else if s.len() >= 3 && s[0] == 0x25 && hex_digit(s[1]) is Some && hex_digit(s[2]) is Some {
        seq![(16 * hex_digit(s[1])->0 + hex_digit(s[2])->0) as u8] + percent_decoded(s.skip(3))
    } else {
        seq![s[0]] + percent_decoded(s.skip(1))
    }
}

/// A percent sign and the two hexadecimal digits, with capital letters, of a byte.
pub open spec fn percent_escape(b: u8) -> Seq<u8> {
    seq![0x25u8, hex_capital(b as int / 16), hex_capital(b as int % 16)]
}

/// Whether a byte is escaped in a link: controls, bytes beyond ASCII, the space, quotation marks,
/// angle brackets and the back quote are.
pub open spec fn escaped_in_uri(b: u8) -> bool {
    b < 0x20 || b >= 0x7f || b == 0x20 || b == 0x22 || b == 0x3c || b == 0x3e || b == 0x60
}

/// A name as it is written in a link.
pub open spec fn uri_text(s: Seq<u8>) -> Seq<u8>
    decreases s.len(),
{
    if s.len() == 0 {
        s
    } else {
        uri_text(s.drop_last()) + if escaped_in_uri(s.last()) {
            percent_escape(s.last())
        } else {
            seq![s.last()]
        }
    }
}

/// A byte as it is written in HTML text.
pub open spec fn html_escape(b: u8) -> Seq<u8> {
    if b == 0x22 {
        bytes::text("&quot;"@)
    } else if b == 0x26 {
        bytes::text("&amp;"@)
    } else if b == 0x27 {
        bytes::text("&#x27;"@)
    } else if b == 0x2f {
        bytes::text("&#x2f;"@)
    } else if b == 0x3c {
        bytes::text("&lt;"@)
    } else if b == 0x3e {
        bytes::text("&gt;"@)
    } else {
        seq![b]
    }
}

/// A name as it is written in HTML text.
pub open spec fn html_text(s: Seq<u8>) -> Seq<u8>
    decreases s.len(),
{
    if s.len() == 0 {
        s
    } else {
        html_text(s.drop_last()) + html_escape(s.last())
    }
}

/// The number in `count` bytes, the most significant first.
pub open spec fn be_bytes(n: nat, count: nat) -> Seq<u8>
    decreases count,
{
    if count == 0 {
        Seq::empty()
    } else {
        be_bytes(n / 256, (count - 1) as nat).push((n % 256) as u8)
    }
}

/// The number in four bytes, the least significant first.
pub open spec fn le_bytes(n: u32) -> Seq<u8> {
    seq![
        (n % 256) as u8,
        (n / 0x100 % 256) as u8,
        (n / 0x10000 % 256) as u8,
        (n / 0x1000000) as u8,
    ]
}

/// The number in four bytes, the least significant first.
pub fn to_le_bytes(n: u32) -> (r: [u8; 4])
    ensures
        r@ == le_bytes(n),
{
    let r = [
        (n % 256) as u8,
        (n / 0x100 % 256) as u8,
        (n / 0x10000 % 256) as u8,
        (n / 0x1000000) as u8,
    ];
    assert(r@ =~= le_bytes(n));
    r
}

/// The bytes of a `usize`, the most significant first.
pub fn to_be_bytes(n: usize, count: usize) -> (r: Vec<u8>)
    ensures
        r@ == be_bytes(n as nat, count as nat),
    decreases count,
{
    if count == 0 {
        return Vec::new();
    }
    let mut r = to_be_bytes(n / 256, count - 1);
    r.push((n % 256) as u8);
    r
}

pub(crate) proof fn lemma_be_bytes_len(n: nat, count: nat)
    ensures
        be_bytes(n, count).len() == count,
    decreases count,
{
    if count > 0 {
        lemma_be_bytes_len(n / 256, (count - 1) as nat);
    }
}

/// Writes a name as it stands in a link.
pub fn write_uri(out: &mut Vec<u8>, name: &str)
    ensures
        final(out)@ == old(out)@ + uri_text(bytes::text(name@)),
{
    let b = name.as_bytes();
    let ghost before = out@;
    let mut i: usize = 0;
    assert(b@.take(0) =~= Seq::empty());
    assert(before + uri_text(b@.take(0)) =~= before);
    while i < b.len()
        invariant
            i <= b@.len(),
            out@ == before + uri_text(b@.take(i as int)),
        decreases b@.len() - i,
    {
        proof {
            assert(b@.take(i + 1).drop_last() =~= b@.take(i as int));
            assert(b@.take(i + 1).last() == b@[i as int]);
        }
        let ghost mid = out@;
        let c = b[i];
        if c < 0x20 || c >= 0x7f || c == 0x20 || c == 0x22 || c == 0x3c || c == 0x3e || c == 0x60 {
            bytes::append(out, percent_encoding::percent_encode_byte(c).as_bytes());
        } else {
            out.push(c);
            assert(out@ =~= mid + seq![c]);
        }
        assert(out@ =~= before + uri_text(b@.take(i + 1)));
        i += 1;
    }
    assert(b@.take(b@.len() as int) =~= b@);
}

} // verus!
