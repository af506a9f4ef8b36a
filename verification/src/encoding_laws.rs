//! What the written forms of bytes, numbers and names give back.
use vstd::prelude::*;

use crate::encoding;
use crate::listing;

verus! {

/// Hexadecimal digits give back the bytes they were written for.
pub proof fn law_hex_round_trip(b: Seq<u8>)
    ensures
        encoding::hex_bytes(encoding::hex_text(b)) == Some(b),
{
    let t = encoding::hex_text(b);
    assert forall|i: int| 0 <= i < t.len() implies encoding::hex_digit(#[trigger] t[i]) is Some by {
        let x = b[i / 2] as int;
        assert(0 <= x / 16 < 16 && 0 <= x % 16 < 16);
    }
    let r = encoding::hex_bytes(t)->0;
    assert forall|i: int| 0 <= i < b.len() implies #[trigger] r[i] == b[i] by {
        let x = b[i] as int;
        assert(t[2 * i] == encoding::hex_small(x / 16)) by {
            assert((2 * i) / 2 == i);
            assert((2 * i) % 2 == 0);
        }
        assert(t[2 * i + 1] == encoding::hex_small(x % 16)) by {
            assert((2 * i + 1) / 2 == i);
            assert((2 * i + 1) % 2 == 1);
        }
        assert(encoding::hex_digit(t[2 * i]) == Some(x / 16));
        assert(encoding::hex_digit(t[2 * i + 1]) == Some(x % 16));
        assert(16 * (x / 16) + x % 16 == x);
    }
    assert(r =~= b);
}

/// The number that hexadecimal digits stand for.
pub open spec fn hex_number(s: Seq<u8>) -> int
    decreases s.len(),
{
    if s.len() == 0 {
        0
    } else {
        16 * hex_number(s.drop_last()) + encoding::hex_digit(s.last())->0
    }
}

proof fn lemma_hex_number(n: nat, count: nat)
    requires
        n < vstd::arithmetic::power::pow(256, count),
    ensures
        hex_number(encoding::hex_text(encoding::be_bytes(n, count))) == n,
    decreases count,
{
    vstd::arithmetic::power::lemma_pow0(256);
    if count > 0 {
        let low = (count - 1) as nat;
        let front = encoding::be_bytes(n / 256, low);
        let last = (n % 256) as u8;
        assert(n / 256 < vstd::arithmetic::power::pow(256, low)) by {
            reveal(vstd::arithmetic::power::pow);
            assert(vstd::arithmetic::power::pow(256, count) == 256
                * vstd::arithmetic::power::pow(256, low));
        }
        lemma_hex_number(n / 256, low);
        let t = encoding::hex_text(front.push(last));
        let f = encoding::hex_text(front);
        let x = last as int;
        assert(t.drop_last().drop_last() =~= f) by {
            assert forall|i: int| 0 <= i < f.len() implies t[i] == f[i] by {
                assert(0 <= i / 2 < front.len());
            }
        }
        let k = front.len() as int;
        assert(t.last() == encoding::hex_small(x % 16)) by {
            assert((2 * k + 1) / 2 == k);
            assert((2 * k + 1) % 2 == 1);
        }
        assert(t.drop_last().last() == encoding::hex_small(x / 16)) by {
            assert((2 * k) / 2 == k);
            assert((2 * k) % 2 == 0);
        }
        assert(encoding::hex_digit(t.last()) == Some(x % 16));
        assert(encoding::hex_digit(t.drop_last().last()) == Some(x / 16));
        assert(hex_number(t.drop_last()) == 16 * hex_number(f) + x / 16);
        assert(hex_number(t) == 16 * hex_number(t.drop_last()) + x % 16);
    }
}

/// The length line of a chunk gives the length of its data.
pub proof fn law_chunk_length(data: Seq<u8>)
    requires
        data.len() <= usize::MAX,
    ensures
        hex_number(listing::chunk(data).take(listing::CHUNK_DIGIT_COUNT as int)) == data.len(),
{
    let count = (usize::BITS / 8) as nat;
    assert(usize::MAX < vstd::arithmetic::power::pow(256, count)) by {
        reveal(vstd::arithmetic::power::pow);
        reveal_with_fuel(vstd::arithmetic::power::pow, 9);
    }
    lemma_hex_number(data.len(), count);
    encoding::lemma_be_bytes_len(data.len(), count);
    let digits = encoding::hex_text(encoding::be_bytes(data.len(), count));
    assert(listing::chunk(data).take(listing::CHUNK_DIGIT_COUNT as int) =~= digits);
}

/// A byte as it is written in a link.
pub open spec fn uri_escape(b: u8) -> Seq<u8> {
    if encoding::escaped_in_uri(b) {
        encoding::percent_escape(b)
    } else {
        seq![b]
    }
}

proof fn lemma_uri_text_front(b: u8, rest: Seq<u8>)
    ensures
        encoding::uri_text(seq![b] + rest) == uri_escape(b) + encoding::uri_text(rest),
    decreases rest.len(),
{
    let s = seq![b] + rest;
    if rest.len() == 0 {
        assert(s.drop_last() =~= Seq::empty());
        assert(s.last() == b);
        assert(encoding::uri_text(s.drop_last()) =~= Seq::empty());
        assert(encoding::uri_text(s) =~= uri_escape(b) + encoding::uri_text(rest));
    } else {
        lemma_uri_text_front(b, rest.drop_last());
        assert(s.drop_last() =~= seq![b] + rest.drop_last());
        assert(encoding::uri_text(s) =~= uri_escape(b) + encoding::uri_text(rest));
    }
}

/// Whether a percent sign with two hexadecimal digits behind it stands in a name.
pub open spec fn holds_percent_escape(name: Seq<u8>) -> bool {
    exists|i: int|
        {
            &&& 0 <= i < name.len() - 2
            &&& #[trigger] name[i] == 0x25
            &&& encoding::hex_digit(name[i + 1]) is Some
            &&& encoding::hex_digit(name[i + 2]) is Some
        }
}

/// A name written in a link is decoded to that name, unless it holds what reads as an escape.
pub proof fn law_uri_round_trip(name: Seq<u8>)
    requires
        !holds_percent_escape(name),
    ensures
        encoding::percent_decoded(encoding::uri_text(name)) == name,
    decreases name.len(),
{
    if name.len() == 0 {
        assert(encoding::percent_decoded(encoding::uri_text(name)) =~= name);
    } else {
        let b = name[0];
        let rest = name.drop_first();
        assert(name =~= seq![b] + rest);
        lemma_uri_text_front(b, rest);
        assert(!holds_percent_escape(rest)) by {
            if holds_percent_escape(rest) {
                let i = choose|i: int|
                    {
                        &&& 0 <= i < rest.len() - 2
                        &&& #[trigger] rest[i] == 0x25
                        &&& encoding::hex_digit(rest[i + 1]) is Some
                        &&& encoding::hex_digit(rest[i + 2]) is Some
                    };
                assert(name[i + 1] == 0x25);
                assert(name[i + 1 + 1] == rest[i + 1]);
                assert(name[i + 1 + 2] == rest[i + 2]);
            }
        }
        law_uri_round_trip(rest);
        let tail = encoding::uri_text(rest);
        if encoding::escaped_in_uri(b) {
            lemma_decode_escape(b, tail);
        } else {
            if b == 0x25 && tail.len() >= 2 && encoding::hex_digit(tail[0]) is Some
                && encoding::hex_digit(tail[1]) is Some {
                lemma_plain_front(rest);
                let more = rest.drop_first();
                assert(tail[1] == encoding::uri_text(more)[0]);
                lemma_plain_front(more);
                assert(name[1] == rest[0] && name[2] == more[0]);
                assert(name[0] == 0x25);
                assert(holds_percent_escape(name));
            }
            lemma_decode_plain(b, tail);
        }
    }
}

proof fn lemma_decode_escape(b: u8, tail: Seq<u8>)
    ensures
        encoding::percent_decoded(encoding::percent_escape(b) + tail) == seq![b]
            + encoding::percent_decoded(tail),
{
    let t = encoding::percent_escape(b) + tail;
    let x = b as int;
    assert(t.skip(3) =~= tail);
    assert(encoding::hex_digit(t[1]) == Some(x / 16));
    assert(encoding::hex_digit(t[2]) == Some(x % 16));
    assert(16 * (x / 16) + x % 16 == x);
}

proof fn lemma_decode_plain(b: u8, tail: Seq<u8>)
    requires
        b != 0x25 || tail.len() < 2 || encoding::hex_digit(tail[0]) is None || encoding::hex_digit(
            tail[1],
        ) is None,
    ensures
        encoding::percent_decoded(seq![b] + tail) == seq![b] + encoding::percent_decoded(tail),
{
    let t = seq![b] + tail;
    assert(t.skip(1) =~= tail);
}

/// Where the written form of a name begins with a hexadecimal digit, so does the name.
proof fn lemma_plain_front(name: Seq<u8>)
    requires
        encoding::uri_text(name).len() > 0,
        encoding::hex_digit(encoding::uri_text(name)[0]) is Some,
    ensures
        name.len() > 0,
        name[0] == encoding::uri_text(name)[0],
        encoding::uri_text(name) == seq![name[0]] + encoding::uri_text(name.drop_first()),
{
    if name.len() > 0 {
        assert(name =~= seq![name[0]] + name.drop_first());
        lemma_uri_text_front(name[0], name.drop_first());
    }
}

/// A name in a link holds nothing that would end the link or the tag it stands in.
pub proof fn law_uri_text_plain(name: Seq<u8>)
    ensures
        forall|i: int|
            0 <= i < encoding::uri_text(name).len() ==> !encoding::escaped_in_uri(
                #[trigger] encoding::uri_text(name)[i],
            ),
    decreases name.len(),
{
    if name.len() > 0 {
        let front = encoding::uri_text(name.drop_last());
        let last = uri_escape(name.last());
        law_uri_text_plain(name.drop_last());
        assert(encoding::uri_text(name) == front + last);
        assert forall|i: int| 0 <= i < (front + last).len() implies !encoding::escaped_in_uri(
            #[trigger] (front + last)[i],
        ) by {
            if i < front.len() {
                assert((front + last)[i] == front[i]);
            } else {
                assert((front + last)[i] == last[i - front.len()]);
            }
        }
    }
}

/// A name in a page holds no quotation mark, angle bracket or slash.
pub proof fn law_html_text_plain(name: Seq<u8>)
    ensures
        forall|i: int|
            0 <= i < encoding::html_text(name).len() ==> {
                let b = #[trigger] encoding::html_text(name)[i];
                b != 0x22 && b != 0x27 && b != 0x2f && b != 0x3c && b != 0x3e
            },
    decreases name.len(),
{
    if name.len() > 0 {
        let front = encoding::html_text(name.drop_last());
        let last = encoding::html_escape(name.last());
        law_html_text_plain(name.drop_last());
        lemma_html_escape_plain(name.last());
        assert(encoding::html_text(name) == front + last);
        assert forall|i: int| 0 <= i < (front + last).len() implies {
            let b = #[trigger] (front + last)[i];
            b != 0x22 && b != 0x27 && b != 0x2f && b != 0x3c && b != 0x3e
        } by {
            if i < front.len() {
                assert((front + last)[i] == front[i]);
            } else {
                assert((front + last)[i] == last[i - front.len()]);
            }
        }
    }
}

proof fn lemma_html_escape_plain(c: u8)
    ensures
        forall|i: int|
            0 <= i < encoding::html_escape(c).len() ==> {
                let b = #[trigger] encoding::html_escape(c)[i];
                b != 0x22 && b != 0x27 && b != 0x2f && b != 0x3c && b != 0x3e
            },
{
    reveal_strlit("&quot;");
    reveal_strlit("&amp;");
    reveal_strlit("&#x27;");
    reveal_strlit("&#x2f;");
    reveal_strlit("&lt;");
    reveal_strlit("&gt;");
    assert("&quot;"@ =~= seq!['&', 'q', 'u', 'o', 't', ';']);
    assert("&amp;"@ =~= seq!['&', 'a', 'm', 'p', ';']);
    assert("&#x27;"@ =~= seq!['&', '#', 'x', '2', '7', ';']);
    assert("&#x2f;"@ =~= seq!['&', '#', 'x', '2', 'f', ';']);
    assert("&lt;"@ =~= seq!['&', 'l', 't', ';']);
    assert("&gt;"@ =~= seq!['&', 'g', 't', ';']);
    vstd::utf8::is_ascii_chars_encode_utf8("&quot;"@);
    vstd::utf8::is_ascii_chars_encode_utf8("&amp;"@);
    vstd::utf8::is_ascii_chars_encode_utf8("&#x27;"@);
    vstd::utf8::is_ascii_chars_encode_utf8("&#x2f;"@);
    vstd::utf8::is_ascii_chars_encode_utf8("&lt;"@);
    vstd::utf8::is_ascii_chars_encode_utf8("&gt;"@);
}

/// Decoding never makes a path longer.
pub proof fn law_percent_decoded_len(s: Seq<u8>)
    ensures
        encoding::percent_decoded(s).len() <= s.len(),
    decreases s.len(),
{
    if s.len() > 0 {
        law_percent_decoded_len(s.skip(1));
        if s.len() >= 3 {
            law_percent_decoded_len(s.skip(3));
        }
    }
}

} // verus!
