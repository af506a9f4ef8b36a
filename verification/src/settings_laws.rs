//! What settings come to.
use vstd::prelude::*;

use crate::bytes;
use crate::encoding;
use crate::settings;

verus! {

/// Whether a text is a number in decimal digits, with zeros before them or not, and with a plus
/// sign before all or not.
pub open spec fn writes(s: Seq<u8>, n: nat) -> bool {
    exists|plus: bool, zeros: nat| #[trigger] written(n, plus, zeros) == s
}

/// A number in decimal digits with so many zeros before them, and a plus sign before all or not.
pub open spec fn written(n: nat, plus: bool, zeros: nat) -> Seq<u8> {
    let front = if plus {
        seq![0x2bu8]
    } else {
        Seq::empty()
    };
    front + Seq::new(zeros, |i: int| 0x30u8) + encoding::decimal(n)
}

proof fn lemma_digits(n: nat)
    ensures
        encoding::decimal(n).len() > 0,
        forall|i: int|
            0 <= i < encoding::decimal(n).len() ==> settings::is_digit(
                #[trigger] encoding::decimal(n)[i],
            ),
        settings::digits_value(encoding::decimal(n)) == n,
    decreases n,
{
    let d = encoding::decimal(n);
    if n < 10 {
        assert(d.drop_last() =~= Seq::empty());
        assert(settings::digits_value(d.drop_last()) == 0);
        assert(d.last() == n + 0x30);
    } else {
        lemma_digits(n / 10);
        let front = encoding::decimal(n / 10);
        assert(d.drop_last() =~= front);
        assert(d.last() == n % 10 + 0x30);
        assert forall|i: int| 0 <= i < d.len() implies settings::is_digit(#[trigger] d[i]) by {
            if i < front.len() {
                assert(d[i] == front[i]);
            }
        }
    }
}

proof fn lemma_zeros(zeros: nat, d: Seq<u8>)
    ensures
        settings::digits_value(Seq::new(zeros, |i: int| 0x30u8) + d) == settings::digits_value(d),
    decreases zeros + d.len(),
{
    let z = Seq::new(zeros, |i: int| 0x30u8);
    let s = z + d;
    if d.len() > 0 {
        lemma_zeros(zeros, d.drop_last());
        assert(s.drop_last() =~= z + d.drop_last());
    } else if zeros > 0 {
        let fewer = Seq::new((zeros - 1) as nat, |i: int| 0x30u8);
        lemma_zeros((zeros - 1) as nat, d);
        assert(s.drop_last() =~= fewer + d);
    } else {
        assert(s =~= d);
    }
}

/// A text that is a number, one that is not too large, is read as that number.
pub proof fn law_number_read(s: Seq<u8>, n: nat, max: int)
    requires
        writes(s, n),
    ensures
        settings::number_in(s, max) == if n <= max {
            Some(n as int)
        } else {
            None
        },
{
    let (plus, zeros) = choose|plus: bool, zeros: nat| #[trigger] written(n, plus, zeros) == s;
    let d = Seq::new(zeros, |i: int| 0x30u8) + encoding::decimal(n);
    lemma_digits(n);
    lemma_zeros(zeros, encoding::decimal(n));
    if plus {
        assert(s.skip(1) =~= d);
    } else {
        assert(s =~= d);
        assert(settings::is_digit(d[0])) by {
            if zeros == 0 {
                assert(d[0] == encoding::decimal(n)[0]);
            }
        }
    }
    assert(settings::without_plus(s) =~= d);
    assert forall|i: int| 0 <= i < d.len() implies settings::is_digit(#[trigger] d[i]) by {
        if i >= zeros {
            assert(d[i] == encoding::decimal(n)[i - zeros]);
        }
    }
}

proof fn lemma_value_written(d: Seq<u8>) -> (r: (nat, nat))
    requires
        d.len() > 0,
        forall|i: int| 0 <= i < d.len() ==> settings::is_digit(#[trigger] d[i]),
    ensures
        d == Seq::new(r.1, |i: int| 0x30u8) + encoding::decimal(r.0),
    decreases d.len(),
{
    let last = d[d.len() - 1];
    assert(settings::is_digit(last));
    let digit = (last - 0x30) as nat;
    if d.len() == 1 {
        assert(d =~= Seq::new(0, |i: int| 0x30u8) + encoding::decimal(digit));
        (digit, 0)
    } else {
        let init = d.drop_last();
        assert forall|i: int| 0 <= i < init.len() implies settings::is_digit(
            #[trigger] init[i],
        ) by {
            assert(init[i] == d[i]);
        }
        let (n, zeros) = lemma_value_written(init);
        assert(d =~= init.push(last));
        let z = Seq::new(zeros, |i: int| 0x30u8);
        let m = 10 * n + digit;
        if n == 0 {
            let more = Seq::new(zeros + 1, |i: int| 0x30u8);
            assert(encoding::decimal(0) =~= seq![0x30u8]);
            assert(encoding::decimal(digit) =~= seq![last]);
            assert(more =~= z + seq![0x30u8]);
            assert(d =~= more + seq![last]);
            (digit, zeros + 1)
        } else {
            assert(m / 10 == n && m % 10 == digit);
            assert(encoding::decimal(m) == encoding::decimal(n).push(last));
            assert((z + encoding::decimal(n)).push(last) =~= z + encoding::decimal(n).push(last));
            (m, zeros)
        }
    }
}

/// A text that is no number is not read as one.
pub proof fn law_no_number_read(s: Seq<u8>, max: int)
    requires
        forall|n: nat| !writes(s, n),
    ensures
        settings::number_in(s, max) is None,
{
    let d = settings::without_plus(s);
    if d.len() > 0 && (forall|i: int| 0 <= i < d.len() ==> settings::is_digit(#[trigger] d[i])) {
        let (n, zeros) = lemma_value_written(d);
        let plus = s.len() > 0 && s[0] == 0x2b;
        if plus {
            assert(s =~= seq![0x2bu8] + d);
        }
        assert(written(n, plus, zeros) =~= s);
        assert(writes(s, n));
    }
}

/// Whether a number is set.
pub open spec fn sets(setting: Option<&str>, n: nat) -> bool {
    setting matches Some(text) && writes(bytes::text(text@), n)
}

/// The port is the number that is set, where one is set that is a port, and otherwise 50002.
pub proof fn law_port(setting: Option<&str>, port: u16)
    requires
        call_ensures(settings::port, (setting,), port),
    ensures
        forall|n: nat| n <= 65535 && #[trigger] sets(setting, n) ==> port == n,
        (forall|n: nat| n <= 65535 ==> !#[trigger] sets(setting, n)) ==> port == 50002,
{
    if let Some(text) = setting {
        let s = bytes::text(text@);
        assert forall|n: nat| n <= 65535 && #[trigger] sets(setting, n) implies port == n by {
            law_number_read(s, n, 65535);
        }
        if forall|n: nat| n <= 65535 ==> !#[trigger] sets(setting, n) {
            if exists|n: nat| #[trigger] writes(s, n) {
                let n = choose|n: nat| #[trigger] writes(s, n);
                assert(sets(setting, n));
                law_number_read(s, n, 65535);
            } else {
                law_no_number_read(s, 65535);
            }
        }
    }
}

/// The number of threads is the number that is set, where one is set that is not 0, and otherwise
/// as many as can run at once, but not more than 8; it is 1 where that is not known.
pub proof fn law_thread_count(setting: Option<&str>, available: Option<usize>, count: usize)
    requires
        call_ensures(settings::thread_count, (setting, available), count),
    ensures
        forall|n: nat| 0 < n <= usize::MAX && #[trigger] sets(setting, n) ==> count == n,
        (forall|n: nat| 0 < n <= usize::MAX ==> !#[trigger] sets(setting, n)) ==> match available {
            Some(most) => count <= most && count <= 8 && (count == most || count == 8),
            None => count == 1,
        },
{
    if let Some(text) = setting {
        let s = bytes::text(text@);
        assert forall|n: nat| 0 < n <= usize::MAX && #[trigger] sets(
            setting,
            n,
        ) implies count == n by {
            law_number_read(s, n, usize::MAX as int);
        }
        if forall|n: nat| 0 < n <= usize::MAX ==> !#[trigger] sets(setting, n) {
            if exists|n: nat| #[trigger] writes(s, n) {
                let n = choose|n: nat| #[trigger] writes(s, n);
                assert(sets(setting, n));
                law_number_read(s, n, usize::MAX as int);
            } else {
                law_no_number_read(s, usize::MAX as int);
            }
        }
    }
}

} // verus!
