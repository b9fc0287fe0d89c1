//! Texts and their bytes.

use vstd::prelude::*;
use vstd::utf8::{decode_utf8, encode_utf8, valid_utf8};

verus! {

/// `std::str::from_utf8`: the text that bytes stand for in UTF-8, if they stand for one.
#[verifier::external_body]
fn str_from_utf8(bytes: &[u8]) -> (r: Option<&str>)
    ensures
        r is Some <==> valid_utf8(bytes@),
        r is Some ==> encode_utf8(r->0@) == bytes@,
{
    std::str::from_utf8(bytes).ok()
}

/// The text that bytes stand for in UTF-8, if they stand for one.
pub fn text_of_utf8(bytes: &[u8]) -> (r: Option<String>)
    ensures
        r is Some <==> valid_utf8(bytes@),
        r matches Some(s) ==> s@ == decode_utf8(bytes@) && encode_utf8(s@) == bytes@,
{
    match str_from_utf8(bytes) {
        Some(s) => {
            proof {
                vstd::utf8::encode_utf8_decode_utf8(s@);
            }
            Some(s.to_string())
        },
        None => None,
    }
}

/// The decimal digit of a number below ten.
pub open spec fn digit(d: nat) -> char {
    (48 + d) as char
}

/// A number in decimal notation.
pub open spec fn decimal(n: nat) -> Seq<char>
    decreases n,
{
    if n < 10 {
        seq![digit(n)]
    } else {
        decimal(n / 10).push(digit(n % 10))
    }
}

/// The decimal digit of a number below ten.
fn digit_text(d: u64) -> (s: &'static str)
    requires
        d < 10,
    ensures
        s@ == seq![digit(d as nat)],
{
    match d {
        0 => {
            proof {
                reveal_strlit("0");
            }
            "0"
        },
        1 => {
            proof {
                reveal_strlit("1");
            }
            "1"
        },
        2 => {
            proof {
                reveal_strlit("2");
            }
            "2"
        },
        3 => {
            proof {
                reveal_strlit("3");
            }
            "3"
        },
        4 => {
            proof {
                reveal_strlit("4");
            }
            "4"
        },
        5 => {
            proof {
                reveal_strlit("5");
            }
            "5"
        },
        6 => {
            proof {
                reveal_strlit("6");
            }
            "6"
        },
        7 => {
            proof {
                reveal_strlit("7");
            }
            "7"
        },
        8 => {
            proof {
                reveal_strlit("8");
            }
            "8"
        },
        _ => {
            proof {
                reveal_strlit("9");
            }
            "9"
        },
    }
}

/// A number in decimal notation.
pub fn decimal_text(n: u64) -> (s: String)
    ensures
        s@ == decimal(n as nat),
    decreases n,
{
    if n < 10 {
        digit_text(n).to_string()
    } else {
        let mut s = decimal_text(n / 10);
        s.append(digit_text(n % 10));
        assert(s@ =~= decimal((n / 10) as nat).push(digit((n % 10) as nat)));
        s
    }
}

/// A number in decimal notation, with zeros in front up to four digits.
pub open spec fn decimal4(n: nat) -> Seq<char> {
    let d = decimal(n);
    if d.len() < 4 {
        Seq::new((4 - d.len()) as nat, |i: int| '0') + d
    } else {
        d
    }
}

/// A number has as many digits as it takes.
proof fn lemma_decimal_len(n: nat)
    ensures
        decimal(n).len() == 1 <==> n < 10,
        decimal(n).len() <= 2 <==> n < 100,
        decimal(n).len() <= 3 <==> n < 1000,
        decimal(n).len() >= 1,
    decreases n,
{
    if n >= 10 {
        lemma_decimal_len(n / 10);
    }
}

/// A number in decimal notation, with zeros in front up to four digits.
pub fn padded_text(n: u64) -> (s: String)
    ensures
        s@ == decimal4(n as nat),
{
    proof {
        lemma_decimal_len(n as nat);
        reveal_strlit("");
        reveal_strlit("0");
        reveal_strlit("00");
        reveal_strlit("000");
    }
    let zeros = if n < 10 {
        "000"
    } else if n < 100 {
        "00"
    } else if n < 1000 {
        "0"
    } else {
        ""
    };
    let mut s = zeros.to_string();
    s.append(decimal_text(n).as_str());
    assert(s@ =~= decimal4(n as nat));
    s
}

/// The number that a text of decimal digits tells.
pub open spec fn text_value(s: Seq<char>) -> int
    decreases s.len(),
{
    if s.len() == 0 {
        0
    } else {
        10 * text_value(s.drop_last()) + (s.last() as int - '0' as int)
    }
}

/// The text consists of decimal digits.
pub open spec fn are_digits(s: Seq<char>) -> bool {
    forall|i: int| 0 <= i < s.len() ==> '0' <= (#[trigger] s[i]) <= '9'
}

/// The decimal notation of a number consists of digits, tells the number, and has no zeros in
/// front of it; with zeros in front it tells the same number, and has four digits or, if it takes
/// more, as many as it takes.
pub proof fn law_decimal_tells_number(n: nat)
    ensures
        are_digits(decimal(n)),
        are_digits(decimal4(n)),
        text_value(decimal(n)) == n,
        text_value(decimal4(n)) == n,
        n > 0 ==> decimal(n)[0] != '0',
        n < 10 ==> decimal(n).len() == 1,
        n < 10000 ==> decimal4(n).len() == 4,
        n >= 10000 ==> decimal4(n) == decimal(n),
{
    lemma_decimal(n);
    lemma_decimal_len(n);
    lemma_four_digits(n);
    let d = decimal(n);
    if d.len() < 4 {
        let zeros = Seq::new((4 - d.len()) as nat, |i: int| '0');
        lemma_zeros_in_front(zeros, d);
    }
}

/// Different numbers have different decimal notations, with zeros in front or without.
pub proof fn law_decimal_texts_differ(a: nat, b: nat)
    requires
        a != b,
    ensures
        decimal(a) != decimal(b),
        decimal4(a) != decimal4(b),
{
    law_decimal_tells_number(a);
    law_decimal_tells_number(b);
}

proof fn lemma_decimal(n: nat)
    ensures
        are_digits(decimal(n)),
        text_value(decimal(n)) == n,
        n > 0 ==> decimal(n)[0] != '0',
    decreases n,
{
    let d = decimal(n);
    if n < 10 {
        assert(d.drop_last() =~= Seq::<char>::empty());
        assert(text_value(d.drop_last()) == 0);
    } else {
        let before = decimal(n / 10);
        lemma_decimal(n / 10);
        lemma_decimal_len(n / 10);
        assert(d.drop_last() =~= before);
        assert(d[0] == before[0]);
        assert forall|i: int| 0 <= i < d.len() implies '0' <= (#[trigger] d[i]) <= '9' by {
            if i < before.len() {
                assert(d[i] == before[i]);
            }
        }
    }
}

proof fn lemma_four_digits(n: nat)
    ensures
        decimal(n).len() <= 4 <==> n < 10000,
{
    lemma_decimal_len(n);
    if n >= 10 {
        lemma_decimal_len(n / 10);
    }
}

proof fn lemma_zeros_in_front(zeros: Seq<char>, d: Seq<char>)
    requires
        forall|i: int| 0 <= i < zeros.len() ==> (#[trigger] zeros[i]) == '0',
    ensures
        text_value(zeros + d) == text_value(d),
    decreases zeros.len() + d.len(),
{
    let all = zeros + d;
    if d.len() > 0 {
        assert(all.drop_last() =~= zeros + d.drop_last());
        lemma_zeros_in_front(zeros, d.drop_last());
    } else if zeros.len() > 0 {
        assert(all.drop_last() =~= zeros.drop_last() + d);
        lemma_zeros_in_front(zeros.drop_last(), d);
        assert(zeros[zeros.len() - 1] == '0');
    }
}

} // verus!
