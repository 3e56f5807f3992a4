//! Building text: decimal numbers and UTF-8 bytes.

use vstd::prelude::*;
use vstd::utf8::encode_utf8;

verus! {

/// The character of a decimal digit.
pub open spec fn digit_char(d: int) -> char {
    if d == 0 {
        '0'
    } else if d == 1 {
        '1'
    } else if d == 2 {
        '2'
    } else if d == 3 {
        '3'
    } else if d == 4 {
        '4'
    } else if d == 5 {
        '5'
    } else if d == 6 {
        '6'
    } else if d == 7 {
        '7'
    } else if d == 8 {
        '8'
    } else {
        '9'
    }
}

/// The decimal representation of a number, without leading zeros.
pub open spec fn decimal(n: nat) -> Seq<char>
    decreases n,
{
    if n < 10 {
        seq![digit_char(n as int)]
    } else {
        decimal(n / 10).push(digit_char((n % 10) as int))
    }
}

/// Whether a character is a decimal digit.
pub open spec fn is_digit(c: char) -> bool {
    '0' <= c && c <= '9'
}

/// The value of a decimal digit.
pub open spec fn digit_value(c: char) -> int {
    (c as u32) as int - ('0' as u32) as int
}

/// The number that a sequence of decimal digits reads as.
pub open spec fn decimal_value(s: Seq<char>) -> int
    decreases s.len(),
{
    if s.len() == 0 {
        0
    } else {
        decimal_value(s.drop_last()) * 10 + digit_value(s.last())
    }
}

/// The decimal text of a number is a non-empty run of digits that reads as
/// the number.
pub proof fn law_decimal_reads_back(n: nat)
    ensures
        decimal(n).len() > 0,
        forall|i: int| 0 <= i < decimal(n).len() ==> is_digit(#[trigger] decimal(n)[i]),
        decimal_value(decimal(n)) == n,
    decreases n,
{
    let d = (n % 10) as int;
    assert(is_digit(digit_char(d)) && digit_value(digit_char(d)) == d) by {
        assert(0 <= d < 10);
        if d == 0 {} else if d == 1 {} else if d == 2 {} else if d == 3 {} else if d == 4 {}
        else if d == 5 {} else if d == 6 {} else if d == 7 {} else if d == 8 {} else {}
    }
    if n >= 10 {
        law_decimal_reads_back(n / 10);
        let s = decimal(n);
        assert(s == decimal(n / 10).push(digit_char(d)));
        assert(s.drop_last() =~= decimal(n / 10));
        assert(s.last() == digit_char(d));
        assert(forall|i: int| 0 <= i < s.len() - 1 ==> s[i] == decimal(n / 10)[i]);
        assert(decimal_value(s) == decimal_value(decimal(n / 10)) * 10 + d);
        assert((n / 10) * 10 + n % 10 == n) by (nonlinear_arith);
    } else {
        let s = decimal(n);
        assert(s == seq![digit_char(n as int)]);
        assert(s.drop_last() =~= Seq::<char>::empty());
        assert(decimal_value(s.drop_last()) == 0);
        assert(d == n);
    }
}

/// A number written in decimal and followed by text that does not start
/// with a digit can be read back in one way only: the same text gives the
/// same number and the same rest.
pub proof fn law_decimal_read_unique(n: nat, m: nat, a: Seq<char>, b: Seq<char>)
    requires
        decimal(n) + a == decimal(m) + b,
        a.len() > 0 ==> !is_digit(a[0]),
        b.len() > 0 ==> !is_digit(b[0]),
    ensures
        n == m,
        a == b,
{
    law_decimal_reads_back(n);
    law_decimal_reads_back(m);
    let dn = decimal(n);
    let dm = decimal(m);
    let t = dn + a;
    if dn.len() < dm.len() {
        assert(t[dn.len() as int] == dm[dn.len() as int]);
        assert(t[dn.len() as int] == a[0]);
    } else if dm.len() < dn.len() {
        assert(t[dm.len() as int] == dn[dm.len() as int]);
        assert(t[dm.len() as int] == b[0]);
    }
    assert(dn =~= t.subrange(0, dn.len() as int));
    assert(dm =~= t.subrange(0, dn.len() as int));
    assert(a =~= t.subrange(dn.len() as int, t.len() as int));
    assert(b =~= t.subrange(dn.len() as int, t.len() as int));
}

/// A text read as a head, a decimal number and text not starting with a
/// digit gives the same number whichever way it is read so.
pub proof fn law_decimal_read_after(
    head: Seq<char>,
    n: nat,
    a: Seq<char>,
    m: nat,
    b: Seq<char>,
)
    requires
        head + decimal(n) + a == head + decimal(m) + b,
        a.len() > 0 ==> !is_digit(a[0]),
        b.len() > 0 ==> !is_digit(b[0]),
    ensures
        n == m,
{
    let t = head + decimal(n) + a;
    assert(decimal(n) + a =~= t.subrange(head.len() as int, t.len() as int));
    assert(decimal(m) + b =~= t.subrange(head.len() as int, t.len() as int));
    law_decimal_read_unique(n, m, a, b);
}

/// A text read as text not ending in a digit, a decimal number and a tail
/// gives the same number whichever way it is read so.
pub proof fn law_decimal_read_before(
    a: Seq<char>,
    n: nat,
    b: Seq<char>,
    m: nat,
    tail: Seq<char>,
)
    requires
        a + decimal(n) + tail == b + decimal(m) + tail,
        a.len() > 0 ==> !is_digit(a.last()),
        b.len() > 0 ==> !is_digit(b.last()),
    ensures
        n == m,
        a == b,
{
    law_decimal_reads_back(n);
    law_decimal_reads_back(m);
    let dn = decimal(n);
    let dm = decimal(m);
    let t = a + dn + tail;
    let u = a + dn;
    assert(u =~= t.subrange(0, t.len() - tail.len()));
    assert(b + dm =~= t.subrange(0, t.len() - tail.len()));
    let l = u.len() as int;
    if dn.len() < dm.len() {
        assert(u[l - dn.len() - 1] == a.last());
        assert(u[l - dn.len() - 1] == (b + dm)[l - dn.len() - 1]);
        assert((b + dm)[l - dn.len() - 1] == dm[dm.len() - dn.len() - 1]);
    } else if dm.len() < dn.len() {
        assert((b + dm)[l - dm.len() - 1] == b.last());
        assert(u[l - dm.len() - 1] == dn[dn.len() - dm.len() - 1]);
    }
    assert(dn =~= u.subrange(l - dn.len(), l));
    assert(dm =~= (b + dm).subrange(l - dn.len(), l));
    assert(a =~= u.subrange(0, l - dn.len()));
    assert(b =~= (b + dm).subrange(0, l - dn.len()));
}

/// The decimal representation of a signed number.
pub open spec fn signed_decimal(n: int) -> Seq<char> {
    if n < 0 {
        seq!['-'] + decimal((-n) as nat)
    } else {
        decimal(n as nat)
    }
}

/// Returns the text of a decimal digit.
fn digit_str(d: u128) -> (res: &'static str)
    requires
        d < 10,
    ensures
        res@ == seq![digit_char(d as int)],
{
    match d {
        0 => {
            proof {
                reveal_strlit("0");
            }
            "0"
        },
        1 => {
            proof {
                reveal_strlit("1");
            }
            "1"
        },
        2 => {
            proof {
                reveal_strlit("2");
            }
            "2"
        },
        3 => {
            proof {
                reveal_strlit("3");
            }
            "3"
        },
        4 => {
            proof {
                reveal_strlit("4");
            }
            "4"
        },
        5 => {
            proof {
                reveal_strlit("5");
            }
            "5"
        },
        6 => {
            proof {
                reveal_strlit("6");
            }
            "6"
        },
        7 => {
            proof {
                reveal_strlit("7");
            }
            "7"
        },
        8 => {
            proof {
                reveal_strlit("8");
            }
            "8"
        },
        _ => {
            proof {
                reveal_strlit("9");
            }
            "9"
        },
    }
}

/// Appends the decimal representation of a number to a string.
pub fn push_decimal(s: &mut String, n: u128)
    ensures
        final(s)@ == old(s)@ + decimal(n as nat),
    decreases n,
{
    if n >= 10 {
        push_decimal(s, n / 10);
    }
    s.append(digit_str(n % 10));
    proof {
        if n >= 10 {
            assert(old(s)@ + decimal((n / 10) as nat) + seq![digit_char((n % 10) as int)]
                =~= old(s)@ + decimal(n as nat));
        } else {
            assert(old(s)@ + seq![digit_char((n % 10) as int)] =~= old(s)@ + decimal(n as nat));
        }
    }
}

/// The character of a lower-case hexadecimal digit.
pub open spec fn hex_digit_char(d: int) -> char {
    if d < 10 {
        digit_char(d)
    } else if d == 10 {
        'a'
    } else if d == 11 {
        'b'
    } else if d == 12 {
        'c'
    } else if d == 13 {
        'd'
    } else if d == 14 {
        'e'
    } else {
        'f'
    }
}

/// The lower-case hexadecimal representation of a number, without leading
/// zeros.
pub open spec fn hex(n: nat) -> Seq<char>
    decreases n,
{
    if n < 16 {
        seq![hex_digit_char(n as int)]
    } else {
        hex(n / 16).push(hex_digit_char((n % 16) as int))
    }
}

/// Returns the text of a hexadecimal digit.
fn hex_digit_str(d: u128) -> (res: &'static str)
    requires
        d < 16,
    ensures
        res@ == seq![hex_digit_char(d as int)],
{
    let digits = "0123456789abcdef";
    proof {
        reveal_strlit("0123456789abcdef");
    }
    let i = d as usize;
    let res = digits.substring_char(i, i + 1);
    proof {
        assert(res@ =~= seq![hex_digit_char(d as int)]);
    }
    res
}

/// Appends the lower-case hexadecimal representation of a number to a
/// string.
pub fn push_hex(s: &mut String, n: u128)
    ensures
        final(s)@ == old(s)@ + hex(n as nat),
    decreases n,
{
    if n >= 16 {
        push_hex(s, n / 16);
    }
    s.append(hex_digit_str(n % 16));
    proof {
        if n >= 16 {
            assert(old(s)@ + hex((n / 16) as nat) + seq![hex_digit_char((n % 16) as int)]
                =~= old(s)@ + hex(n as nat));
        } else {
            assert(old(s)@ + seq![hex_digit_char((n % 16) as int)] =~= old(s)@ + hex(n as nat));
        }
    }
}

/// The digits of the thousandths `r`, between 1 and 999, after the
/// decimal point: three places without trailing zeros.
pub open spec fn thousandths_text(r: int) -> Seq<char> {
    if r % 100 == 0 {
        seq![digit_char(r / 100)]
    } else if r % 10 == 0 {
        seq![digit_char(r / 100), digit_char((r / 10) % 10)]
    } else {
        seq![digit_char(r / 100), digit_char((r / 10) % 10), digit_char(r % 10)]
    }
}

/// A number of milliseconds as seconds: a decimal number with as many
/// places after the decimal point as needed, none for whole seconds.
pub open spec fn seconds_text(ms: int) -> Seq<char> {
    let a: int = if ms < 0 {
        -ms
    } else {
        ms
    };
    (if ms < 0 {
        seq!['-']
    } else {
        Seq::empty()
    }) + decimal((a / 1000) as nat) + (if a % 1000 == 0 {
        Seq::empty()
    } else {
        seq!['.'] + thousandths_text(a % 1000)
    })
}

/// Appends a number of milliseconds as seconds.
pub fn push_seconds(s: &mut String, ms: i128)
    requires
        ms > i128::MIN,
    ensures
        final(s)@ == old(s)@ + seconds_text(ms as int),
{
    let ghost start = s@;
    let a: u128 = if ms < 0 {
        push_str(s, "-");
        (-ms) as u128
    } else {
        0u128 + ms as u128
    };
    proof {
        reveal_strlit("-");
    }
    let ghost signed = s@;
    assert(signed =~= start + (if ms < 0 {
        seq!['-']
    } else {
        Seq::<char>::empty()
    }));
    push_decimal(s, a / 1000);
    let r = a % 1000;
    if r != 0 {
        push_str(s, ".");
        s.append(digit_str(r / 100));
        if r % 100 != 0 {
            s.append(digit_str((r / 10) % 10));
            if r % 10 != 0 {
                s.append(digit_str(r % 10));
            }
        }
        proof {
            reveal_strlit(".");
            assert(s@ =~= signed + decimal((a / 1000) as nat) + seq!['.'] + thousandths_text(
                r as int,
            ));
        }
    }
    assert(s@ =~= old(s)@ + seconds_text(ms as int));
}

/// Appends the decimal representation of a signed number to a string.
pub fn push_signed_decimal(s: &mut String, n: i128)
    ensures
        final(s)@ == old(s)@ + signed_decimal(n as int),
{
    if n < 0 {
        proof {
            reveal_strlit("-");
        }
        s.append("-");
        let m: u128 = if n == i128::MIN {
            0x8000_0000_0000_0000_0000_0000_0000_0000u128
        } else {
            (-n) as u128
        };
        push_decimal(s, m);
        proof {
            assert(old(s)@ + seq!['-'] + decimal(m as nat) =~= old(s)@ + signed_decimal(n as int));
        }
    } else {
        push_decimal(s, n as u128);
    }
}

/// Appends a string slice to a string.
pub fn push_str(s: &mut String, t: &str)
    ensures
        final(s)@ == old(s)@ + t@,
{
    s.append(t);
}

/// Encoding text in UTF-8 distributes over concatenation.
pub proof fn lemma_encode_utf8_add(a: Seq<char>, b: Seq<char>)
    ensures
        encode_utf8(a + b) == encode_utf8(a) + encode_utf8(b),
    decreases a.len(),
{
    if a.len() == 0 {
        assert(a + b =~= b);
    } else {
        assert((a + b).drop_first() =~= a.drop_first() + b);
        lemma_encode_utf8_add(a.drop_first(), b);
        assert(encode_utf8(a + b) =~= encode_utf8(a) + encode_utf8(b));
    }
}

/// Returns the UTF-8 encoded bytes of a string.
pub fn text_bytes(s: &String) -> (res: Vec<u8>)
    ensures
        res@ == encode_utf8(s@),
{
    let bytes = s.as_str().as_bytes();
    let mut res: Vec<u8> = Vec::new();
    let mut i: usize = 0;
    while i < bytes.len()
        invariant
            i <= bytes@.len(),
            bytes@ == encode_utf8(s@),
            res@ == bytes@.subrange(0, i as int),
        decreases bytes@.len() - i,
    {
        res.push(bytes[i]);
        i = i + 1;
        proof {
            assert(res@ =~= bytes@.subrange(0, i as int));
        }
    }
    proof {
        assert(bytes@.subrange(0, i as int) =~= bytes@);
    }
    res
}

} // verus!
