//! Decimal and hexadecimal digit sequences.
//!
//! Canonical path strings print bus and port numbers in decimal, and device
//! labels print vendor/product identifiers in hexadecimal.  This module
//! defines those digit sequences as specification functions and provides
//! verified builders for them.

use vstd::prelude::*;
use vstd::string::StringExecFns;

verus! {

/// Whether `c` is a decimal digit character.
pub open spec fn is_digit_char(c: char) -> bool {
    '0' <= c && c <= '9'
}

/// Numeric value of a decimal digit character.
pub open spec fn digit_val(c: char) -> nat
    recommends
        is_digit_char(c),
{
    (c as int - '0' as int) as nat
}

/// The digit character for a value below ten.
pub open spec fn digit_char(d: nat) -> char
    recommends
        d < 10,
{
    if d == 0 {
        '0'
    } else if d == 1 {
        '1'
    } else if d == 2 {
        '2'
    } else if d == 3 {
        '3'
    } else if d == 4 {
        '4'
    } else if d == 5 {
        '5'
    } else if d == 6 {
        '6'
    } else if d == 7 {
        '7'
    } else if d == 8 {
        '8'
    } else {
        '9'
    }
}

pub proof fn lemma_digit_char_val(d: nat)
    requires
        d < 10,
    ensures
        is_digit_char(digit_char(d)),
        digit_val(digit_char(d)) == d,
        d != 0 ==> digit_char(d) != '0',
{
}

pub proof fn lemma_digit_char_of_val(c: char)
    requires
        is_digit_char(c),
    ensures
        digit_val(c) < 10,
        digit_char(digit_val(c)) == c,
{
}

/// The decimal digit string of `n`, most significant digit first,
/// without leading zeros (`0` itself is the single digit `0`).
pub open spec fn dec_digits(n: nat) -> Seq<char>
    decreases n,
{
    if n < 10 {
        seq![digit_char(n)]
    } else {
        dec_digits(n / 10).push(digit_char(n % 10))
    }
}

/// The numeric value of a digit string (most significant digit first).
pub open spec fn dec_value(s: Seq<char>) -> nat
    decreases s.len(),
{
    if s.len() == 0 {
        0
    } else {
        dec_value(s.drop_last()) * 10 + digit_val(s.last())
    }
}

/// A non-empty, all-digit character sequence.
pub open spec fn all_digits(s: Seq<char>) -> bool {
    forall|i: int| 0 <= i < s.len() ==> is_digit_char(#[trigger] s[i])
}

pub proof fn lemma_dec_digits_wf(n: nat)
    ensures
        dec_digits(n).len() >= 1,
        all_digits(dec_digits(n)),
        n > 0 ==> dec_digits(n)[0] != '0',
        n < 10 ==> dec_digits(n).len() == 1,
        n < 100 ==> dec_digits(n).len() <= 2,
        n < 1000 ==> dec_digits(n).len() <= 3,
    decreases n,
{
    if n < 10 {
        lemma_digit_char_val(n);
    } else {
        lemma_dec_digits_wf(n / 10);
        lemma_digit_char_val(n % 10);
        let pre = dec_digits(n / 10);
        assert(dec_digits(n) == pre.push(digit_char(n % 10)));
        assert forall|i: int| 0 <= i < dec_digits(n).len() implies is_digit_char(
            #[trigger] dec_digits(n)[i],
        ) by {
            if i < pre.len() {
                assert(dec_digits(n)[i] == pre[i]);
            }
        }
    }
}

pub proof fn lemma_dec_value_of_digits(n: nat)
    ensures
        dec_value(dec_digits(n)) == n,
    decreases n,
{
    if n < 10 {
        lemma_digit_char_val(n);
        let s = dec_digits(n);
        assert(s.drop_last() =~= Seq::<char>::empty());
        assert(dec_value(Seq::<char>::empty()) == 0);
        assert(dec_value(s) == dec_value(s.drop_last()) * 10 + digit_val(s.last()));
    } else {
        lemma_dec_value_of_digits(n / 10);
        lemma_digit_char_val(n % 10);
        let pre = dec_digits(n / 10);
        let d = digit_char(n % 10);
        assert(pre.push(d).drop_last() =~= pre);
        assert(pre.push(d).last() == d);
        assert(dec_value(pre.push(d)) == dec_value(pre) * 10 + digit_val(d));
    }
}

/// A digit string with no leading zero denotes its value canonically.
pub proof fn lemma_digits_of_dec_value(s: Seq<char>)
    requires
        s.len() >= 1,
        all_digits(s),
        s.len() > 1 ==> s[0] != '0',
    ensures
        dec_digits(dec_value(s)) == s,
        s.len() > 1 ==> dec_value(s) >= 10,
    decreases s.len(),
{
    let front = s.drop_last();
    let d = digit_val(s.last());
    lemma_digit_char_of_val(s.last());
    if s.len() == 1 {
        assert(s.drop_last() =~= Seq::<char>::empty());
        assert(dec_value(Seq::<char>::empty()) == 0);
        assert(dec_value(s) == dec_value(s.drop_last()) * 10 + digit_val(s.last()));
        assert(dec_value(s) == d);
        assert(dec_digits(d) =~= seq![digit_char(d)]);
        assert(seq![s.last()] =~= s);
    } else {
        assert(front[0] == s[0]);
        assert(all_digits(front)) by {
            assert(forall|i: int|
                0 <= i < front.len() ==> front[i] == #[trigger] s[i] && is_digit_char(s[i]));
        }
        lemma_digits_of_dec_value(front);
        let v = dec_value(s);
        assert(dec_value(front) >= 1) by {
            if dec_value(front) == 0 {
                assert(dec_digits(0) =~= seq!['0']);
                assert(front == seq!['0']);
                assert(s[0] == '0');
            }
        }
        assert(v == dec_value(front) * 10 + d);
        assert(v >= 10);
        assert(v / 10 == dec_value(front) && v % 10 == d) by (nonlinear_arith)
            requires
                v == dec_value(front) * 10 + d,
                d < 10,
        ;
        assert(dec_digits(v) == dec_digits(dec_value(front)).push(digit_char(d)));
        assert(front.push(s.last()) =~= s);
    }
}

/// Values with distinct decimal digit strings are distinct (and conversely).
pub proof fn lemma_dec_digits_injective(a: nat, b: nat)
    ensures
        (dec_digits(a) == dec_digits(b)) == (a == b),
{
    lemma_dec_value_of_digits(a);
    lemma_dec_value_of_digits(b);
}

pub proof fn lemma_dec_value_push(s: Seq<char>, c: char)
    ensures
        dec_value(s.push(c)) == dec_value(s) * 10 + digit_val(c),
{
    assert(s.push(c).drop_last() =~= s);
    assert(s.push(c).last() == c);
}

/// Extending a digit string never lowers its value.
pub proof fn lemma_dec_value_take_mono(s: Seq<char>, m: int)
    requires
        0 <= m <= s.len(),
    ensures
        dec_value(s.take(m)) <= dec_value(s),
    decreases s.len() - m,
{
    if m < s.len() {
        assert(s.take(m + 1) =~= s.take(m).push(s[m]));
        lemma_dec_value_push(s.take(m), s[m]);
        lemma_dec_value_take_mono(s, m + 1);
    } else {
        assert(s.take(m) =~= s);
    }
}

/// The sign handling of unsigned decimal parsing: at most one leading `+`.
pub open spec fn strip_plus(s: Seq<char>) -> Seq<char> {
    if s.len() > 0 && s[0] == '+' {
        s.drop_first()
    } else {
        s
    }
}

/// What `u8::from_str` accepts: an optional leading `+`, then one or more
/// decimal digits whose value fits in eight bits (leading zeros allowed).
pub open spec fn spec_parse_u8(s: Seq<char>) -> Option<u8> {
    let d = strip_plus(s);
    if d.len() > 0 && all_digits(d) && dec_value(d) < 256 {
        Option::Some(dec_value(d) as u8)
    } else {
        Option::None
    }
}

/// The canonical digit string of an 8-bit value parses back to it.
pub proof fn lemma_parse_u8_of_digits(p: u8)
    ensures
        spec_parse_u8(dec_digits(p as nat)) == Option::Some(p),
{
    lemma_dec_digits_wf(p as nat);
    lemma_dec_value_of_digits(p as nat);
    assert(strip_plus(dec_digits(p as nat)) == dec_digits(p as nat));
}

/// Parse the character range `[from, to)` of `s` as an unsigned 8-bit
/// decimal, exactly as `u8::from_str` would.
#[verifier::loop_isolation(false)]
pub fn parse_u8_range(s: &str, from: usize, to: usize) -> (r: Option<u8>)
    requires
        from <= to <= s@.len(),
    ensures
        r == spec_parse_u8(s@.subrange(from as int, to as int)),
{
    let ghost sub = s@.subrange(from as int, to as int);
    if from == to {
        return Option::None;
    }
    let first = s.get_char(from);
    let start: usize = if first == '+' {
        from + 1
    } else {
        from
    };
    let ghost d = strip_plus(sub);
    proof {
        assert(d =~= s@.subrange(start as int, to as int));
    }
    if start == to {
        return Option::None;
    }
    let mut k = start;
    let mut acc: u32 = 0;
    while k < to
        invariant
            start <= k <= to <= s@.len(),
            d == s@.subrange(start as int, to as int),
            forall|j: int| 0 <= j < k - start ==> is_digit_char(#[trigger] d[j]),
            acc == dec_value(d.take(k - start)),
            acc <= 255,
        decreases to - k,
    {
        let c = s.get_char(k);
        proof {
            assert(d[k - start] == s@[k as int]);
        }
        let cv = c as u32;
        if cv < 48 || cv > 57 {
            proof {
                assert(!is_digit_char(d[k - start]));
            }
            return Option::None;
        }
        proof {
            assert(is_digit_char(d[k - start]));
            assert(digit_val(d[k - start]) == cv - 48);
            assert(d.take(k - start + 1) =~= d.take(k - start).push(d[k - start]));
            lemma_dec_value_push(d.take(k - start), d[k - start]);
        }
        acc = acc * 10 + (cv - 48);
        if acc > 255 {
            proof {
                lemma_dec_value_take_mono(d, k + 1 - start);
            }
            return Option::None;
        }
        k += 1;
    }
    proof {
        assert(d.take((to - start) as int) =~= d);
    }
    Option::Some(acc as u8)
}

/// Parse the character range `[from, to)` of `s` as a canonical decimal
/// bus number: digits only, no sign, no leading zero.  Exactly the
/// strings that [`dec_digits`] produces are accepted.
pub fn parse_canonical_u8(s: &str, from: usize, to: usize) -> (r: Option<u8>)
    requires
        from <= to <= s@.len(),
    ensures
        match r {
            Option::Some(b) => s@.subrange(from as int, to as int) == dec_digits(b as nat),
            Option::None => forall|b: u8|
                s@.subrange(from as int, to as int) != #[trigger] dec_digits(b as nat),
        },
{
    let ghost sub = s@.subrange(from as int, to as int);
    if from == to {
        proof {
            assert forall|b: u8| sub != #[trigger] dec_digits(b as nat) by {
                lemma_dec_digits_wf(b as nat);
            }
        }
        return Option::None;
    }
    let c0 = s.get_char(from);
    let c0v = c0 as u32;
    if c0v < 48 || c0v > 57 {
        proof {
            assert(sub[0] == c0);
            assert(!is_digit_char(c0));
            assert forall|b: u8| sub != #[trigger] dec_digits(b as nat) by {
                lemma_dec_digits_wf(b as nat);
                assert(is_digit_char(dec_digits(b as nat)[0]));
            }
        }
        return Option::None;
    }
    if to - from > 1 && c0v == 48 {
        proof {
            assert(sub[0] == '0');
            assert forall|b: u8| sub != #[trigger] dec_digits(b as nat) by {
                lemma_dec_digits_wf(b as nat);
                if dec_digits(b as nat).len() > 1 {
                    assert(dec_digits(b as nat)[0] != '0');
                }
            }
        }
        return Option::None;
    }
    match parse_u8_range(s, from, to) {
        Option::None => {
            proof {
                assert forall|b: u8| sub != #[trigger] dec_digits(b as nat) by {
                    if sub == dec_digits(b as nat) {
                        lemma_parse_u8_of_digits(b);
                    }
                }
            }
            Option::None
        },
        Option::Some(b) => {
            proof {
                assert(sub[0] == c0 && is_digit_char(c0));
                assert(strip_plus(sub) == sub);
                assert(sub.len() > 0 && all_digits(sub) && dec_value(sub) < 256);
                assert(dec_value(sub) == b as nat);
                lemma_digits_of_dec_value(sub);
                assert(dec_digits(b as nat) == sub);
            }
            Option::Some(b)
        },
    }
}

fn digit_str(d: u8) -> (r: &'static str)
    requires
        d < 10,
    ensures
        r@ =~= seq![digit_char(d as nat)],
        r.is_ascii(),
{
    proof {
        reveal_strlit("0");
        reveal_strlit("1");
        reveal_strlit("2");
        reveal_strlit("3");
        reveal_strlit("4");
        reveal_strlit("5");
        reveal_strlit("6");
        reveal_strlit("7");
        reveal_strlit("8");
        reveal_strlit("9");
    }
    match d {
        0 => "0",
        1 => "1",
        2 => "2",
        3 => "3",
        4 => "4",
        5 => "5",
        6 => "6",
        7 => "7",
        8 => "8",
        _ => "9",
    }
}

/// Append the decimal digit string of `n` to `s`.
pub fn push_u8_decimal(s: &mut String, n: u8)
    ensures
        final(s)@ == old(s)@ + dec_digits(n as nat),
    decreases n,
{
    if n >= 10 {
        push_u8_decimal(s, n / 10);
    }
    s.append(digit_str(n % 10));
    proof {
        if n >= 10 {
            assert((old(s)@ + dec_digits((n / 10) as nat)) + seq![digit_char((n % 10) as nat)]
                =~= old(s)@ + dec_digits(n as nat));
        } else {
            assert(old(s)@ + seq![digit_char(n as nat)] =~= old(s)@ + dec_digits(n as nat));
        }
    }
}

/// The decimal digit string of `n` as an owned string.
pub fn u8_to_decimal(n: u8) -> (r: String)
    ensures
        r@ == dec_digits(n as nat),
{
    let mut s = String::new();
    push_u8_decimal(&mut s, n);
    proof {
        assert(Seq::<char>::empty() + dec_digits(n as nat) =~= dec_digits(n as nat));
    }
    s
}

/// The decimal digit string of `n`, left-padded with zeros to three digits.
pub open spec fn dec_digits_pad3(n: nat) -> Seq<char> {
    if n < 10 {
        seq!['0', '0'] + dec_digits(n)
    } else if n < 100 {
        seq!['0'] + dec_digits(n)
    } else {
        dec_digits(n)
    }
}

/// Append the three-digit zero-padded decimal form of `n` to `s`.
pub fn push_u8_decimal_pad3(s: &mut String, n: u8)
    ensures
        final(s)@ == old(s)@ + dec_digits_pad3(n as nat),
{
    proof {
        reveal_strlit("00");
        reveal_strlit("0");
    }
    if n < 10 {
        s.append("00");
    } else if n < 100 {
        s.append("0");
    }
    push_u8_decimal(s, n);
    proof {
        if n < 10 {
            assert("00"@ =~= seq!['0', '0']);
            assert((old(s)@ + "00"@) + dec_digits(n as nat) =~= old(s)@ + dec_digits_pad3(
                n as nat,
            ));
        } else if n < 100 {
            assert("0"@ =~= seq!['0']);
            assert((old(s)@ + "0"@) + dec_digits(n as nat) =~= old(s)@ + dec_digits_pad3(n as nat));
        } else {
            assert(old(s)@ + dec_digits(n as nat) =~= old(s)@ + dec_digits_pad3(n as nat));
        }
    }
}

/// The hexadecimal digit character for a value below sixteen.
pub open spec fn hex_digit_char(d: nat) -> char
    recommends
        d < 16,
{
    if d < 10 {
        digit_char(d)
    } else if d == 10 {
        'a'
    } else if d == 11 {
        'b'
    } else if d == 12 {
        'c'
    } else if d == 13 {
        'd'
    } else if d == 14 {
        'e'
    } else {
        'f'
    }
}

/// The four-digit lowercase hexadecimal form of a sixteen-bit value.
pub open spec fn hex_digits4(n: nat) -> Seq<char>
    recommends
        n < 0x10000,
{
    seq![
        hex_digit_char(n / 0x1000 % 16),
        hex_digit_char(n / 0x100 % 16),
        hex_digit_char(n / 0x10 % 16),
        hex_digit_char(n % 16),
    ]
}

fn hex_digit_str(d: u16) -> (r: &'static str)
    requires
        d < 16,
    ensures
        r@ =~= seq![hex_digit_char(d as nat)],
{
    proof {
        reveal_strlit("a");
        reveal_strlit("b");
        reveal_strlit("c");
        reveal_strlit("d");
        reveal_strlit("e");
        reveal_strlit("f");
    }
    if d < 10 {
        digit_str(d as u8)
    } else {
        match d {
            10 => "a",
            11 => "b",
            12 => "c",
            13 => "d",
            14 => "e",
            _ => "f",
        }
    }
}

/// Append the four-digit lowercase hexadecimal form of `n` to `s`.
pub fn push_u16_hex4(s: &mut String, n: u16)
    ensures
        final(s)@ == old(s)@ + hex_digits4(n as nat),
{
    s.append(hex_digit_str(n / 0x1000 % 16));
    s.append(hex_digit_str(n / 0x100 % 16));
    s.append(hex_digit_str(n / 0x10 % 16));
    s.append(hex_digit_str(n % 16));
    proof {
        assert(s@ =~= old(s)@ + hex_digits4(n as nat));
    }
}

} // verus!
