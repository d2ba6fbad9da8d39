//! Decimal rendering and parsing of the integers that appear in journal
//! lines, with the round-trip lemmas the line codec is built on.
use vstd::prelude::*;

verus! {

/// Powers of ten.
pub open spec fn pow10(k: nat) -> nat
    decreases k,
{
    if k == 0 {
        1
    } else {
        10 * pow10((k - 1) as nat)
    }
}

/// Is `c` a decimal digit?
pub open spec fn is_digit(c: char) -> bool {
    48 <= c as u32 <= 57
}

/// The value of a digit character.
pub open spec fn digit_val(c: char) -> nat {
    (c as u32 - 48) as nat
}

/// The digit character for a value below ten.
pub open spec fn char_of_digit(d: nat) -> char {
    if d == 0 { '0' }
    else if d == 1 { '1' }
    else if d == 2 { '2' }
    else if d == 3 { '3' }
    else if d == 4 { '4' }
    else if d == 5 { '5' }
    else if d == 6 { '6' }
    else if d == 7 { '7' }
    else if d == 8 { '8' }
    else { '9' }
}

/// The decimal rendering of `n`: most significant digit first, no leading
/// zero except for `n == 0` itself.
pub open spec fn dec_digits(n: nat) -> Seq<char>
    decreases n,
{
    if n < 10 {
        seq![char_of_digit(n)]
    } else {
        dec_digits(n / 10).push(char_of_digit(n % 10))
    }
}

/// The decimal rendering of a signed value: a minus sign before the
/// magnitude when the value is negative.
pub open spec fn dec_signed(n: int) -> Seq<char> {
    if n < 0 {
        seq!['-'] + dec_digits((-n) as nat)
    } else {
        dec_digits(n as nat)
    }
}

/// The number a digit string denotes, most significant digit first.
pub open spec fn parse_dec(s: Seq<char>) -> nat
    decreases s.len(),
{
    if s.len() == 0 {
        0
    } else {
        parse_dec(s.drop_last()) * 10 + digit_val(s.last())
    }
}

/// A digit string is accepted only when it is non-empty, at most 19 digits
/// long (so its value fits in a machine word), and made of digits alone.
pub open spec fn parse_dec_checked(s: Seq<char>) -> Option<nat> {
    if 1 <= s.len() <= 19 && (forall|i: int| 0 <= i < s.len() ==> is_digit(#[trigger] s[i])) {
        Some(parse_dec(s))
    } else {
        None
    }
}

/// A signed payload: an optional leading minus sign before the digits.
pub open spec fn parse_signed(s: Seq<char>) -> Option<int> {
    if s.len() >= 1 && s[0] == '-' {
        match parse_dec_checked(s.subrange(1, s.len() as int)) {
            Some(v) => if v <= 0x8000000000000000 { Some(-(v as int)) } else { None },
            None => None,
        }
    } else {
        match parse_dec_checked(s) {
            Some(v) => if v <= i64::MAX { Some(v as int) } else { None },
            None => None,
        }
    }
}

/// Every character of a decimal rendering is a digit.
pub proof fn lemma_dec_digits_are_digits(n: nat)
    ensures
        dec_digits(n).len() >= 1,
        forall|i: int| 0 <= i < dec_digits(n).len() ==> is_digit(#[trigger] dec_digits(n)[i]),
    decreases n,
{
    if n >= 10 {
        lemma_dec_digits_are_digits(n / 10);
    }
}

/// A value below `pow10(k)` renders to at most `k` digits.
pub proof fn lemma_dec_digits_len(n: nat, k: nat)
    requires
        k >= 1,
        n < pow10(k),
    ensures
        dec_digits(n).len() <= k,
    decreases k,
{
    if n >= 10 {
        assert(pow10(k) == 10 * pow10((k - 1) as nat));
        lemma_dec_digits_len(n / 10, (k - 1) as nat);
    }
}

/// Parsing bounds: a string of digits denotes a value below
/// `pow10` of its length.
pub proof fn lemma_parse_dec_bound(s: Seq<char>)
    requires
        forall|i: int| 0 <= i < s.len() ==> is_digit(#[trigger] s[i]),
    ensures
        parse_dec(s) < pow10(s.len()),
    decreases s.len(),
{
    if s.len() > 0 {
        lemma_parse_dec_bound(s.drop_last());
        assert(digit_val(s.last()) <= 9);
        assert(pow10(s.len()) == 10 * pow10((s.len() - 1) as nat));
    }
}

/// The round trip: parsing the decimal rendering of `n` gives `n` back.
pub proof fn lemma_parse_of_dec(n: nat)
    ensures
        parse_dec(dec_digits(n)) == n,
    decreases n,
{
    assert(digit_val(char_of_digit(n % 10)) == n % 10);
    if n < 10 {
        assert(dec_digits(n) =~= seq![char_of_digit(n)]);
        assert(dec_digits(n).drop_last() =~= Seq::<char>::empty());
        assert(parse_dec(Seq::<char>::empty()) == 0);
        assert(dec_digits(n).last() == char_of_digit(n));
        assert(digit_val(char_of_digit(n)) == n);
    } else {
        lemma_parse_of_dec(n / 10);
        assert(dec_digits(n).drop_last() =~= dec_digits(n / 10));
        assert(dec_digits(n).last() == char_of_digit(n % 10));
        assert(n == (n / 10) * 10 + n % 10);
    }
}

/// The checked round trip, for values that fit in 19 digits.
pub proof fn lemma_parse_checked_of_dec(n: nat)
    requires
        n < pow10(19),
    ensures
        parse_dec_checked(dec_digits(n)) == Some(n),
{
    lemma_dec_digits_are_digits(n);
    lemma_dec_digits_len(n, 19);
    lemma_parse_of_dec(n);
}

/// The signed round trip, for values in the signed machine-word range.
pub proof fn lemma_parse_signed_of_dec(n: int)
    requires
        i64::MIN <= n <= i64::MAX,
    ensures
        parse_signed(dec_signed(n)) == Some(n),
{
    assert(pow10(19) == 10_000_000_000_000_000_000) by {
        reveal_with_fuel(pow10, 20);
    }
    if n < 0 {
        let m = (-n) as nat;
        lemma_parse_checked_of_dec(m);
        lemma_dec_digits_are_digits(m);
        assert(dec_signed(n)[0] == '-');
        assert(dec_signed(n).subrange(1, dec_signed(n).len() as int) =~= dec_digits(m));
    } else {
        lemma_parse_checked_of_dec(n as nat);
        lemma_dec_digits_are_digits(n as nat);
        assert(dec_signed(n) == dec_digits(n as nat));
        assert(!(dec_signed(n)[0] == '-'));
    }
}

/// Appends one decimal digit character to `out`.
fn push_digit(out: &mut String, d: u64)
    requires
        d < 10,
    ensures
        final(out)@ == old(out)@ + seq![char_of_digit(d as nat)],
{
    let piece: &str = if d == 0 { "0" }
        else if d == 1 { "1" }
        else if d == 2 { "2" }
        else if d == 3 { "3" }
        else if d == 4 { "4" }
        else if d == 5 { "5" }
        else if d == 6 { "6" }
        else if d == 7 { "7" }
        else if d == 8 { "8" }
        else { "9" };
    proof {
        reveal_strlit("0");
        reveal_strlit("1");
        reveal_strlit("2");
        reveal_strlit("3");
        reveal_strlit("4");
        reveal_strlit("5");
        reveal_strlit("6");
        reveal_strlit("7");
        reveal_strlit("8");
        reveal_strlit("9");
        assert(piece@ =~= seq![char_of_digit(d as nat)]);
    }
    out.append(piece);
}

/// Appends the decimal rendering of `n` to `out`.
pub fn push_dec(out: &mut String, n: u64)
    ensures
        final(out)@ == old(out)@ + dec_digits(n as nat),
    decreases n,
{
    if n >= 10 {
        push_dec(out, n / 10);
    }
    push_digit(out, n % 10);
    proof {
        if n < 10 {
            assert(out@ =~= old(out)@ + dec_digits(n as nat));
        } else {
            assert(out@ =~= old(out)@ + dec_digits(n as nat));
        }
    }
}

/// Appends the signed decimal rendering of `n` to `out`.
pub fn push_dec_signed(out: &mut String, n: i64)
    ensures
        final(out)@ == old(out)@ + dec_signed(n as int),
{
    if n < 0 {
        let m: u64 = if n == i64::MIN {
            0x8000000000000000u64
        } else {
            (-n) as u64
        };
        proof {
            reveal_strlit("-");
            assert("-"@ =~= seq!['-']);
        }
        out.append("-");
        let ghost mid = out@;
        push_dec(out, m);
        proof {
            assert(out@ =~= old(out)@ + dec_signed(n as int));
        }
    } else {
        push_dec(out, n as u64);
    }
}

/// Parses a payload as an unsigned decimal number: the exact executable
/// counterpart of `parse_dec_checked`.
pub fn parse_u64_payload(s: &str) -> (r: Option<u64>)
    ensures
        match parse_dec_checked(s@) {
            Some(v) => r.is_some() && r.unwrap() as nat == v,
            None => r is None,
        },
{
    let n = s.unicode_len();
    if n < 1 || n > 19 {
        return None;
    }
    let mut acc: u64 = 0;
    let mut i: usize = 0;
    while i < n
        invariant
            0 <= i <= n <= 19,
            n == s@.len(),
            forall|k: int| 0 <= k < i ==> is_digit(#[trigger] s@[k]),
            acc == parse_dec(s@.subrange(0, i as int)),
            acc < pow10(i as nat),
        decreases n - i,
    {
        let c = s.get_char(i);
        let cv = c as u32;
        if cv < 48 || cv > 57 {
            return None;
        }
        let d: u64 = (cv - 48) as u64;
        proof {
            assert(pow10(19) == 10_000_000_000_000_000_000) by {
                reveal_with_fuel(pow10, 20);
            }
            assert(pow10(18) == 1_000_000_000_000_000_000) by {
                reveal_with_fuel(pow10, 19);
            }
            lemma_pow10_monotone(i as nat, 18);
            assert(acc < pow10(18));
        }
        acc = acc * 10 + d;
        proof {
            let pre = s@.subrange(0, i + 1);
            assert(pre.drop_last() =~= s@.subrange(0, i as int));
            assert(pre.last() == s@[i as int]);
            assert(pow10((i + 1) as nat) == 10 * pow10(i as nat));
        }
        i = i + 1;
    }
    proof {
        assert(s@.subrange(0, n as int) =~= s@);
    }
    Some(acc)
}

/// Parses a payload as a signed decimal number: the exact executable
/// counterpart of `parse_signed`.
pub fn parse_i64_payload(s: &str) -> (r: Option<i64>)
    ensures
        match parse_signed(s@) {
            Some(v) => r == Some(v as i64) && v == r.unwrap() as int,
            None => r is None,
        },
{
    let n = s.unicode_len();
    if n >= 1 && s.get_char(0) == '-' {
        let digits = s.substring_char(1, n);
        match parse_u64_payload(digits) {
            Some(v) => {
                if v <= 0x8000000000000000u64 {
                    proof {
                        assert(pow10(19) == 10_000_000_000_000_000_000) by {
                            reveal_with_fuel(pow10, 20);
                        }
                        if parse_dec_checked(digits@) is Some {
                            lemma_parse_dec_bound(digits@);
                            lemma_pow10_monotone(digits@.len(), 19);
                        }
                    }
                    let r: i64 = if v == 0x8000000000000000u64 {
                        i64::MIN
                    } else {
                        -(v as i64)
                    };
                    Some(r)
                } else {
                    None
                }
            },
            None => None,
        }
    } else {
        match parse_u64_payload(s) {
            Some(v) => {
                proof {
                    assert(pow10(19) == 10_000_000_000_000_000_000) by {
                        reveal_with_fuel(pow10, 20);
                    }
                    if parse_dec_checked(s@) is Some {
                        lemma_parse_dec_bound(s@);
                        lemma_pow10_monotone(s@.len(), 19);
                    }
                }
                if v <= i64::MAX as u64 {
                    Some(v as i64)
                } else {
                    None
                }
            },
            None => None,
        }
    }
}

/// Larger exponents give larger powers of ten.
pub proof fn lemma_pow10_monotone(a: nat, b: nat)
    requires
        a <= b,
    ensures
        pow10(a) <= pow10(b),
    decreases b,
{
    if a < b {
        lemma_pow10_monotone(a, (b - 1) as nat);
        assert(pow10(b) == 10 * pow10((b - 1) as nat));
    }
}

} // verus!
