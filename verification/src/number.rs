//! Decimal numbers as text.
use crate::text::chars_of;
use vstd::prelude::*;

verus! {

/// Whether `c` is one of the ten ASCII digits.
pub open spec fn is_digit(c: char) -> bool {
    '0' <= c <= '9'
}

/// The value of an ASCII digit.
pub open spec fn digit_value(c: char) -> nat {
    (c as int - '0' as int) as nat
}

/// The ASCII digit of value `d`.
pub open spec fn digit_char(d: nat) -> char {
    (d + '0' as int) as char
}

/// Whether `s` consists of digits alone.
pub open spec fn all_digits(s: Seq<char>) -> bool {
    forall|i: int| 0 <= i < s.len() ==> is_digit(#[trigger] s[i])
}

/// The number that a sequence of digits denotes in base ten.
pub open spec fn digits_value(s: Seq<char>) -> nat
    decreases s.len(),
{
    if s.len() == 0 {
        0
    } else {
        digits_value(s.drop_last()) * 10 + digit_value(s.last())
    }
}

/// The digits of `n` in base ten, without leading zeros.
pub open spec fn decimal(n: nat) -> Seq<char>
    decreases n,
{
    if n < 10 {
        seq![digit_char(n)]
    } else {
        decimal(n / 10).push(digit_char(n % 10))
    }
}

/// The text of an integer: an optional `-` and the digits of its absolute value.
pub open spec fn signed_decimal(n: int) -> Seq<char> {
    if n < 0 {
        seq!['-'] + decimal((-n) as nat)
    } else {
        decimal(n as nat)
    }
}

/// The number that an optional sign and at least one digit denote, when it
/// lies in `lo..=hi`.
pub open spec fn parsed_int(s: Seq<char>, lo: int, hi: int) -> Option<int> {
    let signed = s.len() > 0 && (s[0] == '-' || s[0] == '+');
    let body = if signed {
        s.skip(1)
    } else {
        s
    };
    let v = if signed && s[0] == '-' {
        -(digits_value(body) as int)
    } else {
        digits_value(body) as int
    };
    if body.len() == 0 || !all_digits(body) || v < lo || hi < v {
        None
    } else {
        Some(v)
    }
}

/// The number that an optional `+` and at least one digit denote, when it is
/// at most `hi`.
pub open spec fn parsed_nat(s: Seq<char>, hi: nat) -> Option<nat> {
    let body = if s.len() > 0 && s[0] == '+' {
        s.skip(1)
    } else {
        s
    };
    if body.len() == 0 || !all_digits(body) || hi < digits_value(body) {
        None
    } else {
        Some(digits_value(body))
    }
}

/// `decimal` writes digits only, at least one of them, and they denote the
/// number that was written.
pub proof fn lemma_decimal(n: nat)
    ensures
        decimal(n).len() > 0,
        all_digits(decimal(n)),
        digits_value(decimal(n)) == n,
    decreases n,
{
    reveal_with_fuel(digits_value, 2);
    if n < 10 {
        assert(decimal(n).drop_last() =~= Seq::<char>::empty());
    } else {
        lemma_decimal(n / 10);
        assert(decimal(n).drop_last() =~= decimal(n / 10));
    }
}

/// The text of an integer denotes that integer again.
pub proof fn law_signed_decimal_parses_back(n: int, lo: int, hi: int)
    requires
        lo <= n <= hi,
    ensures
        parsed_int(signed_decimal(n), lo, hi) == Some(n),
{
    if n < 0 {
        lemma_decimal((-n) as nat);
        assert(signed_decimal(n).skip(1) =~= decimal((-n) as nat));
    } else {
        lemma_decimal(n as nat);
        assert(is_digit(decimal(n as nat)[0]));
    }
}

/// The text of a natural number denotes that number again.
pub proof fn law_decimal_parses_back(n: nat, hi: nat)
    requires
        n <= hi,
    ensures
        parsed_nat(decimal(n), hi) == Some(n),
{
    lemma_decimal(n);
    assert(is_digit(decimal(n)[0]));
}

/// A text that denotes a number is an optional sign and digits, at least one,
/// and nothing else; the number lies in the range.
pub proof fn law_number_is_sign_and_digits(s: Seq<char>, lo: int, hi: int)
    ensures
        parsed_int(s, lo, hi) matches Some(v) ==> {
            &&& s.len() > 0
            &&& '0' <= s[s.len() - 1] <= '9'
            &&& forall|i: int|
                0 <= i < s.len() ==> ('0' <= #[trigger] s[i] <= '9' || (i == 0 && (s[0] == '-'
                    || s[0] == '+')))
            &&& lo <= v <= hi
        },
        parsed_nat(s, hi as nat) matches Some(v) ==> {
            &&& s.len() > 0
            &&& '0' <= s[s.len() - 1] <= '9'
            &&& forall|i: int|
                0 <= i < s.len() ==> ('0' <= #[trigger] s[i] <= '9' || (i == 0 && s[0] == '+'))
            &&& v <= hi as nat
        },
{
    assert forall|i: int| 0 < i < s.len() implies #[trigger] s.skip(1)[i - 1] == s[i] by {}
    if parsed_int(s, lo, hi) is Some {
        let signed = s[0] == '-' || s[0] == '+';
        let body = if signed {
            s.skip(1)
        } else {
            s
        };
        assert forall|i: int| 0 <= i < s.len() implies ('0' <= #[trigger] s[i] <= '9' || (i == 0
            && (s[0] == '-' || s[0] == '+'))) by {
            if signed && i > 0 {
                assert(is_digit(body[i - 1]));
            } else if !signed {
                assert(is_digit(body[i]));
            }
        }
        assert(is_digit(body[body.len() - 1]));
    }
    if parsed_nat(s, hi as nat) is Some {
        let signed = s[0] == '+';
        let body = if signed {
            s.skip(1)
        } else {
            s
        };
        assert forall|i: int| 0 <= i < s.len() implies ('0' <= #[trigger] s[i] <= '9' || (i == 0
            && s[0] == '+')) by {
            if signed && i > 0 {
                assert(is_digit(body[i - 1]));
            } else if !signed {
                assert(is_digit(body[i]));
            }
        }
        assert(is_digit(body[body.len() - 1]));
    }
}

/// One digit denotes its place among the ten digits.
pub proof fn law_one_digit_denotes_itself(c: char, lo: int, hi: int)
    requires
        '0' <= c <= '9',
        lo <= 0,
        9 <= hi,
    ensures
        parsed_int(seq![c], lo, hi) == Some(c as int - '0' as int),
        parsed_nat(seq![c], hi as nat) == Some((c as int - '0' as int) as nat),
{
    let s = seq![c];
    reveal_with_fuel(digits_value, 2);
    assert(s.drop_last() =~= Seq::<char>::empty());
    assert(s.len() == 1 && s[0] == c);
}

/// A digit behind digits makes ten times the number and the digit, and none
/// where that, or the number before, is out of range.
pub proof fn law_next_digit_counts_tenfold(s: Seq<char>, c: char, lo: int, hi: int)
    requires
        s.len() > 0,
        forall|i: int| 0 <= i < s.len() ==> '0' <= #[trigger] s[i] <= '9',
        '0' <= c <= '9',
        lo <= 0,
        0 <= hi,
    ensures
        parsed_int(s.push(c), lo, hi) == match parsed_int(s, lo, hi) {
            None => None,
            Some(v) => if 10 * v + (c as int - '0' as int) <= hi {
                Some(10 * v + (c as int - '0' as int))
            } else {
                None
            },
        },
        parsed_nat(s.push(c), hi as nat) == match parsed_nat(s, hi as nat) {
            None => None,
            Some(v) => if 10 * v + (c as int - '0' as int) <= hi {
                Some((10 * v + (c as int - '0' as int)) as nat)
            } else {
                None
            },
        },
{
    let t = s.push(c);
    assert(t.drop_last() =~= s);
    assert(t[0] == s[0]);
    assert('0' <= s[0] <= '9');
    assert forall|i: int| 0 <= i < s.len() implies is_digit(#[trigger] s[i]) by {}
    assert forall|i: int| 0 <= i < t.len() implies is_digit(#[trigger] t[i]) by {
        if i < s.len() {
            assert(t[i] == s[i]);
        }
    }
}

/// A `-` before digits makes the number negative, and a `+` changes nothing.
pub proof fn law_sign_before_digits(s: Seq<char>, lo: int, hi: int)
    requires
        s.len() > 0,
        forall|i: int| 0 <= i < s.len() ==> '0' <= #[trigger] s[i] <= '9',
    ensures
        parsed_int(seq!['-'] + s, -hi, -lo) == match parsed_int(s, lo, hi) {
            Some(v) => Some(-v),
            None => None,
        },
        parsed_int(seq!['+'] + s, lo, hi) == parsed_int(s, lo, hi),
        parsed_nat(seq!['+'] + s, hi as nat) == parsed_nat(s, hi as nat),
        parsed_nat(seq!['-'] + s, hi as nat) is None,
{
    let m = seq!['-'] + s;
    let p = seq!['+'] + s;
    assert(m.skip(1) =~= s);
    assert(p.skip(1) =~= s);
    assert(m[0] == '-' && p[0] == '+');
    assert('0' <= s[0] <= '9');
    assert(!is_digit(m[0]));
}

/// A number is written by digits alone, and begins with `0` only where it has
/// one digit.
pub proof fn law_decimal_is_digits(n: nat)
    ensures
        decimal(n).len() > 0,
        forall|i: int| 0 <= i < decimal(n).len() ==> '0' <= #[trigger] decimal(n)[i] <= '9',
        decimal(n)[0] == '0' ==> n == 0 && decimal(n).len() == 1,
    decreases n,
{
    if n >= 10 {
        law_decimal_is_digits(n / 10);
        let d = decimal(n / 10);
        assert forall|i: int| 0 <= i < decimal(n).len() implies '0' <= #[trigger] decimal(n)[i]
            <= '9' by {
            if i < d.len() {
                assert(decimal(n)[i] == d[i]);
            }
        }
        assert(decimal(n)[0] == d[0]);
    }
}

/// Ten times a number and a digit is written as the number with the digit
/// behind it.
pub proof fn law_decimal_grows_by_a_digit(n: nat, d: nat)
    requires
        d < 10,
    ensures
        decimal(d) == seq![('0' as int + d) as char],
        n > 0 ==> decimal(10 * n + d) == decimal(n).push(('0' as int + d) as char),
        n > 0 ==> signed_decimal((10 * n + d) as int) == signed_decimal(n as int).push(
            ('0' as int + d) as char,
        ),
        signed_decimal(d as int) == seq![('0' as int + d) as char],
        n > 0 ==> signed_decimal(-(n as int)) == seq!['-'] + signed_decimal(n as int),
{
    if n > 0 {
        assert((10 * n + d) / 10 == n);
        assert((10 * n + d) % 10 == d);
    }
}

fn digit_to_char(d: u64) -> (c: char)
    requires
        d < 10,
    ensures
        c == digit_char(d as nat),
{
    ((d as u8) + 48u8) as char
}

/// Appends the decimal text of `n` to `out`.
pub fn push_decimal(out: &mut String, n: u64)
    ensures
        final(out)@ == old(out)@ + decimal(n as nat),
    decreases n,
{
    if n >= 10 {
        push_decimal(out, n / 10);
    }
    out.push(digit_to_char(n % 10));
    proof {
        assert(out@ =~= old(out)@ + decimal(n as nat));
    }
}

/// Appends the decimal text of `n` to `out`.
pub fn push_signed(out: &mut String, n: i64)
    ensures
        final(out)@ == old(out)@ + signed_decimal(n as int),
{
    if n < 0 {
        out.push('-');
        let m: u64 = if n == i64::MIN {
            0x8000_0000_0000_0000u64
        } else {
            (-n) as u64
        };
        push_decimal(out, m);
        proof {
            assert(out@ =~= old(out)@ + signed_decimal(n as int));
        }
    } else {
        push_decimal(out, n as u64);
    }
}

/// The magnitude of the digits `from..` of `v`, when they are all digits, at
/// least one, and the magnitude is at most `hi`.
fn parse_digits(v: &Vec<char>, from: usize, hi: u64) -> (r: Option<u64>)
    requires
        from <= v.len(),
    ensures
        ({
            let body = v@.skip(from as int);
            match r {
                Some(n) => body.len() > 0 && all_digits(body) && n == digits_value(body) && n <= hi,
                None => body.len() == 0 || !all_digits(body) || digits_value(body) > hi,
            }
        }),
{
    if from == v.len() {
        return None;
    }
    let ghost body = v@.skip(from as int);
    let mut acc: u64 = 0;
    let mut over: bool = false;
    let mut i: usize = from;
    while i < v.len()
        invariant
            from <= i <= v.len(),
            body == v@.skip(from as int),
            all_digits(body.take(i - from)),
            !over ==> acc == digits_value(body.take(i - from)) && acc <= hi,
            over ==> digits_value(body.take(i - from)) > hi,
        decreases v.len() - i,
    {
        let c: char = v[i];
        assert(c == body[i - from]);
        if c < '0' || c > '9' {
            return None;
        }
        let d: u64 = ((c as u32) - 48) as u64;
        proof {
            let t = body.take(i - from + 1);
            assert(t.drop_last() =~= body.take(i - from));
            assert forall|k: int| 0 <= k < t.len() implies is_digit(#[trigger] t[k]) by {
                if k < i - from {
                    assert(t[k] == body.take(i - from)[k]);
                }
            }
        }
        if !over {
            match acc.checked_mul(10) {
                Some(m) => match m.checked_add(d) {
                    Some(a) => {
                        acc = a;
                        if a > hi {
                            over = true;
                        }
                    },
                    None => {
                        over = true;
                    },
                },
                None => {
                    over = true;
                },
            }
        }
        i += 1;
    }
    assert(body.take(i - from) =~= body);
    if over {
        None
    } else {
        Some(acc)
    }
}

/// Reads an `i64`: an optional sign and at least one digit, nothing else.
pub fn parse_i64_chars(v: &Vec<char>) -> (r: Option<i64>)
    ensures
        match r {
            Some(n) => parsed_int(v@, i64::MIN as int, i64::MAX as int) == Some(n as int),
            None => parsed_int(v@, i64::MIN as int, i64::MAX as int) is None,
        },
{
    if v.len() == 0 {
        return None;
    }
    if v[0] == '-' {
        match parse_digits(v, 1, 0x8000_0000_0000_0000u64) {
            Some(m) => {
                if m == 0x8000_0000_0000_0000u64 {
                    Some(i64::MIN)
                } else {
                    Some(-(m as i64))
                }
            },
            None => None,
        }
    } else {
        let from: usize = if v[0] == '+' {
            1
        } else {
            0
        };
        proof {
            assert(v@.skip(0) =~= v@);
        }
        match parse_digits(v, from, 0x7fff_ffff_ffff_ffffu64) {
            Some(m) => Some(m as i64),
            None => None,
        }
    }
}

/// Reads a `usize`: an optional `+` and at least one digit, nothing else.
pub fn parse_usize_chars(v: &Vec<char>) -> (r: Option<usize>)
    ensures
        match r {
            Some(n) => parsed_nat(v@, usize::MAX as nat) == Some(n as nat),
            None => parsed_nat(v@, usize::MAX as nat) is None,
        },
{
    if v.len() == 0 {
        return None;
    }
    let from: usize = if v[0] == '+' {
        1
    } else {
        0
    };
    proof {
        assert(v@.skip(0) =~= v@);
    }
    match parse_digits(v, from, usize::MAX as u64) {
        Some(m) => Some(m as usize),
        None => None,
    }
}

/// Reads an `i64` from a text.
pub fn parse_i64(s: &str) -> (r: Option<i64>)
    ensures
        match r {
            Some(n) => parsed_int(s@, i64::MIN as int, i64::MAX as int) == Some(n as int),
            None => parsed_int(s@, i64::MIN as int, i64::MAX as int) is None,
        },
{
    let v: Vec<char> = chars_of(s);
    parse_i64_chars(&v)
}

/// Reads a `usize` from a text.
pub fn parse_usize(s: &str) -> (r: Option<usize>)
    ensures
        match r {
            Some(n) => parsed_nat(s@, usize::MAX as nat) == Some(n as nat),
            None => parsed_nat(s@, usize::MAX as nat) is None,
        },
{
    let v: Vec<char> = chars_of(s);
    parse_usize_chars(&v)
}

} // verus!
