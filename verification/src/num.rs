//! Decimal numerals: rendering an unsigned counter or message id as the
//! digit string that the room file and the store use, and reading one back.
use vstd::prelude::*;

verus! {

/// The character for one decimal digit value.
pub open spec fn digit_char(d: int) -> char {
    if d == 0 {
        '0'
    } else if d == 1 {
        '1'
    } else if d == 2 {
        '2'
    } else if d == 3 {
        '3'
    } else if d == 4 {
        '4'
    } else if d == 5 {
        '5'
    } else if d == 6 {
        '6'
    } else if d == 7 {
        '7'
    } else if d == 8 {
        '8'
    } else {
        '9'
    }
}

/// The decimal numeral of `n`, most significant digit first, no sign and
/// no leading zero (except for the numeral `0` itself).
pub open spec fn dec_str(n: nat) -> Seq<char>
    decreases n,
{
    if n < 10 {
        seq![digit_char(n as int)]
    } else {
        dec_str(n / 10).push(digit_char((n % 10) as int))
    }
}

/// Whether `c` is an ASCII decimal digit.
pub open spec fn is_digit(c: char) -> bool {
    '0' <= c && c <= '9'
}

/// The numeric value of one digit character.
pub open spec fn digit_val(c: char) -> int {
    c as int - '0' as int
}

/// Whether every character of `s` is a decimal digit.
pub open spec fn all_digits(s: Seq<char>) -> bool {
    forall|i: int| 0 <= i < s.len() ==> is_digit(#[trigger] s[i])
}

/// The value of a digit string, read most significant digit first.
pub open spec fn digits_val(s: Seq<char>) -> nat
    decreases s.len(),
{
    if s.len() == 0 {
        0
    } else {
        (digits_val(s.drop_last()) * 10 + digit_val(s.last())) as nat
    }
}

/// The digit part of a numeral: everything after an optional leading `+`,
/// which the integer parser of the original file format accepts.
pub open spec fn numeral_digits(s: Seq<char>) -> Seq<char> {
    if s.len() > 0 && s[0] == '+' {
        s.drop_first()
    } else {
        s
    }
}

/// Whether `s` is a numeral that denotes a value fitting in `u64`:
/// an optional `+`, then at least one digit, with value at most `u64::MAX`.
pub open spec fn is_u64_numeral(s: Seq<char>) -> bool {
    &&& numeral_digits(s).len() > 0
    &&& all_digits(numeral_digits(s))
    &&& digits_val(numeral_digits(s)) <= u64::MAX
}

/// The value a `u64` numeral denotes.
pub open spec fn numeral_val(s: Seq<char>) -> nat {
    digits_val(numeral_digits(s))
}

fn digit_char_exec(d: u64) -> (r: char)
    requires
        d < 10,
    ensures
        r == digit_char(d as int),
{
    if d == 0 {
        '0'
    } else if d == 1 {
        '1'
    } else if d == 2 {
        '2'
    } else if d == 3 {
        '3'
    } else if d == 4 {
        '4'
    } else if d == 5 {
        '5'
    } else if d == 6 {
        '6'
    } else if d == 7 {
        '7'
    } else if d == 8 {
        '8'
    } else {
        '9'
    }
}

/// Render `n` as its decimal numeral.
pub fn u64_to_dec(n: u64) -> (r: Vec<char>)
    ensures
        r@ == dec_str(n as nat),
    decreases n,
{
    if n < 10 {
        let mut r: Vec<char> = Vec::new();
        r.push(digit_char_exec(n));
        assert(r@ =~= dec_str(n as nat));
        r
    } else {
        let mut r = u64_to_dec(n / 10);
        r.push(digit_char_exec(n % 10));
        assert(r@ =~= dec_str(n as nat));
        r
    }
}

fn digit_of(c: char) -> (r: Option<u64>)
    ensures
        r is Some <==> is_digit(c),
        r is Some ==> r.unwrap() == digit_val(c) && r.unwrap() < 10,
{
    if '0' <= c && c <= '9' {
        Some((c as u32 as u64) - ('0' as u32 as u64))
    } else {
        None
    }
}

/// The value of an all-digit string is at least the value of any prefix.
proof fn lemma_digits_val_monotone(s: Seq<char>, i: int)
    requires
        0 <= i <= s.len(),
        all_digits(s),
    ensures
        digits_val(s) >= digits_val(s.take(i)),
    decreases s.len(),
{
    if i == s.len() {
        assert(s.take(i) =~= s);
    } else {
        assert(all_digits(s.drop_last())) by {
            assert(forall|j: int|
                0 <= j < s.len() - 1 ==> s.drop_last()[j] == s[j]);
        }
        lemma_digits_val_monotone(s.drop_last(), i);
        assert(s.drop_last().take(i) =~= s.take(i));
        assert(is_digit(s.last()));
        assert(digits_val(s.drop_last()) * 10 >= digits_val(s.drop_last()))
            by (nonlinear_arith);
    }
}

/// Parse a `u64` numeral: an optional `+`, then one or more digits.
/// Returns the denoted value exactly when `s` is such a numeral and the
/// value fits in `u64`.
pub fn parse_u64(s: &Vec<char>) -> (r: Option<u64>)
    ensures
        r is Some <==> is_u64_numeral(s@),
        r is Some ==> r.unwrap() == numeral_val(s@),
{
    let ghost digits = numeral_digits(s@);
    let start: usize = if s.len() > 0 && s[0] == '+' {
        1
    } else {
        0
    };
    assert(digits =~= s@.skip(start as int));
    if s.len() == start {
        return None;
    }
    let mut acc: u64 = 0;
    let mut i: usize = start;
    while i < s.len()
        invariant
            start <= i <= s.len(),
            digits == numeral_digits(s@),
            digits =~= s@.skip(start as int),
            digits.len() == s@.len() - start,
            all_digits(digits.take(i - start)),
            acc == digits_val(digits.take(i - start)),
        decreases s.len() - i,
    {
        assert(digits[i - start] == s@[i as int]);
        let d = match digit_of(s[i]) {
            Some(d) => d,
            None => {
                assert(!is_digit(digits[i - start]));
                assert(!all_digits(digits));
                return None;
            },
        };
        let shifted = match acc.checked_mul(10) {
            Some(v) => v,
            None => {
                proof {
                    let pos = i - start;
                    assert(digits.take(pos + 1).drop_last() =~= digits.take(pos));
                    assert(digits.take(pos + 1).last() == digits[pos]);
                    assert(digits_val(digits.take(pos + 1)) > u64::MAX);
                    if all_digits(digits) {
                        lemma_digits_val_monotone(digits, pos + 1);
                    }
                }
                return None;
            },
        };
        let next = match shifted.checked_add(d) {
            Some(v) => v,
            None => {
                proof {
                    let pos = i - start;
                    assert(digits.take(pos + 1).drop_last() =~= digits.take(pos));
                    assert(digits.take(pos + 1).last() == digits[pos]);
                    assert(digits_val(digits.take(pos + 1)) > u64::MAX);
                    if all_digits(digits) {
                        lemma_digits_val_monotone(digits, pos + 1);
                    }
                }
                return None;
            },
        };
        proof {
            assert(digits.take(i - start + 1).drop_last() =~= digits.take(i - start));
            assert(digits.take(i - start + 1).last() == digits[i - start]);
        }
        acc = next;
        i = i + 1;
    }
    assert(digits.take(s.len() - start) =~= digits);
    Some(acc)
}

/// Reading the rendered numeral of `n` gives back `n`: `dec_str` has no
/// sign and no leading zeros, and its value is `n`.
pub proof fn lemma_dec_str_val(n: nat)
    ensures
        dec_str(n).len() > 0,
        all_digits(dec_str(n)),
        dec_str(n)[0] != '+',
        digits_val(dec_str(n)) == n,
        n <= u64::MAX ==> is_u64_numeral(dec_str(n)) && numeral_val(dec_str(n)) == n,
    decreases n,
{
    if n < 10 {
        assert(dec_str(n) =~= seq![digit_char(n as int)]);
        assert(is_digit(digit_char(n as int)));
        assert(digit_val(digit_char(n as int)) == n);
        assert(dec_str(n).drop_last() =~= Seq::<char>::empty());
        assert(digits_val(dec_str(n).drop_last()) == 0);
        assert(digits_val(dec_str(n)) == n);
        assert(numeral_digits(dec_str(n)) == dec_str(n));
    } else {
        lemma_dec_str_val(n / 10);
        assert(dec_str(n).drop_last() =~= dec_str(n / 10));
        assert(dec_str(n).last() == digit_char((n % 10) as int));
        assert(is_digit(digit_char((n % 10) as int)));
        assert(digit_val(digit_char((n % 10) as int)) == n % 10);
        assert(digits_val(dec_str(n))
            == digits_val(dec_str(n / 10)) * 10 + (n % 10));
        assert(n / 10 * 10 + n % 10 == n) by {
            vstd::arithmetic::div_mod::lemma_fundamental_div_mod(n as int, 10);
        }
        assert(forall|i: int|
            0 <= i < dec_str(n).len() - 1
                ==> #[trigger] dec_str(n)[i] == dec_str(n / 10)[i]);
        assert(forall|i: int|
            0 <= i < dec_str(n).len() ==> is_digit(#[trigger] dec_str(n)[i]));
        assert(dec_str(n)[0] == dec_str(n / 10)[0]);
        assert(numeral_digits(dec_str(n)) == dec_str(n));
    }
}

} // verus!
