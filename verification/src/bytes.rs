//! Decimal numerals over raw bytes: the form in which the store keeps the
//! per-room "last message id" counter.
use vstd::prelude::*;

verus! {

/// Whether `b` is the ASCII code of a decimal digit.
pub open spec fn is_digit_b(b: u8) -> bool {
    48 <= b <= 57
}

/// The numeric value of one ASCII digit byte.
pub open spec fn digit_val_b(b: u8) -> int {
    b - 48
}

/// Whether every byte of `s` is an ASCII digit.
pub open spec fn all_digits_b(s: Seq<u8>) -> bool {
    forall|i: int| 0 <= i < s.len() ==> is_digit_b(#[trigger] s[i])
}

/// The value of an ASCII digit string, most significant digit first.
pub open spec fn digits_val_b(s: Seq<u8>) -> nat
    decreases s.len(),
{
    if s.len() == 0 {
        0
    } else {
        (digits_val_b(s.drop_last()) * 10 + digit_val_b(s.last())) as nat
    }
}

/// The digit part of a numeral: everything after an optional leading `+`
/// (ASCII 43), which the integer parser of the original format accepts.
pub open spec fn numeral_digits_b(s: Seq<u8>) -> Seq<u8> {
    if s.len() > 0 && s[0] == 43u8 {
        s.drop_first()
    } else {
        s
    }
}

/// Whether `s` is an ASCII numeral denoting a value fitting in `u64`.
pub open spec fn is_u64_numeral_b(s: Seq<u8>) -> bool {
    &&& numeral_digits_b(s).len() > 0
    &&& all_digits_b(numeral_digits_b(s))
    &&& digits_val_b(numeral_digits_b(s)) <= u64::MAX
}

/// The value an ASCII numeral denotes.
pub open spec fn numeral_val_b(s: Seq<u8>) -> nat {
    digits_val_b(numeral_digits_b(s))
}

/// The ASCII decimal numeral of `n`: no sign, no leading zeros.
pub open spec fn dec_bytes(n: nat) -> Seq<u8>
    decreases n,
{
    if n < 10 {
        seq![(48 + n) as u8]
    } else {
        dec_bytes(n / 10).push((48 + n % 10) as u8)
    }
}

/// Render `n` as its ASCII decimal numeral.
pub fn u64_to_dec_bytes(n: u64) -> (r: Vec<u8>)
    ensures
        r@ == dec_bytes(n as nat),
    decreases n,
{
    if n < 10 {
        let mut r: Vec<u8> = Vec::new();
        r.push(48 + (n as u8));
        assert(r@ =~= dec_bytes(n as nat));
        r
    } else {
        let mut r = u64_to_dec_bytes(n / 10);
        r.push(48 + ((n % 10) as u8));
        assert(r@ =~= dec_bytes(n as nat));
        r
    }
}

/// The value of an all-digit byte string is at least any prefix's value.
proof fn lemma_digits_val_b_monotone(s: Seq<u8>, i: int)
    requires
        0 <= i <= s.len(),
        all_digits_b(s),
    ensures
        digits_val_b(s) >= digits_val_b(s.take(i)),
    decreases s.len(),
{
    if i == s.len() {
        assert(s.take(i) =~= s);
    } else {
        assert(all_digits_b(s.drop_last())) by {
            assert(forall|j: int|
                0 <= j < s.len() - 1 ==> s.drop_last()[j] == s[j]);
        }
        lemma_digits_val_b_monotone(s.drop_last(), i);
        assert(s.drop_last().take(i) =~= s.take(i));
        assert(is_digit_b(s.last()));
        assert(digits_val_b(s.drop_last()) * 10 >= digits_val_b(s.drop_last()))
            by (nonlinear_arith);
    }
}

/// Parse an ASCII `u64` numeral: an optional `+`, then one or more digits.
pub fn parse_u64_bytes(s: &Vec<u8>) -> (r: Option<u64>)
    ensures
        r is Some <==> is_u64_numeral_b(s@),
        r is Some ==> r.unwrap() == numeral_val_b(s@),
{
    let ghost digits = numeral_digits_b(s@);
    let start: usize = if s.len() > 0 && s[0] == 43u8 {
        1
    } else {
        0
    };
    assert(digits =~= s@.skip(start as int));
    if s.len() == start {
        return None;
    }
    let mut acc: u64 = 0;
    let mut i: usize = start;
    while i < s.len()
        invariant
            start <= i <= s.len(),
            digits == numeral_digits_b(s@),
            digits =~= s@.skip(start as int),
            digits.len() == s@.len() - start,
            all_digits_b(digits.take(i - start)),
            acc == digits_val_b(digits.take(i - start)),
        decreases s.len() - i,
    {
        assert(digits[i - start] == s@[i as int]);
        let b = s[i];
        if !(48 <= b && b <= 57) {
            assert(!is_digit_b(digits[i - start]));
            assert(!all_digits_b(digits));
            return None;
        }
        let d: u64 = (b - 48) as u64;
        let shifted = match acc.checked_mul(10) {
            Some(v) => v,
            None => {
                proof {
                    let pos = i - start;
                    assert(digits.take(pos + 1).drop_last() =~= digits.take(pos));
                    assert(digits.take(pos + 1).last() == digits[pos]);
                    assert(digits_val_b(digits.take(pos + 1)) > u64::MAX);
                    if all_digits_b(digits) {
                        lemma_digits_val_b_monotone(digits, pos + 1);
                    }
                }
                return None;
            },
        };
        let next = match shifted.checked_add(d) {
            Some(v) => v,
            None => {
                proof {
                    let pos = i - start;
                    assert(digits.take(pos + 1).drop_last() =~= digits.take(pos));
                    assert(digits.take(pos + 1).last() == digits[pos]);
                    assert(digits_val_b(digits.take(pos + 1)) > u64::MAX);
                    if all_digits_b(digits) {
                        lemma_digits_val_b_monotone(digits, pos + 1);
                    }
                }
                return None;
            },
        };
        proof {
            assert(digits.take(i - start + 1).drop_last() =~= digits.take(i - start));
            assert(digits.take(i - start + 1).last() == digits[i - start]);
        }
        acc = next;
        i = i + 1;
    }
    assert(digits.take(s.len() - start) =~= digits);
    Some(acc)
}

/// The rendered numeral of `n` reads back as `n`.
pub proof fn lemma_dec_bytes_val(n: nat)
    ensures
        dec_bytes(n).len() > 0,
        all_digits_b(dec_bytes(n)),
        dec_bytes(n)[0] != 43u8,
        digits_val_b(dec_bytes(n)) == n,
        n <= u64::MAX ==> is_u64_numeral_b(dec_bytes(n)) && numeral_val_b(dec_bytes(n)) == n,
    decreases n,
{
    if n < 10 {
        assert(dec_bytes(n) =~= seq![(48 + n) as u8]);
        assert(dec_bytes(n).drop_last() =~= Seq::<u8>::empty());
        assert(dec_bytes(n).last() == (48 + n) as u8);
        assert(is_digit_b((48 + n) as u8));
        assert(digit_val_b((48 + n) as u8) == n);
        assert(digits_val_b(dec_bytes(n))
            == (digits_val_b(dec_bytes(n).drop_last()) * 10
                + digit_val_b(dec_bytes(n).last())) as nat);
        assert(digits_val_b(dec_bytes(n)) == n);
        assert(numeral_digits_b(dec_bytes(n)) == dec_bytes(n));
    } else {
        lemma_dec_bytes_val(n / 10);
        assert(dec_bytes(n).drop_last() =~= dec_bytes(n / 10));
        assert(dec_bytes(n).last() == (48 + n % 10) as u8);
        assert(is_digit_b((48 + n % 10) as u8));
        assert(digit_val_b((48 + n % 10) as u8) == n % 10);
        assert(digits_val_b(dec_bytes(n))
            == digits_val_b(dec_bytes(n / 10)) * 10 + (n % 10));
        assert(n / 10 * 10 + n % 10 == n) by {
            vstd::arithmetic::div_mod::lemma_fundamental_div_mod(n as int, 10);
        }
        assert(forall|i: int|
            0 <= i < dec_bytes(n).len() - 1
                ==> #[trigger] dec_bytes(n)[i] == dec_bytes(n / 10)[i]);
        assert(forall|i: int|
            0 <= i < dec_bytes(n).len() ==> is_digit_b(#[trigger] dec_bytes(n)[i]));
        assert(dec_bytes(n)[0] == dec_bytes(n / 10)[0]);
        assert(numeral_digits_b(dec_bytes(n)) == dec_bytes(n));
    }
}

} // verus!
