//! Decimal numbers, as they stand in text and on the wire.

use vstd::prelude::*;

verus! {

/// The byte `0`, the first of the ten digits.
pub const DIGIT_ZERO: u8 = 48;

/// Whether a byte is one of the ten digits.
pub open spec fn is_digit(byte: u8) -> bool {
    48 <= byte <= 57
}

/// The decimal digits of a number, without leading zeros.
pub open spec fn digits(n: nat) -> Seq<u8>
    decreases n,
{
    if n < 10 {
        seq![(48 + n) as u8]
    } else {
        digits(n / 10).push((48 + n % 10) as u8)
    }
}

/// The number that decimal digits stand for.
pub open spec fn decimal(ds: Seq<u8>) -> nat
    decreases ds.len(),
{
    if ds.len() == 0 {
        0
    } else {
        decimal(ds.drop_last()) * 10 + (ds.last() - 48) as nat
    }
}

/// The number of digits that a sequence starts with.
pub open spec fn digit_run(s: Seq<u8>) -> nat
    decreases s.len(),
{
    if s.len() > 0 && is_digit(s[0]) {
        1 + digit_run(s.subrange(1, s.len() as int))
    } else {
        0
    }
}

/// The number that a sequence starts with, and how many digits it has: at
/// least one, and no leading zero before another digit.
pub open spec fn number_at(s: Seq<u8>) -> Option<(nat, int)> {
    let n = digit_run(s);
    if n == 0 || (n > 1 && s[0] == 48) {
        None
    } else {
        Some((decimal(s.take(n as int)), n as int))
    }
}

/// The digits of a number are digits, stand for the number, and start
/// with a zero only where the number is zero.
pub proof fn lemma_digits(n: nat)
    ensures
        digits(n).len() >= 1,
        forall|j: int| 0 <= j < digits(n).len() ==> is_digit(#[trigger] digits(n)[j]),
        decimal(digits(n)) == n,
        digits(n).len() > 1 ==> digits(n)[0] != 48,
        n > 0 ==> digits(n)[0] != 48,
    decreases n,
{
    if n < 10 {
        assert(digits(n).drop_last() =~= Seq::<u8>::empty());
        assert(decimal(digits(n).drop_last()) == 0);
    } else {
        lemma_digits(n / 10);
        assert(digits(n).drop_last() =~= digits(n / 10));
        assert(digits(n)[0] == digits(n / 10)[0]);
    }
}

/// A run of digits is as long as the digits that stand at its start.
pub proof fn lemma_digit_run(s: Seq<u8>, m: int)
    requires
        0 <= m <= s.len(),
        forall|j: int| 0 <= j < m ==> is_digit(s[j]),
    ensures
        digit_run(s) >= m,
        (m == s.len() || !is_digit(s[m])) ==> digit_run(s) == m,
    decreases m,
{
    if m > 0 {
        let rest = s.subrange(1, s.len() as int);
        assert forall|j: int| 0 <= j < m - 1 implies is_digit(rest[j]) by {
            assert(rest[j] == s[j + 1]);
        }
        lemma_digit_run(rest, m - 1);
        if m < s.len() {
            assert(rest[m - 1] == s[m]);
        }
    }
}

/// A run of digits holds digits only, and ends within the sequence.
pub proof fn lemma_digit_run_digits(s: Seq<u8>)
    ensures
        digit_run(s) <= s.len(),
        forall|j: int| 0 <= j < digit_run(s) ==> is_digit(#[trigger] s[j]),
        digit_run(s) < s.len() ==> !is_digit(s[digit_run(s) as int]),
    decreases s.len(),
{
    if s.len() > 0 && is_digit(s[0]) {
        let rest = s.subrange(1, s.len() as int);
        lemma_digit_run_digits(rest);
        assert forall|j: int| 0 <= j < digit_run(s) implies is_digit(#[trigger] s[j]) by {
            if j > 0 {
                assert(rest[j - 1] == s[j]);
            }
        }
        if digit_run(s) < s.len() {
            assert(rest[digit_run(rest) as int] == s[digit_run(s) as int]);
        }
    }
}

/// More digits do not stand for a smaller number.
pub proof fn lemma_decimal_prefix(ds: Seq<u8>, a: int, b: int)
    requires
        0 <= a <= b <= ds.len(),
        forall|j: int| 0 <= j < b ==> is_digit(ds[j]),
    ensures
        decimal(ds.take(a)) <= decimal(ds.take(b)),
    decreases b - a,
{
    if a < b {
        lemma_decimal_prefix(ds, a, b - 1);
        assert(ds.take(b).drop_last() =~= ds.take(b - 1));
        assert(ds.take(b).last() == ds[b - 1]);
    }
}

/// Digits without a leading zero are the digits of the number they stand
/// for.
pub proof fn lemma_digits_of_decimal(ds: Seq<u8>)
    requires
        ds.len() >= 1,
        forall|j: int| 0 <= j < ds.len() ==> is_digit(ds[j]),
        ds.len() > 1 ==> ds[0] != 48,
    ensures
        digits(decimal(ds)) == ds,
    decreases ds.len(),
{
    let front = ds.drop_last();
    let last = (ds.last() - 48) as nat;
    if front.len() == 0 {
        assert(decimal(front) == 0);
        assert(digits(last) =~= ds);
    } else {
        lemma_digits_of_decimal(front);
        lemma_decimal_prefix(front, 1, front.len() as int);
        assert(front.take(front.len() as int) =~= front);
        assert(front.take(1).drop_last() =~= Seq::<u8>::empty());
        assert(decimal(front.take(1).drop_last()) == 0);
        assert(decimal(front.take(1)) == (front[0] - 48) as nat);
        assert(decimal(front) >= 1);
        let n = decimal(ds);
        assert(n == decimal(front) * 10 + last);
        assert(n / 10 == decimal(front) && n % 10 == last);
        assert(digits(n) =~= ds);
    }
}

/// The digits of a number, before a byte that is no digit, are read as
/// the number.
pub proof fn lemma_number_at(n: nat, rest: Seq<u8>)
    requires
        rest.len() == 0 || !is_digit(rest[0]),
    ensures
        number_at(digits(n) + rest) == Some((n, digits(n).len() as int)),
{
    let s = digits(n) + rest;
    lemma_digits(n);
    assert forall|j: int| 0 <= j < digits(n).len() implies is_digit(s[j]) by {
        assert(s[j] == digits(n)[j]);
    }
    if rest.len() > 0 {
        assert(s[digits(n).len() as int] == rest[0]);
    }
    lemma_digit_run(s, digits(n).len() as int);
    assert(s.take(digits(n).len() as int) =~= digits(n));
    assert(s[0] == digits(n)[0]);
}

/// A number that was read stands at the start as its digits.
pub proof fn lemma_number_read(s: Seq<u8>)
    ensures
        match number_at(s) {
            Some((value, n)) => 0 < n <= s.len() && digits(value) == s.take(n) && (n < s.len()
                ==> !is_digit(s[n])),
            None => true,
        },
{
    lemma_digit_run_digits(s);
    if number_at(s) is Some {
        let n = digit_run(s) as int;
        lemma_digits_of_decimal(s.take(n));
    }
}

/// Appends the decimal digits of a number.
pub fn write_number(n: u64, out: &mut Vec<u8>)
    ensures
        final(out)@ == old(out)@ + digits(n as nat),
    decreases n,
{
    if n >= 10 {
        write_number(n / 10, out);
    }
    out.push(DIGIT_ZERO + (n % 10) as u8);
    assert(out@ =~= old(out)@ + digits(n as nat));
}

/// Reads the number at `pos`, unless it is above `limit`.
pub fn read_number(input: &[u8], pos: usize, limit: u64) -> (r: Option<(u64, usize)>)
    requires
        pos <= input@.len(),
    ensures
        match r {
            Some((value, end)) => pos < end <= input@.len() && value <= limit && number_at(
                input@.skip(pos as int),
            ) == Some((value as nat, end - pos)),
            None => match number_at(input@.skip(pos as int)) {
                Some((value, _)) => value > limit,
                None => true,
            },
        },
{
    let ghost s = input@.skip(pos as int);
    let mut k: usize = pos;
    let mut value: u64 = 0;
    assert(s.take(0) =~= Seq::<u8>::empty());
    while k < input.len() && DIGIT_ZERO <= input[k] && input[k] <= 57
        invariant
            pos <= k <= input@.len(),
            s == input@.skip(pos as int),
            forall|j: int| 0 <= j < k - pos ==> is_digit(s[j]),
            value == decimal(s.take(k - pos)),
            value <= limit,
        decreases input@.len() - k,
    {
        let next: u128 = value as u128 * 10 + (input[k] - DIGIT_ZERO) as u128;
        proof {
            assert(s[k - pos] == input@[k as int]);
            assert(s.take(k - pos + 1).drop_last() =~= s.take(k - pos));
            assert(s.take(k - pos + 1).last() == s[k - pos]);
            assert(next == decimal(s.take(k - pos + 1)));
        }
        if next > limit as u128 {
            proof {
                lemma_digit_run(s, k - pos + 1);
                lemma_digit_run_digits(s);
                lemma_decimal_prefix(s, k - pos + 1, digit_run(s) as int);
            }
            return None;
        }
        value = next as u64;
        k += 1;
    }
    proof {
        if k < input@.len() {
            assert(s[k - pos] == input@[k as int]);
        }
        lemma_digit_run(s, k - pos);
    }
    if k == pos {
        return None;
    }
    if k - pos > 1 && input[pos] == DIGIT_ZERO {
        assert(s[0] == input@[pos as int]);
        return None;
    }
    assert(s[0] == input@[pos as int]);
    Some((value, k))
}

} // verus!
