//! Numbers as text.
use vstd::prelude::*;

verus! {

/// The character of a decimal digit.
pub open spec fn digit_char(d: nat) -> char {
    ((48 + d) as u8) as char
}

/// The decimal form of a number.
pub open spec fn decimal(n: nat) -> Seq<char>
    decreases n,
{
    if n < 10 {
        seq![digit_char(n)]
    } else {
        decimal(n / 10).push(digit_char(n % 10))
    }
}

/// Appends the decimal form of a number.
pub fn push_decimal(out: &mut String, n: u128)
    ensures
        final(out)@ == old(out)@ + decimal(n as nat),
    decreases n,
{
    let ghost start = out@;
    if n >= 10 {
        push_decimal(out, n / 10);
    }
    let d: u8 = (n % 10) as u8;
    out.push((48 + d) as char);
    proof {
        assert(out@ =~= start + decimal(n as nat));
    }
}

/// The decimal form of a number.
pub fn decimal_text(n: u128) -> (r: String)
    ensures
        r@ == decimal(n as nat),
{
    let mut r = String::new();
    push_decimal(&mut r, n);
    proof {
        assert(r@ =~= decimal(n as nat));
    }
    r
}

/// Whether a character is a decimal digit.
pub open spec fn is_digit(c: char) -> bool {
    '0' <= c && c <= '9'
}

/// The value of a decimal digit.
pub open spec fn digit_value(c: char) -> int {
    c as int - 48
}

/// Whether all characters are decimal digits.
pub open spec fn all_digits(s: Seq<char>) -> bool {
    forall|i: int| 0 <= i < s.len() ==> is_digit(#[trigger] s[i])
}

/// The value of a run of decimal digits.
pub open spec fn digits_value(s: Seq<char>) -> int
    decreases s.len(),
{
    if s.len() == 0 {
        0
    } else {
        digits_value(s.drop_last()) * 10 + digit_value(s.last())
    }
}

/// The number that a text of digits is, if there is one or more and it is not
/// above the limit.
pub open spec fn digits_number(s: Seq<char>, limit: int) -> Option<int> {
    if s.len() > 0 && all_digits(s) && digits_value(s) <= limit {
        Some(digits_value(s))
    } else {
        None
    }
}

/// The number that a text is: digits, with or without a plus in front.
pub open spec fn parse_unsigned(s: Seq<char>, limit: int) -> Option<int> {
    if s.len() > 0 && s[0] == '+' {
        digits_number(s.drop_first(), limit)
    } else {
        digits_number(s, limit)
    }
}

/// The number that a text is: digits, with or without a sign in front.
pub open spec fn parse_signed(s: Seq<char>, least: int, limit: int) -> Option<int> {
    if s.len() > 0 && s[0] == '-' {
        match digits_number(s.drop_first(), -least) {
            Some(v) => Some(-v),
            None => None,
        }
    } else {
        parse_unsigned(s, limit)
    }
}

proof fn lemma_digits_nonnegative(s: Seq<char>)
    requires
        all_digits(s),
    ensures
        digits_value(s) >= 0,
    decreases s.len(),
{
    if s.len() > 0 {
        assert forall|i: int| 0 <= i < s.drop_last().len() implies is_digit(
            #[trigger] s.drop_last()[i],
        ) by {
            assert(s.drop_last()[i] == s[i]);
        }
        assert(is_digit(s[s.len() - 1]));
        lemma_digits_nonnegative(s.drop_last());
    }
}

proof fn lemma_digits_prefix(s: Seq<char>, i: int)
    requires
        all_digits(s),
        0 <= i <= s.len(),
    ensures
        0 <= digits_value(s.take(i)) <= digits_value(s),
    decreases s.len(),
{
    if i < s.len() {
        let t = s.drop_last();
        assert forall|k: int| 0 <= k < t.len() implies is_digit(#[trigger] t[k]) by {
            assert(t[k] == s[k]);
        }
        assert(is_digit(s[s.len() - 1]));
        assert(t.take(i) =~= s.take(i));
        lemma_digits_prefix(t, i);
    } else {
        assert(s.take(i) =~= s);
        lemma_digits_nonnegative(s);
    }
}

fn parse_digits(s: &[char], from: usize, limit: u64) -> (r: Option<u64>)
    requires
        from <= s@.len(),
    ensures
        match r {
            Some(v) => digits_number(s@.skip(from as int), limit as int) == Some(v as int),
            None => digits_number(s@.skip(from as int), limit as int) is None,
        },
{
    let ghost all = s@.skip(from as int);
    if from == s.len() {
        return None;
    }
    let mut value: u64 = 0;
    let mut i: usize = from;
    while i < s.len()
        invariant
            from <= i <= s@.len(),
            all == s@.skip(from as int),
            forall|k: int| 0 <= k < i - from ==> is_digit(#[trigger] all[k]),
            value == digits_value(all.take(i - from)),
            value <= limit,
        decreases s.len() - i,
    {
        let c = s[i];
        proof {
            assert(all[i - from] == c);
        }
        if c < '0' || '9' < c {
            return None;
        }
        let next: u128 = value as u128 * 10 + (c as u8 - 48) as u128;
        proof {
            assert(all.take(i + 1 - from).drop_last() =~= all.take(i - from));
            assert(next == digits_value(all.take(i + 1 - from)));
            if all_digits(all) {
                lemma_digits_prefix(all, i + 1 - from);
            }
        }
        if next > limit as u128 {
            return None;
        }
        value = next as u64;
        i += 1;
    }
    proof {
        assert(all.take(all.len() as int) =~= all);
    }
    Some(value)
}

/// Reads a number that is not above the limit.
pub fn parse_unsigned_text(s: &[char], limit: u64) -> (r: Option<u64>)
    ensures
        match r {
            Some(v) => parse_unsigned(s@, limit as int) == Some(v as int),
            None => parse_unsigned(s@, limit as int) is None,
        },
{
    proof {
        assert(s@.skip(0) =~= s@);
    }
    if s.len() > 0 && s[0] == '+' {
        proof {
            assert(s@.skip(1) =~= s@.drop_first());
        }
        parse_digits(s, 1, limit)
    } else {
        parse_digits(s, 0, limit)
    }
}

/// Reads a number from `-limit - 1` to `limit`.
pub fn parse_signed_text(s: &[char], limit: i64) -> (r: Option<i64>)
    requires
        0 <= limit,
    ensures
        match r {
            Some(v) => parse_signed(s@, -limit - 1, limit as int) == Some(v as int),
            None => parse_signed(s@, -limit - 1, limit as int) is None,
        },
{
    if s.len() > 0 && s[0] == '-' {
        proof {
            assert(s@.skip(1) =~= s@.drop_first());
        }
        match parse_digits(s, 1, limit as u64 + 1) {
            Some(v) => Some(
                if v == 0 {
                    0
                } else {
                    -((v - 1) as i64) - 1
                },
            ),
            None => None,
        }
    } else {
        match parse_unsigned_text(s, limit as u64) {
            Some(v) => Some(v as i64),
            None => None,
        }
    }
}

proof fn lemma_digit_char(d: nat)
    requires
        d < 10,
    ensures
        is_digit(digit_char(d)),
        digit_value(digit_char(d)) == d,
{
}

/// The decimal form of a number has digits alone, at least one, and their value
/// is the number.
pub proof fn lemma_decimal_digits(n: nat)
    ensures
        decimal(n).len() > 0,
        all_digits(decimal(n)),
        digits_value(decimal(n)) == n,
    decreases n,
{
    lemma_digit_char(n % 10);
    if n < 10 {
        lemma_digit_char(n);
        reveal_with_fuel(digits_value, 2);
        assert(decimal(n).drop_last() =~= Seq::<char>::empty());
    } else {
        lemma_decimal_digits(n / 10);
        assert(decimal(n).drop_last() =~= decimal(n / 10));
    }
}

/// A number survives being written and read.
pub proof fn lemma_decimal_round_trip(n: nat, limit: int)
    requires
        n <= limit,
    ensures
        parse_unsigned(decimal(n), limit) == Some(n as int),
{
    lemma_decimal_digits(n);
    assert(is_digit(decimal(n)[0]));
}

/// In a run of digits, the first one counts ten times as much for each digit behind
/// it.
pub proof fn lemma_digit_places(c: char, rest: Seq<char>)
    ensures
        digits_value(seq![c] + rest) == digit_value(c) * vstd::arithmetic::power::pow(
            10,
            rest.len(),
        ) + digits_value(rest),
    decreases rest.len(),
{
    let whole = seq![c] + rest;
    vstd::arithmetic::power::lemma_pow0(10);
    if rest.len() == 0 {
        assert(whole.drop_last() =~= Seq::<char>::empty());
        reveal_with_fuel(digits_value, 2);
    } else {
        let init = rest.drop_last();
        assert(whole.drop_last() =~= seq![c] + init);
        assert(whole.last() == rest.last());
        lemma_digit_places(c, init);
        vstd::arithmetic::power::lemma_pow_adds(10, init.len(), 1);
        vstd::arithmetic::power::lemma_pow1(10);
        let (d, p, v) = (
            digit_value(c),
            vstd::arithmetic::power::pow(10, init.len()),
            digits_value(init),
        );
        assert((d * p + v) * 10 == d * (p * 10) + v * 10) by (nonlinear_arith);
    }
}

/// The decimal form of a number has no zero in front, unless it is that of zero.
pub proof fn lemma_no_leading_zero(n: nat)
    ensures
        n > 0 ==> decimal(n)[0] != '0',
        n == 0 ==> decimal(n) == seq!['0'],
        forall|i: int| 0 <= i < decimal(n).len() ==> '0' <= #[trigger] decimal(n)[i] <= '9',
    decreases n,
{
    lemma_decimal_digits(n);
    if n >= 10 {
        lemma_decimal_digits(n / 10);
        lemma_no_leading_zero(n / 10);
        assert(decimal(n)[0] == decimal(n / 10)[0]);
    } else if n == 0 {
        assert(decimal(0) =~= seq!['0']);
    }
}

/// Two numbers with the same decimal form are the same.
pub proof fn lemma_decimal_tells_numbers_apart(a: nat, b: nat)
    requires
        decimal(a) == decimal(b),
    ensures
        a == b,
{
    lemma_decimal_digits(a);
    lemma_decimal_digits(b);
}

} // verus!
