//! Unsigned numbers as decimal text.
//!
//! The text of a number is its digits without leading zeros. Reading is the
//! exact inverse of writing: `read_number` accepts the text of a number and
//! nothing else.

use vstd::prelude::*;

verus! {

/// The byte is one of the ten decimal digits.
pub open spec fn is_digit(byte: u8) -> bool {
    48 <= byte <= 57
}

/// The digits of `n`, most significant first, without leading zeros.
pub open spec fn decimal(n: nat) -> Seq<u8>
    decreases n,
{
    if n < 10 {
        seq![(48 + n) as u8]
    } else {
        decimal(n / 10).push((48 + n % 10) as u8)
    }
}

/// The number that a string of digits denotes.
pub open spec fn value_of(digits: Seq<u8>) -> nat
    decreases digits.len(),
{
    if digits.len() == 0 {
        0
    } else {
        (value_of(digits.drop_last()) * 10 + (digits.last() - 48)) as nat
    }
}

/// Every byte is a digit.
pub open spec fn all_digits(text: Seq<u8>) -> bool {
    forall|i: int| 0 <= i < text.len() ==> is_digit(#[trigger] text[i])
}

/// The end of the run of digits that starts at `at`: the first position from
/// there on that holds no digit, or the end of the data.
pub open spec fn digits_end(data: Seq<u8>, at: int) -> int
    decreases data.len() - at,
{
    if at < 0 || at >= data.len() || !is_digit(data[at]) {
        at
    } else {
        digits_end(data, at + 1)
    }
}

/// The text of a number is made of digits, is not empty, starts with a zero
/// only for zero itself, and denotes the number.
pub proof fn lemma_decimal(n: nat)
    ensures
        decimal(n).len() >= 1,
        all_digits(decimal(n)),
        decimal(n).len() >= 2 ==> decimal(n)[0] != 48,
        n >= 10 <==> decimal(n).len() >= 2,
        n == 0 <==> decimal(n)[0] == 48,
        value_of(decimal(n)) == n,
    decreases n,
{
    if n < 10 {
        assert(decimal(n).drop_last() =~= Seq::<u8>::empty());
        assert(value_of(decimal(n).drop_last()) == 0);
    } else {
        lemma_decimal(n / 10);
        let shorter = decimal(n / 10);
        let text = decimal(n);
        assert(text.drop_last() =~= shorter);
        assert(text[0] == shorter[0]);
        assert forall|i: int| 0 <= i < text.len() implies is_digit(#[trigger] text[i]) by {
            if i < shorter.len() {
                assert(text[i] == shorter[i]);
            }
        }
    }
}

/// Different numbers have different texts.
pub proof fn lemma_decimal_injective(a: nat, b: nat)
    requires
        decimal(a) == decimal(b),
    ensures
        a == b,
{
    lemma_decimal(a);
    lemma_decimal(b);
}

/// A digit appended to the text of a positive number gives the text of ten
/// times the number plus the digit.
pub proof fn lemma_decimal_push(n: nat, digit: u8)
    requires
        n > 0,
        is_digit(digit),
    ensures
        decimal(n).push(digit) == decimal((n * 10 + (digit - 48)) as nat),
{
    let m = (n * 10 + (digit - 48)) as nat;
    assert(m / 10 == n && m % 10 == digit - 48) by (nonlinear_arith)
        requires
            m == n * 10 + (digit - 48),
            0 <= digit - 48 < 10,
    ;
}

/// Where the text of one number begins the text of another, the first
/// number is not the larger one.
pub proof fn lemma_decimal_prefix(a: nat, b: nat)
    requires
        decimal(a).len() <= decimal(b).len(),
        decimal(b).take(decimal(a).len() as int) == decimal(a),
    ensures
        a <= b,
    decreases b,
{
    lemma_decimal(a);
    lemma_decimal(b);
    if decimal(a).len() == decimal(b).len() {
        assert(decimal(b).take(decimal(b).len() as int) =~= decimal(b));
        lemma_decimal_injective(a, b);
    } else {
        let shorter = decimal(b / 10);
        assert(decimal(b) == shorter.push((48 + b % 10) as u8));
        assert(shorter.take(decimal(a).len() as int) =~= decimal(b).take(decimal(a).len() as int));
        lemma_decimal_prefix(a, b / 10);
    }
}

/// A run of digits followed by something that is no digit ends where the
/// digits end.
pub proof fn lemma_digits_end(data: Seq<u8>, at: int, digits: Seq<u8>)
    requires
        0 <= at,
        at + digits.len() <= data.len(),
        data.subrange(at, at + digits.len()) == digits,
        all_digits(digits),
        at + digits.len() == data.len() || !is_digit(data[at + digits.len()]),
    ensures
        digits_end(data, at) == at + digits.len(),
    decreases digits.len(),
{
    if digits.len() > 0 {
        assert(data[at] == digits[0]);
        let rest = digits.drop_first();
        assert(data.subrange(at + 1, at + 1 + rest.len()) =~= rest);
        assert forall|i: int| 0 <= i < rest.len() implies is_digit(#[trigger] rest[i]) by {
            assert(rest[i] == digits[i + 1]);
        }
        lemma_digits_end(data, at + 1, rest);
    }
}

/// The run of digits from `at` on is made of digits and ends before a byte
/// that is no digit.
pub proof fn lemma_digits_end_is_end(data: Seq<u8>, at: int)
    requires
        0 <= at <= data.len(),
    ensures
        at <= digits_end(data, at) <= data.len(),
        all_digits(data.subrange(at, digits_end(data, at))),
        digits_end(data, at) == data.len() || !is_digit(data[digits_end(data, at)]),
    decreases data.len() - at,
{
    if at < data.len() && is_digit(data[at]) {
        lemma_digits_end_is_end(data, at + 1);
        let end = digits_end(data, at);
        let run = data.subrange(at, end);
        assert forall|i: int| 0 <= i < run.len() implies is_digit(#[trigger] run[i]) by {
            if i > 0 {
                assert(run[i] == data.subrange(at + 1, end)[i - 1]);
            }
        }
    }
}

/// Appends the decimal text of `n` to `out`.
pub fn push_decimal(out: &mut Vec<u8>, n: u64)
    ensures
        final(out)@ == old(out)@ + decimal(n as nat),
{
    let mut digits: Vec<u8> = Vec::new();
    let mut rest: u64 = n;
    // The digits come out least significant first.
    loop
        invariant_except_break
            rest <= n,
            decimal(n as nat) == decimal(rest as nat) + digits@.reverse(),
        ensures
            decimal(n as nat) == digits@.reverse(),
        decreases rest,
    {
        let digit: u8 = (48 + rest % 10) as u8;
        if rest < 10 {
            proof {
                assert(decimal(rest as nat) =~= seq![digit]);
                assert(digits@.push(digit).reverse() =~= seq![digit] + digits@.reverse());
            }
            digits.push(digit);
            break ;
        }
        proof {
            assert(decimal(rest as nat) == decimal((rest / 10) as nat).push(digit));
            assert(digits@.push(digit).reverse() =~= seq![digit] + digits@.reverse());
            assert(decimal((rest / 10) as nat).push(digit) + digits@.reverse() =~= decimal(
                (rest / 10) as nat,
            ) + (seq![digit] + digits@.reverse()));
        }
        digits.push(digit);
        rest = rest / 10;
    }
    let mut i: usize = digits.len();
    while i > 0
        invariant
            i <= digits@.len(),
            out@ == old(out)@ + digits@.reverse().take(digits@.len() - i),
        decreases i,
    {
        i -= 1;
        out.push(digits[i]);
        assert(out@ =~= old(out)@ + digits@.reverse().take(digits@.len() - i));
    }
    assert(digits@.reverse().take(digits@.len() as int) =~= digits@.reverse());
}

/// Reads the number whose text stands at `at` and ends where the digits
/// end. Gives the number and the end of its text, or `None` where the run of
/// digits is not the text of a number up to `max`: where it is empty, has a
/// leading zero, or denotes a larger number.
pub fn read_number(data: &[u8], at: usize, max: u64) -> (r: Option<(u64, usize)>)
    requires
        at <= data@.len(),
    ensures
        match r {
            Some((n, end)) => n <= max && end == digits_end(data@, at as int) && data@.subrange(
                at as int,
                end as int,
            ) == decimal(n as nat),
            None => forall|n: nat|
                n <= max ==> data@.subrange(at as int, digits_end(data@, at as int))
                    != #[trigger] decimal(n),
        },
{
    proof {
        lemma_digits_end_is_end(data@, at as int);
    }
    let ghost end = digits_end(data@, at as int);
    let ghost run = data@.subrange(at as int, end);
    if at >= data.len() || data[at] < 48 || data[at] > 57 {
        assert forall|n: nat| n <= max implies run != #[trigger] decimal(n) by {
            lemma_decimal(n);
        }
        return None;
    }
    if data[at] == 48 {
        if at + 1 < data.len() && data[at + 1] >= 48 && data[at + 1] <= 57 {
            assert(end >= at + 2) by {
                assert(digits_end(data@, at as int) == digits_end(data@, at + 1));
                assert(digits_end(data@, at + 1) == digits_end(data@, at + 2));
                lemma_digits_end_is_end(data@, at + 2);
            }
            assert forall|n: nat| n <= max implies run != #[trigger] decimal(n) by {
                lemma_decimal(n);
                assert(run[0] == 48);
            }
            return None;
        }
        assert(end == at + 1) by {
            assert(digits_end(data@, at as int) == digits_end(data@, at + 1));
        }
        assert(run =~= decimal(0));
        return Some((0, at + 1));
    }
    let mut value: u64 = (data[at] - 48) as u64;
    let mut next: usize = at + 1;
    assert(data@.subrange(at as int, next as int) =~= decimal(value as nat));
    if value > max {
        assert forall|n: nat| n <= max implies run != #[trigger] decimal(n) by {
            if run == decimal(n) {
                assert(run.take(1) =~= data@.subrange(at as int, at + 1));
                lemma_decimal(n);
                lemma_decimal(value as nat);
                lemma_decimal_prefix(value as nat, n);
            }
        }
        return None;
    }
    while next < data.len() && data[next] >= 48 && data[next] <= 57
        invariant
            at < next <= data@.len(),
            0 < value <= max,
            end == digits_end(data@, at as int),
            end == digits_end(data@, next as int),
            run == data@.subrange(at as int, end),
            data@.subrange(at as int, next as int) == decimal(value as nat),
        decreases data@.len() - next,
    {
        let digit: u8 = data[next];
        let ghost longer = (value * 10 + (digit - 48)) as nat;
        proof {
            lemma_decimal_push(value as nat, digit);
            assert(data@.subrange(at as int, next + 1) =~= data@.subrange(
                at as int,
                next as int,
            ).push(digit));
            lemma_digits_end_is_end(data@, next + 1);
        }
        let unit: u64 = (digit - 48) as u64;
        if unit > max || value > (max - unit) / 10 {
            proof {
                assert(longer > max) by (nonlinear_arith)
                    requires
                        unit > max || (unit <= max && value > (max - unit) / 10),
                        longer == value * 10 + unit,
                        0 <= unit < 10,
                        value >= 1,
                ;
                assert forall|n: nat| n <= max implies run != #[trigger] decimal(n) by {
                    if run == decimal(n) {
                        assert(run.take(next + 1 - at) =~= data@.subrange(at as int, next + 1));
                        lemma_decimal_prefix(longer, n);
                    }
                }
            }
            return None;
        }
        assert(value * 10 + unit <= max) by (nonlinear_arith)
            requires
                value <= (max - unit) / 10,
                max >= unit,
                0 <= unit < 10,
        ;
        value = value * 10 + unit;
        next += 1;
    }
    Some((value, next))
}

} // verus!
