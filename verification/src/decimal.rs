//! Decimal numbers in text: counts, and coordinates in fixed-point units.

use vstd::prelude::*;
use vstd::arithmetic::div_mod::lemma_fundamental_div_mod_converse;
use crate::vector::SCALE;

verus! {

/// The byte `0`.
pub const ZERO: u8 = 48;

/// The byte `+`.
pub const PLUS: u8 = 43;

/// The byte `-`.
pub const MINUS: u8 = 45;

/// The byte `.`.
pub const POINT: u8 = 46;

/// The largest size of a number that an `i128` holds: that of the least
/// one.
pub const SIZE_LIMIT: u128 = 0x8000_0000_0000_0000_0000_0000_0000_0000;

/// The number of decimal places of a coordinate: `SCALE` is ten to this
/// power.
pub const SCALE_DIGITS: usize = 7;

/// Whether the byte is a decimal digit.
pub open spec fn is_digit(b: u8) -> bool {
    48 <= b <= 57
}

/// Whether every byte is a decimal digit.
pub open spec fn all_digits(s: Seq<u8>) -> bool {
    forall|i: int| 0 <= i < s.len() ==> is_digit(#[trigger] s[i])
}

/// The number that the digits write.
pub open spec fn digits_value(s: Seq<u8>) -> nat
    decreases s.len(),
{
    if s.len() == 0 {
        0
    } else {
        digits_value(s.drop_last()) * 10 + (s.last() - 48) as nat
    }
}

/// Ten to the power `k`.
pub open spec fn pow10(k: nat) -> nat
    decreases k,
{
    if k == 0 {
        1
    } else {
        10 * pow10((k - 1) as nat)
    }
}

/// `value` times ten to the power `shift`, rounded to the nearest whole
/// number, a half away from zero.
pub open spec fn scaled(value: nat, shift: int) -> nat {
    if shift >= 0 {
        value * pow10(shift as nat)
    } else {
        (value + pow10((-shift) as nat) / 2) / pow10((-shift) as nat)
    }
}

/// Powers of ten are positive and multiply.
pub proof fn lemma_pow10(a: nat, b: nat)
    ensures
        pow10(a) >= 1,
        pow10(a + b) == pow10(a) * pow10(b),
        a >= 1 ==> pow10(a) == 10 * pow10((a - 1) as nat) && pow10(a) / 2 == 5 * pow10(
            (a - 1) as nat,
        ),
    decreases a,
{
    if a == 0 {
        assert(pow10(0 + b) == 1 * pow10(b));
    } else {
        lemma_pow10((a - 1) as nat, b);
        assert(pow10(a + b) == 10 * pow10((a - 1 + b) as nat));
        assert(10 * (pow10((a - 1) as nat) * pow10(b)) == (10 * pow10((a - 1) as nat)) * pow10(b))
            by (nonlinear_arith);
    }
}

/// Powers of ten grow with the exponent.
pub proof fn lemma_pow10_grows(a: nat, b: nat)
    requires
        a <= b,
    ensures
        pow10(a) <= pow10(b),
    decreases b,
{
    if a < b {
        lemma_pow10_grows(a, (b - 1) as nat);
        lemma_pow10((b - 1) as nat, 0);
    }
}

/// The digits of a number with more digits in front.
pub proof fn lemma_digits_value_concat(a: Seq<u8>, b: Seq<u8>)
    requires
        all_digits(b),
    ensures
        digits_value(a + b) == digits_value(a) * pow10(b.len()) + digits_value(b),
        digits_value(b) < pow10(b.len()),
    decreases b.len(),
{
    if b.len() == 0 {
        assert(a + b =~= a);
    } else {
        let shorter = b.drop_last();
        lemma_digits_value_concat(a, shorter);
        assert((a + b).drop_last() =~= a + shorter);
        assert((a + b).last() == b.last());
        assert(is_digit(b[b.len() - 1]));
        lemma_pow10(b.len(), 0);
        let (va, vs, p) = (digits_value(a), digits_value(shorter), pow10(shorter.len()));
        assert((va * p + vs) * 10 == va * (10 * p) + vs * 10) by (nonlinear_arith);
    }
}

/// The first digit of a number decides whether it is at least half the
/// next power of ten.
proof fn lemma_leading_digit(b: Seq<u8>)
    requires
        all_digits(b),
        b.len() >= 1,
    ensures
        digits_value(b) >= pow10(b.len()) / 2 <==> b[0] >= 53,
{
    let first = b.take(1);
    let rest = b.skip(1);
    assert(b =~= first + rest);
    assert(all_digits(rest)) by {
        assert forall|i: int| 0 <= i < rest.len() implies is_digit(#[trigger] rest[i]) by {
            assert(rest[i] == b[i + 1]);
        }
    }
    lemma_digits_value_concat(first, rest);
    assert(first.drop_last() =~= Seq::<u8>::empty());
    assert(digits_value(Seq::<u8>::empty()) == 0);
    assert(first.last() == b[0]);
    assert(digits_value(first) == (b[0] - 48) as nat);
    assert(is_digit(b[0]));
    lemma_pow10(b.len(), 0);
    let (d, p, r) = ((b[0] - 48) as int, pow10(rest.len()) as int, digits_value(rest) as int);
    if d >= 5 {
        assert(d * p + r >= 5 * p) by (nonlinear_arith)
            requires
                d >= 5,
                p >= 1,
                r >= 0,
        ;
    } else {
        assert(d * p + r < 5 * p) by (nonlinear_arith)
            requires
                d <= 4,
                p >= 1,
                r < p,
        ;
    }
}

/// The first `cut` digits of the digits followed by zeros without end, as
/// a number.
pub open spec fn window_value(digits: Seq<u8>, cut: int) -> nat {
    if cut <= 0 {
        0
    } else if cut <= digits.len() {
        digits_value(digits.take(cut))
    } else {
        digits_value(digits) * pow10((cut - digits.len()) as nat)
    }
}

/// One if the digit after the first `cut` digits is five or more, else
/// zero.
pub open spec fn round_up(digits: Seq<u8>, cut: int) -> nat {
    if 0 <= cut < digits.len() && digits[cut] >= 53 {
        1
    } else {
        0
    }
}

/// Scaling a number cuts its digits: the digits before the cut are the
/// whole part, and the digit after the cut decides the rounding.
pub proof fn lemma_scaled_by_window(digits: Seq<u8>, shift: int)
    requires
        all_digits(digits),
    ensures
        scaled(digits_value(digits), shift) == window_value(digits, digits.len() + shift)
            + round_up(digits, digits.len() + shift),
{
    let n = digits.len() as int;
    let cut = n + shift;
    let value = digits_value(digits);
    if shift < 0 {
        let k = (-shift) as nat;
        let p = pow10(k) as int;
        lemma_pow10(k, 0);
        if cut >= 0 {
            let whole = digits.take(cut);
            let part = digits.skip(cut);
            assert(digits =~= whole + part);
            assert(all_digits(part)) by {
                assert forall|i: int| 0 <= i < part.len() implies is_digit(#[trigger] part[i]) by {
                    assert(part[i] == digits[i + cut]);
                }
            }
            lemma_digits_value_concat(whole, part);
            lemma_leading_digit(part);
            assert(part[0] == digits[cut]);
            let q = digits_value(whole) as int;
            let r = digits_value(part) as int;
            assert(digits.take(0) =~= Seq::<u8>::empty());
            if r >= p / 2 {
                assert(value + p / 2 == (q + 1) * p + (r + p / 2 - p)) by (nonlinear_arith)
                    requires
                        value == q * p + r,
                ;
                lemma_fundamental_div_mod_converse(value + p / 2, p, q + 1, r + p / 2 - p);
            } else {
                lemma_fundamental_div_mod_converse(value + p / 2, p, q, r + p / 2);
            }
        } else {
            lemma_digits_value_concat(Seq::<u8>::empty(), digits);
            lemma_pow10_grows(n as nat, (k - 1) as nat);
            lemma_fundamental_div_mod_converse(value + p / 2, p, 0, value + p / 2);
        }
    } else {
        assert(digits.take(n) =~= digits);
        assert(pow10(0) == 1);
        assert(value * 1 == value) by (nonlinear_arith);
    }
}

/// The number that the first digits write is no more than the number that
/// all digits write.
pub proof fn lemma_digits_value_prefix(s: Seq<u8>, k: int)
    requires
        all_digits(s),
        0 <= k <= s.len(),
    ensures
        digits_value(s.take(k)) <= digits_value(s),
{
    let rest = s.skip(k);
    assert(s =~= s.take(k) + rest);
    assert(all_digits(rest)) by {
        assert forall|i: int| 0 <= i < rest.len() implies is_digit(#[trigger] rest[i]) by {
            assert(rest[i] == s[i + k]);
        }
    }
    lemma_digits_value_concat(s.take(k), rest);
    lemma_pow10(rest.len(), 0);
    let (v, p) = (digits_value(s.take(k)) as int, pow10(rest.len()) as int);
    assert(v * p >= v) by (nonlinear_arith)
        requires
            v >= 0,
            p >= 1,
    ;
}

/// The end of the run of digits that begins at `from`.
pub open spec fn digit_run_end(s: Seq<u8>, from: int) -> int
    decreases s.len() - from,
{
    if 0 <= from < s.len() && is_digit(s[from]) {
        digit_run_end(s, from + 1)
    } else {
        from
    }
}

/// Finds the end of the run of digits that begins at `from`.
pub fn scan_digits(text: &[u8], from: usize) -> (end: usize)
    requires
        from <= text@.len(),
    ensures
        end == digit_run_end(text@, from as int),
        from <= end <= text@.len(),
        all_digits(text@.subrange(from as int, end as int)),
{
    let mut end: usize = from;
    while end < text.len() && text[end] >= 48 && text[end] <= 57
        invariant
            from <= end <= text@.len(),
            digit_run_end(text@, from as int) == digit_run_end(text@, end as int),
            forall|i: int| from <= i < end ==> is_digit(#[trigger] text@[i]),
        decreases text@.len() - end,
    {
        end += 1;
    }
    assert forall|i: int| 0 <= i < end - from implies is_digit(
        #[trigger] text@.subrange(from as int, end as int)[i],
    ) by {
        assert(is_digit(text@[from + i]));
    }
    end
}

/// The count that a token writes: digits, with or without a plus sign
/// before them, that write a number which a `usize` can hold.
pub open spec fn count_of(token: Seq<u8>) -> Option<usize> {
    let body = if token.len() > 0 && token[0] == PLUS {
        token.skip(1)
    } else {
        token
    };
    if body.len() >= 1 && all_digits(body) && digits_value(body) <= usize::MAX {
        Some(digits_value(body) as usize)
    } else {
        None
    }
}

/// Reads a count.
pub fn parse_count(token: &[u8]) -> (r: Option<usize>)
    ensures
        r == count_of(token@),
{
    let start: usize = if token.len() > 0 && token[0] == PLUS {
        1
    } else {
        0
    };
    let ghost body = if token@.len() > 0 && token@[0] == PLUS {
        token@.skip(1)
    } else {
        token@
    };
    assert(token@.skip(0) =~= token@);
    if start == token.len() {
        return None;
    }
    let mut value: usize = 0;
    let mut i: usize = start;
    assert(body.take(0) =~= Seq::<u8>::empty());
    while i < token.len()
        invariant
            start <= i <= token@.len(),
            body == token@.skip(start as int),
            body == if token@.len() > 0 && token@[0] == PLUS {
                token@.skip(1)
            } else {
                token@
            },
            all_digits(body.take(i - start)),
            value == digits_value(body.take(i - start)),
        decreases token@.len() - i,
    {
        let b: u8 = token[i];
        if b < 48 || b > 57 {
            assert(!is_digit(body[i - start]));
            return None;
        }
        let d: usize = (b - 48) as usize;
        proof {
            let longer = body.take(i - start + 1);
            assert(longer.drop_last() =~= body.take(i - start));
            assert(longer.last() == b);
            assert forall|j: int| 0 <= j < longer.len() implies is_digit(#[trigger] longer[j]) by {
                if j < i - start {
                    assert(is_digit(body.take(i - start)[j]));
                }
            }
            if all_digits(body) {
                lemma_digits_value_prefix(body, i - start + 1);
            }
        }
        if value > (usize::MAX - d) / 10 {
            return None;
        }
        value = value * 10 + d;
        i += 1;
    }
    assert(body.take(i - start) =~= body);
    Some(value)
}

/// How a number is written: its sign, its digits without the point, how
/// many of them stand after the point, and its exponent of ten.
pub struct NumberParts {
    pub negative: bool,
    pub digits: Seq<u8>,
    pub fraction_len: nat,
    pub exponent: int,
}

/// One if a sign stands at the place, else zero.
pub open spec fn sign_len(s: Seq<u8>, at: int) -> int {
    if 0 <= at < s.len() && (s[at] == PLUS || s[at] == MINUS) {
        1
    } else {
        0
    }
}

/// Whether an exponent mark, `e` or `E`, stands at the place.
pub open spec fn exponent_mark_at(s: Seq<u8>, at: int) -> bool {
    0 <= at < s.len() && (s[at] == 101 || s[at] == 69)
}

/// Where the digits before the point begin: after the sign, if there is
/// one.
pub open spec fn whole_start(t: Seq<u8>) -> int {
    sign_len(t, 0)
}

/// Where the digits before the point end.
pub open spec fn whole_end(t: Seq<u8>) -> int {
    digit_run_end(t, whole_start(t))
}

/// Where the digits after the point begin: after the point, if there is
/// one.
pub open spec fn fraction_start(t: Seq<u8>) -> int {
    if whole_end(t) < t.len() && t[whole_end(t)] == POINT {
        whole_end(t) + 1
    } else {
        whole_end(t)
    }
}

/// Where the digits after the point end.
pub open spec fn fraction_end(t: Seq<u8>) -> int {
    digit_run_end(t, fraction_start(t))
}

/// The digits before and after the point.
pub open spec fn mantissa(t: Seq<u8>) -> Seq<u8> {
    t.subrange(whole_start(t), whole_end(t)) + t.subrange(fraction_start(t), fraction_end(t))
}

/// Where the digits of the exponent begin: after the mark and the sign, if
/// there is one.
pub open spec fn exponent_start(t: Seq<u8>) -> int {
    fraction_end(t) + 1 + sign_len(t, fraction_end(t) + 1)
}

/// Where the digits of the exponent end.
pub open spec fn exponent_end(t: Seq<u8>) -> int {
    digit_run_end(t, exponent_start(t))
}

/// The exponent that the token writes after its mark.
pub open spec fn written_exponent(t: Seq<u8>) -> int {
    let size = digits_value(t.subrange(exponent_start(t), exponent_end(t))) as int;
    if t[fraction_end(t) + 1] == MINUS {
        -size
    } else {
        size
    }
}

/// The parts of a token that writes a number: a sign or none, digits with
/// or without a point among them, and an exponent or none, which is `e` or
/// `E`, a sign or none, and digits. A token that is written otherwise has
/// no parts.
pub open spec fn number_parts(t: Seq<u8>) -> Option<NumberParts> {
    let negative = t.len() > 0 && t[0] == MINUS;
    let digits = mantissa(t);
    let fraction_len = (fraction_end(t) - fraction_start(t)) as nat;
    if digits.len() == 0 {
        None
    } else if fraction_end(t) == t.len() {
        Some(NumberParts { negative, digits, fraction_len, exponent: 0 })
    } else if !exponent_mark_at(t, fraction_end(t)) || exponent_end(t) == exponent_start(t)
        || exponent_end(t) != t.len() {
        None
    } else {
        Some(NumberParts { negative, digits, fraction_len, exponent: written_exponent(t) })
    }
}

/// The number of the given size and sign, if an `i128` holds it.
pub open spec fn signed(size: nat, negative: bool) -> Option<i128> {
    if negative {
        if size <= SIZE_LIMIT {
            Some((-size) as i128)
        } else {
            None
        }
    } else {
        if size < SIZE_LIMIT {
            Some(size as i128)
        } else {
            None
        }
    }
}

/// The coordinate that a token writes, in fixed-point units: the number
/// rounded to `SCALE_DIGITS` decimal places, a half away from zero, if an
/// `i128` holds it.
pub open spec fn coordinate_of(token: Seq<u8>) -> Option<i128> {
    match number_parts(token) {
        None => None,
        Some(parts) => signed(
            scaled(
                digits_value(parts.digits),
                SCALE_DIGITS + parts.exponent - parts.fraction_len,
            ),
            parts.negative,
        ),
    }
}

/// The number that a cut of the digits writes, rounded by the digit after
/// the cut.
pub open spec fn units_at_cut(digits: Seq<u8>, cut: int) -> nat {
    window_value(digits, cut) + round_up(digits, cut)
}

/// Thirty-nine more digits take any number but zero over the limit.
proof fn lemma_far_cut(digits: Seq<u8>, cut: int)
    requires
        all_digits(digits),
        cut >= digits.len() + 39,
    ensures
        units_at_cut(digits, cut) == if digits_value(digits) == 0 {
            0nat
        } else {
            units_at_cut(digits, cut)
        },
        digits_value(digits) != 0 ==> units_at_cut(digits, cut) > SIZE_LIMIT,
        digits_value(digits) == 0 ==> units_at_cut(digits, cut) == 0,
{
    let more = (cut - digits.len()) as nat;
    lemma_pow10_grows(39, more);
    assert(pow10(38) == 100_000_000_000_000_000_000_000_000_000_000_000_000) by {
        reveal_with_fuel(pow10, 39);
    }
    assert(pow10(39) == 10 * pow10(38));
    let (v, p) = (digits_value(digits) as int, pow10(more) as int);
    if v != 0 {
        assert(v * p >= p) by (nonlinear_arith)
            requires
                v >= 1,
                p >= 0,
        ;
    } else {
        assert(v * p == 0) by (nonlinear_arith)
            requires
                v == 0,
        ;
    }
    if digits.len() == 0 {
        assert(digits.take(0) =~= digits);
    }
}

/// Computes the number that a cut of the digits writes, if it is within
/// the limit.
fn units_of_cut(digits: &Vec<u8>, cut: i128) -> (r: Option<u128>)
    requires
        all_digits(digits@),
    ensures
        r == limited(units_at_cut(digits@, cut as int)),
{
    let n: usize = digits.len();
    let mut value: u128 = 0;
    if cut > 0 {
        let take: usize = if cut < n as i128 {
            cut as usize
        } else {
            n
        };
        let mut i: usize = 0;
        assert(digits@.take(0) =~= Seq::<u8>::empty());
        while i < take
            invariant
                i <= take <= n,
                n == digits@.len(),
                take <= cut,
                all_digits(digits@),
                value <= SIZE_LIMIT,
                value == digits_value(digits@.take(i as int)),
            decreases take - i,
        {
            let d: u128 = (digits[i] - 48) as u128;
            proof {
                assert(is_digit(digits@[i as int]));
                let longer = digits@.take(i + 1);
                assert(longer.drop_last() =~= digits@.take(i as int));
                assert(longer.last() == digits@[i as int]);
                lemma_window_holds_prefix(digits@, cut as int, i + 1);
            }
            if value > (SIZE_LIMIT - d) / 10 {
                return None;
            }
            value = value * 10 + d;
            i += 1;
        }
        if cut > n as i128 {
            assert(digits@.take(n as int) =~= digits@);
            let more: i128 = cut - n as i128;
            if value != 0 {
                let mut j: i128 = 0;
                assert(pow10(0) == 1);
                assert(value * 1 == value) by (nonlinear_arith);
                while j < more
                    invariant
                        0 <= j <= more,
                        more == cut - n,
                        n == digits@.len(),
                        1 <= value <= SIZE_LIMIT,
                        value == digits_value(digits@) * pow10(j as nat),
                    decreases more - j,
                {
                    proof {
                        lemma_pow10((j + 1) as nat, 0);
                        lemma_pow10_grows((j + 1) as nat, more as nat);
                        let (v, p, q) = (
                            digits_value(digits@) as int,
                            pow10(j as nat) as int,
                            pow10(more as nat) as int,
                        );
                        assert(v * p * 10 == v * (10 * p)) by (nonlinear_arith);
                        assert(v * q >= v * (10 * p)) by (nonlinear_arith)
                            requires
                                v >= 0,
                                q >= 10 * p,
                        ;
                    }
                    if value > SIZE_LIMIT / 10 {
                        return None;
                    }
                    value = value * 10;
                    j += 1;
                }
            } else {
                assert(0 * pow10(more as nat) == 0) by (nonlinear_arith);
            }
        }
    }
    if 0 <= cut && cut < n as i128 && digits[cut as usize] >= 53 {
        value = value + 1;
    }
    if value > SIZE_LIMIT {
        None
    } else {
        Some(value)
    }
}

/// The number that a cut writes is no less than what its first digits
/// write.
proof fn lemma_window_holds_prefix(digits: Seq<u8>, cut: int, k: int)
    requires
        all_digits(digits),
        0 <= k <= digits.len(),
        k <= cut,
    ensures
        digits_value(digits.take(k)) <= window_value(digits, cut),
{
    if cut <= digits.len() {
        let part = digits.take(cut);
        assert(all_digits(part)) by {
            assert forall|i: int| 0 <= i < part.len() implies is_digit(#[trigger] part[i]) by {
                assert(part[i] == digits[i]);
            }
        }
        assert(part.take(k) =~= digits.take(k));
        lemma_digits_value_prefix(part, k);
    } else {
        lemma_digits_value_prefix(digits, k);
        lemma_pow10((cut - digits.len()) as nat, 0);
        let (v, p) = (digits_value(digits) as int, pow10((cut - digits.len()) as nat) as int);
        assert(v * p >= v) by (nonlinear_arith)
            requires
                v >= 0,
                p >= 1,
        ;
    }
}

/// Exponents beyond this size are all alike: none can be made up for by
/// digits, of which there are fewer than two to the power 64.
const EXPONENT_CAP: u128 = 0x10_0000_0000_0000_0000_0000_0000;

/// Copies a run of digits to the end of a list.
fn copy_digits(token: &[u8], from: usize, to: usize, digits: &mut Vec<u8>)
    requires
        from <= to <= token@.len(),
        all_digits(token@.subrange(from as int, to as int)),
        all_digits(old(digits)@),
    ensures
        final(digits)@ == old(digits)@ + token@.subrange(from as int, to as int),
        all_digits(final(digits)@),
{
    let mut i: usize = from;
    assert(token@.subrange(from as int, from as int) =~= Seq::<u8>::empty());
    assert(digits@ =~= old(digits)@ + Seq::<u8>::empty());
    while i < to
        invariant
            from <= i <= to <= token@.len(),
            digits@ == old(digits)@ + token@.subrange(from as int, i as int),
        decreases to - i,
    {
        digits.push(token[i]);
        assert(token@.subrange(from as int, i + 1) =~= token@.subrange(from as int, i as int).push(
            token@[i as int],
        ));
        assert(digits@ =~= old(digits)@ + token@.subrange(from as int, i + 1));
        i += 1;
    }
    let ghost run = token@.subrange(from as int, to as int);
    assert forall|j: int| 0 <= j < digits@.len() implies is_digit(#[trigger] digits@[j]) by {
        if j < old(digits)@.len() {
            assert(is_digit(old(digits)@[j]));
        } else {
            assert(is_digit(run[j - old(digits)@.len()]));
        }
    }
}

/// Reads the size of an exponent, capped at `EXPONENT_CAP`.
fn exponent_size(token: &[u8], from: usize, to: usize) -> (r: u128)
    requires
        from <= to <= token@.len(),
        all_digits(token@.subrange(from as int, to as int)),
    ensures
        r == if digits_value(token@.subrange(from as int, to as int)) < EXPONENT_CAP {
            digits_value(token@.subrange(from as int, to as int))
        } else {
            EXPONENT_CAP as nat
        },
{
    let ghost run = token@.subrange(from as int, to as int);
    let mut size: u128 = 0;
    let mut i: usize = from;
    assert(run.take(0) =~= Seq::<u8>::empty());
    while i < to
        invariant
            from <= i <= to <= token@.len(),
            run == token@.subrange(from as int, to as int),
            all_digits(run),
            size <= EXPONENT_CAP,
            size == if digits_value(run.take(i - from)) < EXPONENT_CAP {
                digits_value(run.take(i - from))
            } else {
                EXPONENT_CAP as nat
            },
        decreases to - i,
    {
        assert(is_digit(run[i - from]));
        let d: u128 = (token[i] - 48) as u128;
        proof {
            let longer = run.take(i - from + 1);
            assert(longer.drop_last() =~= run.take(i - from));
            assert(longer.last() == token@[i as int]);
        }
        let next: u128 = size * 10 + d;
        size = if next > EXPONENT_CAP {
            EXPONENT_CAP
        } else {
            next
        };
        i += 1;
    }
    assert(run.take(to - from) =~= run);
    size
}

/// The number at a cut, if it is within the limit.
pub open spec fn limited(size: nat) -> Option<u128> {
    if size > SIZE_LIMIT {
        None
    } else {
        Some(size as u128)
    }
}

/// Cuts far beyond the digits are alike, and so are cuts before them.
proof fn lemma_far_cuts_agree(digits: Seq<u8>, a: int, b: int)
    requires
        all_digits(digits),
        (a >= digits.len() + 39 && b >= digits.len() + 39) || (a < 0 && b < 0),
    ensures
        limited(units_at_cut(digits, a)) == limited(units_at_cut(digits, b)),
{
    if a >= 0 {
        lemma_far_cut(digits, a);
        lemma_far_cut(digits, b);
    }
}

/// Reads the digits before and after the point.
fn read_mantissa(token: &[u8]) -> (r: (Vec<u8>, usize, usize))
    ensures
        r.0@ == mantissa(token@),
        all_digits(r.0@),
        r.1 == fraction_end(token@) - fraction_start(token@),
        r.2 == fraction_end(token@),
        r.2 <= token@.len(),
        r.0@.len() <= token@.len(),
{
    let n: usize = token.len();
    let start: usize = if n > 0 && (token[0] == PLUS || token[0] == MINUS) {
        1
    } else {
        0
    };
    let end: usize = scan_digits(token, start);
    let after_point: usize = if end < n && token[end] == POINT {
        end + 1
    } else {
        end
    };
    let last: usize = scan_digits(token, after_point);
    let mut digits: Vec<u8> = Vec::new();
    copy_digits(token, start, end, &mut digits);
    copy_digits(token, after_point, last, &mut digits);
    assert(digits@ =~= mantissa(token@));
    (digits, last - after_point, last)
}

/// Reads the exponent that stands at `mark`, if one is written there and
/// ends the token: its size, capped, and whether it is negative.
fn read_exponent(token: &[u8], mark: usize) -> (r: Option<(u128, bool)>)
    requires
        mark == fraction_end(token@),
        mark < token@.len(),
    ensures
        match r {
            None => !exponent_mark_at(token@, mark as int) || exponent_end(token@)
                == exponent_start(token@) || exponent_end(token@) != token@.len(),
            Some((size, negative)) => {
                &&& exponent_mark_at(token@, mark as int)
                &&& exponent_end(token@) != exponent_start(token@)
                &&& exponent_end(token@) == token@.len()
                &&& written_exponent(token@) == if negative {
                    -digits_value(
                        token@.subrange(exponent_start(token@), exponent_end(token@)),
                    )
                } else {
                    digits_value(
                        token@.subrange(exponent_start(token@), exponent_end(token@)),
                    ) as int
                }
                &&& size == if digits_value(
                    token@.subrange(exponent_start(token@), exponent_end(token@)),
                ) < EXPONENT_CAP {
                    digits_value(token@.subrange(exponent_start(token@), exponent_end(token@)))
                } else {
                    EXPONENT_CAP as nat
                }
            },
        },
{
    let n: usize = token.len();
    if token[mark] != 101 && token[mark] != 69 {
        return None;
    }
    let sign_at: usize = mark + 1;
    let start: usize = if sign_at < n && (token[sign_at] == PLUS || token[sign_at] == MINUS) {
        sign_at + 1
    } else {
        sign_at
    };
    let end: usize = scan_digits(token, start);
    if end == start || end != n {
        return None;
    }
    let size: u128 = exponent_size(token, start, end);
    Some((size, token[sign_at] == MINUS))
}

/// Reads a coordinate.
pub fn parse_coordinate(token: &[u8]) -> (r: Option<i128>)
    ensures
        r == coordinate_of(token@),
{
    let n: usize = token.len();
    let negative: bool = n > 0 && token[0] == MINUS;
    let (digits, fraction_len, mark) = read_mantissa(token);
    if digits.len() == 0 {
        return None;
    }
    let base: i128 = digits.len() as i128 + SCALE_DIGITS as i128 - fraction_len as i128;
    let ghost exponent: int = 0;
    let mut cut: i128 = base;
    if mark < n {
        match read_exponent(token, mark) {
            None => {
                return None;
            },
            Some((size, exponent_negative)) => {
                let ghost true_size = digits_value(
                    token@.subrange(exponent_start(token@), exponent_end(token@)),
                ) as int;
                if exponent_negative {
                    cut = base - size as i128;
                    proof {
                        exponent = -true_size;
                    }
                } else {
                    cut = base + size as i128;
                    proof {
                        exponent = true_size;
                    }
                }
                proof {
                    if true_size >= EXPONENT_CAP {
                        lemma_far_cuts_agree(digits@, cut as int, base + exponent);
                    }
                }
            },
        }
    }
    proof {
        lemma_scaled_by_window(digits@, SCALE_DIGITS + exponent - fraction_len);
        assert(limited(units_at_cut(digits@, cut as int)) == limited(
            scaled(digits_value(digits@), SCALE_DIGITS + exponent - fraction_len),
        ));
    }
    match units_of_cut(&digits, cut) {
        None => None,
        Some(size) => {
            if size == SIZE_LIMIT {
                if negative {
                    Some(i128::MIN)
                } else {
                    None
                }
            } else if negative {
                Some(-(size as i128))
            } else {
                Some(size as i128)
            }
        },
    }
}

/// The byte that writes a digit.
pub open spec fn digit_byte(d: nat) -> u8 {
    (48 + d) as u8
}

/// The digits that write a number, without zeros in front; zero is written
/// by one zero.
pub open spec fn count_text(n: nat) -> Seq<u8>
    decreases n,
{
    if n < 10 {
        seq![digit_byte(n)]
    } else {
        count_text(n / 10).push(digit_byte(n % 10))
    }
}

/// The last `places` digits of a number, with zeros in front where the
/// number is short.
pub open spec fn padded_text(n: nat, places: nat) -> Seq<u8>
    decreases places,
{
    if places == 0 {
        Seq::empty()
    } else {
        padded_text(n / 10, (places - 1) as nat).push(digit_byte(n % 10))
    }
}

/// The digits after the point of a fraction of `places` decimal places,
/// without the zeros at its end.
pub open spec fn fraction_text(fraction: nat, places: nat) -> Seq<u8>
    decreases places,
{
    if places == 0 || fraction == 0 {
        Seq::empty()
    } else if fraction % 10 == 0 {
        fraction_text(fraction / 10, (places - 1) as nat)
    } else {
        padded_text(fraction, places)
    }
}

/// The size of a number of units.
pub open spec fn size_of(units: int) -> nat {
    if units < 0 {
        (-units) as nat
    } else {
        units as nat
    }
}

/// How a coordinate is written: a minus sign if it is negative, the whole
/// part, and, unless the fraction is zero, a point and the fraction
/// without the zeros at its end.
pub open spec fn coordinate_text(units: int) -> Seq<u8> {
    let whole = size_of(units) / (SCALE as nat);
    let fraction = size_of(units) % (SCALE as nat);
    let sign = if units < 0 {
        seq![MINUS]
    } else {
        Seq::empty()
    };
    let tail = if fraction == 0 {
        Seq::empty()
    } else {
        seq![POINT] + fraction_text(fraction, SCALE_DIGITS as nat)
    };
    sign + count_text(whole) + tail
}

/// Writes a number at the end of a text.
pub fn write_count(n: u128, out: &mut Vec<u8>)
    ensures
        final(out)@ == old(out)@ + count_text(n as nat),
    decreases n,
{
    if n >= 10 {
        write_count(n / 10, out);
    }
    out.push(48 + (n % 10) as u8);
    assert(out@ =~= old(out)@ + count_text(n as nat));
}

/// Writes the last `places` digits of a number at the end of a text.
fn write_padded(n: u128, places: usize, out: &mut Vec<u8>)
    ensures
        final(out)@ == old(out)@ + padded_text(n as nat, places as nat),
    decreases places,
{
    if places > 0 {
        write_padded(n / 10, places - 1, out);
        out.push(48 + (n % 10) as u8);
    }
    assert(out@ =~= old(out)@ + padded_text(n as nat, places as nat));
}

/// Writes a coordinate at the end of a text.
pub fn write_coordinate(units: i128, out: &mut Vec<u8>)
    ensures
        final(out)@ == old(out)@ + coordinate_text(units as int),
{
    let size: u128 = if units >= 0 {
        units as u128
    } else {
        ((-(units + 1)) as u128) + 1
    };
    if units < 0 {
        out.push(MINUS);
    }
    write_count(size / (SCALE as u128), out);
    let mut fraction: u128 = size % (SCALE as u128);
    if fraction != 0 {
        out.push(POINT);
        let mut places: usize = SCALE_DIGITS;
        while places > 0 && fraction % 10 == 0
            invariant
                fraction != 0,
                fraction_text(fraction as nat, places as nat) == fraction_text(
                    size_of(units as int) % (SCALE as nat),
                    SCALE_DIGITS as nat,
                ),
            decreases places,
        {
            fraction = fraction / 10;
            places -= 1;
        }
        write_padded(fraction, places, out);
        assert(padded_text(fraction as nat, 0) =~= Seq::<u8>::empty());
    }
    assert(out@ =~= old(out)@ + coordinate_text(units as int));
}

/// Whether the bytes are a word of a number as it is written: not empty,
/// and made of digits, minus signs and points.
pub open spec fn is_number_word(s: Seq<u8>) -> bool {
    &&& s.len() >= 1
    &&& forall|i: int|
        0 <= i < s.len() ==> is_digit(#[trigger] s[i]) || s[i] == MINUS || s[i] == POINT
}

/// A run of digits that ends the text, or that a byte which is no digit
/// follows, is found whole.
pub proof fn lemma_digit_run(s: Seq<u8>, from: int, end: int)
    requires
        0 <= from <= end <= s.len(),
        forall|i: int| from <= i < end ==> is_digit(#[trigger] s[i]),
        end == s.len() || !is_digit(s[end]),
    ensures
        digit_run_end(s, from) == end,
    decreases end - from,
{
    if from < end {
        lemma_digit_run(s, from + 1, end);
    }
}

/// What is written for a number is digits that write the number.
pub proof fn lemma_count_text(n: nat)
    ensures
        count_text(n).len() >= 1,
        all_digits(count_text(n)),
        digits_value(count_text(n)) == n,
    decreases n,
{
    if n < 10 {
        let text = seq![digit_byte(n)];
        assert(text.drop_last() =~= Seq::<u8>::empty());
        assert(digits_value(Seq::<u8>::empty()) == 0);
        assert(text.last() == digit_byte(n));
    } else {
        lemma_count_text(n / 10);
        let text = count_text(n);
        assert(text.drop_last() =~= count_text(n / 10));
        assert(text.last() == digit_byte(n % 10));
        assert forall|i: int| 0 <= i < text.len() implies is_digit(#[trigger] text[i]) by {
            if i < text.len() - 1 {
                assert(is_digit(count_text(n / 10)[i]));
            }
        }
    }
}

/// A count that is written is read back.
pub proof fn lemma_count_round_trip(n: nat)
    requires
        n <= usize::MAX,
    ensures
        count_of(count_text(n)) == Some(n as usize),
{
    lemma_count_text(n);
    assert(is_digit(count_text(n)[0]));
}

/// Padded digits write the number below the power of ten of their length.
proof fn lemma_padded_text(n: nat, places: nat)
    requires
        n < pow10(places),
    ensures
        padded_text(n, places).len() == places,
        all_digits(padded_text(n, places)),
        digits_value(padded_text(n, places)) == n,
    decreases places,
{
    if places > 0 {
        lemma_pow10(places, 0);
        lemma_padded_text(n / 10, (places - 1) as nat);
        let text = padded_text(n, places);
        assert(text.drop_last() =~= padded_text(n / 10, (places - 1) as nat));
        assert(text.last() == digit_byte(n % 10));
        assert forall|i: int| 0 <= i < text.len() implies is_digit(#[trigger] text[i]) by {
            if i < text.len() - 1 {
                assert(is_digit(padded_text(n / 10, (places - 1) as nat)[i]));
            }
        }
    }
}

/// The digits of a fraction write it, up to the zeros that were left out
/// at its end.
proof fn lemma_fraction_text(fraction: nat, places: nat)
    requires
        0 < fraction < pow10(places),
    ensures
        1 <= fraction_text(fraction, places).len() <= places,
        all_digits(fraction_text(fraction, places)),
        digits_value(fraction_text(fraction, places)) * pow10(
            (places - fraction_text(fraction, places).len()) as nat,
        ) == fraction,
    decreases places,
{
    lemma_pow10(places, 0);
    if fraction % 10 == 0 {
        lemma_fraction_text(fraction / 10, (places - 1) as nat);
        let text = fraction_text(fraction / 10, (places - 1) as nat);
        let left = (places - 1 - text.len()) as nat;
        lemma_pow10(left + 1, 0);
        let (v, p) = (digits_value(text) as int, pow10(left) as int);
        assert(v * (10 * p) == (v * p) * 10) by (nonlinear_arith);
    } else {
        lemma_padded_text(fraction, places);
        assert(pow10(0) == 1);
        let v = digits_value(padded_text(fraction, places)) as int;
        assert(v * 1 == v) by (nonlinear_arith);
    }
}

/// What is written for a coordinate is a word of a number.
pub proof fn lemma_coordinate_text_is_word(units: int)
    ensures
        is_number_word(coordinate_text(units)),
{
    let whole = size_of(units) / (SCALE as nat);
    let fraction = size_of(units) % (SCALE as nat);
    lemma_count_text(whole);
    let text = coordinate_text(units);
    let sign: Seq<u8> = if units < 0 {
        seq![MINUS]
    } else {
        Seq::empty()
    };
    let head = sign + count_text(whole);
    assert(pow10(7) == 10_000_000) by {
        reveal_with_fuel(pow10, 8);
    }
    if fraction != 0 {
        lemma_fraction_text(fraction, SCALE_DIGITS as nat);
    }
    let digits = fraction_text(fraction, SCALE_DIGITS as nat);
    assert forall|i: int| 0 <= i < text.len() implies is_digit(#[trigger] text[i]) || text[i]
        == MINUS || text[i] == POINT by {
        if sign.len() <= i < head.len() {
            assert(is_digit(count_text(whole)[i - sign.len()]));
        } else if i > head.len() {
            assert(text[i] == digits[i - head.len() - 1]);
            assert(is_digit(digits[i - head.len() - 1]));
        }
    }
}

/// A coordinate that is written is read back.
pub proof fn lemma_coordinate_round_trip(units: int)
    requires
        i128::MIN <= units <= i128::MAX,
    ensures
        coordinate_of(coordinate_text(units)) == Some(units as i128),
{
    let size = size_of(units);
    let whole = size / (SCALE as nat);
    let fraction = size % (SCALE as nat);
    let text = coordinate_text(units);
    let sign: Seq<u8> = if units < 0 {
        seq![MINUS]
    } else {
        Seq::empty()
    };
    let first = count_text(whole);
    lemma_count_text(whole);
    assert(pow10(7) == 10_000_000) by {
        reveal_with_fuel(pow10, 8);
    }
    let start = sign.len() as int;
    let end = start + first.len();
    assert(is_digit(first[0]));
    assert(text[start] == first[0]);
    assert(whole_start(text) == start);
    assert forall|i: int| start <= i < end implies is_digit(#[trigger] text[i]) by {
        assert(text[i] == first[i - start]);
    }
    let seven = pow10(7) as int;
    assert(text.len() > 0 && (text[0] == MINUS <==> units < 0));
    assert(SCALE == 10_000_000);
    vstd::arithmetic::div_mod::lemma_fundamental_div_mod(size as int, 10_000_000);
    assert(10_000_000 * (size as int / 10_000_000) == whole * 10_000_000) by (nonlinear_arith)
        requires
            whole == size as int / 10_000_000,
    ;
    if fraction == 0 {
        assert(text =~= sign + first);
        lemma_digit_run(text, start, end);
        lemma_digit_run(text, end, end);
        assert(whole_end(text) == end);
        assert(fraction_start(text) == end);
        assert(fraction_end(text) == end);
        assert(mantissa(text) =~= first);
        assert(whole * seven == size) by (nonlinear_arith)
            requires
                seven == 10_000_000,
                whole * 10_000_000 == size,
        ;
        assert(scaled(digits_value(mantissa(text)), SCALE_DIGITS + 0 - 0) == size);
    } else {
        lemma_fraction_text(fraction, SCALE_DIGITS as nat);
        let second = fraction_text(fraction, SCALE_DIGITS as nat);
        assert(text =~= sign + first + (seq![POINT] + second));
        assert(text[end] == POINT);
        lemma_digit_run(text, start, end);
        assert forall|i: int| end + 1 <= i < text.len() implies is_digit(#[trigger] text[i]) by {
            assert(text[i] == second[i - end - 1]);
        }
        lemma_digit_run(text, end + 1, text.len() as int);
        assert(whole_end(text) == end);
        assert(fraction_start(text) == end + 1);
        assert(fraction_end(text) == text.len());
        assert(mantissa(text) =~= first + second);
        lemma_digits_value_concat(first, second);
        let left = (SCALE_DIGITS - second.len()) as nat;
        lemma_pow10(second.len(), left);
        let (w, v, p, q) = (
            whole as int,
            digits_value(second) as int,
            pow10(second.len()) as int,
            pow10(left) as int,
        );
        assert((w * p + v) * q == w * (p * q) + v * q) by (nonlinear_arith);
        assert(w * (p * q) == size - fraction) by (nonlinear_arith)
            requires
                p * q == 10_000_000,
                w * 10_000_000 == size - fraction,
        ;
        assert(scaled(digits_value(mantissa(text)), SCALE_DIGITS + 0 - second.len()) == size);
    }
    assert(number_parts(text) is Some);
}

} // verus!
