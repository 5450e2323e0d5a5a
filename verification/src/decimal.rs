//! Reading a quantile from the text of a decimal number, such as `0.25`,
//! `+.5` or `25e-2`.

use vstd::prelude::*;
use vstd::arithmetic::mul::lemma_mul_inequality;
use vstd::string::StringSliceAdditionalSpecFns;
use crate::parse::{all_digits, digits_value, is_digit, lemma_digits_grow};
use crate::selection::Quantile;

verus! {

/// The decimal places to which a quantile is read.
pub const QUANTILE_PLACES: usize = 19;

/// The denominator of a quantile that was read: ten to the power of
/// `QUANTILE_PLACES`.
pub const QUANTILE_SCALE: u64 = 10_000_000_000_000_000_000;

/// Why a text gives no ratio.
#[derive(Clone, Copy, Debug, PartialEq, Eq, Structural)]
pub enum DecimalFault {
    /// The text is not the text of a number.
    NotANumber,
    /// The text is that of a number that no ratio of two 64-bit numbers over
    /// `QUANTILE_SCALE` stands for: it is below zero, too large, infinite or
    /// not a number at all.
    OutOfRange,
}

/// Ten to the power of `exponent`.
pub open spec fn power_of_ten(exponent: nat) -> nat
    decreases exponent,
{
    if exponent == 0 {
        1
    } else {
        10 * power_of_ten((exponent - 1) as nat)
    }
}

/// The byte is a plus or a minus sign.
pub open spec fn is_sign(b: u8) -> bool {
    b == 43 || b == 45
}

/// The byte, or the lower case letter for an upper case letter.
pub open spec fn lowercase(b: u8) -> u8 {
    if 65 <= b <= 90 {
        (b + 32) as u8
    } else {
        b
    }
}

/// Where the digits that begin at `from` end.
pub open spec fn digits_end(text: Seq<u8>, from: int) -> int
    decreases text.len() - from,
{
    if 0 <= from < text.len() && is_digit(text[from]) {
        digits_end(text, from + 1)
    } else {
        from
    }
}

/// Some digit is not 0.
pub open spec fn any_nonzero(digits: Seq<u8>) -> bool {
    exists|i: int| 0 <= i < digits.len() && #[trigger] digits[i] != 48
}

/// Where the number begins: behind the sign, if there is one.
pub open spec fn body_start(text: Seq<u8>) -> int {
    if text.len() > 0 && is_sign(text[0]) {
        1
    } else {
        0
    }
}

/// Where the digits before the point end.
pub open spec fn whole_end(text: Seq<u8>) -> int {
    digits_end(text, body_start(text))
}

/// Where the digits behind the point begin: behind the point, if there is
/// one.
pub open spec fn fraction_start(text: Seq<u8>) -> int {
    if whole_end(text) < text.len() && text[whole_end(text)] == 46 {
        whole_end(text) + 1
    } else {
        whole_end(text)
    }
}

/// Where the digits behind the point end.
pub open spec fn fraction_end(text: Seq<u8>) -> int {
    digits_end(text, fraction_start(text))
}

/// The digits of the number, those before the point and those behind it.
pub open spec fn mantissa(text: Seq<u8>) -> Seq<u8> {
    text.subrange(body_start(text), whole_end(text)) + text.subrange(
        fraction_start(text),
        fraction_end(text),
    )
}

/// Where the digits of the exponent begin: behind the letter `e` and the
/// sign, if there is one.
pub open spec fn exponent_start(text: Seq<u8>) -> int {
    if fraction_end(text) + 1 < text.len() && is_sign(text[fraction_end(text) + 1]) {
        fraction_end(text) + 2
    } else {
        fraction_end(text) + 1
    }
}

/// The text is that of a number: a sign or none, digits with a point among
/// them, before them, behind them or nowhere, and then nothing more or an
/// exponent, which is the letter `e`, a sign or none, and digits. There is a
/// digit before or behind the point, and one in an exponent.
pub open spec fn is_decimal(text: Seq<u8>) -> bool {
    &&& mantissa(text).len() > 0
    &&& fraction_end(text) == text.len() || {
        &&& lowercase(text[fraction_end(text)]) == 101
        &&& exponent_start(text) < text.len()
        &&& digits_end(text, exponent_start(text)) == text.len()
    }
}

/// The exponent of the number without its sign, 0 where it has none.
pub open spec fn exponent_size(text: Seq<u8>) -> nat {
    if fraction_end(text) >= text.len() {
        0
    } else {
        digits_value(text.subrange(exponent_start(text), text.len() as int))
    }
}

/// The exponent of the number has a minus sign.
pub open spec fn exponent_falls(text: Seq<u8>) -> bool {
    fraction_end(text) + 1 < text.len() && text[fraction_end(text) + 1] == 45
}

/// How many digits stand before the point once the exponent has moved it and
/// `QUANTILE_PLACES` more places have been taken in.
pub open spec fn places_kept(whole: int, falls: bool, size: nat) -> int {
    if falls {
        whole - size + QUANTILE_PLACES
    } else {
        whole + size + QUANTILE_PLACES
    }
}

/// Behind its sign, the text is one of the words `inf`, `infinity` and `nan`,
/// in upper or lower case.
pub open spec fn is_special(text: Seq<u8>) -> bool {
    let body = text.subrange(body_start(text), text.len() as int);
    ||| body.len() == 3 && lowercase(body[0]) == 105 && lowercase(body[1]) == 110 && lowercase(
        body[2],
    ) == 102
    ||| body.len() == 3 && lowercase(body[0]) == 110 && lowercase(body[1]) == 97 && lowercase(
        body[2],
    ) == 110
    ||| body.len() == 8 && lowercase(body[0]) == 105 && lowercase(body[1]) == 110 && lowercase(
        body[2],
    ) == 102 && lowercase(body[3]) == 105 && lowercase(body[4]) == 110 && lowercase(body[5])
        == 105 && lowercase(body[6]) == 116 && lowercase(body[7]) == 121
}

/// The number that `digits` stand for when the point is put behind the first
/// `keep` of them, rounded up to a whole number. Where there are fewer digits
/// than `keep`, zeros follow them.
pub open spec fn shifted_up(digits: Seq<u8>, keep: int) -> nat {
    if keep >= digits.len() {
        digits_value(digits) * power_of_ten((keep - digits.len()) as nat)
    } else {
        let kept = if keep < 0 {
            0
        } else {
            keep
        };
        digits_value(digits.take(kept)) + if any_nonzero(
            digits.subrange(kept, digits.len() as int),
        ) {
            1nat
        } else {
            0nat
        }
    }
}

/// The number of the text in units of one over `QUANTILE_SCALE`, rounded up
/// to a whole number of them, and without its sign.
pub open spec fn scaled_value(text: Seq<u8>) -> nat {
    shifted_up(
        mantissa(text),
        places_kept(
            whole_end(text) - body_start(text),
            exponent_falls(text),
            exponent_size(text),
        ),
    )
}

/// The ratio that a text stands for: the number it is the text of, held to
/// `QUANTILE_PLACES` decimal places and rounded up where it has more.
pub open spec fn decimal_of(text: Seq<u8>) -> Result<Quantile, DecimalFault> {
    if is_special(text) {
        Err(DecimalFault::OutOfRange)
    } else if !is_decimal(text) {
        Err(DecimalFault::NotANumber)
    } else if scaled_value(text) > u64::MAX || (text[0] == 45 && scaled_value(text) > 0) {
        Err(DecimalFault::OutOfRange)
    } else {
        Ok(Quantile { numerator: scaled_value(text) as u64, denominator: QUANTILE_SCALE })
    }
}

/// The powers of ten grow with the exponent.
proof fn lemma_power_of_ten_grows(low: nat, high: nat)
    requires
        low <= high,
    ensures
        1 <= power_of_ten(low) <= power_of_ten(high),
    decreases high,
{
    if low < high {
        lemma_power_of_ten_grows(low, (high - 1) as nat);
    } else if low > 0 {
        lemma_power_of_ten_grows((low - 1) as nat, (low - 1) as nat);
    }
}

/// A number that is not 0 and is followed by twenty zeros or more does not
/// fit in 64 bits.
proof fn lemma_padded_far(value: nat, zeros: nat)
    requires
        value >= 1,
        zeros >= 20,
    ensures
        value * power_of_ten(zeros) > u64::MAX,
{
    lemma_power_of_ten_grows(20, zeros);
    assert(power_of_ten(20) == 100_000_000_000_000_000_000nat) by {
        reveal_with_fuel(power_of_ten, 21);
    }
    lemma_mul_inequality(1, value as int, power_of_ten(zeros) as int);
}

/// The lower case letter for an upper case letter.
fn lower(b: u8) -> (l: u8)
    ensures
        l == lowercase(b),
{
    if 65 <= b && b <= 90 {
        b + 32
    } else {
        b
    }
}

/// Where the digits that begin at `from` end.
fn scan_digits(text: &[u8], from: usize) -> (end: usize)
    requires
        from <= text@.len(),
    ensures
        end == digits_end(text@, from as int),
        from <= end <= text@.len(),
        all_digits(text@.subrange(from as int, end as int)),
{
    let mut i: usize = from;
    while i < text.len() && 48 <= text[i] && text[i] <= 57
        invariant
            from <= i <= text@.len(),
            digits_end(text@, from as int) == digits_end(text@, i as int),
            forall|k: int| from <= k < i ==> is_digit(#[trigger] text@[k]),
        decreases text.len() - i,
    {
        i += 1;
    }
    i
}

/// The number that the digits from `from` to `to` stand for, or `None` where
/// it does not fit in 128 bits.
fn run_value(text: &[u8], from: usize, to: usize) -> (number: Option<u128>)
    requires
        from <= to <= text@.len(),
        all_digits(text@.subrange(from as int, to as int)),
    ensures
        match number {
            Some(n) => n == digits_value(text@.subrange(from as int, to as int)),
            None => digits_value(text@.subrange(from as int, to as int)) > u128::MAX,
        },
{
    let ghost digits = text@.subrange(from as int, to as int);
    let mut total: u128 = 0;
    let mut i: usize = from;
    while i < to
        invariant
            from <= i <= to <= text@.len(),
            digits == text@.subrange(from as int, to as int),
            all_digits(digits),
            total == digits_value(digits.take(i - from)),
        decreases to - i,
    {
        let b = text[i];
        proof {
            assert(digits[i - from] == b);
            assert(is_digit(digits[i - from]));
            assert(digits.take(i - from + 1).drop_last() =~= digits.take(i - from));
            assert(digits.take(i - from + 1).last() == b);
        }
        let next = match total.checked_mul(10) {
            Some(tenfold) => tenfold.checked_add((b - 48) as u128),
            None => None,
        };
        match next {
            Some(next) => {
                total = next;
            },
            None => {
                proof {
                    lemma_digits_grow(digits, i - from + 1);
                }
                return None;
            },
        }
        i += 1;
    }
    proof {
        assert(digits.take(to - from) =~= digits);
    }
    Some(total)
}

/// Whether a digit from `from` on is not 0.
fn has_nonzero(digits: &Vec<u8>, from: usize) -> (found: bool)
    requires
        from <= digits@.len(),
    ensures
        found == any_nonzero(digits@.subrange(from as int, digits@.len() as int)),
{
    let ghost rest = digits@.subrange(from as int, digits@.len() as int);
    let mut i: usize = from;
    while i < digits.len()
        invariant
            from <= i <= digits@.len(),
            rest == digits@.subrange(from as int, digits@.len() as int),
            forall|k: int| 0 <= k < i - from ==> #[trigger] rest[k] == 48,
        decreases digits.len() - i,
    {
        if digits[i] != 48 {
            assert(rest[i - from] != 48);
            return true;
        }
        i += 1;
    }
    false
}

/// The number that `digits` stand for with the point behind the first `keep`
/// of them, rounded up, or `None` where it does not fit in 64 bits.
fn cut_up(digits: &Vec<u8>, keep: usize) -> (number: Option<u64>)
    requires
        keep < digits@.len(),
        all_digits(digits@),
    ensures
        number is Some <==> shifted_up(digits@, keep as int) <= u64::MAX,
        number matches Some(n) ==> n == shifted_up(digits@, keep as int),
{
    proof {
        assert(digits@.subrange(0, keep as int) =~= digits@.take(keep as int));
        assert forall|k: int| 0 <= k < keep implies is_digit(
            #[trigger] digits@.subrange(0, keep as int)[k],
        ) by {
            assert(is_digit(digits@[k]));
        }
    }
    let kept = match run_value(digits.as_slice(), 0, keep) {
        Some(kept) => kept,
        None => {
            return None;
        },
    };
    let more: u128 = if has_nonzero(digits, keep) {
        1
    } else {
        0
    };
    if kept > u64::MAX as u128 - more {
        None
    } else {
        Some((kept + more) as u64)
    }
}

/// The number that `digits` stand for when `zeros` zeros follow them, or
/// `None` where it does not fit in 64 bits. Of twenty zeros or more, only
/// that there are so many needs to be told.
fn pad(digits: &Vec<u8>, zeros: u8, ghost_zeros: Ghost<nat>) -> (number: Option<u64>)
    requires
        all_digits(digits@),
        zeros <= 20,
        zeros < 20 ==> ghost_zeros@ == zeros,
        zeros == 20 ==> ghost_zeros@ >= 20,
    ensures
        number is Some <==> digits_value(digits@) * power_of_ten(ghost_zeros@) <= u64::MAX,
        number matches Some(n) ==> n == digits_value(digits@) * power_of_ten(ghost_zeros@),
{
    proof {
        assert(digits@.subrange(0, digits@.len() as int) =~= digits@);
        lemma_power_of_ten_grows(0, ghost_zeros@);
    }
    let value = run_value(digits.as_slice(), 0, digits.len());
    let ghost exact = digits_value(digits@);
    let ghost power = power_of_ten(ghost_zeros@);
    let start: u64 = match value {
        Some(v) => {
            if v == 0 {
                assert(exact * power == 0) by (nonlinear_arith)
                    requires
                        exact == 0,
                ;
                return Some(0);
            }
            if v > u64::MAX as u128 {
                proof {
                    lemma_mul_inequality(1, power as int, exact as int);
                    assert(exact * power == power * exact) by (nonlinear_arith);
                }
                return None;
            }
            v as u64
        },
        None => {
            proof {
                lemma_mul_inequality(1, power as int, exact as int);
                assert(exact * power == power * exact) by (nonlinear_arith);
            }
            return None;
        },
    };
    if zeros == 20 {
        proof {
            lemma_padded_far(exact, ghost_zeros@);
        }
        return None;
    }
    let mut padded: u64 = start;
    let mut done: u8 = 0;
    proof {
        assert(exact * power_of_ten(0) == exact) by (nonlinear_arith)
            requires
                power_of_ten(0) == 1,
        ;
    }
    while done < zeros
        invariant
            done <= zeros < 20,
            ghost_zeros@ == zeros,
            exact == digits_value(digits@),
            padded == exact * power_of_ten(done as nat),
        decreases zeros - done,
    {
        let ghost before = power_of_ten(done as nat);
        proof {
            assert(exact * (10 * before) == (exact * before) * 10) by (nonlinear_arith);
        }
        match padded.checked_mul(10) {
            Some(next) => {
                padded = next;
            },
            None => {
                proof {
                    lemma_power_of_ten_grows((done + 1) as nat, zeros as nat);
                    lemma_mul_inequality(
                        power_of_ten((done + 1) as nat) as int,
                        power_of_ten(zeros as nat) as int,
                        exact as int,
                    );
                    assert(exact * power_of_ten((done + 1) as nat) == power_of_ten(
                        (done + 1) as nat,
                    ) * exact) by (nonlinear_arith);
                    assert(exact * power_of_ten(zeros as nat) == power_of_ten(zeros as nat)
                        * exact) by (nonlinear_arith);
                }
                return None;
            },
        }
        done += 1;
    }
    Some(padded)
}

/// Whether the text is, behind its sign, one of the words `inf`, `infinity`
/// and `nan`.
fn is_special_word(text: &[u8], from: usize) -> (special: bool)
    requires
        from == body_start(text@),
    ensures
        special == is_special(text@),
{
    let n = text.len();
    let ghost body = text@.subrange(from as int, n as int);
    if n - from == 3 {
        proof {
            assert(body[0] == text@[from as int] && body[1] == text@[from + 1] && body[2]
                == text@[from + 2]);
        }
        let a = lower(text[from]);
        let b = lower(text[from + 1]);
        let c = lower(text[from + 2]);
        (a == 105 && b == 110 && c == 102) || (a == 110 && b == 97 && c == 110)
    } else if n - from == 8 {
        proof {
            assert(body[0] == text@[from as int] && body[1] == text@[from + 1] && body[2]
                == text@[from + 2] && body[3] == text@[from + 3] && body[4] == text@[from + 4]
                && body[5] == text@[from + 5] && body[6] == text@[from + 6] && body[7]
                == text@[from + 7]);
        }
        lower(text[from]) == 105 && lower(text[from + 1]) == 110 && lower(text[from + 2]) == 102
            && lower(text[from + 3]) == 105 && lower(text[from + 4]) == 110 && lower(
            text[from + 5],
        ) == 105 && lower(text[from + 6]) == 116 && lower(text[from + 7]) == 121
    } else {
        false
    }
}

/// The digits of `text` from `from` to `to`, put behind `digits`.
fn take_digits(digits: &mut Vec<u8>, text: &[u8], from: usize, to: usize)
    requires
        from <= to <= text@.len(),
    ensures
        final(digits)@ == old(digits)@ + text@.subrange(from as int, to as int),
{
    let ghost before = digits@;
    let mut i: usize = from;
    while i < to
        invariant
            from <= i <= to <= text@.len(),
            digits@ == before + text@.subrange(from as int, i as int),
        decreases to - i,
    {
        digits.push(text[i]);
        proof {
            assert(text@.subrange(from as int, i + 1) =~= text@.subrange(from as int, i as int).push(
                text@[i as int],
            ));
            assert(digits@ =~= before + text@.subrange(from as int, i + 1));
        }
        i += 1;
    }
}

/// Where the parts of a number stand in its text, and its exponent.
struct Shape {
    body: usize,
    whole_to: usize,
    fraction_from: usize,
    fraction_to: usize,
    falls: bool,
    size: Option<u128>,
}

/// Finds the parts of a number in its text.
fn read_shape(bytes: &[u8]) -> (read: Result<Shape, DecimalFault>)
    ensures
        match read {
            Ok(shape) => {
                &&& !is_special(bytes@)
                &&& is_decimal(bytes@)
                &&& shape.body == body_start(bytes@)
                &&& shape.whole_to == whole_end(bytes@)
                &&& shape.fraction_from == fraction_start(bytes@)
                &&& shape.fraction_to == fraction_end(bytes@)
                &&& shape.body <= shape.whole_to <= shape.fraction_from <= shape.fraction_to
                    <= bytes@.len()
                &&& all_digits(bytes@.subrange(shape.body as int, shape.whole_to as int))
                &&& all_digits(
                    bytes@.subrange(shape.fraction_from as int, shape.fraction_to as int),
                )
                &&& shape.falls == exponent_falls(bytes@)
                &&& match shape.size {
                    Some(size) => size == exponent_size(bytes@),
                    None => exponent_size(bytes@) > u128::MAX,
                }
            },
            Err(fault) => if is_special(bytes@) {
                fault == DecimalFault::OutOfRange
            } else {
                fault == DecimalFault::NotANumber && !is_decimal(bytes@)
            },
        },
{
    let n = bytes.len();
    let body: usize = if n > 0 && (bytes[0] == 43 || bytes[0] == 45) {
        1
    } else {
        0
    };
    if is_special_word(bytes, body) {
        return Err(DecimalFault::OutOfRange);
    }
    let whole_to = scan_digits(bytes, body);
    let fraction_from = if whole_to < n && bytes[whole_to] == 46 {
        whole_to + 1
    } else {
        whole_to
    };
    let fraction_to = scan_digits(bytes, fraction_from);
    if (whole_to - body) + (fraction_to - fraction_from) == 0 {
        return Err(DecimalFault::NotANumber);
    }
    let mut size: Option<u128> = Some(0);
    let mut falls = false;
    if fraction_to < n {
        if lower(bytes[fraction_to]) != 101 {
            return Err(DecimalFault::NotANumber);
        }
        let sign_at = fraction_to + 1;
        let signed = sign_at < n && (bytes[sign_at] == 43 || bytes[sign_at] == 45);
        falls = signed && bytes[sign_at] == 45;
        let from = if signed {
            sign_at + 1
        } else {
            sign_at
        };
        if from >= n {
            return Err(DecimalFault::NotANumber);
        }
        let to = scan_digits(bytes, from);
        if to != n {
            return Err(DecimalFault::NotANumber);
        }
        size = run_value(bytes, from, n);
    }
    Ok(Shape { body, whole_to, fraction_from, fraction_to, falls, size })
}

/// The number that `digits` stand for with the point behind the first
/// `whole` of them, moved by the exponent and by `QUANTILE_PLACES` places
/// more, rounded up; `None` where it does not fit in 64 bits.
fn scale(digits: &Vec<u8>, whole: usize, falls: bool, size: Option<u128>, exact: Ghost<nat>) -> (scaled:
    Option<u64>)
    requires
        all_digits(digits@),
        whole <= digits@.len(),
        digits@.len() >= 1,
        match size {
            Some(size) => size == exact@,
            None => exact@ > u128::MAX,
        },
    ensures
        scaled is Some <==> shifted_up(digits@, places_kept(whole as int, falls, exact@))
            <= u64::MAX,
        scaled matches Some(t) ==> t == shifted_up(
            digits@,
            places_kept(whole as int, falls, exact@),
        ),
{
    let count = digits.len();
    let ghost keep = places_kept(whole as int, falls, exact@);
    let reach: u128 = whole as u128 + 19;
    let near: Option<u128> = match size {
        Some(e) => if e <= 0x1_0000_0000_0000_0040 {
            Some(e)
        } else {
            None
        },
        None => None,
    };
    proof {
        assert(digits@.take(0) =~= Seq::<u8>::empty());
    }
    match near {
        Some(e) => {
            if falls && e >= reach {
                if has_nonzero(digits, 0) {
                    Some(1)
                } else {
                    Some(0)
                }
            } else {
                let keep_at: u128 = if falls {
                    reach - e
                } else {
                    reach + e
                };
                assert(keep_at == keep);
                if keep_at < count as u128 {
                    cut_up(digits, keep_at as usize)
                } else {
                    let zeros: u128 = keep_at - count as u128;
                    pad(
                        digits,
                        if zeros >= 20 {
                            20u8
                        } else {
                            zeros as u8
                        },
                        Ghost(zeros as nat),
                    )
                }
            }
        },
        None => {
            if falls {
                assert(keep < 0);
                if has_nonzero(digits, 0) {
                    Some(1)
                } else {
                    Some(0)
                }
            } else {
                assert(keep - count >= 20);
                pad(digits, 20, Ghost((keep - count) as nat))
            }
        },
    }
}

impl Quantile {
    /// Reads a ratio from the text of a number: `0.25`, `.5`, `+0.5`, `25e-2`
    /// and the like. The ratio is the number held to `QUANTILE_PLACES`
    /// decimal places, over `QUANTILE_SCALE`; a number of more places is
    /// rounded up. A text that is no number is refused, and so is a number
    /// that is below zero or too large for such a ratio.
    pub fn from_decimal(text: &str) -> (read: Result<Quantile, DecimalFault>)
        ensures
            read == decimal_of(text.spec_bytes()),
    {
        let bytes = text.as_bytes();
        let shape = match read_shape(bytes) {
            Ok(shape) => shape,
            Err(fault) => {
                return Err(fault);
            },
        };
        let mut digits: Vec<u8> = Vec::new();
        take_digits(&mut digits, bytes, shape.body, shape.whole_to);
        take_digits(&mut digits, bytes, shape.fraction_from, shape.fraction_to);
        let whole = shape.whole_to - shape.body;
        proof {
            assert(digits@ =~= mantissa(bytes@));
            assert forall|k: int| 0 <= k < digits@.len() implies is_digit(#[trigger] digits@[k]) by {
                if k < whole {
                    assert(digits@[k] == bytes@.subrange(
                        shape.body as int,
                        shape.whole_to as int,
                    )[k]);
                } else {
                    assert(digits@[k] == bytes@.subrange(
                        shape.fraction_from as int,
                        shape.fraction_to as int,
                    )[k - whole]);
                }
            }
        }
        let scaled = scale(&digits, whole, shape.falls, shape.size, Ghost(exponent_size(bytes@)));
        match scaled {
            None => Err(DecimalFault::OutOfRange),
            Some(t) => {
                if bytes[0] == 45 && t > 0 {
                    Err(DecimalFault::OutOfRange)
                } else {
                    Ok(Quantile { numerator: t, denominator: QUANTILE_SCALE })
                }
            },
        }
    }
}

} // verus!
