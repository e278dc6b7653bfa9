//! Costs as amounts in whole units.
//!
//! A cost is held as a whole number of units, one unit being a
//! ten-thousandth, so that sums are exact and do not depend on the order of
//! their terms.
//!
//! The text of a cost is a decimal number: an optional sign, digits, and
//! optionally a point followed by digits, with a digit on at least one side
//! of the point; after that, optionally, an exponent: the letter `e` or `E`,
//! an optional sign, and digits. Every such text is a cost, unless its
//! amount is too large to hold. An amount that falls between two units is
//! rounded to the nearer one, and away from zero where it lies halfway. The
//! words for an infinity and for no number are not the text of a cost.

use crate::text::chars_of;
use vstd::prelude::*;

verus! {

/// The number of decimal places that a cost keeps.
pub const PLACES: usize = 4;

/// The largest amount, in units, that a cost can hold.
pub const MAX_UNITS: i64 = 9_223_372_036_854_775_807;

pub open spec fn is_digit(c: char) -> bool {
    '0' <= c && c <= '9'
}

pub open spec fn digit_value(c: char) -> int {
    c as int - '0' as int
}

/// The number that a string of digits writes, the empty string writing zero.
pub open spec fn number(digits: Seq<char>) -> int
    decreases digits.len(),
{
    if digits.len() == 0 {
        0
    } else {
        number(digits.drop_last()) * 10 + digit_value(digits.last())
    }
}

pub open spec fn all_digits(s: Seq<char>) -> bool {
    forall|k: int| 0 <= k < s.len() ==> is_digit(#[trigger] s[k])
}

/// Where the run of digits that begins at `from` stops.
pub open spec fn digits_end(s: Seq<char>, from: int) -> int
    decreases s.len() - from,
{
    if 0 <= from < s.len() && is_digit(s[from]) {
        digits_end(s, from + 1)
    } else {
        from
    }
}

/// The length of the sign that `text` begins with, if any.
pub open spec fn sign_len(text: Seq<char>) -> int {
    if text.len() > 0 && (text[0] == '+' || text[0] == '-') {
        1
    } else {
        0
    }
}

/// Whether `text` begins with a minus sign.
pub open spec fn is_negative(text: Seq<char>) -> bool {
    text.len() > 0 && text[0] == '-'
}

/// Whether `c` opens an exponent.
pub open spec fn is_mark(c: char) -> bool {
    c == 'e' || c == 'E'
}

/// How a text reads as a decimal number.
pub struct Reading {
    /// Whether the text has the shape of a decimal number.
    pub shaped: bool,
    /// Whether the text begins with a minus sign.
    pub negative: bool,
    /// The digits of the number, without its point.
    pub digits: Seq<char>,
    /// How many of the digits stand before the point, once the exponent has
    /// moved it. It may lie before the first digit or beyond the last.
    pub point: int,
}

/// Where the parts of a decimal number stand in a text.
pub struct Layout {
    /// Where the digits before the point begin, after the sign.
    pub start: int,
    /// Where the digits before the point stop.
    pub dot: int,
    /// Where the digits after the point begin.
    pub first: int,
    /// Where the digits after the point stop.
    pub stop: int,
    /// Whether an exponent follows.
    pub marked: bool,
    /// Whether the exponent has a minus sign.
    pub falling: bool,
    /// Where the digits of the exponent begin.
    pub from: int,
    /// Where the digits of the exponent stop.
    pub end: int,
}

/// Finds the parts of a decimal number in `text`, as far as they go.
pub open spec fn layout(text: Seq<char>) -> Layout {
    let start = sign_len(text);
    let dot = digits_end(text, start);
    let first = if dot < text.len() && text[dot] == '.' {
        dot + 1
    } else {
        dot
    };
    let stop = digits_end(text, first);
    let marked = stop < text.len() && is_mark(text[stop]);
    let power = text.skip(stop + 1);
    let from = if marked {
        stop + 1 + sign_len(power)
    } else {
        stop
    };
    Layout {
        start,
        dot,
        first,
        stop,
        marked,
        falling: marked && is_negative(power),
        from,
        end: digits_end(text, from),
    }
}

/// Reads `text` as a decimal number.
pub open spec fn reading(text: Seq<char>) -> Reading {
    let at = layout(text);
    let exponent = number(text.subrange(at.from, at.end));
    Reading {
        shaped: {
            &&& at.end == text.len()
            &&& (at.dot - at.start) + (at.stop - at.first) > 0
            &&& at.marked ==> at.from < at.end
        },
        negative: is_negative(text),
        digits: text.subrange(at.start, at.dot) + text.subrange(at.first, at.stop),
        point: if at.falling {
            at.dot - at.start - exponent
        } else {
            at.dot - at.start + exponent
        },
    }
}

/// The first `n` of `digits`, with zeros where `n` goes beyond their end;
/// nothing where `n` is not above zero.
pub open spec fn leading(digits: Seq<char>, n: int) -> Seq<char> {
    Seq::new(
        if n > 0 {
            n as nat
        } else {
            0
        },
        |k: int|
            if k < digits.len() {
                digits[k]
            } else {
                '0'
            },
    )
}

/// Whether what follows the first `n` of `digits` comes to half or more of
/// the last place kept: the digit that follows is a five or above.
pub open spec fn rounds_up(digits: Seq<char>, n: int) -> bool {
    0 <= n < digits.len() && digits[n] >= '5'
}

/// The cost that `text` writes, in units, or `None` where it writes none:
/// the digits up to the last place kept, read as a number, and one more
/// where the rest rounds up.
pub open spec fn cost_units(text: Seq<char>) -> Option<int> {
    let read = reading(text);
    let kept = read.point + PLACES;
    let magnitude = number(leading(read.digits, kept)) + if rounds_up(read.digits, kept) {
        1int
    } else {
        0int
    };
    if read.shaped && magnitude <= MAX_UNITS {
        Some(
            if read.negative {
                -magnitude
            } else {
                magnitude
            },
        )
    } else {
        None
    }
}

/// The run of digits from `from` lies inside `s` and holds digits only.
pub proof fn lemma_digits_end(s: Seq<char>, from: int)
    requires
        0 <= from <= s.len(),
    ensures
        from <= digits_end(s, from) <= s.len(),
        all_digits(s.subrange(from, digits_end(s, from))),
        digits_end(s, from) < s.len() ==> !is_digit(s[digits_end(s, from)]),
    decreases s.len() - from,
{
    if from < s.len() && is_digit(s[from]) {
        lemma_digits_end(s, from + 1);
        let end = digits_end(s, from);
        assert forall|k: int| 0 <= k < end - from implies is_digit(
            #[trigger] s.subrange(from, end)[k],
        ) by {
            if k > 0 {
                assert(s.subrange(from + 1, end)[k - 1] == s[from + k]);
            }
        }
    }
}

/// Writing one more digit multiplies by ten and adds the digit.
pub proof fn lemma_number_push(digits: Seq<char>, c: char)
    ensures
        number(digits.push(c)) == number(digits) * 10 + digit_value(c),
{
    assert(digits.push(c).drop_last() =~= digits);
}

/// A string of digits writes no negative number, and no smaller number than
/// any of its beginnings.
pub proof fn lemma_number_grows(digits: Seq<char>, n: int)
    requires
        all_digits(digits),
        0 <= n <= digits.len(),
    ensures
        0 <= number(digits.take(n)) <= number(digits),
    decreases digits.len(),
{
    if digits.len() == 0 {
        assert(digits.take(n) =~= digits);
    } else if n == digits.len() {
        assert(digits.take(n) =~= digits);
        assert(all_digits(digits.drop_last())) by {
            assert forall|k: int| 0 <= k < digits.drop_last().len() implies is_digit(
                #[trigger] digits.drop_last()[k],
            ) by {
                assert(digits.drop_last()[k] == digits[k]);
            }
        }
        lemma_number_grows(digits.drop_last(), n - 1);
        assert(is_digit(digits.last()));
    } else {
        assert(all_digits(digits.drop_last())) by {
            assert forall|k: int| 0 <= k < digits.drop_last().len() implies is_digit(
                #[trigger] digits.drop_last()[k],
            ) by {
                assert(digits.drop_last()[k] == digits[k]);
            }
        }
        lemma_number_grows(digits.drop_last(), n);
        assert(digits.drop_last().take(n) =~= digits.take(n));
        assert(is_digit(digits.last()));
    }
}

/// Finds where the run of digits that begins at `from` stops.
fn scan_digits(chars: &Vec<char>, from: usize) -> (end: usize)
    requires
        from <= chars.len(),
    ensures
        end == digits_end(chars@, from as int),
        from <= end <= chars.len(),
{
    let mut end: usize = from;
    while end < chars.len() && '0' <= chars[end] && chars[end] <= '9'
        invariant
            from <= end <= chars.len(),
            digits_end(chars@, from as int) == digits_end(chars@, end as int),
        decreases chars.len() - end,
    {
        end += 1;
    }
    end
}

/// The digits kept are digits.
proof fn lemma_leading_digits(digits: Seq<char>, n: int)
    requires
        all_digits(digits),
    ensures
        all_digits(leading(digits, n)),
{
    assert forall|k: int| 0 <= k < leading(digits, n).len() implies is_digit(
        #[trigger] leading(digits, n)[k],
    ) by {
        if k < digits.len() {
            assert(is_digit(digits[k]));
        }
    }
}

/// Keeping more digits gives no smaller number.
proof fn lemma_leading_grows(digits: Seq<char>, fewer: int, more: int)
    requires
        all_digits(digits),
        fewer <= more,
    ensures
        0 <= number(leading(digits, fewer)) <= number(leading(digits, more)),
{
    lemma_leading_digits(digits, more);
    if fewer <= 0 {
        lemma_number_grows(leading(digits, more), 0);
        assert(leading(digits, more).take(0) =~= leading(digits, fewer));
    } else {
        lemma_number_grows(leading(digits, more), fewer);
        assert(leading(digits, more).take(fewer) =~= leading(digits, fewer));
    }
}

/// Digits that write zero write zero however many of them are kept.
proof fn lemma_leading_zero(digits: Seq<char>, n: int)
    requires
        all_digits(digits),
        number(digits) == 0,
    ensures
        number(leading(digits, n)) == 0,
    decreases n,
{
    if n <= digits.len() {
        lemma_leading_grows(digits, n, digits.len() as int);
        assert(leading(digits, digits.len() as int) =~= digits);
    } else {
        lemma_leading_zero(digits, n - 1);
        assert(leading(digits, n) =~= leading(digits, n - 1).push('0'));
        lemma_number_push(leading(digits, n - 1), '0');
    }
}

/// Rounding looks at the next digit only: the amount kept is the amount with
/// one more digit kept, plus five, divided by ten. So it lies within half a
/// unit of that amount, and goes up where it lies halfway.
pub proof fn lemma_rounds_by_next_digit(digits: Seq<char>, n: int)
    requires
        all_digits(digits),
        0 <= n,
    ensures
        number(leading(digits, n)) + (if rounds_up(digits, n) {
            1int
        } else {
            0int
        }) == (number(leading(digits, n + 1)) + 5) / 10,
{
    let next = if n < digits.len() {
        digits[n]
    } else {
        '0'
    };
    assert(is_digit(next));
    assert(leading(digits, n + 1) =~= leading(digits, n).push(next));
    lemma_number_push(leading(digits, n), next);
}

/// A bound on exponents that lies beyond every length and every amount.
const FAR: i128 = 0x10_0000_0000_0000_0000_0000_0000;

/// Reads the digits of an exponent as a number, if it is no more than `FAR`.
fn read_power(digits: &Vec<char>) -> (r: Option<i128>)
    requires
        all_digits(digits@),
    ensures
        match r {
            Some(n) => 0 <= n == number(digits@) && n <= FAR,
            None => number(digits@) > FAR,
        },
{
    let mut acc: i128 = 0;
    let mut i: usize = 0;
    while i < digits.len()
        invariant
            i <= digits.len(),
            all_digits(digits@),
            acc == number(digits@.take(i as int)),
            0 <= acc <= FAR,
        decreases digits.len() - i,
    {
        let d: i128 = (digits[i] as u32 - '0' as u32) as i128;
        proof {
            assert(is_digit(digits@[i as int]));
            assert(digits@.take(i + 1) =~= digits@.take(i as int).push(digits@[i as int]));
            lemma_number_push(digits@.take(i as int), digits@[i as int]);
            lemma_number_grows(digits@, i + 1);
        }
        if acc > (FAR - d) / 10 {
            return None;
        }
        acc = acc * 10 + d;
        i += 1;
    }
    assert(digits@.take(i as int) =~= digits@);
    Some(acc)
}

/// Reads the first `kept` of `digits`, with zeros beyond their end, as a
/// number of units, if it fits. Digits that do not write zero fit only so
/// long as `kept` stays near their end.
fn read_units(digits: &Vec<char>, kept: i128) -> (r: Option<i64>)
    requires
        all_digits(digits@),
    ensures
        match r {
            Some(n) => {
                &&& 0 <= n == number(leading(digits@, kept as int))
                &&& kept > digits@.len() + MAX_UNITS ==> number(digits@) == 0
            },
            None => number(leading(digits@, kept as int)) > MAX_UNITS,
        },
{
    let len = digits.len();
    let mut acc: i64 = 0;
    let mut k: i128 = 0;
    while k < kept
        invariant
            0 <= k,
            kept > 0 ==> k <= kept,
            kept <= 0 ==> k == 0,
            len == digits@.len(),
            all_digits(digits@),
            acc == number(leading(digits@, k as int)),
            0 <= acc,
            k >= len ==> acc >= k - len,
        decreases kept - k,
    {
        if k >= len as i128 && acc == 0 {
            proof {
                lemma_leading_grows(digits@, len as int, k as int);
                assert(leading(digits@, len as int) =~= digits@);
                lemma_leading_zero(digits@, kept as int);
            }
            return Some(0);
        }
        let d: i64 = if k < len as i128 {
            (digits[k as usize] as u32 - '0' as u32) as i64
        } else {
            0
        };
        proof {
            let c = if k < len {
                digits@[k as int]
            } else {
                '0'
            };
            assert(is_digit(c));
            assert(leading(digits@, k + 1) =~= leading(digits@, k as int).push(c));
            lemma_number_push(leading(digits@, k as int), c);
            lemma_leading_grows(digits@, k + 1, kept as int);
        }
        if acc > (MAX_UNITS - d) / 10 {
            return None;
        }
        acc = acc * 10 + d;
        k += 1;
    }
    assert(leading(digits@, kept as int) =~= leading(digits@, k as int));
    Some(acc)
}

/// Puts the characters of `chars` from `from` to `to` at the end of `out`.
fn gather(chars: &Vec<char>, from: usize, to: usize, out: &mut Vec<char>)
    requires
        from <= to <= chars.len(),
    ensures
        final(out)@ == old(out)@ + chars@.subrange(from as int, to as int),
{
    let ghost before = out@;
    let mut i: usize = from;
    assert(out@ =~= before + chars@.subrange(from as int, i as int));
    while i < to
        invariant
            from <= i <= to <= chars.len(),
            out@ == before + chars@.subrange(from as int, i as int),
        decreases to - i,
    {
        out.push(chars[i]);
        i += 1;
        assert(out@ =~= before + chars@.subrange(from as int, i as int));
    }
}

/// Where the parts of a decimal number stand in a text that was scanned.
struct Survey {
    start: usize,
    dot: usize,
    first: usize,
    stop: usize,
    marked: bool,
    falling: bool,
    from: usize,
    end: usize,
}

/// Finds the parts of a decimal number in `chars`.
fn survey(chars: &Vec<char>) -> (at: Survey)
    ensures
        at.start == layout(chars@).start,
        at.dot == layout(chars@).dot,
        at.first == layout(chars@).first,
        at.stop == layout(chars@).stop,
        at.marked == layout(chars@).marked,
        at.falling == layout(chars@).falling,
        at.from == layout(chars@).from,
        at.end == layout(chars@).end,
        at.start <= at.dot <= at.first <= at.stop <= at.from <= at.end <= chars.len(),
        all_digits(chars@.subrange(at.start as int, at.dot as int)),
        all_digits(chars@.subrange(at.first as int, at.stop as int)),
        all_digits(chars@.subrange(at.from as int, at.end as int)),
{
    let n = chars.len();
    let start: usize = if n > 0 && (chars[0] == '+' || chars[0] == '-') {
        1
    } else {
        0
    };
    let dot = scan_digits(chars, start);
    let first = if dot < n && chars[dot] == '.' {
        dot + 1
    } else {
        dot
    };
    let stop = scan_digits(chars, first);
    let marked = stop < n && (chars[stop] == 'e' || chars[stop] == 'E');
    let mut from = stop;
    let mut falling = false;
    if marked {
        from = stop + 1;
        if from < n && (chars[from] == '+' || chars[from] == '-') {
            falling = chars[from] == '-';
            from = from + 1;
        }
        proof {
            let rest = chars@.skip(stop + 1);
            if stop + 1 < n {
                assert(rest[0] == chars@[stop + 1]);
            }
            assert(from == stop + 1 + sign_len(rest));
            assert(falling == is_negative(rest));
        }
    }
    let end = scan_digits(chars, from);
    proof {
        lemma_digits_end(chars@, start as int);
        lemma_digits_end(chars@, first as int);
        lemma_digits_end(chars@, from as int);
    }
    Survey { start, dot, first, stop, marked, falling, from, end }
}

/// Reads the text of a cost: its amount in units, or `None` where `text` is
/// not the text of a cost.
pub fn parse_cost(text: &str) -> (r: Option<i64>)
    ensures
        match r {
            Some(units) => cost_units(text@) == Some(units as int),
            None => cost_units(text@) is None,
        },
{
    let chars = chars_of(text);
    let n = chars.len();
    let negative = n > 0 && chars[0] == '-';
    let at = survey(&chars);
    let ghost read = reading(chars@);
    if at.end != n || (at.dot - at.start) + (at.stop - at.first) == 0 || (at.marked && at.from
        == at.end) {
        return None;
    }
    let mut digits: Vec<char> = Vec::new();
    gather(&chars, at.start, at.dot, &mut digits);
    gather(&chars, at.first, at.stop, &mut digits);
    proof {
        assert(digits@ =~= read.digits);
        assert forall|m: int| 0 <= m < digits@.len() implies is_digit(#[trigger] digits@[m]) by {
            if m < at.dot - at.start {
                assert(is_digit(chars@.subrange(at.start as int, at.dot as int)[m]));
            } else {
                assert(is_digit(
                    chars@.subrange(at.first as int, at.stop as int)[m - (at.dot - at.start)],
                ));
            }
        }
    }
    let mut power: Vec<char> = Vec::new();
    gather(&chars, at.from, at.end, &mut power);
    assert(power@ =~= chars@.subrange(at.from as int, at.end as int));
    let whole = (at.dot - at.start) as i128 + PLACES as i128;
    let ghost exact = read.point + PLACES;
    let kept: i128 = match read_power(&power) {
        Some(e) => {
            if at.falling {
                whole - e
            } else {
                whole + e
            }
        },
        None => {
            if at.falling {
                assert(leading(read.digits, exact) =~= Seq::<char>::empty());
                return Some(0);
            }
            FAR
        },
    };
    assert(kept == exact || (kept == FAR && exact > FAR));
    settle(&digits, kept, Ghost(exact), negative)
}

/// The amount that `digits` write with the first `kept` of them kept, signed
/// by `negative`. `kept` stands for `exact` where that lies too far to hold,
/// which makes no difference.
fn settle(digits: &Vec<char>, kept: i128, Ghost(exact): Ghost<int>, negative: bool) -> (r: Option<
    i64,
>)
    requires
        all_digits(digits@),
        kept == exact || (kept == FAR && exact > FAR),
    ensures
        ({
            let magnitude = number(leading(digits@, exact)) + if rounds_up(digits@, exact) {
                1int
            } else {
                0int
            };
            match r {
                Some(units) => magnitude <= MAX_UNITS && units == if negative {
                    -magnitude
                } else {
                    magnitude
                },
                None => magnitude > MAX_UNITS,
            }
        }),
{
    let len = digits.len();
    proof {
        lemma_leading_grows(digits@, kept as int, exact);
    }
    match read_units(digits, kept) {
        Some(low) => {
            proof {
                if kept != exact {
                    assert(len <= 0xffff_ffff_ffff_ffff);
                    assert(kept > digits@.len() + MAX_UNITS);
                    lemma_leading_zero(digits@, kept as int);
                    lemma_leading_zero(digits@, exact);
                }
            }
            let up = 0 <= kept && kept < len as i128 && digits[kept as usize] >= '5';
            assert(up == rounds_up(digits@, exact));
            if up && low == MAX_UNITS {
                return None;
            }
            let magnitude = if up {
                low + 1
            } else {
                low
            };
            Some(
                if negative {
                    -magnitude
                } else {
                    magnitude
                },
            )
        },
        None => None,
    }
}

} // verus!
