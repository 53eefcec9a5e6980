//! Counting attempts, and numbers in decimal.
use crate::backend::parse_gpu_batch_size;
use crate::counter::{
    counter_after, crossed_report_threshold, flush_global_tries, TryCounter,
};
use crate::error::Error;
use crate::text::{decimal_text, parse_number, same_text};
use std::sync::atomic::AtomicU64;
use vstd::arithmetic::div_mod::lemma_fundamental_div_mod;
use vstd::prelude::*;

verus! {

use crate::counter::{
    counter_added, counter_reads, law_report_when_multiple_passed, lump_sum,
};
use crate::hex::digit_char;
use crate::laws::digits::{lower_digits, number_in};
use crate::text::{
    all_digits, decimal_chars, decimal_digit, decimal_value, without_plus,
};

/// A report is due exactly when a multiple of `every` lies above the count
/// before and not above the count after; with zero there are none.
pub proof fn law_report_is_due(previous: u64, completed: u64, every: u64, r: bool)
    requires
        call_ensures(crossed_report_threshold, (previous, completed, every), r),
    ensures
        every == 0 ==> !r,
        every > 0 ==> (r <==> exists|k: int| previous < #[trigger] (k * every) <= completed),
{
    if every > 0 {
        law_report_when_multiple_passed(previous, completed, every);
    }
}

/// A quotient grows exactly when a multiple of the divisor was passed.
pub proof fn lemma_multiple_passed(a: int, b: int, every: int)
    requires
        every > 0,
    ensures
        a / every < b / every <==> exists|k: int| a < #[trigger] (k * every) <= b,
{
    let from = a / every;
    let to = b / every;
    lemma_fundamental_div_mod(a, every);
    lemma_fundamental_div_mod(b, every);
    if from < to {
        assert(a < to * every <= b) by (nonlinear_arith)
            requires
                a == every * from + a % every,
                b == every * to + b % every,
                0 <= a % every < every,
                0 <= b % every,
                from + 1 <= to,
                every > 0,
        ;
    }
    if exists|k: int| a < #[trigger] (k * every) <= b {
        let k = choose|k: int| a < #[trigger] (k * every) <= b;
        assert(from < k <= to) by (nonlinear_arith)
            requires
                a < k * every <= b,
                a == every * from + a % every,
                b == every * to + b % every,
                0 <= a % every,
                b % every < every,
                every > 0,
        ;
    }
}

/// Going from `a` to `c` through `b` passes a multiple exactly when one of the
/// two parts of the way does.
pub proof fn law_reports_add_up(a: u64, b: u64, c: u64, every: u64, ab: bool, bc: bool, ac: bool)
    requires
        a <= b <= c,
        call_ensures(crossed_report_threshold, (a, b, every), ab),
        call_ensures(crossed_report_threshold, (b, c, every), bc),
        call_ensures(crossed_report_threshold, (a, c, every), ac),
    ensures
        ac <==> ab || bc,
{
    if every > 0 {
        vstd::arithmetic::div_mod::lemma_div_is_ordered(a as int, b as int, every as int);
        vstd::arithmetic::div_mod::lemma_div_is_ordered(b as int, c as int, every as int);
    }
}

/// A counter goes up by what is added, and starts over behind its end.
pub proof fn law_counter_goes_up(before: u64, lump: u64, r: u64)
    requires
        call_ensures(counter_after, (before, lump), r),
    ensures
        before + lump <= u64::MAX ==> r == before + lump,
        before + lump > u64::MAX ==> r == before + lump - 0x1_0000_0000_0000_0000,
{
}

/// What was pending goes to the shared counter in one lump and is pending no
/// more; the result is the counter after it. With nothing pending the counter is
/// read.
pub proof fn law_pending_is_handed_over(counter: &AtomicU64)
    ensures
        forall|pending: &mut u64, r: u64| #[trigger]
            call_ensures(flush_global_tries, (counter, pending), r) ==> {
                &&& *final(pending) == 0
                &&& *pending == 0 ==> counter_reads(counter, r)
                &&& *pending > 0 ==> exists|before: u64| #[trigger]
                    counter_added(counter, *pending, before) && (before + *pending <= u64::MAX
                        ==> r == before + *pending) && (before + *pending > u64::MAX ==> r == before
                        + *pending - 0x1_0000_0000_0000_0000)
            },
{
    assert forall|pending: &mut u64, r: u64| #[trigger]
        call_ensures(flush_global_tries, (counter, pending), r) && *pending > 0 implies exists|
        before: u64,
    | #[trigger]
        counter_added(counter, *pending, before) && (before + *pending <= u64::MAX ==> r == before
            + *pending) && (before + *pending > u64::MAX ==> r == before + *pending
            - 0x1_0000_0000_0000_0000) by {
        let before = choose|before: u64| #[trigger]
            counter_added(counter, *pending, before) && r == (before + *pending)
                % 0x1_0000_0000_0000_0000;
        assert(counter_added(counter, *pending, before));
    }
}

/// Recording loses no attempt and adds none: what went to the shared counter and
/// what is still pending grow by the count together. Nothing near a whole lump
/// stays pending.
pub proof fn law_no_attempt_is_lost<'a>(count: u64)
    ensures
        forall|tries: &mut TryCounter<'a>| #[trigger]
            call_ensures(TryCounter::<'a>::record, (tries, count), ()) ==> {
                &&& lump_sum(final(tries).lumps()) + final(tries).pending() == lump_sum(
                    tries.lumps(),
                ) + tries.pending() + count
                &&& tries.pending() + count >= 8192 ==> final(tries).pending() == 0
                &&& tries.pending() + count < 8192 ==> lump_sum(final(tries).lumps()) == lump_sum(
                    tries.lumps(),
                )
                &&& final(tries).global() == tries.global()
            },
        forall|tries: &mut TryCounter<'a>, r: u64| #[trigger]
            call_ensures(TryCounter::<'a>::flush, (tries,), r) ==> {
                &&& lump_sum(final(tries).lumps()) == lump_sum(tries.lumps()) + tries.pending()
                &&& final(tries).pending() == 0
                &&& final(tries).global() == tries.global()
            },
{
}

/// What lumps come to is the sum of those of two rows of them.
pub proof fn law_lumps_add_up(first: Seq<u64>, second: Seq<u64>, lump: u64)
    ensures
        lump_sum(first + second) == lump_sum(first) + lump_sum(second),
        lump_sum(seq![lump]) == lump,
        lump_sum(Seq::empty()) == 0,
    decreases second.len(),
{
    if second.len() == 0 {
        assert(first + second =~= first);
    } else {
        law_lumps_add_up(first, second.drop_last(), lump);
        assert((first + second).drop_last() =~= first + second.drop_last());
    }
    assert(seq![lump].drop_last() =~= Seq::<u64>::empty());
    assert(lump_sum(seq![lump].drop_last()) == 0);
}

/// Two texts are the same exactly when they agree character by character.
pub proof fn law_same_text(a: &str, b: &str, r: bool)
    requires
        call_ensures(same_text, (a, b), r),
    ensures
        r <==> a@.len() == b@.len() && forall|i: int|
            0 <= i < a@.len() ==> #[trigger] a@[i] == b@[i],
{
    if a@.len() == b@.len() && forall|i: int| 0 <= i < a@.len() ==> #[trigger] a@[i] == b@[i] {
        assert(a@ =~= b@);
    }
}

/// Whether `text` writes these decimal digits, one character each.
pub open spec fn decimal(text: Seq<char>, digits: Seq<u8>) -> bool {
    text.len() == digits.len() && forall|i: int|
        0 <= i < digits.len() ==> #[trigger] digits[i] < 10 && text[i]
            == lower_digits()[digits[i] as int]
}

/// The digits that a text of decimal digits writes.
spec fn digits_of(text: Seq<char>) -> Seq<u8> {
    text.map_values(|c: char| decimal_digit(c)->0 as u8)
}

/// A decimal digit stands for its place among the digits.
proof fn lemma_decimal_digit(c: char, value: u8)
    requires
        value < 10,
    ensures
        decimal_digit(c) == Some(value as nat) <==> c == lower_digits()[value as int],
        digit_char(value) == lower_digits()[value as int],
{
    assert(value == 0 || value == 1 || value == 2 || value == 3 || value == 4 || value == 5
        || value == 6 || value == 7 || value == 8 || value == 9);
}

/// The value of decimal digits is the number that they spell.
proof fn lemma_decimal_value(text: Seq<char>, digits: Seq<u8>)
    requires
        decimal(text, digits),
    ensures
        all_digits(text),
        decimal_value(text) == number_in(10, digits),
    decreases digits.len(),
{
    assert forall|i: int| 0 <= i < text.len() implies decimal_digit(#[trigger] text[i]) == Some(
        digits[i] as nat,
    ) by {
        assert(digits[i] < 10);
        lemma_decimal_digit(text[i], digits[i]);
    }
    if digits.len() > 0 {
        let shorter = digits.drop_last();
        assert(decimal(text.drop_last(), shorter)) by {
            assert forall|i: int| 0 <= i < shorter.len() implies #[trigger] shorter[i] < 10
                && text.drop_last()[i] == lower_digits()[shorter[i] as int] by {
                assert(digits[i] < 10);
            }
        }
        lemma_decimal_value(text.drop_last(), shorter);
    }
}

/// A text of decimal digits writes the digits that are read from it.
proof fn lemma_digits_of(text: Seq<char>)
    requires
        all_digits(text),
    ensures
        decimal(text, digits_of(text)),
{
    let digits = digits_of(text);
    assert forall|i: int| 0 <= i < digits.len() implies #[trigger] digits[i] < 10 && text[i]
        == lower_digits()[digits[i] as int] by {
        assert(decimal_digit(text[i]) is Some);
        lemma_decimal_digit(text[i], digits[i]);
    }
}

/// Decimal digits, with at most a plus sign before them, are read as the number
/// that they spell, up to the largest allowed.
pub proof fn law_number_is_read(
    text: &str,
    max: u64,
    r: Option<u64>,
    spelled: Seq<char>,
    digits: Seq<u8>,
)
    requires
        call_ensures(parse_number, (text, max), r),
        digits.len() > 0,
        decimal(spelled, digits),
        text@ == spelled || text@ == seq!['+'] + spelled,
    ensures
        number_in(10, digits) <= max ==> r is Some && r->0 == number_in(10, digits),
        number_in(10, digits) > max ==> r is None,
{
    lemma_decimal_value(spelled, digits);
    assert(digits[0] < 10);
    lemma_decimal_digit(spelled[0], digits[0]);
    assert(decimal_digit(spelled[0]) is Some);
    if text@ == spelled {
        assert(without_plus(text@) == spelled);
    } else {
        assert(without_plus(text@) =~= spelled);
    }
}

/// Nothing but decimal digits, with at most a plus sign before them, is read as
/// a number, and none above the largest allowed.
pub proof fn law_only_numbers_are_read(text: &str, max: u64, number: u64)
    requires
        call_ensures(parse_number, (text, max), Some(number)),
    ensures
        number <= max,
        exists|spelled: Seq<char>, digits: Seq<u8>| #[trigger]
            decimal(spelled, digits) && digits.len() > 0 && number_in(10, digits) == number && (
            text@ == spelled || text@ == seq!['+'] + spelled),
{
    let spelled = without_plus(text@);
    lemma_digits_of(spelled);
    lemma_decimal_value(spelled, digits_of(spelled));
    if text@ != spelled {
        assert(text@ =~= seq!['+'] + spelled);
    }
    assert(decimal(spelled, digits_of(spelled)));
}

/// A number is written in decimal digits that spell it, without a zero in front
/// unless it is zero.
pub proof fn law_number_is_written(number: u64, r: String)
    requires
        call_ensures(decimal_text, (number,), r),
    ensures
        exists|digits: Seq<u8>| #[trigger]
            decimal(r@, digits) && digits.len() > 0 && number_in(10, digits) == number && (number
                > 0 ==> digits[0] > 0) && (number == 0 ==> digits.len() == 1),
{
    let digits = lemma_decimal_chars(number as nat);
    assert(decimal(r@, digits));
}

/// The digits of a number in decimal.
pub proof fn lemma_decimal_chars(number: nat) -> (digits: Seq<u8>)
    ensures
        decimal(decimal_chars(number), digits),
        digits.len() > 0,
        number_in(10, digits) == number,
        number > 0 ==> digits[0] > 0,
        number == 0 ==> digits.len() == 1,
    decreases number,
{
    reveal_with_fuel(number_in, 2);
    if number < 10 {
        lemma_decimal_digit(digit_char(number as u8), number as u8);
        let digits = seq![number as u8];
        assert(digits.drop_last() =~= Seq::<u8>::empty());
        digits
    } else {
        let low = (number % 10) as u8;
        let high = lemma_decimal_chars(number / 10);
        lemma_decimal_digit(digit_char(low), low);
        let digits = high.push(low);
        let text = decimal_chars(number);
        assert forall|i: int| 0 <= i < digits.len() implies #[trigger] digits[i] < 10 && text[i]
            == lower_digits()[digits[i] as int] by {
            if i < high.len() {
                assert(high[i] < 10);
            }
        }
        assert(digits.drop_last() =~= high);
        digits
    }
}

/// A batch size is a number from one to 262144.
pub proof fn law_batch_size_is_read(text: &str, r: Result<u32, Error>, number: Option<u64>)
    requires
        call_ensures(parse_gpu_batch_size, (text,), r),
        call_ensures(parse_number, (text, 262_144), number),
    ensures
        match number {
            Some(size) => if size > 0 {
                r is Ok && r->Ok_0 == size
            } else {
                r == Err::<u32, Error>(Error::InvalidGpuBatchSize)
            },
            None => r == Err::<u32, Error>(Error::InvalidGpuBatchSize),
        },
{
}

}
