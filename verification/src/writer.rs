//! Writing text and decimal numbers into a fixed-capacity buffer.
//!
//! Each writer exists twice, once for a target whose type is known where the
//! call is compiled and once for a target behind a trait object: the two
//! ways of dispatch whose cost in flash the benchmark compares.

use crate::decimal::{
    decimal, decimal_width, digit_char, digit_count, digit_glyph, ilog10, is_digit,
    lemma_decimal_digits, lemma_digit_count_bounds, lemma_padded_front, lemma_padded_is_decimal,
    lemma_pow10_grows, lemma_split_at_scale, padded_decimal, pow10, power_of_ten,
};
use vstd::prelude::*;
use vstd::utf8::encode_utf8;

verus! {

/// `heapless::String`: text in a buffer that holds at most `N` bytes of
/// UTF-8. Nothing is claimed of it here.
#[verifier::external_type_specification]
#[verifier::external_body]
pub struct ExHeaplessString<const N: usize>(heapless::String<N>);

/// `core::fmt::Error`: the failure of a `core::fmt::Write`. Nothing is
/// claimed of it here.
#[verifier::external_type_specification]
#[verifier::external_body]
pub struct ExFmtError(core::fmt::Error);

/// The text that a `heapless::String` of 64 bytes holds: the characters of
/// its `as_str`.
pub uninterp spec fn buffer_text(buffer: heapless::String<64>) -> Seq<char>;

/// How many bytes `text` takes in UTF-8.
pub open spec fn byte_len(text: Seq<char>) -> nat {
    encode_utf8(text).len()
}

/// A write that did not happen: the text would not have fitted.
#[derive(Debug, Clone, Copy, PartialEq, Eq, Structural)]
pub struct BufferFull;

/// A place that text is appended to, with room for a fixed number of bytes.
/// A write either appends all of its text or leaves the sink as it was.
pub trait TextSink {
    /// The text written so far.
    spec fn text(&self) -> Seq<char>;

    /// How many bytes of UTF-8 the sink holds at most.
    spec fn capacity(&self) -> nat;

    /// How many more bytes fit.
    fn room(&self) -> (bytes: usize)
        ensures
            byte_len(self.text()) + bytes == self.capacity(),
    ;

    /// Appends `value`, if it fits.
    fn write_str(&mut self, value: &str) -> (done: Result<(), BufferFull>)
        ensures
            final(self).capacity() == old(self).capacity(),
            done is Ok <==> byte_len(old(self).text()) + byte_len(value@) <= old(self).capacity(),
            done is Ok ==> final(self).text() == old(self).text() + value@,
            done is Err ==> final(self).text() == old(self).text(),
    ;

    /// Appends the character `value`, if it fits.
    fn write_char(&mut self, value: char) -> (done: Result<(), BufferFull>)
        ensures
            final(self).capacity() == old(self).capacity(),
            done is Ok <==> byte_len(old(self).text()) + byte_len(seq![value]) <= old(
                self,
            ).capacity(),
            done is Ok ==> final(self).text() == old(self).text().push(value),
            done is Err ==> final(self).text() == old(self).text(),
    ;
}

/// Calls `core::fmt::Write::write_str` of `heapless::String`, which is its
/// `push_str`: where the bytes of `value` fit beside those that the buffer
/// holds, they are appended; where they do not, nothing changes and the call
/// fails.
#[verifier::external_body]
fn buffer_write_str(buffer: &mut heapless::String<64>, value: &str) -> (done: Result<
    (),
    core::fmt::Error,
>)
    ensures
        done is Ok <==> byte_len(buffer_text(*old(buffer))) + byte_len(value@) <= 64,
        done is Ok ==> buffer_text(*final(buffer)) == buffer_text(*old(buffer)) + value@,
        done is Err ==> buffer_text(*final(buffer)) == buffer_text(*old(buffer)),
{
    core::fmt::Write::write_str(buffer, value)
}

/// Calls `core::fmt::Write::write_char` of `heapless::String`, which is its
/// `push`: where the bytes of `value` fit beside those that the buffer holds,
/// the character is appended; where they do not, nothing changes and the
/// call fails.
#[verifier::external_body]
fn buffer_write_char(buffer: &mut heapless::String<64>, value: char) -> (done: Result<
    (),
    core::fmt::Error,
>)
    ensures
        done is Ok <==> byte_len(buffer_text(*old(buffer))) + byte_len(seq![value]) <= 64,
        done is Ok ==> buffer_text(*final(buffer)) == buffer_text(*old(buffer)).push(value),
        done is Err ==> buffer_text(*final(buffer)) == buffer_text(*old(buffer)),
{
    core::fmt::Write::write_char(buffer, value)
}

/// Calls `heapless::String::as_str`, which hands out the text that the
/// buffer holds. Its bytes lie in the buffer's 64, so they are no more.
#[verifier::external_body]
fn buffer_as_str(buffer: &heapless::String<64>) -> (text: &str)
    ensures
        text@ == buffer_text(*buffer),
        byte_len(text@) <= 64,
{
    buffer.as_str()
}

impl TextSink for heapless::String<64> {
    open spec fn text(&self) -> Seq<char> {
        buffer_text(*self)
    }

    open spec fn capacity(&self) -> nat {
        64
    }

    fn room(&self) -> (bytes: usize) {
        64 - buffer_as_str(self).len()
    }

    fn write_str(&mut self, value: &str) -> (done: Result<(), BufferFull>) {
        match buffer_write_str(self, value) {
            Ok(_) => Ok(()),
            Err(_) => Err(BufferFull),
        }
    }

    fn write_char(&mut self, value: char) -> (done: Result<(), BufferFull>) {
        match buffer_write_char(self, value) {
            Ok(_) => Ok(()),
            Err(_) => Err(BufferFull),
        }
    }
}

/// The bytes of two texts in a row are the bytes of the one and then of the
/// other.
pub proof fn lemma_byte_len_concat(a: Seq<char>, b: Seq<char>)
    ensures
        byte_len(a + b) == byte_len(a) + byte_len(b),
    decreases a.len(),
{
    if a.len() == 0 {
        assert(a + b =~= b);
    } else {
        assert((a + b).drop_first() =~= a.drop_first() + b);
        lemma_byte_len_concat(a.drop_first(), b);
    }
}

/// A digit takes one byte.
pub proof fn lemma_byte_len_digit(d: nat)
    requires
        d < 10,
    ensures
        byte_len(seq![digit_glyph(d)]) == 1,
{
    let one = seq![digit_glyph(d)];
    assert(vstd::utf8::is_ascii_chars(one));
    vstd::utf8::is_ascii_chars_encode_utf8(one);
}

/// Whether a sink that held `before` and now holds `now` is `width` digits
/// short of holding `before` and the number `value`: the last `width` digits
/// of `rest` are still to write, and there is room for them.
spec fn digits_pending(
    before: Seq<char>,
    now: Seq<char>,
    capacity: nat,
    value: nat,
    rest: nat,
    width: nat,
) -> bool {
    &&& rest < pow10(width)
    &&& now + padded_decimal(rest, width) == before + decimal(value)
    &&& byte_len(now) + width <= capacity
}

/// One step of writing a number: with the first pending digit written, the
/// rest is pending.
proof fn lemma_digit_written(
    before: Seq<char>,
    now: Seq<char>,
    capacity: nat,
    value: nat,
    rest: nat,
    width: nat,
)
    requires
        width >= 1,
        digits_pending(before, now, capacity, value, rest, width),
    ensures
        ({
            let scale = pow10((width - 1) as nat);
            let upper = rest / scale;
            &&& scale > 0
            &&& upper < 10
            &&& upper * scale <= rest
            &&& byte_len(now) + byte_len(seq![digit_glyph(upper)]) <= capacity
            &&& digits_pending(
                before,
                now.push(digit_glyph(upper)),
                capacity,
                value,
                (rest - upper * scale) as nat,
                (width - 1) as nat,
            )
        }),
{
    let scale = pow10((width - 1) as nat);
    let upper = rest / scale;
    let glyph = digit_glyph(upper);
    lemma_padded_front(rest, width);
    lemma_pow10_grows(0, (width - 1) as nat);
    lemma_split_at_scale(rest, scale);
    lemma_byte_len_digit(upper);
    lemma_byte_len_concat(now, seq![glyph]);
    assert(now.push(glyph) =~= now + seq![glyph]);
    assert(now.push(glyph) + padded_decimal(rest % scale, (width - 1) as nat) =~= now + (seq![
        glyph,
    ] + padded_decimal(rest % scale, (width - 1) as nat)));
}

/// The digits of a number take one byte each.
pub proof fn lemma_decimal_bytes(value: nat)
    ensures
        byte_len(decimal(value)) == digit_count(value),
{
    lemma_decimal_digits(value);
    assert(vstd::utf8::is_ascii_chars(decimal(value))) by {
        assert forall|i: int| 0 <= i < decimal(value).len() implies '\0' <= #[trigger] decimal(
            value,
        )[i] <= '\u{7f}' by {
            assert(is_digit(decimal(value)[i]));
        }
    }
    vstd::utf8::is_ascii_chars_encode_utf8(decimal(value));
}

/// Before the first digit is written, all the digits of a positive number are
/// pending.
proof fn lemma_digits_start(before: Seq<char>, capacity: nat, value: nat)
    requires
        value > 0,
        byte_len(before) + byte_len(decimal(value)) <= capacity,
    ensures
        digits_pending(before, before, capacity, value, value, digit_count(value)),
{
    lemma_decimal_bytes(value);
    lemma_digit_count_bounds(value);
    lemma_padded_is_decimal(value);
}

/// Appends `value` to the target, which must have room for it.
pub fn write_generic_str<W: TextSink + ?Sized>(target: &mut W, value: &'static str)
    requires
        byte_len(old(target).text()) + byte_len(value@) <= old(target).capacity(),
    ensures
        final(target).text() == old(target).text() + value@,
        final(target).capacity() == old(target).capacity(),
{
    match target.write_str(value) {
        Ok(_) => {},
        Err(_) => vstd::pervasive::unreached(),
    }
}

/// Appends `value` to the target, which must have room for it.
pub fn write_dyn_str(target: &mut dyn TextSink, value: &'static str)
    requires
        byte_len(old(target).text()) + byte_len(value@) <= old(target).capacity(),
    ensures
        final(target).text() == old(target).text() + value@,
        final(target).capacity() == old(target).capacity(),
{
    match target.write_str(value) {
        Ok(_) => {},
        Err(_) => vstd::pervasive::unreached(),
    }
}

/// Appends the decimal notation of `value` to the target, which must have
/// room for its digits. The digits are written from the first to the last,
/// without a buffer in between.
pub fn write_generic_u32<W: TextSink + ?Sized>(target: &mut W, value: u32)
    requires
        byte_len(old(target).text()) + byte_len(decimal(value as nat)) <= old(
            target,
        ).capacity(),
    ensures
        final(target).text() == old(target).text() + decimal(value as nat),
        final(target).capacity() == old(target).capacity(),
{
    let ghost before = target.text();
    let ghost capacity = target.capacity();
    if value == 0 {
        proof {
            lemma_byte_len_digit(0);
            assert(decimal(0) =~= seq!['0']);
            assert(before.push('0') =~= before + decimal(0));
        }
        match target.write_char('0') {
            Ok(_) => {},
            Err(_) => vstd::pervasive::unreached(),
        }
        return ;
    }
    let mut rest = value;
    let mut digits = ilog10(value) + 1;
    proof {
        lemma_digits_start(before, capacity, value as nat);
    }
    while digits > 0
        invariant
            digits <= 10,
            target.capacity() == capacity,
            digits_pending(
                before,
                target.text(),
                capacity,
                value as nat,
                rest as nat,
                digits as nat,
            ),
        decreases digits,
    {
        proof {
            lemma_digit_written(
                before,
                target.text(),
                capacity,
                value as nat,
                rest as nat,
                digits as nat,
            );
        }
        let scale = power_of_ten(digits - 1);
        let upper_value_digit = rest / scale;
        match target.write_char(digit_char(upper_value_digit)) {
            Ok(_) => {},
            Err(_) => vstd::pervasive::unreached(),
        }
        assert(upper_value_digit * scale <= rest) by (nonlinear_arith)
            requires
                scale > 0,
                upper_value_digit == rest / scale,
        ;
        rest = rest - upper_value_digit * scale;
        digits = digits - 1;
    }
    proof {
        assert(padded_decimal(rest as nat, 0) =~= Seq::<char>::empty());
        assert(target.text() =~= target.text() + padded_decimal(rest as nat, 0));
    }
}

/// Appends the decimal notation of `value` to the target, which must have
/// room for its digits. The digits are written from the first to the last,
/// without a buffer in between.
pub fn write_dyn_u32(target: &mut dyn TextSink, value: u32)
    requires
        byte_len(old(target).text()) + byte_len(decimal(value as nat)) <= old(
            target,
        ).capacity(),
    ensures
        final(target).text() == old(target).text() + decimal(value as nat),
        final(target).capacity() == old(target).capacity(),
{
    let ghost before = target.text();
    let ghost capacity = target.capacity();
    if value == 0 {
        proof {
            lemma_byte_len_digit(0);
            assert(decimal(0) =~= seq!['0']);
            assert(before.push('0') =~= before + decimal(0));
        }
        match target.write_char('0') {
            Ok(_) => {},
            Err(_) => vstd::pervasive::unreached(),
        }
        return ;
    }
    let mut rest = value;
    let mut digits = ilog10(value) + 1;
    proof {
        lemma_digits_start(before, capacity, value as nat);
    }
    while digits > 0
        invariant
            digits <= 10,
            target.capacity() == capacity,
            digits_pending(
                before,
                target.text(),
                capacity,
                value as nat,
                rest as nat,
                digits as nat,
            ),
        decreases digits,
    {
        proof {
            lemma_digit_written(
                before,
                target.text(),
                capacity,
                value as nat,
                rest as nat,
                digits as nat,
            );
        }
        let scale = power_of_ten(digits - 1);
        let upper_value_digit = rest / scale;
        match target.write_char(digit_char(upper_value_digit)) {
            Ok(_) => {},
            Err(_) => vstd::pervasive::unreached(),
        }
        assert(upper_value_digit * scale <= rest) by (nonlinear_arith)
            requires
                scale > 0,
                upper_value_digit == rest / scale,
        ;
        rest = rest - upper_value_digit * scale;
        digits = digits - 1;
    }
    proof {
        assert(padded_decimal(rest as nat, 0) =~= Seq::<char>::empty());
        assert(target.text() =~= target.text() + padded_decimal(rest as nat, 0));
    }
}

/// Appends the decimal notation of `value` to the target if there is room
/// for its digits, and leaves the target as it is if there is not.
pub fn try_write_u32<W: TextSink + ?Sized>(target: &mut W, value: u32) -> (done: Result<
    (),
    BufferFull,
>)
    ensures
        final(target).capacity() == old(target).capacity(),
        done is Ok <==> byte_len(old(target).text()) + byte_len(decimal(value as nat)) <= old(
            target,
        ).capacity(),
        done is Ok ==> final(target).text() == old(target).text() + decimal(value as nat),
        done is Err ==> final(target).text() == old(target).text(),
{
    proof {
        lemma_decimal_bytes(value as nat);
    }
    if decimal_width(value) <= target.room() {
        write_generic_u32(target, value);
        Ok(())
    } else {
        Err(BufferFull)
    }
}

} // verus!
