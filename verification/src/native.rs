//! The standard conversions between numbers and plain decimal text. What
//! they give for a number depends on the number's own type, so nothing is
//! claimed of their results but that they are what the conversion returned.

use std::fmt::{Display, LowerExp, Write};
use std::str::FromStr;
use vstd::prelude::*;
use crate::error::NumberFmtError;
use crate::text::{push_chars, to_chars};

verus! {

/// The most digits after the point that the standard formatting takes.
pub const MAX_PRECISION: usize = 0xffff;

/// The characters that a buffered conversion has room for: the plain
/// conversion of `rust_decimal::Decimal` builds the digits and the point of
/// its text in a buffer of this size, and fails for good where they
/// outgrow it.
pub const PLAIN_ROOM: usize = 32;

/// The most fraction digits that the conversion of a `rust_decimal::Decimal`
/// writes into its buffer; it adds the zeros beyond them outside the
/// buffer.
pub const BUFFERED_DIGITS: usize = 28;

/// The most digits that a number with a buffered conversion has before the
/// point: a `rust_decimal::Decimal` is below ten to the power of this. A
/// number with more digits is converted without a buffer.
pub const BUFFERED_WHOLE: usize = 29;

/// The characters of a text, if there is one.
pub open spec fn text_of(text: Option<String>) -> Option<Seq<char>> {
    match text {
        Some(t) => Some(t@),
        None => None,
    }
}

/// The position of the first `.` in `text`, or the length of `text` where
/// there is none.
pub open spec fn first_point(text: Seq<char>) -> nat
    decreases text.len(),
{
    if text.len() == 0 || text[0] == '.' {
        0
    } else {
        1 + first_point(text.drop_first())
    }
}

/// The number of characters of `text` between its sign, if it has one,
/// and its first `.`: the digits before the point.
pub open spec fn whole_digits(text: Seq<char>) -> nat {
    if text.len() > 0 && text[0] == '-' {
        (first_point(text) - 1) as nat
    } else {
        first_point(text)
    }
}

/// Whether a number whose text without a given precision is `text` can be
/// converted with the precision `precision` by every conversion: it has
/// more digits before the point than a number with a buffered conversion
/// can have; or the digits before the point, the point, if one is written,
/// and the fraction digits that go into the buffer have room in it.
pub open spec fn has_room(text: Seq<char>, precision: usize) -> bool {
    ||| whole_digits(text) > BUFFERED_WHOLE
    ||| whole_digits(text) + (if precision > 0 { 1nat } else { 0nat }) + (if precision
        <= BUFFERED_DIGITS {
        precision
    } else {
        BUFFERED_DIGITS
    }) <= PLAIN_ROOM
}

/// `write!` with `{}`: the number in plain notation as its `Display` writes
/// it where no precision is asked for; `None` where that reports an error.
#[verifier::external_body]
pub(crate) fn write_default<Number: Display>(number: &Number) -> (raw: Option<String>) {
    let mut raw = String::new();
    match write!(raw, "{}", number) {
        Ok(_) => Some(raw),
        Err(_) => None,
    }
}

/// Whether `raw` is what the plain conversion of `number` without a
/// precision returned.
pub closed spec fn default_gave<Number: Display>(number: &Number, raw: Option<Seq<char>>) -> bool {
    exists|text: Option<String>|
        #[trigger] call_ensures(write_default::<Number>, (number,), text) && raw == text_of(text)
}

/// `write!` with `{:.*}`: the number in plain notation with `precision`
/// digits after the point, as its `Display` writes it; `None` where that
/// reports an error. The standard formatting does not take a precision
/// beyond `MAX_PRECISION`, and a conversion that builds its text in a
/// buffer needs room in it: the text that the number has without a
/// precision must leave that room, or have more than `BUFFERED_WHOLE`
/// digits before the point.
#[verifier::external_body]
pub(crate) fn write_plain<Number: Display>(number: &Number, precision: usize) -> (raw: Option<
    String,
>)
    requires
        precision <= MAX_PRECISION,
        exists|text: Seq<char>| #[trigger]
            default_gave(number, Some(text)) && has_room(text, precision),
{
    let mut raw = String::new();
    match write!(raw, "{:.*}", precision, number) {
        Ok(_) => Some(raw),
        Err(_) => None,
    }
}

/// Whether `raw` is what the plain conversion of `number` with the
/// precision `precision` returned.
pub closed spec fn plain_gave<Number: Display>(
    number: &Number,
    precision: usize,
    raw: Option<Seq<char>>,
) -> bool {
    exists|text: Option<String>|
        #[trigger] call_ensures(write_plain::<Number>, (number, precision), text) && raw
            == text_of(text)
}

/// `write!` with `{:.*e}`: the number in scientific notation with
/// `precision` digits after the point, as its `LowerExp` writes it; `None`
/// where that reports an error. The standard formatting does not take a
/// precision beyond `MAX_PRECISION`.
#[verifier::external_body]
pub(crate) fn write_scientific<Number: LowerExp>(number: &Number, precision: usize) -> (raw:
    Option<String>)
    requires
        precision <= MAX_PRECISION,
{
    let mut raw = String::new();
    match write!(raw, "{:.*e}", precision, number) {
        Ok(_) => Some(raw),
        Err(_) => None,
    }
}

/// Whether `raw` is what the scientific conversion of `number` with the
/// precision `precision` returned.
pub closed spec fn scientific_gave<Number: LowerExp>(
    number: &Number,
    precision: usize,
    raw: Option<Seq<char>>,
) -> bool {
    exists|text: Option<String>|
        #[trigger] call_ensures(write_scientific::<Number>, (number, precision), text) && raw
            == text_of(text)
}

/// `text` with its fraction cut or filled with zeros to `precision` digits;
/// a text without a point stays as it is, and with no digits asked for the
/// point goes too.
pub open spec fn fitted(text: Seq<char>, precision: usize) -> Seq<char> {
    let point = first_point(text) as int;
    if point >= text.len() {
        text
    } else if precision == 0 {
        text.take(point)
    } else {
        let fraction = text.skip(point + 1);
        if fraction.len() >= precision {
            text.take(point + 1 + precision)
        } else {
            text + Seq::new((precision - fraction.len()) as nat, |i: int| '0')
        }
    }
}

/// What the conversion of `number` to plain decimal text gives: in
/// scientific notation the text of the scientific conversion with the
/// precision `precision`; in plain notation the text of the plain
/// conversion with that precision. Only where a buffered conversion could
/// not hold the number with that precision, the text without a precision
/// stands in, with its fraction cut or filled. `None` where a conversion
/// reported an error.
pub open spec fn converts_to<Number: LowerExp + Display>(
    number: &Number,
    scientific: bool,
    precision: usize,
    raw: Option<Seq<char>>,
) -> bool {
    if scientific {
        scientific_gave(number, precision, raw)
    } else {
        exists|plain: Option<Seq<char>>| #[trigger]
            default_gave(number, plain) && match plain {
                None => raw is None,
                Some(text) => if has_room(text, precision) {
                    plain_gave(number, precision, raw)
                } else {
                    raw == Some(fitted(text, precision))
                },
            }
    }
}

/// The position of the first `.` among `chars`, or their number.
fn find_point(chars: &Vec<char>) -> (k: usize)
    ensures
        k == first_point(chars@),
        k <= chars@.len(),
{
    let mut k: usize = 0;
    proof {
        assert(chars@.skip(0) =~= chars@);
    }
    while k < chars.len() && chars[k] != '.'
        invariant
            k <= chars.len(),
            first_point(chars@) == k + first_point(chars@.skip(k as int)),
        decreases chars.len() - k,
    {
        proof {
            assert(chars@.skip(k as int).drop_first() =~= chars@.skip(k + 1));
            assert(chars@.skip(k as int)[0] == chars@[k as int]);
        }
        k = k + 1;
    }
    proof {
        if k == chars.len() {
            assert(chars@.skip(k as int).len() == 0);
        } else {
            assert(chars@.skip(k as int)[0] == chars@[k as int]);
        }
    }
    k
}

/// The text `chars` with its fraction cut or filled to `precision` digits.
fn fit_fraction(chars: &Vec<char>, precision: usize) -> (r: String)
    ensures
        r@ == fitted(chars@, precision),
{
    let point = find_point(chars);
    let mut kept: Vec<char> = Vec::new();
    let fraction = if point < chars.len() { chars.len() - point - 1 } else { 0 };
    let keep = if point >= chars.len() {
        chars.len()
    } else if precision == 0 {
        point
    } else if fraction >= precision {
        point + 1 + precision
    } else {
        chars.len()
    };
    let mut i: usize = 0;
    while i < keep
        invariant
            i <= keep <= chars.len(),
            kept@ == chars@.take(i as int),
        decreases keep - i,
    {
        kept.push(chars[i]);
        i = i + 1;
        assert(kept@ =~= chars@.take(i as int));
    }
    let mut r = String::new();
    push_chars(&mut r, &kept);
    if point < chars.len() && precision > 0 && fraction < precision {
        let mut z: usize = 0;
        let fill = precision - fraction;
        while z < fill
            invariant
                z <= fill,
                r@ == chars@ + Seq::new(z as nat, |i: int| '0'),
                kept@ == chars@,
            decreases fill - z,
        {
            r.push('0');
            z = z + 1;
            assert(r@ =~= chars@ + Seq::new(z as nat, |i: int| '0'));
        }
    }
    proof {
        assert(chars@.take(chars@.len() as int) =~= chars@);
        assert(chars@.skip(point + 1).len() == fraction || point >= chars@.len());
        assert(r@ =~= fitted(chars@, precision));
    }
    r
}

/// Converts a number to plain decimal text: in scientific notation if
/// `scientific` says so, else in plain notation, with `precision` digits
/// after the point.
pub(crate) fn convert<Number: LowerExp + Display>(
    number: &Number,
    scientific: bool,
    precision: usize,
) -> (raw: Option<String>)
    requires
        precision <= MAX_PRECISION,
    ensures
        converts_to(number, scientific, precision, text_of(raw)),
{
    if scientific {
        let raw = write_scientific(number, precision);
        assert(call_ensures(write_scientific::<Number>, (number, precision), raw));
        raw
    } else {
        let plain = write_default(number);
        assert(call_ensures(write_default::<Number>, (number,), plain));
        assert(default_gave(number, text_of(plain)));
        match plain {
            None => None,
            Some(text) => {
                let chars = to_chars(text.as_str());
                let point = find_point(&chars);
                let whole = if chars.len() > 0 && chars[0] == '-' { point - 1 } else { point };
                let digits = if precision <= BUFFERED_DIGITS { precision } else { BUFFERED_DIGITS };
                let point_width: usize = if precision > 0 { 1 } else { 0 };
                if whole > BUFFERED_WHOLE || whole + point_width + digits <= PLAIN_ROOM {
                    assert(default_gave(number, Some(text@)) && has_room(text@, precision));
                    let raw = write_plain(number, precision);
                    assert(call_ensures(write_plain::<Number>, (number, precision), raw));
                    raw
                } else {
                    Some(fit_fraction(&chars, precision))
                }
            },
        }
    }
}

/// `str::parse`: the value that the type's `FromStr` reads from `raw`;
/// `None` where it refuses the text.
#[verifier::external_body]
pub(crate) fn parse_text<F: FromStr>(raw: &str) -> (value: Option<F>) {
    match raw.parse::<F>() {
        Ok(value) => Some(value),
        Err(_) => None,
    }
}

/// Whether `value` is what the standard conversion of the type `F` from text
/// returned for a text with the characters `raw`: the value that it read,
/// or `None` where it refused the text. Nothing is claimed of what that
/// conversion returns for which text.
pub closed spec fn parses_to<F: FromStr>(raw: Seq<char>, value: Option<F>) -> bool {
    exists|text: &str| text@ == raw && #[trigger] call_ensures(parse_text::<F>, (text,), value)
}

/// What parsing gives once the standard conversion from text has returned
/// `value`: the value that it read, or the error `Parse` where it refused
/// the text.
pub open spec fn parsed<F>(value: Option<F>) -> Result<F, NumberFmtError> {
    match value {
        Some(v) => Ok(v),
        None => Err(NumberFmtError::Parse),
    }
}

/// Whether parsing a text with the characters `raw` as the type `F` ended as
/// `r`: the standard conversion of that type was called on that text, and
/// `r` is the value that it read, or `Parse` where it refused the text.
pub open spec fn parses_as<F: FromStr>(raw: Seq<char>, r: Result<F, NumberFmtError>) -> bool {
    exists|value: Option<F>| #[trigger] parses_to::<F>(raw, value) && r == parsed(value)
}

/// Reads a value of the type `F` from plain decimal text with the standard
/// conversion of that type.
pub(crate) fn parse_plain<F: FromStr>(raw: &str) -> (value: Option<F>)
    ensures
        parses_to::<F>(raw@, value),
{
    let value = parse_text::<F>(raw);
    assert(raw@ == raw@ && call_ensures(parse_text::<F>, (raw,), value));
    value
}

} // verus!
