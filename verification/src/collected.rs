//! What the tokens of a placed pattern read, part by part of the number.

use vstd::prelude::*;
use crate::laws::{lemma_digits_between, lemma_kinds_are_unique};
use crate::model::{
    compile_tokens, count_digits, holds_kind, is_digit_in, lemma_count_digits_bound,
    lemma_count_digits_next, lemma_count_digits_split, lemma_count_digits_step, unique_kind,
    FormatModel, Unique,
};
use crate::placed::{one_sign_place, placed, placed_token};
use crate::raw::{digit_chars, RawNumber};
use crate::readback::{
    all_ready, collected, given_back, lemma_collected_step, reads_exp_sign, shift_of,
    token_ready, zero_place,
};
use crate::render::{digit_from_right, is_sign_place, uses_sign};
use crate::roundtrip::zeros;
use crate::sections::{section_after, sectioned};
use crate::symbols::Symbols;
use crate::token::{Mode, Token};
use crate::unmap::Slot;

verus! {

/// The digits of the part `mode` of the number `n`.
pub open spec fn digits_of(n: RawNumber, mode: Mode) -> Seq<u8> {
    match mode {
        Mode::Integer => n.int,
        Mode::Fraction => n.frac,
        Mode::Exponent => n.exp,
    }
}

/// The part of what is read that the digits of part `mode` go to.
pub open spec fn slot_of(mode: Mode) -> Slot {
    match mode {
        Mode::Integer => Slot::Int,
        Mode::Fraction => Slot::Frac,
        Mode::Exponent => Slot::Exp,
    }
}

/// The last `c` of the digits `digits`, with `z` zeros before them where
/// `c` is more than there are digits.
pub open spec fn right_tail(digits: Seq<u8>, c: nat, z: nat) -> Seq<char> {
    if c <= digits.len() {
        digit_chars(digits).skip(digits.len() - c)
    } else {
        zeros(z) + digit_chars(digits)
    }
}

/// One more digit before the last `c` digits: the digit itself where the
/// number has it, else a zero or nothing.
pub(crate) proof fn lemma_right_tail_grows(digits: Seq<u8>, c: nat, z: nat, zero: bool)
    ensures
        c < digits.len() ==> seq![digit_from_right(digits, c)] + right_tail(digits, c, z)
            == right_tail(digits, c + 1, z),
        c >= digits.len() && zero ==> seq!['0'] + right_tail(digits, c, z) == right_tail(
            digits,
            c + 1,
            if c == digits.len() {
                1
            } else {
                z + 1
            },
        ),
        c >= digits.len() && !zero ==> right_tail(digits, c, z) == right_tail(
            digits,
            c + 1,
            if c == digits.len() {
                0
            } else {
                z
            },
        ),
{
    let chars = digit_chars(digits);
    let len = digits.len();
    if c < len {
        assert(seq![digit_from_right(digits, c)] + chars.skip(len - c) =~= chars.skip(len - c - 1));
    } else if c == len {
        assert(chars.skip(0) =~= chars);
        assert(seq!['0'] + chars =~= zeros(1) + chars);
        assert(chars =~= zeros(0) + chars);
    } else {
        assert(seq!['0'] + (zeros(z) + chars) =~= zeros(z + 1) + chars);
    }
}

/// `c` less `shift`, or zero.
pub open spec fn less(c: nat, shift: nat) -> nat {
    if c >= shift {
        (c - shift) as nat
    } else {
        0
    }
}

/// Whether every `0` of part `mode` among `tokens` has an index below `len`,
/// so that it stands for a digit of a number with `len` digits and not for a
/// zero before them.
pub open spec fn zeros_covered(tokens: Seq<Token>, mode: Mode, len: nat) -> bool {
    forall|j: int|
        0 <= j < tokens.len() ==> (#[trigger] tokens[j] matches Token::Digit0(m, i) ==> !(m == mode
            && i >= len))
}

/// What the placed tokens from `k` on read for the integer part or the
/// exponent: the last digits of the number, as many as the tokens have
/// digits beyond the shift, or all its digits behind some zeros. There are
/// no zeros where every `0` of the pattern stands for a digit.
#[verifier::rlimit(20)]
pub(crate) proof fn lemma_collected_right(
    source: Seq<Token>,
    sym: Symbols,
    n: RawNumber,
    exp: bool,
    mode: Mode,
    k: int,
)
    requires
        source.len() <= usize::MAX,
        mode != Mode::Fraction,
        0 <= k <= source.len(),
        all_ready(placed(source, sym).tokens, n, placed(source, sym), sym, exp),
    ensures
        exists|z: nat|
            {
                &&& #[trigger] right_tail(
                    digits_of(n, mode),
                    less(
                        count_digits(source.skip(k), mode),
                        shift_of(mode, n, placed(source, sym), exp),
                    ),
                    z,
                ) == collected(
                    placed(source, sym).tokens.skip(k),
                    slot_of(mode),
                    n,
                    placed(source, sym),
                    sym,
                    exp,
                )
                &&& zeros_covered(
                    placed(source, sym).tokens,
                    mode,
                    digits_of(n, mode).len(),
                ) ==> z == 0
            },
    decreases source.len() - k,
{
    let f = placed(source, sym);
    let tokens = f.tokens;
    let digits = digits_of(n, mode);
    let slot = slot_of(mode);
    let shift = shift_of(mode, n, f, exp);
    let goal = collected(tokens.skip(k), slot, n, f, sym, exp);
    let count = less(count_digits(source.skip(k), mode), shift);
    if k == source.len() {
        assert(tokens.skip(k) =~= Seq::<Token>::empty());
        assert(source.skip(k) =~= Seq::<Token>::empty());
        assert(right_tail(digits, 0, 0) =~= Seq::<char>::empty());
        assert(right_tail(digits, count, 0) == goal);
    } else {
        lemma_collected_right(source, sym, n, exp, mode, k + 1);
        let r = count_digits(source.skip(k + 1), mode);
        let c = less(r, shift);
        let z = choose|z: nat|
            {
                &&& #[trigger] right_tail(digits, c, z) == collected(
                    tokens.skip(k + 1),
                    slot,
                    n,
                    f,
                    sym,
                    exp,
                )
                &&& zeros_covered(tokens, mode, digits.len()) ==> z == 0
            };
        lemma_collected_step(tokens, k, slot, n, f, sym, exp);
        lemma_count_digits_step(source, k, mode);
        lemma_count_digits_bound(source.skip(k + 1), mode);
        let t = tokens[k];
        assert(t == placed_token(source, k, sym));
        assert(token_ready(t, n, f, sym, exp));
        let here = given_back(t, slot, n, f, sym, exp);
        let zero = if shift > 0 {
            zero_place(f, c)
        } else {
            t is Digit0
        };
        lemma_right_tail_grows(digits, c, z, zero);
        if zeros_covered(tokens, mode, digits.len()) && is_digit_in(source[k], mode) && r >= shift
            && c >= digits.len() && zero {
            if shift > 0 {
                let w = choose|w: int|
                    0 <= w < f.tokens.len() && (#[trigger] f.tokens[w] matches Token::Digit0(
                        Mode::Exponent,
                        j,
                    ) && j == c);
                assert(false);
            } else {
                assert(tokens[k] == t);
                assert(false);
            }
        }
        let grown: nat = if !is_digit_in(source[k], mode) || r < shift || c < digits.len() {
            z
        } else if zero {
            if c == digits.len() {
                1
            } else {
                z + 1
            }
        } else {
            if c == digits.len() {
                0
            } else {
                z
            }
        };
        if is_digit_in(source[k], mode) {
            if r < shift {
                assert(here =~= Seq::<char>::empty());
                assert(here + right_tail(digits, c, z) =~= right_tail(digits, c, z));
            } else if c < digits.len() {
                assert(here == seq![digit_from_right(digits, c)]);
            } else if zero {
                assert(here == seq!['0']);
            } else {
                assert(here =~= Seq::<char>::empty());
                assert(here + right_tail(digits, c, z) =~= right_tail(digits, c, z));
            }
        } else {
            assert(here =~= Seq::<char>::empty());
            assert(here + right_tail(digits, c, z) =~= right_tail(digits, c, z));
        }
        assert(right_tail(digits, count, grown) == goal);
        let settled: nat = if count <= digits.len() {
            0
        } else {
            grown
        };
        assert(right_tail(digits, count, settled) == goal);
    }
}

/// Whether the token `t` is a decimal separator.
pub open spec fn is_separator(t: Token) -> bool {
    t is DecimalSep || t is DecimalSepAlways
}

/// The decimal points that the decimal separators among `tokens` give back.
pub open spec fn points(
    tokens: Seq<Token>,
    n: RawNumber,
    f: FormatModel,
    sym: Symbols,
    exp: bool,
) -> Seq<char>
    decreases tokens.len(),
{
    if tokens.len() == 0 {
        Seq::empty()
    } else {
        (if is_separator(tokens[0]) {
            given_back(tokens[0], Slot::Frac, n, f, sym, exp)
        } else {
            Seq::empty()
        }) + points(tokens.drop_first(), n, f, sym, exp)
    }
}

/// The digits `digits` from position `i` on, with `d` zeros behind them.
pub open spec fn left_tail(digits: Seq<u8>, i: nat, d: nat) -> Seq<char> {
    (if i < digits.len() {
        digit_chars(digits).skip(i as int)
    } else {
        Seq::empty()
    }) + zeros(d)
}

/// Behind the integer part, the placed tokens give back no decimal point.
pub(crate) proof fn lemma_points_none(
    source: Seq<Token>,
    sym: Symbols,
    n: RawNumber,
    exp: bool,
    k: int,
    mode: Mode,
)
    requires
        0 <= k <= source.len(),
        sectioned(source.skip(k), mode),
        mode != Mode::Integer,
    ensures
        points(placed(source, sym).tokens.skip(k), n, placed(source, sym), sym, exp)
            =~= Seq::<char>::empty(),
    decreases source.len() - k,
{
    let f = placed(source, sym);
    let tokens = f.tokens;
    if k < source.len() {
        assert(source.skip(k).drop_first() =~= source.skip(k + 1));
        assert(tokens.skip(k).drop_first() =~= tokens.skip(k + 1));
        assert(source.skip(k)[0] == source[k]);
        assert(tokens.skip(k)[0] == placed_token(source, k, sym));
        lemma_points_none(source, sym, n, exp, k + 1, section_after(source[k], mode));
    } else {
        assert(tokens.skip(k) =~= Seq::<Token>::empty());
    }
}

/// One more digit of the fraction before the digits from `i + 1` on.
pub(crate) proof fn lemma_left_tail_grows(digits: Seq<u8>, i: nat, d: nat)
    ensures
        i < digits.len() ==> seq![digits[i as int] as char] + left_tail(digits, i + 1, d)
            == left_tail(digits, i, d),
        i >= digits.len() ==> seq!['0'] + left_tail(digits, i + 1, d) == left_tail(
            digits,
            i,
            d + 1,
        ),
        i >= digits.len() ==> left_tail(digits, i + 1, d) == left_tail(digits, i, d),
{
    if i < digits.len() {
        assert(seq![digits[i as int] as char] + left_tail(digits, i + 1, d) =~= left_tail(
            digits,
            i,
            d,
        ));
    } else {
        assert(seq!['0'] + left_tail(digits, i + 1, d) =~= left_tail(digits, i, d + 1));
        assert(left_tail(digits, i + 1, d) =~= left_tail(digits, i, d));
    }
}

/// What the placed tokens from `k` on read for the fraction: the decimal
/// point if they hold the separator that wrote it, the digits of the
/// fraction from the index of the next fraction digit on, and some zeros.
#[verifier::rlimit(20)]
pub(crate) proof fn lemma_collected_frac(
    source: Seq<Token>,
    sym: Symbols,
    n: RawNumber,
    exp: bool,
    k: int,
    mode: Mode,
)
    requires
        source.len() <= usize::MAX,
        0 <= k <= source.len(),
        sectioned(source.skip(k), mode),
        n.frac.len() <= count_digits(source, Mode::Fraction),
        all_ready(placed(source, sym).tokens, n, placed(source, sym), sym, exp),
    ensures
        exists|d: nat|
            {
                &&& points(
                    placed(source, sym).tokens.skip(k),
                    n,
                    placed(source, sym),
                    sym,
                    exp,
                ) + #[trigger] left_tail(
                    n.frac,
                    count_digits(source.take(k), Mode::Fraction),
                    d,
                ) == collected(
                    placed(source, sym).tokens.skip(k),
                    Slot::Frac,
                    n,
                    placed(source, sym),
                    sym,
                    exp,
                )
                &&& n.frac.len() == count_digits(source, Mode::Fraction) ==> d == 0
            },
    decreases source.len() - k,
{
    let f = placed(source, sym);
    let tokens = f.tokens;
    let goal = collected(tokens.skip(k), Slot::Frac, n, f, sym, exp);
    let i = count_digits(source.take(k), Mode::Fraction);
    let dots = points(tokens.skip(k), n, f, sym, exp);
    if k == source.len() {
        assert(tokens.skip(k) =~= Seq::<Token>::empty());
        assert(source.take(k) =~= source);
        assert(dots + left_tail(n.frac, i, 0) =~= goal);
    } else {
        let next_mode = section_after(source[k], mode);
        assert(source.skip(k).drop_first() =~= source.skip(k + 1));
        assert(source.skip(k)[0] == source[k]);
        assert(tokens.skip(k).drop_first() =~= tokens.skip(k + 1));
        assert(tokens.skip(k)[0] == tokens[k]);
        lemma_collected_frac(source, sym, n, exp, k + 1, next_mode);
        let i_next = count_digits(source.take(k + 1), Mode::Fraction);
        let dots_next = points(tokens.skip(k + 1), n, f, sym, exp);
        let rest = collected(tokens.skip(k + 1), Slot::Frac, n, f, sym, exp);
        let d = choose|d: nat|
            {
                &&& dots_next + #[trigger] left_tail(n.frac, i_next, d) == rest
                &&& n.frac.len() == count_digits(source, Mode::Fraction) ==> d == 0
            };
        lemma_collected_step(tokens, k, Slot::Frac, n, f, sym, exp);
        lemma_count_digits_split(source, k + 1, Mode::Fraction);
        lemma_count_digits_next(source, k, Mode::Fraction);
        lemma_count_digits_bound(source.take(k), Mode::Fraction);
        lemma_left_tail_grows(n.frac, i, d);
        let t = tokens[k];
        assert(t == placed_token(source, k, sym));
        assert(token_ready(t, n, f, sym, exp));
        let here = given_back(t, Slot::Frac, n, f, sym, exp);
        let tail = left_tail(n.frac, i_next, d);
        if is_separator(t) {
            assert(dots == here + dots_next);
            assert((here + dots_next) + tail =~= here + (dots_next + tail));
            assert(dots + left_tail(n.frac, i, d) == goal);
        } else if is_digit_in(source[k], Mode::Fraction) {
            lemma_points_none(source, sym, n, exp, k + 1, next_mode);
            assert(dots =~= Seq::<char>::empty());
            assert(dots_next + tail =~= tail);
            if i < n.frac.len() {
                assert(here == seq![n.frac[i as int] as char]);
                assert(dots + left_tail(n.frac, i, d) =~= goal);
            } else if t is Digit0 {
                assert(here == seq!['0']);
                assert(dots + left_tail(n.frac, i, d + 1) =~= goal);
            } else {
                assert(here =~= Seq::<char>::empty());
                assert(dots + left_tail(n.frac, i, d) =~= goal);
            }
        } else {
            assert(here =~= Seq::<char>::empty());
            assert(dots =~= dots_next);
            assert(dots + left_tail(n.frac, i, d) =~= goal);
        }
    }
}

/// Whether `tokens` holds the mask `+` of the integer part.
pub open spec fn holds_plus(tokens: Seq<Token>) -> bool {
    exists|k: int| 0 <= k < tokens.len() && #[trigger] tokens[k] is PlusInt
}

/// The sign that is read back for the number `n`: `-` if it is negative and
/// one of `tokens` wrote its sign; `+` if it is not and the pattern has the
/// mask `+`; else nothing.
pub open spec fn sign_text(tokens: Seq<Token>, n: RawNumber, f: FormatModel, sym: Symbols) -> Seq<
    char,
> {
    if n.negative {
        if uses_sign(tokens, n, f, sym) {
            seq!['-']
        } else {
            Seq::empty()
        }
    } else if holds_plus(tokens) {
        seq!['+']
    } else {
        Seq::empty()
    }
}

/// Whether some token of `tokens` reads the sign of the exponent.
pub open spec fn reads_any_exp_sign(tokens: Seq<Token>, n: RawNumber, f: FormatModel, exp: bool)
    -> bool {
    exists|k: int| 0 <= k < tokens.len() && reads_exp_sign(#[trigger] tokens[k], n, f, exp)
}

/// Whether at most one of `tokens` reads the sign of the exponent of `n`.
pub open spec fn exp_sign_read_once(tokens: Seq<Token>, n: RawNumber, f: FormatModel, exp: bool)
    -> bool {
    forall|j: int, k: int|
        0 <= j < k < tokens.len() ==> !(reads_exp_sign(#[trigger] tokens[j], n, f, exp)
            && reads_exp_sign(#[trigger] tokens[k], n, f, exp))
}

/// The sign that is read back for the exponent of `n`: `-` if it is negative
/// and one of `tokens` reads its sign, else nothing.
pub open spec fn exp_sign_text(tokens: Seq<Token>, n: RawNumber, f: FormatModel, exp: bool) -> Seq<
    char,
> {
    if n.exp_negative && reads_any_exp_sign(tokens, n, f, exp) {
        seq!['-']
    } else {
        Seq::empty()
    }
}

/// The tokens from `k` on write a sign if the token at `k` does or those
/// after it do; the same for the mask `+`.
pub(crate) proof fn lemma_uses_sign_from(
    tokens: Seq<Token>,
    k: int,
    n: RawNumber,
    f: FormatModel,
    sym: Symbols,
    exp: bool,
)
    requires
        0 <= k < tokens.len(),
    ensures
        uses_sign(tokens.skip(k), n, f, sym) == (is_sign_place(tokens[k], n, f, sym) || uses_sign(
            tokens.skip(k + 1),
            n,
            f,
            sym,
        )),
        reads_any_exp_sign(tokens.skip(k), n, f, exp) == (reads_exp_sign(tokens[k], n, f, exp)
            || reads_any_exp_sign(tokens.skip(k + 1), n, f, exp)),
        holds_plus(tokens.skip(k)) == (tokens[k] is PlusInt || holds_plus(tokens.skip(k + 1))),
        uses_sign(tokens.skip(k + 1), n, f, sym) ==> exists|j: int|
            k < j < tokens.len() && is_sign_place(#[trigger] tokens[j], n, f, sym),
        reads_any_exp_sign(tokens.skip(k + 1), n, f, exp) ==> exists|j: int|
            k < j < tokens.len() && reads_exp_sign(#[trigger] tokens[j], n, f, exp),
        holds_plus(tokens.skip(k + 1)) ==> exists|j: int|
            k < j < tokens.len() && #[trigger] tokens[j] is PlusInt,
{
    let long = tokens.skip(k);
    let short = tokens.skip(k + 1);
    assert(long[0] == tokens[k]);
    if uses_sign(short, n, f, sym) {
        let j = choose|j: int|
            0 <= j < short.len() && is_sign_place(#[trigger] short[j], n, f, sym);
        assert(long[j + 1] == short[j]);
        assert(tokens[k + 1 + j] == short[j]);
    }
    if uses_sign(long, n, f, sym) {
        let j = choose|j: int| 0 <= j < long.len() && is_sign_place(#[trigger] long[j], n, f, sym);
        if j > 0 {
            assert(short[j - 1] == long[j]);
        }
    }
    if reads_any_exp_sign(short, n, f, exp) {
        let j = choose|j: int|
            0 <= j < short.len() && reads_exp_sign(#[trigger] short[j], n, f, exp);
        assert(long[j + 1] == short[j]);
        assert(tokens[k + 1 + j] == short[j]);
    }
    if reads_any_exp_sign(long, n, f, exp) {
        let j = choose|j: int|
            0 <= j < long.len() && reads_exp_sign(#[trigger] long[j], n, f, exp);
        if j > 0 {
            assert(short[j - 1] == long[j]);
        }
    }
    if holds_plus(short) {
        let j = choose|j: int| 0 <= j < short.len() && #[trigger] short[j] is PlusInt;
        assert(long[j + 1] == short[j]);
        assert(tokens[k + 1 + j] == short[j]);
    }
    if holds_plus(long) {
        let j = choose|j: int| 0 <= j < long.len() && #[trigger] long[j] is PlusInt;
        if j > 0 {
            assert(short[j - 1] == long[j]);
        }
    }
}

/// Whether `tokens` holds the mask `+` of the integer part at most once.
pub open spec fn plus_once(tokens: Seq<Token>) -> bool {
    forall|j: int, k: int|
        0 <= j < k < tokens.len() ==> !(#[trigger] tokens[j] is PlusInt
            && #[trigger] tokens[k] is PlusInt)
}

/// What the tokens from `k` on read for the signs, where each sign is
/// written at most once.
pub(crate) proof fn lemma_collected_signs(
    tokens: Seq<Token>,
    n: RawNumber,
    f: FormatModel,
    sym: Symbols,
    exp: bool,
    k: int,
)
    requires
        0 <= k <= tokens.len(),
        all_ready(tokens, n, f, sym, exp),
        one_sign_place(tokens, n, f, sym),
        exp_sign_read_once(tokens, n, f, exp),
        plus_once(tokens),
    ensures
        collected(tokens.skip(k), Slot::Sign, n, f, sym, exp) == sign_text(
            tokens.skip(k),
            n,
            f,
            sym,
        ),
        collected(tokens.skip(k), Slot::ExpSign, n, f, sym, exp) == exp_sign_text(
            tokens.skip(k),
            n,
            f,
            exp,
        ),
    decreases tokens.len() - k,
{
    if k == tokens.len() {
        assert(tokens.skip(k) =~= Seq::<Token>::empty());
    } else {
        lemma_collected_signs(tokens, n, f, sym, exp, k + 1);
        lemma_collected_step(tokens, k, Slot::Sign, n, f, sym, exp);
        lemma_collected_step(tokens, k, Slot::ExpSign, n, f, sym, exp);
        lemma_uses_sign_from(tokens, k, n, f, sym, exp);
        let t = tokens[k];
        let sign_here = given_back(t, Slot::Sign, n, f, sym, exp);
        let sign_rest = collected(tokens.skip(k + 1), Slot::Sign, n, f, sym, exp);
        let exp_here = given_back(t, Slot::ExpSign, n, f, sym, exp);
        let exp_rest = collected(tokens.skip(k + 1), Slot::ExpSign, n, f, sym, exp);
        assert(sign_here + sign_rest =~= sign_text(tokens.skip(k), n, f, sym));
        assert(exp_here + exp_rest =~= exp_sign_text(tokens.skip(k), n, f, exp));
    }
}

/// The sign of the exponent is read at most once, whatever the pattern.
pub proof fn lemma_exp_sign_read_once(source: Seq<Token>, sym: Symbols, n: RawNumber, exp: bool)
    requires
        source.len() <= usize::MAX,
        compile_tokens(source, sym) is Ok,
    ensures
        exp_sign_read_once(placed(source, sym).tokens, n, placed(source, sym), exp),
{
    let f = placed(source, sym);
    assert forall|j: int, k: int| 0 <= j < k < f.tokens.len() implies !(reads_exp_sign(
        #[trigger] f.tokens[j],
        n,
        f,
        exp,
    ) && reads_exp_sign(#[trigger] f.tokens[k], n, f, exp)) by {
        if reads_exp_sign(f.tokens[j], n, f, exp) && reads_exp_sign(f.tokens[k], n, f, exp) {
            assert(f.tokens[j] == placed_token(source, j, sym));
            assert(f.tokens[k] == placed_token(source, k, sym));
            if holds_kind(source, Unique::ExpSign) {
                lemma_kinds_are_unique(source, j, k);
            } else {
                lemma_count_digits_bound(source.skip(j + 1), Mode::Exponent);
                lemma_count_digits_bound(source.skip(k + 1), Mode::Exponent);
                lemma_digits_between(source, j, k, Mode::Exponent);
                lemma_count_digits_step(source, k, Mode::Exponent);
                assert(false);
            }
        }
    }
}

/// The decimal points that the placed tokens from `k` on give back for a
/// number with a fraction: one point if a decimal separator is among them,
/// else none.
pub(crate) proof fn lemma_points_of_fraction(
    source: Seq<Token>,
    sym: Symbols,
    n: RawNumber,
    exp: bool,
    k: int,
)
    requires
        compile_tokens(source, sym) is Ok,
        0 <= k <= source.len(),
        n.frac.len() > 0,
    ensures
        points(placed(source, sym).tokens.skip(k), n, placed(source, sym), sym, exp)
            == if holds_kind(source.skip(k), Unique::DecimalSep) {
            seq!['.']
        } else {
            Seq::<char>::empty()
        },
    decreases source.len() - k,
{
    let f = placed(source, sym);
    let tokens = f.tokens;
    if k == source.len() {
        assert(tokens.skip(k) =~= Seq::<Token>::empty());
        assert(source.skip(k) =~= Seq::<Token>::empty());
    } else {
        lemma_points_of_fraction(source, sym, n, exp, k + 1);
        assert(tokens.skip(k).drop_first() =~= tokens.skip(k + 1));
        assert(tokens.skip(k)[0] == placed_token(source, k, sym));
        let long = source.skip(k);
        let short = source.skip(k + 1);
        assert(long[0] == source[k]);
        let rest = points(tokens.skip(k + 1), n, f, sym, exp);
        if holds_kind(short, Unique::DecimalSep) {
            let j = choose|j: int|
                0 <= j < short.len() && unique_kind(#[trigger] short[j]) == Some(
                    Unique::DecimalSep,
                );
            assert(long[j + 1] == short[j]);
            assert(source[k + 1 + j] == short[j]);
            if is_separator(source[k]) {
                lemma_kinds_are_unique(source, k, k + 1 + j);
            }
            assert(Seq::<char>::empty() + rest =~= rest);
        } else {
            if holds_kind(long, Unique::DecimalSep) {
                let j = choose|j: int|
                    0 <= j < long.len() && unique_kind(#[trigger] long[j]) == Some(
                        Unique::DecimalSep,
                    );
                if j > 0 {
                    assert(short[j - 1] == long[j]);
                }
            }
            assert(seq!['.'] + rest =~= seq!['.']);
            assert(Seq::<char>::empty() + rest =~= rest);
        }
    }
}

/// The placed tokens from `k` on give back no decimal point for a number
/// without a fraction, where the pattern has no fraction either and no
/// decimal separator that is always written.
pub(crate) proof fn lemma_points_without_fraction(
    source: Seq<Token>,
    sym: Symbols,
    n: RawNumber,
    exp: bool,
    k: int,
)
    requires
        0 <= k <= source.len(),
        n.frac.len() == 0,
        !placed(source, sym).has_frac_0,
        forall|j: int| 0 <= j < source.len() ==> !(#[trigger] source[j] is DecimalSepAlways),
    ensures
        points(placed(source, sym).tokens.skip(k), n, placed(source, sym), sym, exp)
            =~= Seq::<char>::empty(),
    decreases source.len() - k,
{
    let f = placed(source, sym);
    let tokens = f.tokens;
    if k == source.len() {
        assert(tokens.skip(k) =~= Seq::<Token>::empty());
    } else {
        lemma_points_without_fraction(source, sym, n, exp, k + 1);
        assert(tokens.skip(k).drop_first() =~= tokens.skip(k + 1));
        assert(tokens.skip(k)[0] == placed_token(source, k, sym));
        assert(!(source[k] is DecimalSepAlways));
    }
}

} // verus!
