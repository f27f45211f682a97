//! Round trip: reading back what was rendered gives the number again.

use vstd::prelude::*;
use crate::collected::{
    holds_plus, left_tail, lemma_collected_frac, lemma_collected_right, lemma_collected_signs,
    lemma_exp_sign_read_once, lemma_points_of_fraction, lemma_points_without_fraction, less,
    plus_once, points, reads_any_exp_sign, right_tail, zeros_covered,
};
use crate::error::NumberFmtError;
use crate::laws::{lemma_count_digits_holds, lemma_kinds_are_unique};
use crate::model::{
    compile_pattern, compile_tokens, compiled, count_digits, is_digit_in, is_fixed_digit_in,
    lemma_count_digits_bound, lemma_count_digits_split, lemma_count_digits_step, FormatModel,
};
use crate::placed::{
    alike, flagged_text, lemma_alike_points, lemma_alike_read, lemma_placed_alike,
    lemma_placed_one_place, lemma_placed_text, placed, placed_token,
};
use crate::raw::{
    all_digits, digit_chars, lemma_split_plain, plain_text, split_raw, EXP, MINUS, POINT,
    RawNumber,
};
use crate::readback::{
    all_ready, collected, is_exp_token, lemma_token_reads_back, lemma_unmap_rendered,
    reads_back, reads_exp_sign, seen_and_collected, shift_of, token_ready, zero_place,
};
use crate::render::{
    exp_padding, exp_sign_index, exp_width, render_result, render_text, render_written,
    uses_exp_sign, uses_sign, writes_exp_sign,
};
use crate::sections::{
    lemma_exponent_has_marker, lemma_fraction_has_separator, lemma_pattern_is_sectioned,
    lemma_scan_length, sectioned,
};
use crate::shifted::{
    lemma_aligned_is_rendered, lemma_first_digit, lemma_nines_keep_off_sign, lemma_zero_place,
    shiftable,
};
use crate::symbols::Symbols;
use crate::token::{pattern_tokens, Mode, Token};
use crate::unmap::{is_digit, unmap_result, unmap_tokens, Slot, Unmapped};

verus! {

/// Whether the glyphs of `sym` can be told apart where the reader has to:
/// the negative sign is no digit, no blank, no `+`, not the positive sign and
/// not the grouping separator; the positive sign is no digit; the decimal
/// separator is no blank.
pub open spec fn unambiguous(sym: Symbols) -> bool {
    &&& !is_digit(sym.negative_sym)
    &&& !is_digit(sym.positive_sym)
    &&& sym.negative_sym != sym.positive_sym
    &&& sym.negative_sym != ' '
    &&& sym.negative_sym != '+'
    &&& sym.decimal_grp != Some(sym.negative_sym)
    &&& sym.decimal_sep != ' '
}

/// `n` times the digit `0`.
pub open spec fn zeros(n: nat) -> Seq<char> {
    Seq::new(n, |i: int| '0')
}

/// What a pattern must be like so that what it writes can be read back with
/// the symbols `sym`: its tokens are laid out in sections, as the text of a
/// pattern lays them out, and the glyphs can be told apart.
pub open spec fn readable(source: Seq<Token>, sym: Symbols) -> bool {
    &&& sectioned(source, Mode::Integer)
    &&& unambiguous(sym)
}

/// What a number must be like so that the pattern `f` holds all of it: its
/// parts are digits; it has no more integer, fraction and exponent digits
/// than the pattern; every `#` of the fraction gets a digit; it has no
/// exponent where the pattern has none; and a negative sign finds a token
/// that writes it.
pub open spec fn representable(n: RawNumber, f: FormatModel, sym: Symbols) -> bool {
    &&& all_digits(n.int)
    &&& all_digits(n.frac)
    &&& all_digits(n.exp)
    &&& n.int.len() <= f.len_int
    &&& n.frac.len() <= f.len_frac
    &&& forall|k: int|
        0 <= k < f.tokens.len() ==> (#[trigger] f.tokens[k] matches Token::Numeric(
            Mode::Fraction,
            i,
            _,
        ) ==> i < n.frac.len())
    &&& if f.has_exp {
        exp_width(n, f) <= f.len_exp
    } else {
        n.exp.len() == 0
    }
    &&& n.negative ==> uses_sign(f.tokens, n, f, sym)
    &&& n.exp_negative ==> uses_exp_sign(f.tokens, n, f, f.has_exp)
}

/// Whether the exponent of `n`, if it is shorter than that of the pattern
/// and so is shifted, can be read back from where it is written.
pub open spec fn shift_is_readable(source: Seq<Token>, n: RawNumber, f: FormatModel) -> bool {
    f.has_exp && exp_padding(n, f) > 0 ==> shiftable(source)
}

/// What reading gives back of a number that was rendered: its sign, or `+`
/// where the pattern has that mask; its integer digits behind `a` zeros;
/// the decimal point if the separator was written; its fraction digits
/// before `b` zeros; the sign of its exponent and the digits of its exponent
/// behind `c` zeros.
pub open spec fn read_back(n: RawNumber, f: FormatModel, sym: Symbols, a: nat, b: nat, c: nat)
    -> Unmapped {
    Unmapped {
        sign: if n.negative {
            seq!['-']
        } else if holds_plus(f.tokens) {
            seq!['+']
        } else {
            Seq::empty()
        },
        int: zeros(a) + digit_chars(n.int),
        frac: points(f.tokens, n, f, sym, f.has_exp) + (digit_chars(n.frac) + zeros(b)),
        exp_sign: if n.exp_negative {
            seq!['-']
        } else {
            Seq::empty()
        },
        exp: zeros(c) + digit_chars(n.exp),
    }
}

/// Whether `a`, `b` and `c` zeros are no more than the pattern asks for:
/// none before the integer digits or the exponent where every `0` of that
/// part stands for a digit of the number, and none behind the fraction where
/// the number has as many fraction digits as the pattern.
pub open spec fn no_more_than_needed(n: RawNumber, f: FormatModel, a: nat, b: nat, c: nat) -> bool {
    &&& zeros_covered(f.tokens, Mode::Integer, n.int.len()) ==> a == 0
    &&& n.frac.len() == f.len_frac ==> b == 0
    &&& zeros_covered(f.tokens, Mode::Exponent, n.exp.len()) ==> c == 0
}

/// Whether the pattern `f` adds nothing to the number `n`: every `0` of the
/// integer part and the exponent stands for a digit, the number has as many
/// fraction digits as the pattern, the mask `+` meets a negative number
/// only, a decimal separator that is always written has a fraction behind
/// it, and a negative exponent has digits.
pub open spec fn unpadded(n: RawNumber, f: FormatModel) -> bool {
    &&& zeros_covered(f.tokens, Mode::Integer, n.int.len())
    &&& zeros_covered(f.tokens, Mode::Exponent, n.exp.len())
    &&& n.frac.len() == f.len_frac
    &&& n.negative || !holds_plus(f.tokens)
    &&& f.len_frac == 0 ==> forall|k: int|
        0 <= k < f.tokens.len() ==> !(#[trigger] f.tokens[k] is DecimalSepAlways)
    &&& n.exp_negative ==> n.exp.len() > 0
}

/// Every token of a readable pattern is ready for a number that the pattern
/// holds.
pub(crate) proof fn lemma_all_ready(source: Seq<Token>, sym: Symbols, n: RawNumber)
    requires
        source.len() <= usize::MAX,
        readable(source, sym),
        representable(n, placed(source, sym), sym),
        shift_is_readable(source, n, placed(source, sym)),
    ensures
        all_ready(
            placed(source, sym).tokens,
            n,
            placed(source, sym),
            sym,
            placed(source, sym).has_exp,
        ),
{
    let f = placed(source, sym);
    assert forall|k: int| 0 <= k < f.tokens.len() implies token_ready(
        #[trigger] f.tokens[k],
        n,
        f,
        sym,
        f.has_exp,
    ) by {
        let t = f.tokens[k];
        assert(t == placed_token(source, k, sym));
        if is_exp_token(t) {
            assert(is_exp_token(source[k]));
            lemma_exponent_has_marker(source, k);
            if is_digit_in(source[k], Mode::Exponent) {
                lemma_count_digits_split(source, k, Mode::Exponent);
                lemma_count_digits_step(source, k, Mode::Exponent);
                lemma_count_digits_bound(source, Mode::Exponent);
            }
        }
    }
}

/// Where a token wrote the sign of a negative exponent, a token reads it.
pub(crate) proof fn lemma_exp_sign_is_read(source: Seq<Token>, sym: Symbols, n: RawNumber)
    requires
        source.len() <= usize::MAX,
        n.exp_negative,
        representable(n, placed(source, sym), sym),
        shift_is_readable(source, n, placed(source, sym)),
    ensures
        reads_any_exp_sign(
            placed(source, sym).tokens,
            n,
            placed(source, sym),
            placed(source, sym).has_exp,
        ),
{
    let f = placed(source, sym);
    let exp = f.has_exp;
    let tokens = f.tokens;
    let w = choose|w: int|
        0 <= w < tokens.len() && writes_exp_sign(#[trigger] tokens[w], n, f, exp);
    assert(tokens[w] == placed_token(source, w, sym));
    if exp_padding(n, f) == 0 || !(tokens[w] is Numeric) {
        assert(reads_exp_sign(tokens[w], n, f, exp));
    } else {
        let sign_at = exp_sign_index(n, f);
        lemma_count_digits_bound(source.skip(w + 1), Mode::Exponent);
        lemma_count_digits_bound(source, Mode::Exponent);
        assert(count_digits(source.skip(w + 1), Mode::Exponent) == sign_at);
        lemma_zero_place(source, sym, w);
        assert(!zero_place(f, sign_at));
        lemma_count_digits_split(source, w, Mode::Exponent);
        lemma_count_digits_step(source, w, Mode::Exponent);
        let r = lemma_first_digit(source, Mode::Exponent);
        assert(tokens[r] == placed_token(source, r, sym));
        lemma_nines_keep_off_sign(source, sym, n);
        assert(count_digits(source.skip(r + 1), Mode::Exponent) == sign_at + exp_padding(n, f));
        assert(!is_fixed_digit_in(source[r], Mode::Exponent));
        assert(source[r] is Numeric);
        assert(reads_exp_sign(tokens[r], n, f, exp));
    }
}

/// With one place for the sign at each index, what was rendered reads back
/// as the number.
pub(crate) proof fn lemma_placed_parts(source: Seq<Token>, sym: Symbols, n: RawNumber)
    requires
        source.len() <= usize::MAX,
        compile_tokens(source, sym) is Ok,
        readable(source, sym),
        representable(n, placed(source, sym), sym),
        shift_is_readable(source, n, placed(source, sym)),
    ensures
        exists|a: nat, b: nat, c: nat|
            unmap_tokens(
                placed(source, sym).tokens,
                flagged_text(
                    placed(source, sym).tokens,
                    n,
                    placed(source, sym),
                    sym,
                    placed(source, sym).has_exp,
                ),
                sym,
                Unmapped::empty(),
            ) == Ok::<Unmapped, NumberFmtError>(
                #[trigger] read_back(n, placed(source, sym), sym, a, b, c),
            ) && no_more_than_needed(n, placed(source, sym), a, b, c),
{
    let f = placed(source, sym);
    let tokens = f.tokens;
    let exp = f.has_exp;
    lemma_all_ready(source, sym, n);
    assert forall|k: int| 0 <= k < tokens.len() implies reads_back(
        #[trigger] tokens[k],
        n,
        f,
        sym,
        exp,
    ) by {
        lemma_token_reads_back(tokens[k], n, f, sym, exp);
    }
    lemma_aligned_is_rendered(source, sym, n);
    lemma_unmap_rendered(tokens, n, f, sym, exp, Unmapped::empty());
    let got = seen_and_collected(Unmapped::empty(), tokens, n, f, sym, exp);
    assert(tokens.skip(0) =~= tokens);
    assert(source.skip(0) =~= source);
    assert(source.take(0) =~= Seq::<Token>::empty());
    // the signs
    lemma_placed_one_place(source, sym, n, sym);
    lemma_exp_sign_read_once(source, sym, n, exp);
    assert(plus_once(tokens)) by {
        assert forall|j: int, k: int| 0 <= j < k < tokens.len() implies !(
        #[trigger] tokens[j] is PlusInt && #[trigger] tokens[k] is PlusInt) by {
            assert(tokens[j] == placed_token(source, j, sym));
            assert(tokens[k] == placed_token(source, k, sym));
            if source[j] is PlusInt && source[k] is PlusInt {
                lemma_kinds_are_unique(source, j, k);
            }
        }
    }
    lemma_collected_signs(tokens, n, f, sym, exp, 0);
    if n.exp_negative {
        lemma_exp_sign_is_read(source, sym, n);
    }
    // the digits
    lemma_collected_right(source, sym, n, exp, Mode::Integer, 0);
    let int_count = less(count_digits(source, Mode::Integer), 0);
    let a = choose|z: nat|
        {
            &&& #[trigger] right_tail(n.int, int_count, z) == collected(
                tokens,
                Slot::Int,
                n,
                f,
                sym,
                exp,
            )
            &&& zeros_covered(tokens, Mode::Integer, n.int.len()) ==> z == 0
        };
    lemma_collected_right(source, sym, n, exp, Mode::Exponent, 0);
    let exp_count = less(
        count_digits(source, Mode::Exponent),
        shift_of(Mode::Exponent, n, f, exp),
    );
    let c = choose|z: nat|
        {
            &&& #[trigger] right_tail(n.exp, exp_count, z) == collected(
                tokens,
                Slot::Exp,
                n,
                f,
                sym,
                exp,
            )
            &&& zeros_covered(tokens, Mode::Exponent, n.exp.len()) ==> z == 0
        };
    lemma_collected_frac(source, sym, n, exp, 0, Mode::Integer);
    let b = choose|d: nat|
        {
            &&& points(tokens, n, f, sym, exp) + #[trigger] left_tail(n.frac, 0, d) == collected(
                tokens,
                Slot::Frac,
                n,
                f,
                sym,
                exp,
            )
            &&& n.frac.len() == count_digits(source, Mode::Fraction) ==> d == 0
        };
    let a0: nat = if int_count <= n.int.len() {
        0
    } else {
        a
    };
    let c0: nat = if exp_count <= n.exp.len() {
        0
    } else {
        c
    };
    let want = read_back(n, f, sym, a0, b, c0);
    assert(digit_chars(n.int).skip(0) =~= digit_chars(n.int));
    assert(digit_chars(n.exp).skip(0) =~= digit_chars(n.exp));
    assert(digit_chars(n.frac).skip(0) =~= digit_chars(n.frac));
    assert(got.sign =~= want.sign);
    assert(got.int =~= want.int);
    assert(got.frac =~= want.frac);
    assert(got.exp_sign =~= want.exp_sign);
    assert(got.exp =~= want.exp);
    assert(no_more_than_needed(n, f, a0, b, c0));
}

/// The text of what is read back without any zeros added is the plain
/// decimal text of the number, where the decimal point is read exactly for a
/// number with a fraction.
proof fn lemma_read_back_is_plain(n: RawNumber, f: FormatModel, sym: Symbols)
    requires
        n.negative || !holds_plus(f.tokens),
        n.exp_negative ==> n.exp.len() > 0,
        points(f.tokens, n, f, sym, f.has_exp) == if n.frac.len() > 0 {
            seq!['.']
        } else {
            Seq::<char>::empty()
        },
    ensures
        read_back(n, f, sym, 0, 0, 0).text() == digit_chars(plain_text(n)),
{
    let back = read_back(n, f, sym, 0, 0, 0);
    assert(back.int =~= digit_chars(n.int));
    assert(back.exp =~= digit_chars(n.exp));
    let sign = if n.negative {
        seq![MINUS]
    } else {
        Seq::<u8>::empty()
    };
    let frac = if n.frac.len() > 0 {
        seq![POINT] + n.frac
    } else {
        Seq::<u8>::empty()
    };
    let exp_sign = if n.exp_negative {
        seq![MINUS]
    } else {
        Seq::<u8>::empty()
    };
    let exponent = if n.exp.len() > 0 {
        seq![EXP] + exp_sign + n.exp
    } else {
        Seq::<u8>::empty()
    };
    assert(back.sign =~= digit_chars(sign));
    assert(back.frac =~= digit_chars(frac));
    assert(back.exp_sign =~= digit_chars(exp_sign));
    let marker = if back.exp.len() > 0 {
        seq!['e']
    } else {
        Seq::<char>::empty()
    };
    assert(marker + back.exp_sign + back.exp =~= digit_chars(exponent));
    assert(plain_text(n) == sign + n.int + frac + exponent);
    assert(back.text() =~= back.sign + back.int + back.frac + (marker + back.exp_sign
        + back.exp));
    assert(digit_chars(sign + n.int + frac + exponent) =~= digit_chars(sign) + digit_chars(n.int)
        + digit_chars(frac) + digit_chars(exponent));
}

/// With one place for the sign at each index and a pattern that adds
/// nothing to the number, reading the rendered text gives the plain decimal
/// text of the number.
pub(crate) proof fn lemma_placed_exact(source: Seq<Token>, sym: Symbols, n: RawNumber)
    requires
        source.len() <= usize::MAX,
        compile_tokens(source, sym) is Ok,
        readable(source, sym),
        representable(n, placed(source, sym), sym),
        shift_is_readable(source, n, placed(source, sym)),
        unpadded(n, placed(source, sym)),
    ensures
        unmap_result(
            flagged_text(
                placed(source, sym).tokens,
                n,
                placed(source, sym),
                sym,
                placed(source, sym).has_exp,
            ),
            placed(source, sym),
            sym,
        ) == Ok::<Seq<char>, NumberFmtError>(digit_chars(plain_text(n))),
{
    let f = placed(source, sym);
    let tokens = f.tokens;
    lemma_placed_parts(source, sym, n);
    let (a, b, c) = choose|a: nat, b: nat, c: nat|
        unmap_tokens(tokens, flagged_text(tokens, n, f, sym, f.has_exp), sym, Unmapped::empty())
            == Ok::<Unmapped, NumberFmtError>(#[trigger] read_back(n, f, sym, a, b, c))
            && no_more_than_needed(n, f, a, b, c);
    assert(tokens.skip(0) =~= tokens);
    assert(source.skip(0) =~= source);
    if n.frac.len() > 0 {
        let k = lemma_first_digit(source, Mode::Fraction);
        lemma_fraction_has_separator(source, k);
        lemma_points_of_fraction(source, sym, n, f.has_exp, 0);
    } else {
        if f.has_frac_0 {
            let j = choose|j: int|
                0 <= j < source.len() && (#[trigger] source[j] matches Token::Digit0(m, _) && m
                    == Mode::Fraction);
            lemma_count_digits_holds(source, j, Mode::Fraction);
        }
        assert forall|j: int| 0 <= j < source.len() implies !(
        #[trigger] source[j] is DecimalSepAlways) by {
            assert(tokens[j] == placed_token(source, j, sym));
        }
        lemma_points_without_fraction(source, sym, n, f.has_exp, 0);
    }
    lemma_read_back_is_plain(n, f, sym);
}

/// What the round trip asks of a pattern and a number, and what it gives,
/// does not depend on the flags for the sign: it is the same for the
/// compiled pattern and for the one with one place for the sign at each
/// index.
pub(crate) proof fn lemma_same_demands(source: Seq<Token>, sym: Symbols, n: RawNumber)
    requires
        source.len() <= usize::MAX,
    ensures
        representable(n, compiled(source, sym), sym) == representable(n, placed(source, sym), sym),
        unpadded(n, compiled(source, sym)) == unpadded(n, placed(source, sym)),
        shift_is_readable(source, n, compiled(source, sym)) == shift_is_readable(
            source,
            n,
            placed(source, sym),
        ),
        forall|a: nat, b: nat, c: nat| #[trigger]
            read_back(n, compiled(source, sym), sym, a, b, c) == read_back(
                n,
                placed(source, sym),
                sym,
                a,
                b,
                c,
            ),
        forall|a: nat, b: nat, c: nat| #[trigger]
            no_more_than_needed(n, compiled(source, sym), a, b, c) == no_more_than_needed(
                n,
                placed(source, sym),
                a,
                b,
                c,
            ),
        uses_sign(compiled(source, sym).tokens, n, compiled(source, sym), sym) == uses_sign(
            placed(source, sym).tokens,
            n,
            placed(source, sym),
            sym,
        ),
        uses_exp_sign(
            compiled(source, sym).tokens,
            n,
            compiled(source, sym),
            compiled(source, sym).has_exp,
        ) == uses_exp_sign(
            placed(source, sym).tokens,
            n,
            placed(source, sym),
            placed(source, sym).has_exp,
        ),
{
    let f = compiled(source, sym);
    let g = placed(source, sym);
    let exp = f.has_exp;
    lemma_placed_alike(source, sym);
    lemma_placed_text(source, sym, n, exp, 0);
    assert(f.tokens.skip(0) =~= f.tokens);
    assert(g.tokens.skip(0) =~= g.tokens);
    assert(exp_sign_index(n, f) == exp_sign_index(n, g));
    assert(exp_width(n, f) == exp_width(n, g));
    assert(exp_padding(n, f) == exp_padding(n, g));
    assert forall|k: int| 0 <= k < source.len() implies (#[trigger] f.tokens[k] is Numeric
        || f.tokens[k] is GroupingSep || f.tokens[k] == g.tokens[k]) && writes_exp_sign(
        f.tokens[k],
        n,
        f,
        exp,
    ) == writes_exp_sign(#[trigger] g.tokens[k], n, g, exp) && (f.tokens[k] matches Token::Numeric(
        Mode::Fraction,
        i,
        _,
    ) ==> f.tokens[k] == g.tokens[k]) by {
        assert(alike(f.tokens[k], g.tokens[k]));
    }
    assert(uses_exp_sign(f.tokens, n, f, exp) == uses_exp_sign(g.tokens, n, g, exp)) by {
        if uses_exp_sign(f.tokens, n, f, exp) {
            let k = choose|k: int|
                0 <= k < f.tokens.len() && writes_exp_sign(#[trigger] f.tokens[k], n, f, exp);
            assert(writes_exp_sign(g.tokens[k], n, g, exp));
        }
        if uses_exp_sign(g.tokens, n, g, exp) {
            let k = choose|k: int|
                0 <= k < g.tokens.len() && writes_exp_sign(#[trigger] g.tokens[k], n, g, exp);
            assert(writes_exp_sign(f.tokens[k], n, f, exp));
        }
    }
    assert(holds_plus(f.tokens) == holds_plus(g.tokens)) by {
        if holds_plus(f.tokens) {
            let k = choose|k: int| 0 <= k < f.tokens.len() && #[trigger] f.tokens[k] is PlusInt;
            assert(g.tokens[k] is PlusInt);
        }
        if holds_plus(g.tokens) {
            let k = choose|k: int| 0 <= k < g.tokens.len() && #[trigger] g.tokens[k] is PlusInt;
            assert(f.tokens[k] is PlusInt);
        }
    }
    assert forall|mode: Mode, len: nat| #[trigger]
        zeros_covered(f.tokens, mode, len) == zeros_covered(g.tokens, mode, len) by {
        if zeros_covered(f.tokens, mode, len) {
            assert forall|j: int| 0 <= j < g.tokens.len() implies (
            #[trigger] g.tokens[j] matches Token::Digit0(m, i) ==> !(m == mode && i >= len)) by {
                assert(f.tokens[j] is Numeric || f.tokens[j] is GroupingSep || f.tokens[j]
                    == g.tokens[j]);
            }
        }
        if zeros_covered(g.tokens, mode, len) {
            assert forall|j: int| 0 <= j < f.tokens.len() implies (
            #[trigger] f.tokens[j] matches Token::Digit0(m, i) ==> !(m == mode && i >= len)) by {
                assert(f.tokens[j] is Numeric || f.tokens[j] is GroupingSep || f.tokens[j]
                    == g.tokens[j]);
            }
        }
    }
    lemma_alike_points(f.tokens, g.tokens, n, f, g, sym, exp);
    assert(representable(n, f, sym) == representable(n, g, sym)) by {
        let fits = |h: FormatModel|
            forall|k: int|
                0 <= k < h.tokens.len() ==> (#[trigger] h.tokens[k] matches Token::Numeric(
                    Mode::Fraction,
                    i,
                    _,
                ) ==> i < n.frac.len());
        if fits(f) {
            assert forall|k: int| 0 <= k < g.tokens.len() implies (
            #[trigger] g.tokens[k] matches Token::Numeric(Mode::Fraction, i, _) ==> i
                < n.frac.len()) by {
                assert(alike(f.tokens[k], g.tokens[k]));
            }
        }
        if fits(g) {
            assert forall|k: int| 0 <= k < f.tokens.len() implies (
            #[trigger] f.tokens[k] matches Token::Numeric(Mode::Fraction, i, _) ==> i
                < n.frac.len()) by {
                assert(alike(f.tokens[k], g.tokens[k]));
            }
        }
        assert(fits(f) == fits(g));
    }
    assert(unpadded(n, f) == unpadded(n, g)) by {
        let none = |h: FormatModel|
            forall|k: int|
                0 <= k < h.tokens.len() ==> !(#[trigger] h.tokens[k] is DecimalSepAlways);
        if none(f) {
            assert forall|k: int| 0 <= k < g.tokens.len() implies !(
            #[trigger] g.tokens[k] is DecimalSepAlways) by {
                assert(alike(f.tokens[k], g.tokens[k]));
            }
        }
        if none(g) {
            assert forall|k: int| 0 <= k < f.tokens.len() implies !(
            #[trigger] f.tokens[k] is DecimalSepAlways) by {
                assert(alike(f.tokens[k], g.tokens[k]));
            }
        }
        assert(none(f) == none(g));
    }
}

/// The compiled pattern renders and reads as the pattern with one place
/// for the sign at each index does.
pub(crate) proof fn lemma_same_round(source: Seq<Token>, sym: Symbols, n: RawNumber)
    requires
        source.len() <= usize::MAX,
    ensures
        render_text(
            compiled(source, sym).tokens,
            n,
            compiled(source, sym),
            sym,
            compiled(source, sym).has_exp,
        ) == flagged_text(
            placed(source, sym).tokens,
            n,
            placed(source, sym),
            sym,
            placed(source, sym).has_exp,
        ),
        forall|text: Seq<char>| #[trigger]
            unmap_tokens(compiled(source, sym).tokens, text, sym, Unmapped::empty())
                == unmap_tokens(placed(source, sym).tokens, text, sym, Unmapped::empty()),
        forall|text: Seq<char>| #[trigger]
            unmap_result(text, compiled(source, sym), sym) == unmap_result(
                text,
                placed(source, sym),
                sym,
            ),
{
    let f = compiled(source, sym);
    let g = placed(source, sym);
    lemma_placed_alike(source, sym);
    lemma_placed_text(source, sym, n, f.has_exp, 0);
    assert(f.tokens.skip(0) =~= f.tokens);
    assert(g.tokens.skip(0) =~= g.tokens);
    assert forall|text: Seq<char>| #[trigger]
        unmap_tokens(f.tokens, text, sym, Unmapped::empty()) == unmap_tokens(
            g.tokens,
            text,
            sym,
            Unmapped::empty(),
        ) by {
        lemma_alike_read(f.tokens, g.tokens, text, sym, Unmapped::empty());
    }
}

/// Round trip: what was rendered reads back as the number.
///
/// For a readable pattern and a number that it holds, reading the rendered
/// text with the same pattern and symbols succeeds, and gives the sign and
/// the digits of the number, with no more than zeros before the integer
/// digits and the exponent and behind the fraction.
pub proof fn lemma_round_trip_parts(source: Seq<Token>, sym: Symbols, n: RawNumber)
    requires
        source.len() <= usize::MAX,
        compile_tokens(source, sym) is Ok,
        readable(source, sym),
        representable(n, compiled(source, sym), sym),
        shift_is_readable(source, n, compiled(source, sym)),
    ensures
        exists|a: nat, b: nat, c: nat|
            unmap_tokens(
                compiled(source, sym).tokens,
                render_text(
                    compiled(source, sym).tokens,
                    n,
                    compiled(source, sym),
                    sym,
                    compiled(source, sym).has_exp,
                ),
                sym,
                Unmapped::empty(),
            ) == Ok::<Unmapped, NumberFmtError>(
                #[trigger] read_back(n, compiled(source, sym), sym, a, b, c),
            ) && no_more_than_needed(n, compiled(source, sym), a, b, c),
{
    let f = compiled(source, sym);
    let g = placed(source, sym);
    lemma_same_demands(source, sym, n);
    lemma_same_round(source, sym, n);
    lemma_placed_parts(source, sym, n);
    let (a, b, c) = choose|a: nat, b: nat, c: nat|
        unmap_tokens(
            g.tokens,
            flagged_text(g.tokens, n, g, sym, g.has_exp),
            sym,
            Unmapped::empty(),
        ) == Ok::<Unmapped, NumberFmtError>(#[trigger] read_back(n, g, sym, a, b, c))
            && no_more_than_needed(n, g, a, b, c);
    assert(read_back(n, f, sym, a, b, c) == read_back(n, g, sym, a, b, c));
    assert(no_more_than_needed(n, f, a, b, c));
}

/// Round trip without a difference: where the pattern adds nothing to the
/// number, reading the rendered text gives the plain decimal text of the
/// number, character by character.
pub proof fn lemma_round_trip_exact(source: Seq<Token>, sym: Symbols, n: RawNumber)
    requires
        source.len() <= usize::MAX,
        compile_tokens(source, sym) is Ok,
        readable(source, sym),
        representable(n, compiled(source, sym), sym),
        shift_is_readable(source, n, compiled(source, sym)),
        unpadded(n, compiled(source, sym)),
    ensures
        unmap_result(
            render_text(
                compiled(source, sym).tokens,
                n,
                compiled(source, sym),
                sym,
                compiled(source, sym).has_exp,
            ),
            compiled(source, sym),
            sym,
        ) == Ok::<Seq<char>, NumberFmtError>(digit_chars(plain_text(n))),
{
    lemma_same_demands(source, sym, n);
    lemma_same_round(source, sym, n);
    lemma_placed_exact(source, sym, n);
}

/// Round trip of the plain decimal text of a number to which the pattern
/// adds nothing: rendering it succeeds, and reading the rendered text gives
/// the very same text.
pub proof fn lemma_round_trip_text(source: Seq<Token>, sym: Symbols, n: RawNumber)
    requires
        source.len() <= usize::MAX,
        compile_tokens(source, sym) is Ok,
        readable(source, sym),
        representable(n, compiled(source, sym), sym),
        shift_is_readable(source, n, compiled(source, sym)),
        unpadded(n, compiled(source, sym)),
    ensures
        render_result(
            plain_text(n),
            compiled(source, sym),
            sym,
            compiled(source, sym).has_exp,
        ) == Ok::<(), NumberFmtError>(()),
        unmap_result(
            render_written(
                plain_text(n),
                compiled(source, sym),
                sym,
                compiled(source, sym).has_exp,
            ),
            compiled(source, sym),
            sym,
        ) == Ok::<Seq<char>, NumberFmtError>(digit_chars(plain_text(n))),
{
    lemma_split_plain(n);
    lemma_round_trip_exact(source, sym, n);
}

/// Round trip, on the plain decimal text of a number: for a readable
/// pattern and a number that it holds, rendering succeeds, and reading the
/// rendered text with the same pattern and symbols gives the text of the
/// number again, with no more than zeros added before the integer digits
/// and the exponent and behind the fraction, a `+` where the pattern has
/// that mask, and a decimal point where the pattern always writes one.
pub proof fn lemma_round_trip(source: Seq<Token>, sym: Symbols, raw: Seq<u8>)
    requires
        source.len() <= usize::MAX,
        compile_tokens(source, sym) is Ok,
        readable(source, sym),
        representable(split_raw(raw), compiled(source, sym), sym),
        shift_is_readable(source, split_raw(raw), compiled(source, sym)),
    ensures
        render_result(raw, compiled(source, sym), sym, compiled(source, sym).has_exp) == Ok::<
            (),
            NumberFmtError,
        >(()),
        exists|a: nat, b: nat, c: nat|
            unmap_result(
                render_written(raw, compiled(source, sym), sym, compiled(source, sym).has_exp),
                compiled(source, sym),
                sym,
            ) == Ok::<Seq<char>, NumberFmtError>(
                #[trigger] read_back(split_raw(raw), compiled(source, sym), sym, a, b, c).text(),
            ),
{
    let f = compiled(source, sym);
    let n = split_raw(raw);
    lemma_round_trip_parts(source, sym, n);
    let (a, b, c) = choose|a: nat, b: nat, c: nat|
        unmap_tokens(
            f.tokens,
            render_text(f.tokens, n, f, sym, f.has_exp),
            sym,
            Unmapped::empty(),
        ) == Ok::<Unmapped, NumberFmtError>(#[trigger] read_back(n, f, sym, a, b, c));
    assert(unmap_result(render_written(raw, f, sym, f.has_exp), f, sym) == Ok::<
        Seq<char>,
        NumberFmtError,
    >(read_back(n, f, sym, a, b, c).text()));
}

/// Round trip, for the text of a pattern: a pattern that compiles, with
/// symbols that can be told apart, renders every number that it holds, and
/// reads it back.
pub proof fn lemma_round_trip_pattern(pattern: Seq<char>, sym: Symbols, raw: Seq<u8>)
    requires
        pattern.len() <= usize::MAX,
        compile_pattern(pattern, sym) is Ok,
        unambiguous(sym),
        representable(split_raw(raw), compile_pattern(pattern, sym)->Ok_0, sym),
        shift_is_readable(
            pattern_tokens(pattern)->Ok_0,
            split_raw(raw),
            compile_pattern(pattern, sym)->Ok_0,
        ),
    ensures
        render_result(
            raw,
            compile_pattern(pattern, sym)->Ok_0,
            sym,
            compile_pattern(pattern, sym)->Ok_0.has_exp,
        ) == Ok::<(), NumberFmtError>(()),
        exists|a: nat, b: nat, c: nat|
            unmap_result(
                render_written(
                    raw,
                    compile_pattern(pattern, sym)->Ok_0,
                    sym,
                    compile_pattern(pattern, sym)->Ok_0.has_exp,
                ),
                compile_pattern(pattern, sym)->Ok_0,
                sym,
            ) == Ok::<Seq<char>, NumberFmtError>(
                #[trigger] read_back(
                    split_raw(raw),
                    compile_pattern(pattern, sym)->Ok_0,
                    sym,
                    a,
                    b,
                    c,
                ).text(),
            ),
{
    let source = pattern_tokens(pattern)->Ok_0;
    lemma_scan_length(pattern, Mode::Integer, false);
    lemma_pattern_is_sectioned(pattern);
    lemma_round_trip(source, sym, raw);
}

} // verus!
