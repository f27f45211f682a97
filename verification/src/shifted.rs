//! The exponent that is shifted to the left: what its tokens write is what
//! they are handed, taken together.

use vstd::prelude::*;
use crate::collected::less;
use crate::laws::lemma_indices_distinct;
use crate::model::{
    count_digits, holds_kind, is_digit_in, is_fixed_digit_in, lemma_count_digits_bound,
    lemma_count_digits_next, lemma_count_digits_split, lemma_count_digits_step, min_exp_sign_of,
    FormatModel, Unique,
};
use crate::placed::{flagged_text, placed, placed_token};
use crate::raw::RawNumber;
use crate::readback::{aligned_render, aligned_text, exp_place_glyph, zero_place};
use crate::render::{
    blanks, exp_padding, exp_sign_index, exp_width, token_text, uses_exp_sign, writes_exp_sign,
};
use crate::symbols::Symbols;
use crate::token::{Mode, Token};

verus! {

/// Whether the exponent of a pattern can be shifted and still be read back:
/// no other token stands between its digits.
pub open spec fn shiftable(source: Seq<Token>) -> bool {
    forall|k: int|
        0 <= k < source.len() && !is_digit_in(#[trigger] source[k], Mode::Exponent)
            && count_digits(source.skip(k + 1), Mode::Exponent) > 0 ==> count_digits(
            source.take(k),
            Mode::Exponent,
        ) == 0
}

/// Tokens that hold a digit of a part hold a first one: all other digits of
/// that part stand behind it.
pub(crate) proof fn lemma_first_digit(tokens: Seq<Token>, mode: Mode) -> (k: int)
    requires
        count_digits(tokens, mode) >= 1,
    ensures
        0 <= k < tokens.len(),
        is_digit_in(tokens[k], mode),
        count_digits(tokens.skip(k + 1), mode) == count_digits(tokens, mode) - 1,
    decreases tokens.len(),
{
    if is_digit_in(tokens[0], mode) {
        assert(tokens.skip(1) =~= tokens.drop_first());
        0
    } else {
        let rest = tokens.drop_first();
        let j = lemma_first_digit(rest, mode);
        assert(rest.skip(j + 1) =~= tokens.skip(j + 2));
        assert(rest[j] == tokens[j + 1]);
        j + 1
    }
}

/// The glyphs of the places `m - 1` down to zero of a rendered exponent
/// whose places are `#` with the flag `can` or `9`.
pub open spec fn exp_places(n: RawNumber, f: FormatModel, sym: Symbols, can: bool, m: nat) -> Seq<
    char,
>
    decreases m,
{
    if m == 0 {
        Seq::empty()
    } else {
        seq![exp_place_glyph(n, f, sym, (m - 1) as nat, can)] + exp_places(
            n,
            f,
            sym,
            can,
            (m - 1) as nat,
        )
    }
}

/// What the last `m` digits of an exponent without `0` write: the glyphs of the
/// places within the width of the exponent, then the padding.
pub open spec fn exp_written(n: RawNumber, f: FormatModel, sym: Symbols, can: bool, m: nat) -> Seq<
    char,
> {
    if m == 0 {
        Seq::empty()
    } else {
        exp_places(n, f, sym, can, if m <= exp_width(n, f) { m } else { exp_width(n, f) })
            + blanks(exp_padding(n, f))
    }
}

/// What the last `m` digits of an exponent without `0` are handed: the glyphs of
/// the places that lie the padding to their right, then blanks.
pub open spec fn exp_handed(n: RawNumber, f: FormatModel, sym: Symbols, can: bool, m: nat) -> Seq<
    char,
> {
    exp_places(n, f, sym, can, less(m, exp_padding(n, f))) + blanks(
        if m <= exp_padding(n, f) {
            m
        } else {
            exp_padding(n, f)
        },
    )
}

/// One more `#` of an exponent before the last `m` digits: what it writes
/// and what it is handed.
pub(crate) proof fn lemma_exp_block_grows(
    n: RawNumber,
    f: FormatModel,
    sym: Symbols,
    can: bool,
    m: nat,
    tail: Seq<char>,
)
    requires
        exp_padding(n, f) > 0,
        exp_width(n, f) + exp_padding(n, f) == f.len_exp,
        m < f.len_exp,
        m <= usize::MAX,
        !zero_place(f, m),
    ensures
        token_text(Token::Numeric(Mode::Exponent, m as usize, can), n, f, sym, true, true) + (
        exp_written(n, f, sym, can, m) + tail) == exp_written(n, f, sym, can, m + 1) + tail,
        aligned_text(Token::Numeric(Mode::Exponent, m as usize, can), n, f, sym, true) + (
        exp_handed(n, f, sym, can, m) + tail) == exp_handed(n, f, sym, can, m + 1) + tail,
{
    let t = Token::Numeric(Mode::Exponent, m as usize, can);
    let width = exp_width(n, f);
    let pad = exp_padding(n, f);
    let wrote = token_text(t, n, f, sym, true, true);
    let handed = aligned_text(t, n, f, sym, true);
    // what it writes
    if m == 0 {
        assert(exp_places(n, f, sym, can, 0) =~= Seq::<char>::empty());
        if width == 0 {
            assert(wrote + (exp_written(n, f, sym, can, 0) + tail) =~= exp_written(
                n,
                f,
                sym,
                can,
                1,
            ) + tail);
        } else {
            assert(exp_places(n, f, sym, can, 1) =~= seq![exp_place_glyph(n, f, sym, 0, can)]);
            assert(wrote + (exp_written(n, f, sym, can, 0) + tail) =~= exp_written(
                n,
                f,
                sym,
                can,
                1,
            ) + tail);
        }
    } else if m >= width {
        assert(wrote =~= Seq::<char>::empty());
        assert(wrote + (exp_written(n, f, sym, can, m) + tail) =~= exp_written(
            n,
            f,
            sym,
            can,
            m + 1,
        ) + tail);
    } else {
        assert(wrote =~= seq![exp_place_glyph(n, f, sym, m, can)]);
        assert(wrote + (exp_written(n, f, sym, can, m) + tail) =~= exp_written(
            n,
            f,
            sym,
            can,
            m + 1,
        ) + tail);
    }
    // what it is handed
    if m >= pad {
        assert(handed =~= seq![exp_place_glyph(n, f, sym, (m - pad) as nat, can)]);
        assert(handed + (exp_handed(n, f, sym, can, m) + tail) =~= exp_handed(
            n,
            f,
            sym,
            can,
            m + 1,
        ) + tail);
    } else {
        assert(exp_places(n, f, sym, can, 0) =~= Seq::<char>::empty());
        assert(handed =~= seq![' ']);
        assert(handed + (exp_handed(n, f, sym, can, m) + tail) =~= exp_handed(
            n,
            f,
            sym,
            can,
            m + 1,
        ) + tail);
    }
}

/// One more `9` of an exponent before the last `m` digits: what it writes
/// and what it is handed, where neither is the place of the sign.
pub(crate) proof fn lemma_exp_block_grows_nine(
    n: RawNumber,
    f: FormatModel,
    sym: Symbols,
    can: bool,
    m: nat,
    tail: Seq<char>,
)
    requires
        exp_padding(n, f) > 0,
        exp_width(n, f) + exp_padding(n, f) == f.len_exp,
        m < f.len_exp,
        m <= usize::MAX,
        !zero_place(f, m),
        !(can && n.exp_negative && (exp_sign_index(n, f) == m || exp_sign_index(n, f)
            + exp_padding(n, f) == m)),
    ensures
        token_text(Token::Digit(Mode::Exponent, m as usize), n, f, sym, true, true) + (
        exp_written(n, f, sym, can, m) + tail) == exp_written(n, f, sym, can, m + 1) + tail,
        aligned_text(Token::Digit(Mode::Exponent, m as usize), n, f, sym, true) + (
        exp_handed(n, f, sym, can, m) + tail) == exp_handed(n, f, sym, can, m + 1) + tail,
{
    let t = Token::Digit(Mode::Exponent, m as usize);
    let width = exp_width(n, f);
    let pad = exp_padding(n, f);
    let wrote = token_text(t, n, f, sym, true, true);
    let handed = aligned_text(t, n, f, sym, true);
    // what it writes
    if m == 0 {
        assert(exp_places(n, f, sym, can, 0) =~= Seq::<char>::empty());
        if width == 0 {
            assert(wrote + (exp_written(n, f, sym, can, 0) + tail) =~= exp_written(
                n,
                f,
                sym,
                can,
                1,
            ) + tail);
        } else {
            assert(exp_places(n, f, sym, can, 1) =~= seq![exp_place_glyph(n, f, sym, 0, can)]);
            assert(wrote + (exp_written(n, f, sym, can, 0) + tail) =~= exp_written(
                n,
                f,
                sym,
                can,
                1,
            ) + tail);
        }
    } else if m >= width {
        assert(wrote =~= Seq::<char>::empty());
        assert(wrote + (exp_written(n, f, sym, can, m) + tail) =~= exp_written(
            n,
            f,
            sym,
            can,
            m + 1,
        ) + tail);
    } else {
        assert(wrote =~= seq![exp_place_glyph(n, f, sym, m, can)]);
        assert(wrote + (exp_written(n, f, sym, can, m) + tail) =~= exp_written(
            n,
            f,
            sym,
            can,
            m + 1,
        ) + tail);
    }
    // what it is handed
    if m >= pad {
        assert(handed =~= seq![exp_place_glyph(n, f, sym, (m - pad) as nat, can)]);
        assert(handed + (exp_handed(n, f, sym, can, m) + tail) =~= exp_handed(
            n,
            f,
            sym,
            can,
            m + 1,
        ) + tail);
    } else {
        assert(exp_places(n, f, sym, can, 0) =~= Seq::<char>::empty());
        assert(handed =~= seq![' ']);
        assert(handed + (exp_handed(n, f, sym, can, m) + tail) =~= exp_handed(
            n,
            f,
            sym,
            can,
            m + 1,
        ) + tail);
    }
}

/// One more `0` of an exponent before the last `m` digits: what it writes
/// and what it is handed, where it is not handed the sign.
pub(crate) proof fn lemma_exp_block_grows_zero(
    n: RawNumber,
    f: FormatModel,
    sym: Symbols,
    can: bool,
    m: nat,
    tail: Seq<char>,
)
    requires
        exp_padding(n, f) > 0,
        exp_width(n, f) + exp_padding(n, f) == f.len_exp,
        m < f.len_exp,
        m <= usize::MAX,
        zero_place(f, m),
        !(can && n.exp_negative && exp_sign_index(n, f) + exp_padding(n, f) == m),
    ensures
        token_text(Token::Digit0(Mode::Exponent, m as usize), n, f, sym, true, true) + (
        exp_written(n, f, sym, can, m) + tail) == exp_written(n, f, sym, can, m + 1) + tail,
        aligned_text(Token::Digit0(Mode::Exponent, m as usize), n, f, sym, true) + (
        exp_handed(n, f, sym, can, m) + tail) == exp_handed(n, f, sym, can, m + 1) + tail,
{
    let t = Token::Digit0(Mode::Exponent, m as usize);
    let width = exp_width(n, f);
    let pad = exp_padding(n, f);
    let wrote = token_text(t, n, f, sym, true, true);
    let handed = aligned_text(t, n, f, sym, true);
    // what it writes
    if m == 0 {
        assert(exp_places(n, f, sym, can, 0) =~= Seq::<char>::empty());
        if width == 0 {
            assert(wrote + (exp_written(n, f, sym, can, 0) + tail) =~= exp_written(
                n,
                f,
                sym,
                can,
                1,
            ) + tail);
        } else {
            assert(exp_places(n, f, sym, can, 1) =~= seq![exp_place_glyph(n, f, sym, 0, can)]);
            assert(wrote + (exp_written(n, f, sym, can, 0) + tail) =~= exp_written(
                n,
                f,
                sym,
                can,
                1,
            ) + tail);
        }
    } else if m >= width {
        assert(wrote =~= Seq::<char>::empty());
        assert(wrote + (exp_written(n, f, sym, can, m) + tail) =~= exp_written(
            n,
            f,
            sym,
            can,
            m + 1,
        ) + tail);
    } else {
        assert(wrote =~= seq![exp_place_glyph(n, f, sym, m, can)]);
        assert(wrote + (exp_written(n, f, sym, can, m) + tail) =~= exp_written(
            n,
            f,
            sym,
            can,
            m + 1,
        ) + tail);
    }
    // what it is handed
    if m >= pad {
        assert(handed =~= seq![exp_place_glyph(n, f, sym, (m - pad) as nat, can)]);
        assert(handed + (exp_handed(n, f, sym, can, m) + tail) =~= exp_handed(
            n,
            f,
            sym,
            can,
            m + 1,
        ) + tail);
    } else {
        assert(exp_places(n, f, sym, can, 0) =~= Seq::<char>::empty());
        assert(handed =~= seq![' ']);
        assert(handed + (exp_handed(n, f, sym, can, m) + tail) =~= exp_handed(
            n,
            f,
            sym,
            can,
            m + 1,
        ) + tail);
    }
}

/// Where no exponent is shifted, every token is handed what it wrote.
pub(crate) proof fn lemma_aligned_same(
    tokens: Seq<Token>,
    n: RawNumber,
    f: FormatModel,
    sym: Symbols,
    exp: bool,
)
    requires
        !(exp && exp_padding(n, f) > 0),
    ensures
        aligned_render(tokens, n, f, sym, exp) == flagged_text(tokens, n, f, sym, exp),
    decreases tokens.len(),
{
    if tokens.len() > 0 {
        lemma_aligned_same(tokens.drop_first(), n, f, sym, exp);
    }
}

/// What the tokens from `k` on write and what they are handed, where the
/// exponent is shifted: at a digit of the exponent, the text of the rest of
/// the exponent as written and as handed, before the text of the tokens
/// behind the exponent; at any other token, the same text.
pub open spec fn shifted_alike(source: Seq<Token>, sym: Symbols, n: RawNumber, k: int) -> bool {
    let f = placed(source, sym);
    let m = count_digits(source.skip(k), Mode::Exponent);
    let can = !holds_kind(source, Unique::ExpSign);
    if k < source.len() && is_digit_in(source[k], Mode::Exponent) {
        &&& k + m <= source.len()
        &&& flagged_text(f.tokens.skip(k), n, f, sym, true) == exp_written(n, f, sym, can, m)
            + flagged_text(f.tokens.skip(k + m), n, f, sym, true)
        &&& aligned_render(f.tokens.skip(k), n, f, sym, true) == exp_handed(n, f, sym, can, m)
            + flagged_text(f.tokens.skip(k + m), n, f, sym, true)
    } else {
        aligned_render(f.tokens.skip(k), n, f, sym, true) == flagged_text(
            f.tokens.skip(k),
            n,
            f,
            sym,
            true,
        )
    }
}

/// All the digits of a shifted exponent together write what they are handed.
pub(crate) proof fn lemma_exp_block_whole(n: RawNumber, f: FormatModel, sym: Symbols, can: bool)
    requires
        exp_padding(n, f) > 0,
        exp_width(n, f) + exp_padding(n, f) == f.len_exp,
    ensures
        exp_written(n, f, sym, can, f.len_exp) == exp_handed(n, f, sym, can, f.len_exp),
{
}

/// The texts of the tokens from `k` on are the text of the token at `k` and
/// then those of the tokens behind it.
pub(crate) proof fn lemma_texts_step(
    tokens: Seq<Token>,
    n: RawNumber,
    f: FormatModel,
    sym: Symbols,
    k: int,
)
    requires
        0 <= k < tokens.len(),
    ensures
        flagged_text(tokens.skip(k), n, f, sym, true) == token_text(
            tokens[k],
            n,
            f,
            sym,
            true,
            true,
        ) + flagged_text(tokens.skip(k + 1), n, f, sym, true),
        aligned_render(tokens.skip(k), n, f, sym, true) == aligned_text(
            tokens[k],
            n,
            f,
            sym,
            true,
        ) + aligned_render(tokens.skip(k + 1), n, f, sym, true),
{
    assert(tokens.skip(k).drop_first() =~= tokens.skip(k + 1));
    assert(tokens.skip(k)[0] == tokens[k]);
}

/// How many digits of the exponent stand from `k` on, in a pattern whose
/// exponent can be shifted: behind a digit that is not the last stands
/// another digit, and before a token that is no digit, if digits follow,
/// stand none.
pub(crate) proof fn lemma_shiftable_counts(source: Seq<Token>, k: int)
    requires
        source.len() <= usize::MAX,
        0 <= k < source.len(),
        shiftable(source),
    ensures
        count_digits(source.skip(k), Mode::Exponent) == count_digits(
            source.skip(k + 1),
            Mode::Exponent,
        ) + if is_digit_in(source[k], Mode::Exponent) {
            1nat
        } else {
            0nat
        },
        count_digits(source.skip(k), Mode::Exponent) <= count_digits(source, Mode::Exponent),
        is_digit_in(source[k], Mode::Exponent) && count_digits(
            source.skip(k + 1),
            Mode::Exponent,
        ) > 0 ==> k + 1 < source.len() && is_digit_in(source[k + 1], Mode::Exponent),
        is_digit_in(source[k], Mode::Exponent) ==> k + count_digits(
            source.skip(k),
            Mode::Exponent,
        ) <= source.len(),
        !is_digit_in(source[k], Mode::Exponent) && count_digits(
            source.skip(k + 1),
            Mode::Exponent,
        ) > 0 ==> count_digits(source.skip(k + 1), Mode::Exponent) == count_digits(
            source,
            Mode::Exponent,
        ),
{
    lemma_count_digits_step(source, k, Mode::Exponent);
    lemma_count_digits_split(source, k, Mode::Exponent);
    lemma_count_digits_split(source, k + 1, Mode::Exponent);
    lemma_count_digits_next(source, k, Mode::Exponent);
    lemma_count_digits_bound(source.skip(k + 1), Mode::Exponent);
    lemma_count_digits_bound(source.skip(k), Mode::Exponent);
    if k + 1 == source.len() {
        assert(source.skip(k + 1) =~= Seq::<Token>::empty());
    } else {
        lemma_count_digits_step(source, k + 1, Mode::Exponent);
        let next = source[k + 1];
        if is_digit_in(source[k], Mode::Exponent) && !is_digit_in(next, Mode::Exponent)
            && count_digits(source.skip(k + 1), Mode::Exponent) > 0 {
            assert(count_digits(source.take(k + 1), Mode::Exponent) == 0);
        }
    }
}

/// Whether no `0` or `9` of the exponent stands where the sign of the
/// exponent is written or read: its index is neither that of the sign nor
/// that of the sign shifted.
pub open spec fn nines_keep_off_sign(source: Seq<Token>, sym: Symbols, n: RawNumber) -> bool {
    let f = placed(source, sym);
    !holds_kind(source, Unique::ExpSign) && n.exp_negative ==> forall|k: int|
        0 <= k < source.len() && is_fixed_digit_in(#[trigger] source[k], Mode::Exponent) ==> {
            let index = count_digits(source.skip(k + 1), Mode::Exponent);
            index != exp_sign_index(n, f) && index != exp_sign_index(n, f) + exp_padding(n, f)
        }
}

/// Whether a place of the exponent belongs to a `0` of a placed pattern:
/// the place of a digit of the exponent does if that digit is a `0`.
pub(crate) proof fn lemma_zero_place(source: Seq<Token>, sym: Symbols, k: int)
    requires
        source.len() <= usize::MAX,
        0 <= k < source.len(),
        is_digit_in(source[k], Mode::Exponent),
    ensures
        zero_place(placed(source, sym), count_digits(source.skip(k + 1), Mode::Exponent))
            == (source[k] is Digit0),
{
    let f = placed(source, sym);
    let place = count_digits(source.skip(k + 1), Mode::Exponent);
    lemma_count_digits_bound(source.skip(k + 1), Mode::Exponent);
    assert(f.tokens[k] == placed_token(source, k, sym));
    if zero_place(f, place) && !(source[k] is Digit0) {
        let w = choose|w: int|
            0 <= w < f.tokens.len() && (#[trigger] f.tokens[w] matches Token::Digit0(
                Mode::Exponent,
                j,
            ) && j == place);
        assert(f.tokens[w] == placed_token(source, w, sym));
        lemma_count_digits_bound(source.skip(w + 1), Mode::Exponent);
        if w < k {
            lemma_indices_distinct(source, w, k, Mode::Exponent);
        } else {
            lemma_indices_distinct(source, k, w, Mode::Exponent);
        }
    }
}

/// The least place for the sign of the exponent is at least the index of
/// the first digit of the exponent, where that digit is a `0` or a `9`.
pub(crate) proof fn lemma_min_exp_sign_first(tokens: Seq<Token>, k: int)
    requires
        0 <= k < tokens.len(),
        is_fixed_digit_in(tokens[k], Mode::Exponent),
        count_digits(tokens.take(k), Mode::Exponent) == 0,
    ensures
        min_exp_sign_of(tokens) >= count_digits(tokens.skip(k + 1), Mode::Exponent),
    decreases k,
{
    if k == 0 {
        assert(tokens.drop_first() =~= tokens.skip(1));
    } else {
        let rest = tokens.drop_first();
        assert(tokens.take(k)[0] == tokens[0]);
        assert(tokens.take(k).drop_first() =~= rest.take(k - 1));
        assert(rest[k - 1] == tokens[k]);
        assert(rest.skip(k) =~= tokens.skip(k + 1));
        lemma_min_exp_sign_first(rest, k - 1);
    }
}

/// Where the sign of a negative exponent is written and the exponent is
/// shifted, no `0` or `9` of the exponent stands where the sign is written
/// or read.
pub(crate) proof fn lemma_nines_keep_off_sign(source: Seq<Token>, sym: Symbols, n: RawNumber)
    requires
        source.len() <= usize::MAX,
        exp_padding(n, placed(source, sym)) > 0,
        exp_width(n, placed(source, sym)) + exp_padding(n, placed(source, sym)) == placed(
            source,
            sym,
        ).len_exp,
        n.exp_negative ==> uses_exp_sign(
            placed(source, sym).tokens,
            n,
            placed(source, sym),
            true,
        ),
    ensures
        nines_keep_off_sign(source, sym, n),
{
    let f = placed(source, sym);
    let tokens = f.tokens;
    if !holds_kind(source, Unique::ExpSign) && n.exp_negative {
        let w = choose|w: int|
            0 <= w < tokens.len() && writes_exp_sign(#[trigger] tokens[w], n, f, true);
        assert(tokens[w] == placed_token(source, w, sym));
        lemma_count_digits_bound(source.skip(w + 1), Mode::Exponent);
        assert forall|k: int|
            0 <= k < source.len() && is_fixed_digit_in(
                #[trigger] source[k],
                Mode::Exponent,
            ) implies {
            let index = count_digits(source.skip(k + 1), Mode::Exponent);
            index != exp_sign_index(n, f) && index != exp_sign_index(n, f) + exp_padding(n, f)
        } by {
            let index = count_digits(source.skip(k + 1), Mode::Exponent);
            lemma_count_digits_bound(source.skip(k + 1), Mode::Exponent);
            if index == exp_sign_index(n, f) {
                if k < w {
                    lemma_indices_distinct(source, k, w, Mode::Exponent);
                } else {
                    lemma_indices_distinct(source, w, k, Mode::Exponent);
                }
            }
            if index == exp_sign_index(n, f) + exp_padding(n, f) {
                lemma_count_digits_split(source, k, Mode::Exponent);
                lemma_count_digits_step(source, k, Mode::Exponent);
                lemma_count_digits_bound(source.take(k), Mode::Exponent);
                lemma_min_exp_sign_first(source, k);
            }
        }
    }
}

/// Where the exponent is shifted, the tokens from `k` on write and are
/// handed texts that are alike.
pub(crate) proof fn lemma_shifted_alike(source: Seq<Token>, sym: Symbols, n: RawNumber, k: int)
    requires
        source.len() <= usize::MAX,
        0 <= k <= source.len(),
        shiftable(source),
        nines_keep_off_sign(source, sym, n),
        exp_padding(n, placed(source, sym)) > 0,
        exp_width(n, placed(source, sym)) + exp_padding(n, placed(source, sym)) == placed(
            source,
            sym,
        ).len_exp,
    ensures
        shifted_alike(source, sym, n, k),
    decreases source.len() - k,
{
    let f = placed(source, sym);
    let tokens = f.tokens;
    let can = !holds_kind(source, Unique::ExpSign);
    if k == source.len() {
        assert(tokens.skip(k) =~= Seq::<Token>::empty());
    } else {
        lemma_shifted_alike(source, sym, n, k + 1);
        lemma_shiftable_counts(source, k);
        lemma_texts_step(tokens, n, f, sym, k);
        let after = count_digits(source.skip(k + 1), Mode::Exponent);
        let t = tokens[k];
        assert(t == placed_token(source, k, sym));
        let next_written = flagged_text(tokens.skip(k + 1), n, f, sym, true);
        if is_digit_in(source[k], Mode::Exponent) {
            let tail = if after > 0 {
                flagged_text(tokens.skip(k + 1 + after), n, f, sym, true)
            } else {
                next_written
            };
            lemma_zero_place(source, sym, k);
            if source[k] is Digit0 {
                assert(t == Token::Digit0(Mode::Exponent, after as usize));
                lemma_exp_block_grows_zero(n, f, sym, can, after, tail);
            } else if source[k] is Digit {
                assert(t == Token::Digit(Mode::Exponent, after as usize));
                lemma_exp_block_grows_nine(n, f, sym, can, after, tail);
            } else {
                assert(t == Token::Numeric(Mode::Exponent, after as usize, can));
                lemma_exp_block_grows(n, f, sym, can, after, tail);
            }
            if after == 0 {
                assert(exp_places(n, f, sym, can, 0) =~= Seq::<char>::empty());
                assert(exp_written(n, f, sym, can, 0) + next_written =~= next_written);
                assert(exp_handed(n, f, sym, can, 0) + next_written =~= next_written);
            }
        } else {
            lemma_not_shifted(t, n, f, sym);
            if after > 0 {
                lemma_exp_block_whole(n, f, sym, can);
            }
        }
    }
}

/// A token that is no digit of the exponent is handed what it wrote.
pub(crate) proof fn lemma_not_shifted(t: Token, n: RawNumber, f: FormatModel, sym: Symbols)
    requires
        !is_digit_in(t, Mode::Exponent),
    ensures
        aligned_text(t, n, f, sym, true) == token_text(t, n, f, sym, true, true),
{
}

/// The tokens of a placed pattern are handed, all in all, the text that
/// they wrote, where no exponent is shifted or the exponent can be.
pub proof fn lemma_aligned_is_rendered(source: Seq<Token>, sym: Symbols, n: RawNumber)
    requires
        source.len() <= usize::MAX,
        placed(source, sym).has_exp ==> exp_width(n, placed(source, sym)) <= placed(
            source,
            sym,
        ).len_exp,
        placed(source, sym).has_exp && exp_padding(n, placed(source, sym)) > 0 ==> shiftable(
            source,
        ),
        n.exp_negative ==> uses_exp_sign(
            placed(source, sym).tokens,
            n,
            placed(source, sym),
            placed(source, sym).has_exp,
        ),
    ensures
        aligned_render(
            placed(source, sym).tokens,
            n,
            placed(source, sym),
            sym,
            placed(source, sym).has_exp,
        ) == flagged_text(
            placed(source, sym).tokens,
            n,
            placed(source, sym),
            sym,
            placed(source, sym).has_exp,
        ),
{
    let f = placed(source, sym);
    if f.has_exp && exp_padding(n, f) > 0 {
        lemma_nines_keep_off_sign(source, sym, n);
        lemma_shifted_alike(source, sym, n, 0);
        assert(f.tokens.skip(0) =~= f.tokens);
        assert(source.skip(0) =~= source);
        if source.len() > 0 && is_digit_in(source[0], Mode::Exponent) {
            lemma_exp_block_whole(n, f, sym, !holds_kind(source, Unique::ExpSign));
        }
    } else {
        lemma_aligned_same(f.tokens, n, f, sym, f.has_exp);
    }
}

} // verus!
