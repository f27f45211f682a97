//! What every token reads from the text that was rendered with it.

use vstd::prelude::*;
use crate::error::NumberFmtError;
use crate::model::FormatModel;
use crate::raw::{all_digits, RawNumber};
use crate::render::{
    digit_from_right, exp_padding, exp_sign_index, exp_width, frac_glyph, int_glyph,
    is_sign_place, token_text,
};
use crate::roundtrip::{unambiguous, zeros};
use crate::symbols::Symbols;
use crate::token::{Mode, Token};
use crate::unmap::{
    is_digit, passes_over, read_glyph, starts_with_currency, unmap_tokens, Slot, Unmapped,
};

verus! {

/// Whether the digit place `i` of the exponent belongs to a `0` of the
/// pattern.
pub open spec fn zero_place(f: FormatModel, i: nat) -> bool {
    exists|k: int|
        0 <= k < f.tokens.len() && (#[trigger] f.tokens[k] matches Token::Digit0(
            Mode::Exponent,
            j,
        ) && j == i)
}

/// The glyph at the digit place `i` of a rendered exponent: the digit of the
/// exponent at that place; else a zero where the place belongs to a `0` of
/// the pattern; else the negative sign just left of the digits, where the
/// place belongs to a `#` with the flag `can`; else a blank.
pub open spec fn exp_place_glyph(n: RawNumber, f: FormatModel, sym: Symbols, i: nat, can: bool)
    -> char {
    if n.exp.len() > i {
        digit_from_right(n.exp, i)
    } else if zero_place(f, i) {
        '0'
    } else if can && n.exp_negative && exp_sign_index(n, f) == i {
        sym.negative_sym
    } else {
        ' '
    }
}

/// What a digit of the exponent with the index `r` is handed where the
/// exponent is shifted: the glyph of the place that lies the padding to its
/// right, or a blank of the padding.
pub open spec fn shifted_glyph(n: RawNumber, f: FormatModel, sym: Symbols, r: nat, can: bool)
    -> char {
    if r >= exp_padding(n, f) {
        exp_place_glyph(n, f, sym, (r - exp_padding(n, f)) as nat, can)
    } else {
        ' '
    }
}

/// The part of the rendered text that the reader hands to the token `t`.
///
/// A token reads what it wrote, with one exception. An exponent that is
/// shorter than the pattern is shifted to the left, so a digit of the
/// exponent is handed the glyph of the place that lies as many places to
/// its right as the exponent is shifted, or a blank of the padding. Only a
/// `#` is ever handed a sign.
pub open spec fn aligned_text(t: Token, n: RawNumber, f: FormatModel, sym: Symbols, exp: bool)
    -> Seq<char> {
    match t {
        Token::Numeric(Mode::Exponent, r, can) => if exp && exp_padding(n, f) > 0 {
            seq![shifted_glyph(n, f, sym, r as nat, can)]
        } else {
            token_text(t, n, f, sym, exp, true)
        },
        Token::Digit(Mode::Exponent, r) => if exp && exp_padding(n, f) > 0 {
            seq![shifted_glyph(n, f, sym, r as nat, false)]
        } else {
            token_text(t, n, f, sym, exp, true)
        },
        Token::Digit0(Mode::Exponent, r) => if exp && exp_padding(n, f) > 0 {
            seq![shifted_glyph(n, f, sym, r as nat, false)]
        } else {
            token_text(t, n, f, sym, exp, true)
        },
        _ => token_text(t, n, f, sym, exp, true),
    }
}

/// What the reader hands to the tokens, one after the other.
pub open spec fn aligned_render(
    tokens: Seq<Token>,
    n: RawNumber,
    f: FormatModel,
    sym: Symbols,
    exp: bool,
) -> Seq<char>
    decreases tokens.len(),
{
    if tokens.len() == 0 {
        Seq::empty()
    } else {
        aligned_text(tokens[0], n, f, sym, exp) + aligned_render(
            tokens.drop_first(),
            n,
            f,
            sym,
            exp,
        )
    }
}

/// Whether the token `t` reads the sign of the exponent of `n`: a sign token
/// of the exponent, or the `#` that is handed the place of the sign.
pub open spec fn reads_exp_sign(t: Token, n: RawNumber, f: FormatModel, exp: bool) -> bool {
    exp && match t {
        Token::SignExp => true,
        Token::PlusExp => true,
        Token::Numeric(Mode::Exponent, r, can) => can && n.exp_negative && r == exp_sign_index(
            n,
            f,
        ) + exp_padding(n, f) && (exp_padding(n, f) == 0 || !zero_place(
            f,
            exp_sign_index(n, f),
        )),
        _ => false,
    }
}

/// Whether the reader can take what the token `t` wrote for the number `n`:
/// the token wrote one character and accepts it, or it is the currency token
/// and the currency symbol is not empty.
pub open spec fn reads_back(t: Token, n: RawNumber, f: FormatModel, sym: Symbols, exp: bool)
    -> bool {
    if passes_over(t, sym) {
        true
    } else if t is Currency {
        sym.currency.len() > 0
    } else {
        &&& aligned_text(t, n, f, sym, exp).len() == 1
        &&& read_glyph(t, aligned_text(t, n, f, sym, exp)[0], sym) is Ok
    }
}

/// What the token `t` reads from what it wrote for the number `n`, for the
/// part `slot` of the number.
pub open spec fn read_for(
    t: Token,
    slot: Slot,
    n: RawNumber,
    f: FormatModel,
    sym: Symbols,
    exp: bool,
) -> Seq<char> {
    if t is Currency || passes_over(t, sym) {
        Seq::empty()
    } else {
        match read_glyph(t, aligned_text(t, n, f, sym, exp)[0], sym) {
            Ok(Some((s, c))) => if s == slot {
                seq![c]
            } else {
                Seq::empty()
            },
            _ => Seq::empty(),
        }
    }
}

/// What the tokens read, one after the other, from what they wrote for the
/// number `n`, for the part `slot` of the number.
pub open spec fn collected(
    tokens: Seq<Token>,
    slot: Slot,
    n: RawNumber,
    f: FormatModel,
    sym: Symbols,
    exp: bool,
) -> Seq<char>
    decreases tokens.len(),
{
    if tokens.len() == 0 {
        Seq::empty()
    } else {
        read_for(tokens[0], slot, n, f, sym, exp) + collected(
            tokens.drop_first(),
            slot,
            n,
            f,
            sym,
            exp,
        )
    }
}

/// What was seen, and behind it what the tokens read from what they wrote.
pub open spec fn seen_and_collected(
    seen: Unmapped,
    tokens: Seq<Token>,
    n: RawNumber,
    f: FormatModel,
    sym: Symbols,
    exp: bool,
) -> Unmapped {
    Unmapped {
        sign: seen.sign + collected(tokens, Slot::Sign, n, f, sym, exp),
        int: seen.int + collected(tokens, Slot::Int, n, f, sym, exp),
        frac: seen.frac + collected(tokens, Slot::Frac, n, f, sym, exp),
        exp_sign: seen.exp_sign + collected(tokens, Slot::ExpSign, n, f, sym, exp),
        exp: seen.exp + collected(tokens, Slot::Exp, n, f, sym, exp),
    }
}

/// What was seen with what the first token read, and behind it what the
/// other tokens read, is what was seen and behind it what all tokens read.
pub(crate) proof fn lemma_collect_first(
    seen: Unmapped,
    tokens: Seq<Token>,
    n: RawNumber,
    f: FormatModel,
    sym: Symbols,
    exp: bool,
)
    requires
        tokens.len() > 0,
        !(tokens[0] is Currency || passes_over(tokens[0], sym)) ==> read_glyph(
            tokens[0],
            aligned_text(tokens[0], n, f, sym, exp)[0],
            sym,
        ) is Ok,
    ensures
        seen_and_collected(seen, tokens, n, f, sym, exp) == seen_and_collected(
            if tokens[0] is Currency || passes_over(tokens[0], sym) {
                seen
            } else {
                seen.with_read(
                    read_glyph(tokens[0], aligned_text(tokens[0], n, f, sym, exp)[0], sym)->Ok_0,
                )
            },
            tokens.drop_first(),
            n,
            f,
            sym,
            exp,
        ),
{
    let t = tokens[0];
    let rest = tokens.drop_first();
    let next = if t is Currency || passes_over(t, sym) {
        seen
    } else {
        seen.with_read(read_glyph(t, aligned_text(t, n, f, sym, exp)[0], sym)->Ok_0)
    };
    let total = seen_and_collected(seen, tokens, n, f, sym, exp);
    let step = seen_and_collected(next, rest, n, f, sym, exp);
    assert(total.sign =~= step.sign);
    assert(total.int =~= step.int);
    assert(total.frac =~= step.frac);
    assert(total.exp_sign =~= step.exp_sign);
    assert(total.exp =~= step.exp);
}

/// Nothing collected behind what was seen is what was seen.
pub(crate) proof fn lemma_collect_none(
    seen: Unmapped,
    n: RawNumber,
    f: FormatModel,
    sym: Symbols,
    exp: bool,
)
    ensures
        seen_and_collected(seen, Seq::empty(), n, f, sym, exp) == seen,
{
    let total = seen_and_collected(seen, Seq::empty(), n, f, sym, exp);
    assert(total.sign =~= seen.sign);
    assert(total.int =~= seen.int);
    assert(total.frac =~= seen.frac);
    assert(total.exp_sign =~= seen.exp_sign);
    assert(total.exp =~= seen.exp);
}

/// Where the reader can take what each token wrote, reading the rendered
/// text gives, part by part, what the tokens read from what they wrote.
pub proof fn lemma_unmap_rendered(
    tokens: Seq<Token>,
    n: RawNumber,
    f: FormatModel,
    sym: Symbols,
    exp: bool,
    seen: Unmapped,
)
    requires
        forall|k: int| 0 <= k < tokens.len() ==> reads_back(#[trigger] tokens[k], n, f, sym, exp),
    ensures
        unmap_tokens(tokens, aligned_render(tokens, n, f, sym, exp), sym, seen) == Ok::<
            Unmapped,
            NumberFmtError,
        >(seen_and_collected(seen, tokens, n, f, sym, exp)),
    decreases tokens.len(),
{
    let text = aligned_render(tokens, n, f, sym, exp);
    if tokens.len() == 0 {
        assert(tokens =~= Seq::empty());
        lemma_collect_none(seen, n, f, sym, exp);
    } else {
        let t = tokens[0];
        let rest = tokens.drop_first();
        let here = aligned_text(t, n, f, sym, exp);
        let after = aligned_render(rest, n, f, sym, exp);
        assert(reads_back(t, n, f, sym, exp));
        assert forall|k: int| 0 <= k < rest.len() implies reads_back(
            #[trigger] rest[k],
            n,
            f,
            sym,
            exp,
        ) by {
            assert(rest[k] == tokens[k + 1]);
        }
        assert(text == here + after);
        assert(text.skip(here.len() as int) =~= after);
        lemma_collect_first(seen, tokens, n, f, sym, exp);
        if passes_over(t, sym) {
            lemma_unmap_rendered(rest, n, f, sym, exp, seen);
            assert(here =~= Seq::<char>::empty());
            assert(text =~= after);
        } else if t is Currency {
            lemma_unmap_rendered(rest, n, f, sym, exp, seen);
            assert(here == sym.currency);
            assert(text.take(sym.currency.len() as int) =~= sym.currency);
            assert(starts_with_currency(text, sym.currency));
        } else {
            let read = read_glyph(t, here[0], sym)->Ok_0;
            lemma_unmap_rendered(rest, n, f, sym, exp, seen.with_read(read));
            assert(text[0] == here[0]);
            assert(text.len() > 0);
        }
    }
}

/// Whether the token `t` is one of the exponent: its marker, its sign or
/// one of its digits.
pub open spec fn is_exp_token(t: Token) -> bool {
    match t {
        Token::ExponentUpper => true,
        Token::ExponentLower => true,
        Token::SignExp => true,
        Token::PlusExp => true,
        Token::Digit0(Mode::Exponent, _) => true,
        Token::Digit(Mode::Exponent, _) => true,
        Token::Numeric(Mode::Exponent, _, _) => true,
        _ => false,
    }
}

/// What the token `t` needs so that what it writes for the number `n` can be
/// read back: a `#` of the fraction needs a digit of the number, and a token
/// of the exponent needs the exponent to be written, within the width of
/// the pattern.
pub open spec fn token_ready(t: Token, n: RawNumber, f: FormatModel, sym: Symbols, exp: bool)
    -> bool {
    &&& (t matches Token::Numeric(Mode::Fraction, i, _) ==> i < n.frac.len())
    &&& is_exp_token(t) ==> exp
    &&& (t matches Token::Digit0(Mode::Exponent, i) ==> (exp_padding(n, f) == 0 ==> i
        < exp_width(n, f)))
    &&& (t matches Token::Digit(Mode::Exponent, i) ==> (exp_padding(n, f) == 0 ==> i
        < exp_width(n, f)))
    &&& (t matches Token::Numeric(Mode::Exponent, i, _) ==> (exp_padding(n, f) == 0 ==> i
        < exp_width(n, f)))
}

/// What a digit of the exponent with the index `r` gives back where the
/// exponent is shifted: the digit of the place that lies the padding to its
/// right, or the zero that a `0` of the pattern wrote there.
pub open spec fn shifted_back(n: RawNumber, f: FormatModel, r: nat) -> Seq<char> {
    if r >= exp_padding(n, f) {
        let place = (r - exp_padding(n, f)) as nat;
        if n.exp.len() > place {
            seq![digit_from_right(n.exp, place)]
        } else if zero_place(f, place) {
            seq!['0']
        } else {
            Seq::empty()
        }
    } else {
        Seq::empty()
    }
}

/// By how many places the digits of part `mode` are shifted to the left:
/// the exponent by its padding, the other parts not at all.
pub open spec fn shift_of(mode: Mode, n: RawNumber, f: FormatModel, exp: bool) -> nat {
    if mode == Mode::Exponent && exp {
        exp_padding(n, f)
    } else {
        0
    }
}

/// What the token `t` gives back, for the part `slot` of the number, of what
/// it was handed for the number `n`: the digits of the number and the zeros of
/// the mask `0`, the decimal point where the separator was written, and `-`
/// from the token that wrote the sign of a negative number or exponent. The
/// mask `+` of the integer part also gives back the `+`.
pub open spec fn given_back(
    t: Token,
    slot: Slot,
    n: RawNumber,
    f: FormatModel,
    sym: Symbols,
    exp: bool,
) -> Seq<char> {
    match slot {
        Slot::Sign => if n.negative && is_sign_place(t, n, f, sym) {
            seq!['-']
        } else if !n.negative && t is PlusInt {
            seq!['+']
        } else {
            Seq::empty()
        },
        Slot::Int => match t {
            Token::Digit0(Mode::Integer, i) => seq![int_glyph(n, i as nat, None, '0')],
            Token::Digit(Mode::Integer, i) => if n.int.len() > i {
                seq![digit_from_right(n.int, i as nat)]
            } else {
                Seq::empty()
            },
            Token::Numeric(Mode::Integer, i, _) => if n.int.len() > i {
                seq![digit_from_right(n.int, i as nat)]
            } else {
                Seq::empty()
            },
            _ => Seq::empty(),
        },
        Slot::Frac => match t {
            Token::DecimalSep => if n.frac.len() > 0 || f.has_frac_0 {
                seq!['.']
            } else {
                Seq::empty()
            },
            Token::DecimalSepAlways => seq!['.'],
            Token::Digit0(Mode::Fraction, i) => seq![frac_glyph(n, i as nat, '0')],
            Token::Digit(Mode::Fraction, i) => if n.frac.len() > i {
                seq![n.frac[i as int] as char]
            } else {
                Seq::empty()
            },
            Token::Numeric(Mode::Fraction, i, _) => if n.frac.len() > i {
                seq![n.frac[i as int] as char]
            } else {
                Seq::empty()
            },
            _ => Seq::empty(),
        },
        Slot::ExpSign => if n.exp_negative && reads_exp_sign(t, n, f, exp) {
            seq!['-']
        } else {
            Seq::empty()
        },
        Slot::Exp => match t {
            Token::Digit0(Mode::Exponent, i) => if shift_of(Mode::Exponent, n, f, exp) > 0 {
                shifted_back(n, f, i as nat)
            } else if n.exp.len() > i {
                seq![digit_from_right(n.exp, i as nat)]
            } else {
                seq!['0']
            },
            Token::Digit(Mode::Exponent, i) => if shift_of(Mode::Exponent, n, f, exp) > 0 {
                shifted_back(n, f, i as nat)
            } else if n.exp.len() > i {
                seq![digit_from_right(n.exp, i as nat)]
            } else {
                Seq::empty()
            },
            Token::Numeric(Mode::Exponent, i, _) => if shift_of(Mode::Exponent, n, f, exp) > 0 {
                shifted_back(n, f, i as nat)
            } else if n.exp.len() > i {
                seq![digit_from_right(n.exp, i as nat)]
            } else {
                Seq::empty()
            },
            _ => Seq::empty(),
        },
    }
}

/// A byte that is a digit is a digit as a character.
pub(crate) proof fn lemma_digit_byte(bytes: Seq<u8>, i: int)
    requires
        all_digits(bytes),
        0 <= i < bytes.len(),
    ensures
        is_digit(bytes[i] as char),
{
    let b = bytes[i];
    assert(48 <= b <= 57);
    assert('0' as u8 == 48u8);
    assert('9' as u8 == 57u8);
}

/// What a token that is ready wrote can be read back, and gives back what
/// `given_back` says.
pub proof fn lemma_token_reads_back(t: Token, n: RawNumber, f: FormatModel, sym: Symbols, exp: bool)
    requires
        unambiguous(sym),
        all_digits(n.int),
        all_digits(n.frac),
        all_digits(n.exp),
        token_ready(t, n, f, sym, exp),
    ensures
        reads_back(t, n, f, sym, exp),
        forall|slot: Slot| #[trigger]
            read_for(t, slot, n, f, sym, exp) == given_back(t, slot, n, f, sym, exp),
{
    match t {
        Token::Digit0(Mode::Integer, i) => {
            if n.int.len() > i {
                lemma_digit_byte(n.int, n.int.len() - 1 - i);
            }
        },
        Token::Digit(Mode::Integer, i) => {
            if n.int.len() > i {
                lemma_digit_byte(n.int, n.int.len() - 1 - i);
            }
        },
        Token::Numeric(Mode::Integer, i, _) => {
            if n.int.len() > i {
                lemma_digit_byte(n.int, n.int.len() - 1 - i);
            }
        },
        Token::Digit0(Mode::Fraction, i) => {
            if n.frac.len() > i {
                lemma_digit_byte(n.frac, i as int);
            }
        },
        Token::Digit(Mode::Fraction, i) => {
            if n.frac.len() > i {
                lemma_digit_byte(n.frac, i as int);
            }
        },
        Token::Numeric(Mode::Fraction, i, _) => {
            lemma_digit_byte(n.frac, i as int);
        },
        Token::Digit0(Mode::Exponent, i) => {
            if n.exp.len() > i {
                lemma_digit_byte(n.exp, n.exp.len() - 1 - i);
            }
        },
        Token::Digit(Mode::Exponent, i) => {
            if n.exp.len() > i {
                lemma_digit_byte(n.exp, n.exp.len() - 1 - i);
            }
        },
        Token::Numeric(Mode::Exponent, i, _) => {
            if n.exp.len() > i {
                lemma_digit_byte(n.exp, n.exp.len() - 1 - i);
            }
        },
        _ => {},
    }
    assert forall|slot: Slot| #[trigger]
        read_for(t, slot, n, f, sym, exp) == given_back(t, slot, n, f, sym, exp) by {
        assert(read_for(t, slot, n, f, sym, exp) =~= given_back(t, slot, n, f, sym, exp));
    }
}

/// Whether a number and what it is rendered with are such that every token
/// of `tokens` gives back what it wrote.
pub open spec fn all_ready(
    tokens: Seq<Token>,
    n: RawNumber,
    f: FormatModel,
    sym: Symbols,
    exp: bool,
) -> bool {
    &&& unambiguous(sym)
    &&& all_digits(n.int)
    &&& all_digits(n.frac)
    &&& all_digits(n.exp)
    &&& forall|k: int| 0 <= k < tokens.len() ==> token_ready(#[trigger] tokens[k], n, f, sym, exp)
}

/// What the tokens from `k` on read is what the token at `k` gives back and
/// then what the tokens after it read.
pub(crate) proof fn lemma_collected_step(
    tokens: Seq<Token>,
    k: int,
    slot: Slot,
    n: RawNumber,
    f: FormatModel,
    sym: Symbols,
    exp: bool,
)
    requires
        all_ready(tokens, n, f, sym, exp),
        0 <= k < tokens.len(),
    ensures
        collected(tokens.skip(k), slot, n, f, sym, exp) == given_back(
            tokens[k],
            slot,
            n,
            f,
            sym,
            exp,
        ) + collected(tokens.skip(k + 1), slot, n, f, sym, exp),
{
    assert(tokens.skip(k).drop_first() =~= tokens.skip(k + 1));
    assert(tokens.skip(k)[0] == tokens[k]);
    lemma_token_reads_back(tokens[k], n, f, sym, exp);
    assert(read_for(tokens[k], slot, n, f, sym, exp) == given_back(
        tokens[k],
        slot,
        n,
        f,
        sym,
        exp,
    ));
}

} // verus!
