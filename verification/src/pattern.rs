//! The compiled pattern and the compiler that makes it from tokens.

use std::fmt::{Display, LowerExp};
use std::str::FromStr;
use vstd::prelude::*;
use vstd::string::StringExecFns;
use crate::codec::{format_to, formats_as, parse_fmt, parses_back_as};
use crate::error::NumberFmtError;
use crate::model::{
    compile_pattern, compile_tokens, compiled, compiled_token, count_digits, fill_token,
    is_compiled,
    first_repeat, holds_digit0, holds_kind, is_digit_in, is_fixed_digit_in,
    lemma_count_digits_bound, lemma_count_digits_next, lemma_count_digits_split,
    lemma_count_digits_step, min_exp_sign_of, min_int_sign_of, unique_kind, FormatModel, Unique,
};
use crate::symbols::{default_symbols, NumberSymbols, Symbols};
use crate::token::{parse_tokens, Mode, Token};

verus! {

/// A compiled pattern: the tokens with their indices, what was derived from
/// them, and the symbols it was compiled with. It is made once and then used
/// for any number of values.
#[derive(Debug, PartialEq, Eq)]
pub struct NumberFormat {
    min_int_sign: usize,
    len_int: usize,
    has_exp: bool,
    has_exp_0: bool,
    min_exp_sign: usize,
    len_exp: usize,
    has_frac_0: bool,
    len_frac: usize,
    tok: Vec<Token>,
    sym: NumberSymbols,
}

impl View for NumberFormat {
    type V = FormatModel;

    closed spec fn view(&self) -> FormatModel {
        FormatModel {
            tokens: self.tok@,
            min_int_sign: self.min_int_sign as nat,
            len_int: self.len_int as nat,
            has_exp: self.has_exp,
            has_exp_0: self.has_exp_0,
            min_exp_sign: self.min_exp_sign as nat,
            len_exp: self.len_exp as nat,
            has_frac_0: self.has_frac_0,
            len_frac: self.len_frac as nat,
            sym: self.sym@,
        }
    }
}

/// Whether formatting `number` with the pattern `f` into a new string gave
/// `r`: the text that was written, or the error, be it that of the number's
/// own conversion or that of rendering.
pub open spec fn formats_to_string<Number: LowerExp + Display>(
    number: &Number,
    f: FormatModel,
    sym: Symbols,
    r: Result<String, NumberFmtError>,
) -> bool {
    exists|status: Result<(), NumberFmtError>, text: Seq<char>|
        {
            &&& #[trigger] formats_as(number, f, sym, status, Seq::empty(), text)
            &&& match status {
                Ok(_) => r is Ok && r->Ok_0@ == text,
                Err(e) => r == Err::<String, NumberFmtError>(e),
            }
        }
}

/// Whether formatting `number` with the pattern `f` gave the text `shown`
/// where there is no way to return an error: the text that was written, or,
/// on an error, the name of the error and nothing of the number.
pub open spec fn formats_to_text<Number: LowerExp + Display>(
    number: &Number,
    f: FormatModel,
    sym: Symbols,
    shown: Seq<char>,
) -> bool {
    exists|status: Result<(), NumberFmtError>, text: Seq<char>|
        {
            &&& #[trigger] formats_as(number, f, sym, status, Seq::empty(), text)
            &&& shown == match status {
                Ok(_) => text,
                Err(e) => e.name(),
            }
        }
}

/// The mask character that stands for a token other than a literal. Both
/// signs of the number are shown as `-`.
pub open spec fn mask_char(t: Token) -> char {
    match t {
        Token::Digit0(_, _) => '0',
        Token::Digit(_, _) => '9',
        Token::Numeric(_, _, _) => '#',
        Token::SignInt => '-',
        Token::PlusInt => '-',
        Token::DecimalSep => '.',
        Token::DecimalSepAlways => ':',
        Token::GroupingSep(_, _) => ',',
        Token::ExponentUpper => 'E',
        Token::ExponentLower => 'e',
        Token::SignExp => '-',
        Token::PlusExp => '+',
        Token::Currency => '$',
        Token::Separator(c) => c,
    }
}

/// How a token is shown: its mask character; a literal as it stands, behind
/// a backslash and a blank if it is one of the first 256 characters.
pub open spec fn token_mask(t: Token) -> Seq<char> {
    match t {
        Token::Separator(c) => if c <= '\u{ff}' {
            seq!['\\', ' ', c]
        } else {
            seq![c]
        },
        _ => seq![mask_char(t)],
    }
}

/// How the tokens of a pattern are shown, one after the other.
pub open spec fn mask_text(tokens: Seq<Token>) -> Seq<char>
    decreases tokens.len(),
{
    if tokens.len() == 0 {
        Seq::empty()
    } else {
        token_mask(tokens[0]) + mask_text(tokens.drop_first())
    }
}

/// The mask character that stands for a token.
fn mask_of(t: Token) -> (c: char)
    ensures
        c == mask_char(t),
{
    match t {
        Token::Digit0(_, _) => '0',
        Token::Digit(_, _) => '9',
        Token::Numeric(_, _, _) => '#',
        Token::SignInt => '-',
        Token::PlusInt => '-',
        Token::DecimalSep => '.',
        Token::DecimalSepAlways => ':',
        Token::GroupingSep(_, _) => ',',
        Token::ExponentUpper => 'E',
        Token::ExponentLower => 'e',
        Token::SignExp => '-',
        Token::PlusExp => '+',
        Token::Currency => '$',
        Token::Separator(c) => c,
    }
}

/// What the first pass over the tokens of a pattern finds.
struct Scan {
    has_exp: bool,
    has_int_sign: bool,
    has_exp_sign: bool,
    has_frac_0: bool,
    len_frac: usize,
}

/// What the first pass finds in the first `i` tokens.
spec fn scan_of(tokens: Seq<Token>, i: int) -> Scan {
    Scan {
        has_exp: holds_kind(tokens.take(i), Unique::Exponent),
        has_int_sign: holds_kind(tokens.take(i), Unique::Sign),
        has_exp_sign: holds_kind(tokens.take(i), Unique::ExpSign),
        has_frac_0: holds_digit0(tokens.take(i), Mode::Fraction),
        len_frac: count_digits(tokens.take(i), Mode::Fraction) as usize,
    }
}

/// One more token holds a kind if the tokens before do or the token is of it.
proof fn lemma_holds_kind_next(tokens: Seq<Token>, i: int, u: Unique)
    requires
        0 <= i < tokens.len(),
    ensures
        holds_kind(tokens.take(i + 1), u) == (holds_kind(tokens.take(i), u) || unique_kind(
            tokens[i],
        ) == Some(u)),
{
    let short = tokens.take(i);
    let long = tokens.take(i + 1);
    if holds_kind(short, u) {
        let k = choose|k: int| 0 <= k < short.len() && unique_kind(#[trigger] short[k]) == Some(u);
        assert(long[k] == short[k]);
    }
    if unique_kind(tokens[i]) == Some(u) {
        assert(long[i] == tokens[i]);
    }
    if holds_kind(long, u) {
        let k = choose|k: int| 0 <= k < long.len() && unique_kind(#[trigger] long[k]) == Some(u);
        if k < i {
            assert(short[k] == long[k]);
        }
    }
}

/// One more token holds a `0` of a part if the tokens before do or the token
/// is one.
proof fn lemma_holds_digit0_next(tokens: Seq<Token>, i: int, mode: Mode)
    requires
        0 <= i < tokens.len(),
    ensures
        holds_digit0(tokens.take(i + 1), mode) == (holds_digit0(tokens.take(i), mode) || (
        tokens[i] matches Token::Digit0(m, _) && m == mode)),
{
    let short = tokens.take(i);
    let long = tokens.take(i + 1);
    if holds_digit0(short, mode) {
        let k = choose|k: int|
            0 <= k < short.len() && (#[trigger] short[k] matches Token::Digit0(m, _) && m == mode);
        assert(long[k] == short[k]);
    }
    if tokens[i] matches Token::Digit0(m, _) && m == mode {
        assert(long[i] == tokens[i]);
    }
    if holds_digit0(long, mode) {
        let k = choose|k: int|
            0 <= k < long.len() && (#[trigger] long[k] matches Token::Digit0(m, _) && m == mode);
        if k < i {
            assert(short[k] == long[k]);
        }
    }
}

/// The first pass: looks for a token that must not repeat and does, and
/// counts the fraction digits.
fn scan_tokens(pattern: &Vec<Token>) -> (r: Result<Scan, NumberFmtError>)
    ensures
        match first_repeat(pattern@, 0) {
            Some(e) => r == Err::<Scan, NumberFmtError>(e),
            None => r == Ok::<Scan, NumberFmtError>(scan_of(pattern@, pattern@.len() as int)),
        },
{
    let mut has_dec_sep = false;
    let mut scan = Scan {
        has_exp: false,
        has_int_sign: false,
        has_exp_sign: false,
        has_frac_0: false,
        len_frac: 0,
    };
    let mut i: usize = 0;
    proof {
        assert(pattern@.take(0) =~= Seq::<Token>::empty());
    }
    while i < pattern.len()
        invariant
            i <= pattern.len(),
            first_repeat(pattern@, 0) == first_repeat(pattern@, i as int),
            has_dec_sep == holds_kind(pattern@.take(i as int), Unique::DecimalSep),
            scan == scan_of(pattern@, i as int),
            count_digits(pattern@.take(i as int), Mode::Fraction) <= i,
        decreases pattern.len() - i,
    {
        let t = pattern[i];
        proof {
            lemma_holds_kind_next(pattern@, i as int, Unique::DecimalSep);
            lemma_holds_kind_next(pattern@, i as int, Unique::Exponent);
            lemma_holds_kind_next(pattern@, i as int, Unique::Sign);
            lemma_holds_kind_next(pattern@, i as int, Unique::ExpSign);
            lemma_holds_digit0_next(pattern@, i as int, Mode::Fraction);
            lemma_count_digits_next(pattern@, i as int, Mode::Fraction);
        }
        match t {
            Token::DecimalSep | Token::DecimalSepAlways => {
                if has_dec_sep {
                    return Err(NumberFmtError::ParseInvalidDecimalSep);
                }
                has_dec_sep = true;
            },
            Token::ExponentLower | Token::ExponentUpper => {
                if scan.has_exp {
                    return Err(NumberFmtError::ParseInvalidExp);
                }
                scan.has_exp = true;
            },
            Token::SignInt | Token::PlusInt => {
                if scan.has_int_sign {
                    return Err(NumberFmtError::ParseInvalidSign);
                }
                scan.has_int_sign = true;
            },
            Token::SignExp | Token::PlusExp => {
                if scan.has_exp_sign {
                    return Err(NumberFmtError::ParseInvalidExpSign);
                }
                scan.has_exp_sign = true;
            },
            Token::Digit0(Mode::Fraction, _) => {
                scan.has_frac_0 = true;
                scan.len_frac = scan.len_frac + 1;
            },
            Token::Digit(Mode::Fraction, _) | Token::Numeric(Mode::Fraction, _, _) => {
                scan.len_frac = scan.len_frac + 1;
            },
            _ => {},
        }
        i = i + 1;
    }
    Ok(scan)
}

/// What the second pass, from the right, knows of the tokens it has passed.
#[derive(Clone, Copy)]
struct Walk {
    has_exp_0: bool,
    min_int_sign: usize,
    min_exp_sign: usize,
    idx_int: usize,
    idx_exp: usize,
    rest_frac: usize,
    was_grp: bool,
}

/// What the second pass knows when the tokens from `k` on are behind it.
spec fn state_of(tokens: Seq<Token>, k: int) -> Walk {
    Walk {
        has_exp_0: holds_digit0(tokens.skip(k), Mode::Exponent),
        min_int_sign: min_int_sign_of(tokens.skip(k)) as usize,
        min_exp_sign: min_exp_sign_of(tokens.skip(k)) as usize,
        idx_int: count_digits(tokens.skip(k), Mode::Integer) as usize,
        idx_exp: count_digits(tokens.skip(k), Mode::Exponent) as usize,
        rest_frac: count_digits(tokens.skip(k), Mode::Fraction) as usize,
        was_grp: k < tokens.len() && tokens[k] is GroupingSep,
    }
}

/// The state of the second pass after one more token, `t`, to the left.
spec fn advanced(w: Walk, t: Token) -> Walk {
    Walk {
        has_exp_0: w.has_exp_0 || (t matches Token::Digit0(m, _) && m == Mode::Exponent),
        min_int_sign: if is_fixed_digit_in(t, Mode::Integer) {
            (w.idx_int + 1) as usize
        } else {
            w.min_int_sign
        },
        min_exp_sign: match t {
            Token::Digit0(Mode::Exponent, _) => (w.idx_exp + 1) as usize,
            Token::Digit(Mode::Exponent, _) => w.idx_exp,
            _ => w.min_exp_sign,
        },
        idx_int: if is_digit_in(t, Mode::Integer) {
            (w.idx_int + 1) as usize
        } else {
            w.idx_int
        },
        idx_exp: if is_digit_in(t, Mode::Exponent) {
            (w.idx_exp + 1) as usize
        } else {
            w.idx_exp
        },
        rest_frac: if is_digit_in(t, Mode::Fraction) {
            (w.rest_frac + 1) as usize
        } else {
            w.rest_frac
        },
        was_grp: t is GroupingSep,
    }
}

/// One step of the second pass, to the token at `k`, and the room the
/// counters have.
proof fn lemma_state_step(tokens: Seq<Token>, k: int)
    requires
        0 <= k < tokens.len() <= usize::MAX,
    ensures
        state_of(tokens, k) == advanced(state_of(tokens, k + 1), tokens[k]),
        count_digits(tokens.skip(k + 1), Mode::Integer) < tokens.len(),
        count_digits(tokens.skip(k + 1), Mode::Exponent) < tokens.len(),
        count_digits(tokens.skip(k + 1), Mode::Fraction) < tokens.len(),
        state_of(tokens, k + 1).idx_int == count_digits(tokens.skip(k + 1), Mode::Integer),
        state_of(tokens, k + 1).idx_exp == count_digits(tokens.skip(k + 1), Mode::Exponent),
        state_of(tokens, k + 1).rest_frac == count_digits(tokens.skip(k + 1), Mode::Fraction),
{
    let tail = tokens.skip(k);
    let rest = tokens.skip(k + 1);
    assert(tail.drop_first() =~= rest);
    assert(tail[0] == tokens[k]);
    lemma_count_digits_bound(rest, Mode::Integer);
    lemma_count_digits_bound(rest, Mode::Exponent);
    lemma_count_digits_bound(rest, Mode::Fraction);
    lemma_holds_digit0_skip(tokens, k, Mode::Exponent);
    lemma_min_sign_bound(rest);
}

/// The least sign positions are no greater than the digit counts.
proof fn lemma_min_sign_bound(tokens: Seq<Token>)
    ensures
        min_int_sign_of(tokens) <= count_digits(tokens, Mode::Integer),
        min_exp_sign_of(tokens) <= count_digits(tokens, Mode::Exponent),
    decreases tokens.len(),
{
    if tokens.len() > 0 {
        lemma_min_sign_bound(tokens.drop_first());
    }
}

/// The state of the second pass after one more token to the left.
fn advance(w: Walk, t: Token) -> (r: Walk)
    requires
        w.idx_int < usize::MAX,
        w.idx_exp < usize::MAX,
        w.rest_frac < usize::MAX,
    ensures
        r == advanced(w, t),
{
    let mut r = w;
    r.was_grp = false;
    match t {
        Token::Digit0(Mode::Integer, _) | Token::Digit(Mode::Integer, _) => {
            r.min_int_sign = w.idx_int + 1;
            r.idx_int = w.idx_int + 1;
        },
        Token::Numeric(Mode::Integer, _, _) => {
            r.idx_int = w.idx_int + 1;
        },
        Token::Digit0(Mode::Exponent, _) => {
            r.has_exp_0 = true;
            r.min_exp_sign = w.idx_exp + 1;
            r.idx_exp = w.idx_exp + 1;
        },
        Token::Digit(Mode::Exponent, _) => {
            r.min_exp_sign = w.idx_exp;
            r.idx_exp = w.idx_exp + 1;
        },
        Token::Numeric(Mode::Exponent, _, _) => {
            r.idx_exp = w.idx_exp + 1;
        },
        Token::Digit0(Mode::Fraction, _)
        | Token::Digit(Mode::Fraction, _)
        | Token::Numeric(Mode::Fraction, _, _) => {
            r.rest_frac = w.rest_frac + 1;
        },
        Token::GroupingSep(_, _) => {
            r.was_grp = true;
        },
        _ => {},
    }
    r
}

/// The token `t` with its index and flag filled in.
fn fill(t: Token, index: usize, int_sign: bool, grp_sign: bool, exp_sign: bool) -> (r: Token)
    ensures
        r == fill_token(t, index, int_sign, grp_sign, exp_sign),
{
    match t {
        Token::Digit0(m, _) => Token::Digit0(m, index),
        Token::Digit(m, _) => Token::Digit(m, index),
        Token::Numeric(Mode::Integer, _, _) => Token::Numeric(Mode::Integer, index, int_sign),
        Token::Numeric(Mode::Fraction, _, _) => Token::Numeric(Mode::Fraction, index, false),
        Token::Numeric(Mode::Exponent, _, _) => Token::Numeric(Mode::Exponent, index, exp_sign),
        Token::GroupingSep(_, _) => Token::GroupingSep(index, grp_sign),
        other => other,
    }
}

/// One step of the second pass: the compiled token for the token at `k`, and
/// the state with that token behind.
fn compile_step(
    t: Token,
    state: Walk,
    scan: &Scan,
    sym: &NumberSymbols,
    Ghost(tokens): Ghost<Seq<Token>>,
    Ghost(k): Ghost<int>,
) -> (r: (Token, Walk))
    requires
        0 <= k < tokens.len() <= usize::MAX,
        t == tokens[k],
        state == state_of(tokens, k + 1),
        *scan == scan_of(tokens, tokens.len() as int),
    ensures
        r.0 == compiled_token(tokens, k, sym@),
        r.1 == state_of(tokens, k),
{
    proof {
        lemma_state_step(tokens, k);
        lemma_count_digits_bound(tokens, Mode::Fraction);
        lemma_count_digits_split(tokens, k, Mode::Fraction);
        lemma_count_digits_step(tokens, k, Mode::Fraction);
        assert(tokens.take(tokens.len() as int) =~= tokens);
    }
    let index = match t {
        Token::Digit0(Mode::Fraction, _)
        | Token::Digit(Mode::Fraction, _)
        | Token::Numeric(Mode::Fraction, _, _) => scan.len_frac - state.rest_frac - 1,
        Token::Digit0(Mode::Exponent, _)
        | Token::Digit(Mode::Exponent, _)
        | Token::Numeric(Mode::Exponent, _, _) => state.idx_exp,
        _ => state.idx_int,
    };
    let filled = fill(
        t,
        index,
        !scan.has_int_sign && (sym.decimal_grp.is_none() || !state.was_grp),
        !scan.has_int_sign,
        !scan.has_exp_sign,
    );
    (filled, advance(state, t))
}

impl Clone for NumberFormat {
    fn clone(&self) -> (r: Self)
        ensures
            r@ == self@,
    {
        proof {
            use_type_invariant(self);
        }
        let mut tok: Vec<Token> = Vec::new();
        let mut i: usize = 0;
        while i < self.tok.len()
            invariant
                i <= self.tok.len(),
                tok@ == self.tok@.take(i as int),
            decreases self.tok.len() - i,
        {
            tok.push(self.tok[i]);
            i = i + 1;
            assert(tok@ =~= self.tok@.take(i as int));
        }
        assert(self.tok@.take(self.tok.len() as int) =~= self.tok@);
        NumberFormat {
            min_int_sign: self.min_int_sign,
            len_int: self.len_int,
            has_exp: self.has_exp,
            has_exp_0: self.has_exp_0,
            min_exp_sign: self.min_exp_sign,
            len_exp: self.len_exp,
            has_frac_0: self.has_frac_0,
            len_frac: self.len_frac,
            tok,
            sym: self.sym,
        }
    }
}

impl Default for NumberFormat {
    /// The empty pattern with the default symbols.
    fn default() -> (r: Self)
        ensures
            compile_tokens(Seq::empty(), default_symbols()) == Ok::<FormatModel, NumberFmtError>(
                r@,
            ),
    {
        let sym = NumberSymbols::new();
        proof {
            let model = FormatModel {
                tokens: Seq::<Token>::empty(),
                min_int_sign: 0,
                len_int: 0,
                has_exp: false,
                has_exp_0: false,
                min_exp_sign: 0,
                len_exp: 0,
                has_frac_0: false,
                len_frac: 0,
                sym: sym@,
            };
            assert(model.tokens =~= compiled(Seq::empty(), sym@).tokens);
            assert(compile_tokens(Seq::empty(), model.sym) == Ok::<FormatModel, NumberFmtError>(
                model,
            ));
        }
        let r = NumberFormat {
            min_int_sign: 0,
            len_int: 0,
            has_exp: false,
            has_exp_0: false,
            min_exp_sign: 0,
            len_exp: 0,
            has_frac_0: false,
            len_frac: 0,
            tok: Vec::new(),
            sym,
        };
        r
    }
}

impl NumberFormat {
    #[verifier::type_invariant]
    spec fn compiled_from_tokens(self) -> bool {
        is_compiled(self@)
    }

    /// Compiles the pattern with the default symbols.
    pub fn new(pattern: &str) -> (r: Result<Self, NumberFmtError>)
        ensures
            match compile_pattern(pattern@, default_symbols()) {
                Ok(model) => r is Ok && r->Ok_0@ == model,
                Err(e) => r == Err::<Self, NumberFmtError>(e),
            },
    {
        Self::news(pattern, NumberSymbols::new())
    }

    /// Compiles the pattern with the symbols `sym`.
    pub fn news(pattern: &str, sym: NumberSymbols) -> (r: Result<Self, NumberFmtError>)
        ensures
            match compile_pattern(pattern@, sym@) {
                Ok(model) => r is Ok && r->Ok_0@ == model,
                Err(e) => r == Err::<Self, NumberFmtError>(e),
            },
    {
        match parse_tokens(pattern) {
            Ok(tok) => Self::news_tok(tok, sym),
            Err(e) => Err(e),
        }
    }

    /// Compiles tokens: checks that no decimal separator, exponent marker or
    /// sign repeats, gives every digit its index, marks the tokens that may
    /// hold a sign, and derives the widths of the pattern.
    pub fn news_tok(pattern: Vec<Token>, sym: NumberSymbols) -> (r: Result<Self, NumberFmtError>)
        ensures
            match compile_tokens(pattern@, sym@) {
                Ok(model) => r is Ok && r->Ok_0@ == model,
                Err(e) => r == Err::<Self, NumberFmtError>(e),
            },
    {
        let scan = match scan_tokens(&pattern) {
            Ok(scan) => scan,
            Err(e) => {
                return Err(e);
            },
        };
        let ghost source = pattern@;
        let n = pattern.len();
        let mut pattern = pattern;
        let mut state = Walk {
            has_exp_0: false,
            min_int_sign: 0,
            min_exp_sign: 0,
            idx_int: 0,
            idx_exp: 0,
            rest_frac: 0,
            was_grp: false,
        };
        let mut k: usize = n;
        proof {
            assert(source.take(n as int) =~= source);
            assert(source.skip(n as int) =~= Seq::<Token>::empty());
        }
        while k > 0
            invariant
                k <= n,
                n == source.len(),
                pattern@.len() == n,
                scan == scan_of(source, n as int),
                forall|j: int| 0 <= j < k ==> pattern@[j] == source[j],
                forall|j: int| k <= j < n ==> pattern@[j] == compiled_token(source, j, sym@),
                state == state_of(source, k as int),
            decreases k,
        {
            k = k - 1;
            let t = pattern[k];
            let (filled, next) = compile_step(
                t,
                state,
                &scan,
                &sym,
                Ghost(source),
                Ghost(k as int),
            );
            state = next;
            pattern.set(k, filled);
        }
        proof {
            assert(source.skip(0) =~= source);
            assert(source.take(n as int) =~= source);
            assert(pattern@ =~= compiled(source, sym@).tokens);
            lemma_count_digits_bound(source, Mode::Fraction);
            lemma_count_digits_bound(source, Mode::Integer);
            lemma_count_digits_bound(source, Mode::Exponent);
            lemma_min_sign_bound(source);
            let model = FormatModel {
                tokens: pattern@,
                min_int_sign: state.min_int_sign as nat,
                len_int: state.idx_int as nat,
                has_exp: scan.has_exp,
                has_exp_0: state.has_exp_0,
                min_exp_sign: state.min_exp_sign as nat,
                len_exp: state.idx_exp as nat,
                has_frac_0: scan.has_frac_0,
                len_frac: scan.len_frac as nat,
                sym: sym@,
            };
            assert(compile_tokens(source, model.sym) == Ok::<FormatModel, NumberFmtError>(model));
        }
        Ok(
            NumberFormat {
                min_int_sign: state.min_int_sign,
                len_int: state.idx_int,
                has_exp: scan.has_exp,
                has_exp_0: state.has_exp_0,
                min_exp_sign: state.min_exp_sign,
                len_exp: state.idx_exp,
                has_frac_0: scan.has_frac_0,
                len_frac: scan.len_frac,
                tok: pattern,
                sym,
            },
        )
    }

    /// The tokens of the pattern. Every pattern is a compiled one.
    pub fn tokens(&self) -> (tokens: &Vec<Token>)
        ensures
            tokens@ == self@.tokens,
            is_compiled(self@),
    {
        proof {
            use_type_invariant(self);
        }
        &self.tok
    }

    /// The number of integer digits.
    pub fn len_int(&self) -> (n: usize)
        ensures
            n == self@.len_int,
    {
        self.len_int
    }

    /// The number of fraction digits.
    pub fn len_frac(&self) -> (n: usize)
        ensures
            n == self@.len_frac,
    {
        self.len_frac
    }

    /// The number of exponent digits.
    pub fn len_exp(&self) -> (n: usize)
        ensures
            n == self@.len_exp,
    {
        self.len_exp
    }

    /// The least index at which the sign of the number may stand.
    pub fn min_int_sign(&self) -> (n: usize)
        ensures
            n == self@.min_int_sign,
    {
        self.min_int_sign
    }

    /// The least index at which the sign of the exponent may stand.
    pub fn min_exp_sign(&self) -> (n: usize)
        ensures
            n == self@.min_exp_sign,
    {
        self.min_exp_sign
    }

    /// Whether the pattern has an exponent.
    pub fn has_exp(&self) -> (b: bool)
        ensures
            b == self@.has_exp,
    {
        self.has_exp
    }

    /// Whether the exponent has a `0`.
    pub fn has_exp_0(&self) -> (b: bool)
        ensures
            b == self@.has_exp_0,
    {
        self.has_exp_0
    }

    /// Whether the fraction has a `0`.
    pub fn has_frac_0(&self) -> (b: bool)
        ensures
            b == self@.has_frac_0,
    {
        self.has_frac_0
    }

    /// Formats a number; where that fails, the result is the name of the
    /// error instead.
    pub fn fmt_u<Number: LowerExp + Display>(&self, number: Number) -> (r: String)
        ensures
            formats_to_text(&number, self@, self@.sym, r@),
    {
        let mut out = String::new();
        let ghost given = number;
        let status = format_to(number, self, &self.sym, &mut out);
        proof {
            assert(formats_as(&given, self@, self@.sym, status, Seq::empty(), out@));
        }
        match status {
            Ok(_) => out,
            Err(e) => e.to_string(),
        }
    }

    /// Formats a number.
    pub fn fmt<Number: LowerExp + Display>(&self, number: Number) -> (r: Result<
        String,
        NumberFmtError,
    >)
        ensures
            formats_to_string(&number, self@, self@.sym, r),
    {
        let mut out = String::new();
        let ghost given = number;
        let status = format_to(number, self, &self.sym, &mut out);
        proof {
            assert(formats_as(&given, self@, self@.sym, status, Seq::empty(), out@));
        }
        match status {
            Ok(_) => Ok(out),
            Err(e) => Err(e),
        }
    }

    /// Formats a number and appends the result to `out`.
    pub fn fmt_to<Number: LowerExp + Display>(&self, number: Number, out: &mut String) -> (r:
        Result<(), NumberFmtError>)
        ensures
            formats_as(&number, self@, self@.sym, r, old(out)@, final(out)@),
    {
        format_to(number, self, &self.sym, out)
    }

    /// Parses a number from text that was written with this pattern.
    pub fn parse<F: FromStr>(&self, s: &str) -> (r: Result<F, NumberFmtError>)
        ensures
            parses_back_as::<F>(s@, self@, self@.sym, r),
    {
        parse_fmt(s, self, &self.sym)
    }

    /// The pattern as text, one mask character for each token.
    pub fn to_string(&self) -> (r: String)
        ensures
            r@ == mask_text(self@.tokens),
    {
        let mut out = String::new();
        let mut i: usize = 0;
        proof {
            assert(self.tok@.skip(0) =~= self.tok@);
        }
        while i < self.tok.len()
            invariant
                i <= self.tok.len(),
                out@ + mask_text(self.tok@.skip(i as int)) == mask_text(self.tok@),
            decreases self.tok.len() - i,
        {
            let ghost before = out@;
            let t = self.tok[i];
            proof {
                assert(self.tok@.skip(i as int).drop_first() =~= self.tok@.skip(i + 1));
                reveal_strlit("\\ ");
                assert("\\ "@ =~= seq!['\\', ' ']);
            }
            match t {
                Token::Separator(c) => {
                    if c <= '\u{ff}' {
                        out.append("\\ ");
                    }
                    out.push(c);
                },
                _ => {
                    out.push(mask_of(t));
                },
            }
            proof {
                let here = token_mask(t);
                let rest = mask_text(self.tok@.skip(i + 1));
                assert(out@ =~= before + here);
                assert((before + here) + rest =~= before + (here + rest));
            }
            i = i + 1;
        }
        proof {
            assert(out@ + Seq::<char>::empty() =~= out@);
        }
        out
    }

    /// The symbols the pattern was compiled with.
    pub fn sym(&self) -> (sym: &NumberSymbols)
        ensures
            sym@ == self@.sym,
    {
        &self.sym
    }
}

/// The tokens from a position on hold a `0` of a part if the token there is
/// one or those after it hold one.
proof fn lemma_holds_digit0_skip(tokens: Seq<Token>, k: int, mode: Mode)
    requires
        0 <= k < tokens.len(),
    ensures
        holds_digit0(tokens.skip(k), mode) == (holds_digit0(tokens.skip(k + 1), mode) || (
        tokens[k] matches Token::Digit0(m, _) && m == mode)),
{
    let long = tokens.skip(k);
    let short = tokens.skip(k + 1);
    if holds_digit0(short, mode) {
        let j = choose|j: int|
            0 <= j < short.len() && (#[trigger] short[j] matches Token::Digit0(m, _) && m == mode);
        assert(long[j + 1] == short[j]);
    }
    if tokens[k] matches Token::Digit0(m, _) && m == mode {
        assert(long[0] == tokens[k]);
    }
    if holds_digit0(long, mode) {
        let j = choose|j: int|
            0 <= j < long.len() && (#[trigger] long[j] matches Token::Digit0(m, _) && m == mode);
        if j > 0 {
            assert(short[j - 1] == long[j]);
        }
    }
}

} // verus!
