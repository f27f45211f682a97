//! The glyphs a number is written with: separators, signs, exponent markers
//! and the currency symbol.

use vstd::prelude::*;
use vstd::string::StringSliceAdditionalSpecFns;
use vstd::utf8::{decode_utf8, encode_utf8, valid_utf8};

verus! {

broadcast use {
    vstd::string::group_string_axioms,
    vstd::utf8::encode_utf8_valid_utf8,
    vstd::utf8::encode_utf8_decode_utf8,
    vstd::utf8::decode_utf8_encode_utf8,
};

/// The most bytes a currency symbol can hold.
pub const CURRENCY_CAPACITY: usize = 16;

/// A currency symbol: a short string stored inline, so that it can be copied.
#[derive(Debug, PartialEq, Eq, Clone, Copy)]
pub struct CurrencySym {
    len: u8,
    sym: [u8; 16],
}

impl View for CurrencySym {
    type V = Seq<char>;

    /// The characters of the symbol.
    closed spec fn view(&self) -> Seq<char> {
        decode_utf8(self.sym@.take(self.len as int))
    }
}

/// `std::str::from_utf8` on the first `len` bytes of `bytes`. Those bytes are
/// valid UTF-8, so the call succeeds and the slice it returns is made of
/// exactly those bytes.
#[verifier::external_body]
fn utf8_prefix(bytes: &[u8; 16], len: usize) -> (s: &str)
    requires
        len <= 16,
        valid_utf8(bytes@.take(len as int)),
    ensures
        s.spec_bytes() == bytes@.take(len as int),
{
    match std::str::from_utf8(&bytes[..len]) {
        Ok(s) => s,
        Err(_) => "",
    }
}

impl CurrencySym {
    #[verifier::type_invariant]
    spec fn well_formed(self) -> bool {
        &&& self.len <= 16
        &&& valid_utf8(self.sym@.take(self.len as int))
    }

    /// The length of the symbol in bytes of UTF-8.
    pub open spec fn byte_len(self) -> nat {
        encode_utf8(self@).len()
    }

    /// A currency symbol with the text of `src`, which takes at most
    /// sixteen bytes.
    pub fn new(src: &str) -> (r: Self)
        requires
            src.spec_bytes().len() <= CURRENCY_CAPACITY,
        ensures
            r@ == src@,
    {
        let bytes = src.as_bytes();
        let n = bytes.len();
        let mut sym = [0u8;16];
        let mut i: usize = 0;
        while i < n
            invariant
                n == bytes@.len(),
                n <= 16,
                i <= n,
                sym@.take(i as int) == bytes@.take(i as int),
            decreases n - i,
        {
            sym[i] = bytes[i];
            i = i + 1;
            assert(sym@.take(i as int) =~= bytes@.take(i as int));
        }
        assert(bytes@.take(n as int) =~= bytes@);
        CurrencySym { len: n as u8, sym }
    }

    /// The symbol as a string slice.
    pub fn as_str(&self) -> (s: &str)
        ensures
            s@ == self@,
    {
        proof {
            use_type_invariant(self);
        }
        let s = utf8_prefix(&self.sym, self.len as usize);
        assert(decode_utf8(encode_utf8(s@)) == s@);
        s
    }

    /// The length of the symbol in bytes.
    pub fn len(&self) -> (n: usize)
        ensures
            n == self.byte_len(),
            n <= CURRENCY_CAPACITY,
    {
        proof {
            use_type_invariant(self);
        }
        self.len as usize
    }

    /// Whether the symbol has no characters.
    pub fn is_empty(&self) -> (b: bool)
        ensures
            b == (self@.len() == 0),
    {
        proof {
            use_type_invariant(self);
            if self@.len() == 0 {
                assert(encode_utf8(self@).len() == 0);
            }
        }
        self.len == 0
    }
}

/// The glyphs used when a number is written or read.
///
/// Parsing is unambiguous only if the glyphs differ from each other and from
/// the digits; nothing here enforces that.
#[derive(Debug, PartialEq, Eq, Clone, Copy)]
pub struct NumberSymbols {
    /// Decimal separator.
    pub decimal_sep: char,
    /// Grouping separator, if the locale groups digits.
    pub decimal_grp: Option<char>,
    /// Sign of a negative number.
    pub negative_sym: char,
    /// Sign of a number that is not negative.
    pub positive_sym: char,
    /// Exponent marker for the mask `E`.
    pub exponent_upper_sym: char,
    /// Exponent marker for the mask `e`.
    pub exponent_lower_sym: char,
    /// Currency symbol.
    pub currency_sym: CurrencySym,
}

/// The glyphs of a `NumberSymbols` as a mathematical value.
pub struct Symbols {
    pub decimal_sep: char,
    pub decimal_grp: Option<char>,
    pub negative_sym: char,
    pub positive_sym: char,
    pub exponent_upper_sym: char,
    pub exponent_lower_sym: char,
    /// The characters of the currency symbol.
    pub currency: Seq<char>,
}

impl View for NumberSymbols {
    type V = Symbols;

    open spec fn view(&self) -> Symbols {
        Symbols {
            decimal_sep: self.decimal_sep,
            decimal_grp: self.decimal_grp,
            negative_sym: self.negative_sym,
            positive_sym: self.positive_sym,
            exponent_upper_sym: self.exponent_upper_sym,
            exponent_lower_sym: self.exponent_lower_sym,
            currency: self.currency_sym@,
        }
    }
}

/// The first character of `text`, or `default` where `text` is empty.
pub open spec fn first_char_or(text: Seq<char>, default: char) -> char {
    if text.len() > 0 {
        text[0]
    } else {
        default
    }
}

/// The first character of `text`, if it has one.
pub open spec fn first_char(text: Seq<char>) -> Option<char> {
    if text.len() > 0 {
        Some(text[0])
    } else {
        None
    }
}

/// The default symbols: `.` and `,` as separators, `-` and a blank as signs,
/// `E` and `e` as exponent markers, `$` as currency.
pub open spec fn default_symbols() -> Symbols {
    Symbols {
        decimal_sep: '.',
        decimal_grp: Some(','),
        negative_sym: '-',
        positive_sym: ' ',
        exponent_upper_sym: 'E',
        exponent_lower_sym: 'e',
        currency: seq!['$'],
    }
}

/// The first character of `s`, or `default` where `s` is empty.
pub fn first_or(s: &str, default: char) -> (c: char)
    ensures
        c == first_char_or(s@, default),
{
    match first_opt(s) {
        Some(c) => c,
        None => default,
    }
}

/// The first character of `s`, if it has one.
pub fn first_opt(s: &str) -> (c: Option<char>)
    ensures
        c == first_char(s@),
{
    let mut it = s.chars();
    it.next()
}

impl NumberSymbols {
    /// The default symbols.
    pub fn new() -> (r: Self)
        ensures
            r@ == default_symbols(),
    {
        proof {
            reveal_strlit(".");
            reveal_strlit(",");
        }
        Self::numeric_from(".", ",")
    }

    /// Symbols for plain numbers: the separators are the first characters of
    /// a locale's decimal point and thousands separator, the rest is default.
    pub fn numeric_from(decimal_point: &str, thousands_sep: &str) -> (r: Self)
        ensures
            r@ == (Symbols {
                decimal_sep: first_char_or(decimal_point@, '.'),
                decimal_grp: first_char(thousands_sep@),
                ..default_symbols()
            }),
    {
        proof {
            reveal_strlit("$");
            assert(vstd::string::is_ascii("$"));
            assert("$".spec_bytes().len() == 1);
            assert("$"@ =~= seq!['$']);
        }
        NumberSymbols {
            decimal_sep: first_or(decimal_point, '.'),
            decimal_grp: first_opt(thousands_sep),
            negative_sym: '-',
            positive_sym: ' ',
            exponent_upper_sym: 'E',
            exponent_lower_sym: 'e',
            currency_sym: CurrencySym::new("$"),
        }
    }

    /// Symbols for amounts of money: separators and signs are the first
    /// characters of a locale's monetary entries, the currency symbol is
    /// taken whole, the exponent markers are default.
    pub fn monetary_from(
        mon_decimal_point: &str,
        mon_thousands_sep: &str,
        negative_sign: &str,
        positive_sign: &str,
        currency_symbol: &str,
    ) -> (r: Self)
        requires
            currency_symbol.spec_bytes().len() <= CURRENCY_CAPACITY,
        ensures
            r@ == (Symbols {
                decimal_sep: first_char_or(mon_decimal_point@, '.'),
                decimal_grp: first_char(mon_thousands_sep@),
                negative_sym: first_char_or(negative_sign@, '-'),
                positive_sym: first_char_or(positive_sign@, ' '),
                currency: currency_symbol@,
                ..default_symbols()
            }),
    {
        NumberSymbols {
            decimal_sep: first_or(mon_decimal_point, '.'),
            decimal_grp: first_opt(mon_thousands_sep),
            negative_sym: first_or(negative_sign, '-'),
            positive_sym: first_or(positive_sign, ' '),
            exponent_upper_sym: 'E',
            exponent_lower_sym: 'e',
            currency_sym: CurrencySym::new(currency_symbol),
        }
    }
}

impl Default for NumberSymbols {
    fn default() -> (r: Self)
        ensures
            r@ == default_symbols(),
    {
        Self::new()
    }
}

} // verus!
