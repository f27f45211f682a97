//! The plain decimal text of a number (`-12.5e-3`) and its five parts.

use vstd::prelude::*;
use vstd::string::StringSliceAdditionalSpecFns;

verus! {

/// The byte `-`.
pub const MINUS: u8 = 45;

/// The byte `.`.
pub const POINT: u8 = 46;

/// The byte `e`.
pub const EXP: u8 = 101;

/// `memchr::memchr` returns the index of the first byte of `haystack` that
/// equals `needle`, or `None` where no byte does.
pub assume_specification[ memchr::memchr ](needle: u8, haystack: &[u8]) -> (r: Option<usize>)
    ensures
        match r {
            Some(i) => {
                &&& i < haystack@.len()
                &&& haystack@[i as int] == needle
                &&& forall|j: int| 0 <= j < i ==> haystack@[j] != needle
            },
            None => forall|j: int| 0 <= j < haystack@.len() ==> haystack@[j] != needle,
        },
;

/// The parts of a number in plain decimal text.
pub struct RawNumber {
    /// Whether the text starts with `-`.
    pub negative: bool,
    /// The integer digits.
    pub int: Seq<u8>,
    /// The fraction digits.
    pub frac: Seq<u8>,
    /// Whether the exponent starts with `-`.
    pub exp_negative: bool,
    /// The exponent digits.
    pub exp: Seq<u8>,
}

/// The position of the first `needle` in `bytes`, or the length of `bytes`
/// where there is none.
pub open spec fn first_position(bytes: Seq<u8>, needle: u8) -> int
    decreases bytes.len(),
{
    if bytes.len() == 0 || bytes[0] == needle {
        0
    } else {
        1 + first_position(bytes.drop_first(), needle)
    }
}

/// The parts of the plain decimal text `raw`.
///
/// The first `.` and the first `e` divide the text. The integer digits end
/// at the `.`, or at the `e` without one; the fraction is what stands between
/// the `.` and the `e` (nothing, where the `.` comes after the `e`); the
/// exponent is what follows the `e`. A `-` at the start of the text or of the
/// exponent is its sign.
pub open spec fn split_raw(raw: Seq<u8>) -> RawNumber {
    let len = raw.len() as int;
    let sep = first_position(raw, POINT);
    let exp = first_position(raw, EXP);
    let negative = len > 0 && raw[0] == MINUS;
    let exp_negative = exp + 1 < len && raw[exp + 1] == MINUS;
    RawNumber {
        negative,
        int: raw.subrange(if negative { 1 } else { 0 }, if sep < len { sep } else { exp }),
        frac: if sep + 1 <= exp { raw.subrange(sep + 1, exp) } else { Seq::empty() },
        exp_negative,
        exp: if exp < len {
            raw.subrange(if exp_negative { exp + 2 } else { exp + 1 }, len)
        } else {
            Seq::empty()
        },
    }
}

/// The plain decimal text of the parts `n`: the sign, the integer digits, the
/// fraction behind a `.` if there is one, and the exponent behind an `e`,
/// with its sign, if there is one.
pub open spec fn plain_text(n: RawNumber) -> Seq<u8> {
    (if n.negative {
        seq![MINUS]
    } else {
        Seq::empty()
    }) + n.int + (if n.frac.len() > 0 {
        seq![POINT] + n.frac
    } else {
        Seq::empty()
    }) + (if n.exp.len() > 0 {
        seq![EXP] + (if n.exp_negative {
            seq![MINUS]
        } else {
            Seq::empty()
        }) + n.exp
    } else {
        Seq::empty()
    })
}

/// Whether every byte of `bytes` is one of the digits `0` to `9`.
pub open spec fn all_digits(bytes: Seq<u8>) -> bool {
    forall|i: int| 0 <= i < bytes.len() ==> 48 <= #[trigger] bytes[i] <= 57
}

/// The bytes of `bytes` as characters.
pub open spec fn digit_chars(bytes: Seq<u8>) -> Seq<char> {
    Seq::new(bytes.len(), |i: int| bytes[i] as char)
}

/// Where the parts of a number lie in its plain decimal text.
#[derive(Debug, Clone, Copy, PartialEq, Eq)]
pub struct RawSplit {
    /// Whether the text starts with `-`.
    pub negative: bool,
    /// Where the integer digits start.
    pub int_start: usize,
    /// Where the integer digits end.
    pub int_end: usize,
    /// Where the fraction digits start.
    pub frac_start: usize,
    /// Where the fraction digits end.
    pub frac_end: usize,
    /// Whether the exponent starts with `-`.
    pub exp_negative: bool,
    /// Where the exponent digits start; they end with the text.
    pub exp_start: usize,
}

impl RawSplit {
    /// Whether the positions lie in a text of `len` bytes, in order.
    pub open spec fn fits(self, len: nat) -> bool {
        &&& self.int_start <= self.int_end <= len
        &&& self.frac_start <= self.frac_end <= len
        &&& self.exp_start <= len
    }

    /// The parts that the positions cut from `raw`.
    pub open spec fn parts(self, raw: Seq<u8>) -> RawNumber {
        RawNumber {
            negative: self.negative,
            int: raw.subrange(self.int_start as int, self.int_end as int),
            frac: raw.subrange(self.frac_start as int, self.frac_end as int),
            exp_negative: self.exp_negative,
            exp: raw.subrange(self.exp_start as int, raw.len() as int),
        }
    }
}

/// The first position of a byte is in range, holds the byte if it is not the
/// length, and no position before it holds the byte.
pub proof fn lemma_first_position(bytes: Seq<u8>, needle: u8)
    ensures
        0 <= first_position(bytes, needle) <= bytes.len(),
        first_position(bytes, needle) < bytes.len() ==> bytes[first_position(bytes, needle)]
            == needle,
        forall|j: int| 0 <= j < first_position(bytes, needle) ==> bytes[j] != needle,
    decreases bytes.len(),
{
    if bytes.len() == 0 || bytes[0] == needle {
    } else {
        let rest = bytes.drop_first();
        lemma_first_position(rest, needle);
        assert forall|j: int| 0 <= j < first_position(bytes, needle) implies bytes[j] != needle by {
            if j > 0 {
                assert(rest[j - 1] == bytes[j]);
            }
        }
    }
}

/// The first position of a byte is the one position that holds the byte
/// while none before it does, or the length where no position holds it.
pub proof fn lemma_first_position_is(bytes: Seq<u8>, needle: u8, i: int)
    requires
        0 <= i <= bytes.len(),
        forall|j: int| 0 <= j < i ==> bytes[j] != needle,
        i < bytes.len() ==> bytes[i] == needle,
    ensures
        first_position(bytes, needle) == i,
{
    lemma_first_position(bytes, needle);
}

/// Splitting the plain decimal text of parts that are made of digits gives
/// the parts again.
#[verifier::rlimit(20)]
pub proof fn lemma_split_plain(n: RawNumber)
    requires
        all_digits(n.int),
        all_digits(n.frac),
        all_digits(n.exp),
        n.exp_negative ==> n.exp.len() > 0,
    ensures
        split_raw(plain_text(n)) == n,
{
    let text = plain_text(n);
    let sign: int = if n.negative {
        1
    } else {
        0
    };
    let point = sign + n.int.len();
    let frac: int = if n.frac.len() > 0 {
        n.frac.len() as int + 1
    } else {
        0
    };
    let marker = point + frac;
    let exp_sign: int = if n.exp_negative {
        1
    } else {
        0
    };
    assert(text.len() == marker + if n.exp.len() > 0 {
        1 + exp_sign + n.exp.len()
    } else {
        0
    });
    assert forall|j: int| 0 <= j < text.len() implies #[trigger] text[j] == (if j < sign {
        MINUS
    } else if j < point {
        n.int[j - sign]
    } else if j < marker {
        if j == point {
            POINT
        } else {
            n.frac[j - point - 1]
        }
    } else if j == marker {
        EXP
    } else if j < marker + 1 + exp_sign {
        MINUS
    } else {
        n.exp[j - marker - 1 - exp_sign]
    }) by {}
    let first_point = if n.frac.len() > 0 {
        point
    } else {
        text.len() as int
    };
    let first_marker = if n.exp.len() > 0 {
        marker
    } else {
        text.len() as int
    };
    lemma_first_position_is(text, POINT, first_point);
    lemma_first_position_is(text, EXP, first_marker);
    let back = split_raw(text);
    assert(back.int =~= n.int);
    assert(back.frac =~= n.frac);
    assert(back.exp =~= n.exp);
}

/// The position of the first `needle` in `bytes`, or the length of `bytes`.
fn find(needle: u8, bytes: &[u8]) -> (r: usize)
    ensures
        r == first_position(bytes@, needle),
{
    proof {
        lemma_first_position(bytes@, needle);
    }
    match memchr::memchr(needle, bytes) {
        Some(i) => i,
        None => bytes.len(),
    }
}

/// Splits the plain decimal text of a number into its parts.
pub fn split_num(value: &str) -> (r: RawSplit)
    ensures
        r.fits(value.spec_bytes().len()),
        r.parts(value.spec_bytes()) == split_raw(value.spec_bytes()),
{
    let bytes = value.as_bytes();
    let len = bytes.len();
    let sep = find(POINT, bytes);
    let exp = find(EXP, bytes);
    proof {
        lemma_first_position(bytes@, POINT);
        lemma_first_position(bytes@, EXP);
    }
    let negative = len > 0 && bytes[0] == MINUS;
    let int_start: usize = if negative { 1 } else { 0 };
    let int_end = if sep < len { sep } else { exp };
    let (frac_start, frac_end) = if sep < exp { (sep + 1, exp) } else { (exp, exp) };
    let exp_negative = exp < len && exp + 1 < len && bytes[exp + 1] == MINUS;
    let exp_start = if exp_negative {
        exp + 2
    } else if exp < len {
        exp + 1
    } else {
        len
    };
    let r = RawSplit {
        negative,
        int_start,
        int_end,
        frac_start,
        frac_end,
        exp_negative,
        exp_start,
    };
    proof {
        let raw = value.spec_bytes();
        assert(r.parts(raw).int =~= split_raw(raw).int);
        assert(r.parts(raw).frac =~= split_raw(raw).frac);
        assert(r.parts(raw).exp =~= split_raw(raw).exp);
    }
    r
}

} // verus!
