//! Ingredient quantities and ingredients: typed parsing of integers,
//! decimals, fractions and mixed numbers, and the `name[, kind][: qty]`
//! ingredient line format.

use vstd::prelude::*;

use crate::errors::{ParseError, ParseResult};
use crate::recipe::ParseFromStr;
use crate::strings::{
    lemma_char_free, lemma_clean_prefix_free, lemma_digits_free, lemma_find_none, lemma_find_spec, lemma_trim_end_clean, lemma_trim_start_clean,
    lemma_split_concat, lemma_trim_drops_first, lemma_trim_drops_last, lemma_trim_stable, scan_number, sp_clean_prefix,
    sp_dec_str, sp_dec_val, sp_free, sp_is_ws, sp_numeric, sp_split_once, sp_trim, sp_trim_end,
    sp_trim_start, split_once_str, trim, trim_end, trim_start, u64_to_string, NumScan,
};

verus! {

/// A whole-number quantity.
#[derive(Clone, Copy, Debug, PartialEq)]
pub struct Integer(pub u32);

/// A decimal quantity, written `whole.frac`.
#[derive(Clone, Copy, Debug, PartialEq)]
pub struct Decimal {
    pub whole: u16,
    pub frac: u16,
}

/// A fractional quantity, written `numer/denom`.
#[derive(Clone, Copy, Debug, PartialEq)]
pub struct Fraction {
    pub numer: u8,
    pub denom: u8,
}

/// The value part of an ingredient quantity.
#[derive(Clone, Copy, Debug, PartialEq)]
pub enum QuantityValue {
    Integer(Integer),
    Decimal(Decimal),
    Fraction(Fraction),
}

// ---------------------------------------------------------------------------
// Spec-level parsing of the numeric shapes
// ---------------------------------------------------------------------------

/// The head before the first space, and everything after it.
pub open spec fn sp_head_tail(s: Seq<char>) -> (Seq<char>, Seq<char>) {
    match sp_split_once(s, seq![' ']) {
        Some(p) => p,
        None => (s, Seq::empty()),
    }
}

/// What trying `s` as a `u32` integer yields: a value, a shape mismatch
/// (`Ok(None)`), or a range error (`Err`).
pub open spec fn sp_try_integer(s: Seq<char>) -> Result<Option<u32>, ()> {
    if !sp_numeric(s) {
        Ok(None)
    } else if sp_dec_val(s) > u32::MAX {
        Err(())
    } else {
        Ok(Some(sp_dec_val(s) as u32))
    }
}

/// What trying `s` as a `whole.frac` decimal yields.
pub open spec fn sp_try_decimal(s: Seq<char>) -> Result<Option<Decimal>, ()> {
    match sp_split_once(s, seq!['.']) {
        None => Ok(None),
        Some((a, b)) => if !sp_numeric(a) {
            Ok(None)
        } else if !sp_numeric(b) {
            Ok(None)
        } else if sp_dec_val(a) > u16::MAX {
            Err(())
        } else if sp_dec_val(b) > u16::MAX {
            Err(())
        } else {
            Ok(Some(Decimal { whole: sp_dec_val(a) as u16, frac: sp_dec_val(b) as u16 }))
        },
    }
}

/// What trying `s` as a `numer/denom` fraction yields.
pub open spec fn sp_try_fraction(s: Seq<char>) -> Result<Option<Fraction>, ()> {
    match sp_split_once(s, seq!['/']) {
        None => Ok(None),
        Some((a, b)) => if !sp_numeric(a) {
            Ok(None)
        } else if !sp_numeric(b) {
            Ok(None)
        } else if sp_dec_val(a) > u8::MAX {
            Err(())
        } else if sp_dec_val(b) > u8::MAX {
            Err(())
        } else {
            Ok(Some(Fraction { numer: sp_dec_val(a) as u8, denom: sp_dec_val(b) as u8 }))
        },
    }
}

/// What parsing the leading quantity value of `s` yields: the value and
/// the rest of the text, or a hard error. A leading integer followed by
/// a fraction token is combined into a mixed number; overflow while
/// combining is a hard error.
pub open spec fn sp_parse_qvalue(s: Seq<char>) -> Result<(QuantityValue, Seq<char>), ()> {
    let (head, rest) = sp_head_tail(s);
    match sp_try_integer(head) {
        Err(()) => Err(()),
        Ok(Some(n)) => {
            let (h2, r2) = sp_head_tail(rest);
            match sp_try_fraction(h2) {
                Err(()) => Err(()),
                Ok(Some(f)) => if n <= u8::MAX && n * f.denom + f.numer <= u8::MAX {
                    Ok(
                        (
                            QuantityValue::Fraction(
                                Fraction {
                                    numer: (n * f.denom + f.numer) as u8,
                                    denom: f.denom,
                                },
                            ),
                            r2,
                        ),
                    )
                } else {
                    Err(())
                },
                Ok(None) => Ok((QuantityValue::Integer(Integer(n)), rest)),
            }
        },
        Ok(None) => match sp_try_decimal(head) {
            Err(()) => Err(()),
            Ok(Some(d)) => Ok((QuantityValue::Decimal(d), rest)),
            Ok(None) => match sp_try_fraction(head) {
                Err(()) => Err(()),
                Ok(Some(f)) => Ok((QuantityValue::Fraction(f), rest)),
                Ok(None) => Err(()),
            },
        },
    }
}

/// The text of a quantity value.
pub open spec fn sp_format_qvalue(v: QuantityValue) -> Seq<char> {
    match v {
        QuantityValue::Integer(Integer(n)) => sp_dec_str(n as int),
        QuantityValue::Decimal(Decimal { whole, frac }) => sp_dec_str(whole as int) + seq!['.']
            + sp_dec_str(frac as int),
        QuantityValue::Fraction(Fraction { numer, denom }) => sp_dec_str(numer as int)
            + seq!['/'] + sp_dec_str(denom as int),
    }
}

// ---------------------------------------------------------------------------
// Executable parsing of the numeric shapes
// ---------------------------------------------------------------------------

/// Splits at the first space; absent one, the whole text is the head.
fn head_tail<'a>(s: &'a str) -> (r: (&'a str, &'a str))
    ensures
        (r.0@, r.1@) == sp_head_tail(s@),
{
    proof {
        reveal_strlit(" ");
        assert(" "@ =~= seq![' ']);
    }
    match split_once_str(s, " ") {
        Some((a, b)) => (a, b),
        None => {
            let n = s.unicode_len();
            let e = s.substring_char(n, n);
            proof {
                assert(e@ =~= Seq::<char>::empty());
            }
            (s, e)
        },
    }
}

impl Integer {
    /// Tries `s` as a `u32`; a non-numeric shape is no match, a numeric
    /// overflow is a hard error.
    fn try_parse_from_str(s: &str) -> (r: ParseResult<Option<Self>>)
        ensures
            match r {
                Ok(Some(v)) => sp_try_integer(s@) == Ok::<Option<u32>, ()>(Some(v.0)),
                Ok(None) => sp_try_integer(s@) == Ok::<Option<u32>, ()>(None),
                Err(_) => sp_try_integer(s@) is Err,
            },
    {
        match scan_number(s) {
            NumScan::NotNumeric => Ok(None),
            NumScan::TooBig => Err(ParseError::msg("integer is out of range")),
            NumScan::Value(v) => Ok(Some(Integer(v as u32))),
        }
    }
}

impl Decimal {
    /// Tries `s` as a `whole.frac` decimal.
    fn try_parse_from_str(s: &str) -> (r: ParseResult<Option<Self>>)
        ensures
            match r {
                Ok(Some(v)) => sp_try_decimal(s@) == Ok::<Option<Decimal>, ()>(Some(v)),
                Ok(None) => sp_try_decimal(s@) == Ok::<Option<Decimal>, ()>(None),
                Err(_) => sp_try_decimal(s@) is Err,
            },
    {
        proof {
            reveal_strlit(".");
            assert("."@ =~= seq!['.']);
        }
        let (a, b) = match split_once_str(s, ".") {
            Some(p) => p,
            None => {
                return Ok(None);
            },
        };
        let na = scan_number(a);
        let nb = scan_number(b);
        match (na, nb) {
            (NumScan::NotNumeric, _) => Ok(None),
            (_, NumScan::NotNumeric) => Ok(None),
            (NumScan::TooBig, _) => Err(ParseError::msg("decimal integral part is out of range")),
            (_, NumScan::TooBig) => Err(
                ParseError::msg("decimal fractional part is out of range"),
            ),
            (NumScan::Value(va), NumScan::Value(vb)) => {
                if va > u16::MAX as u64 {
                    Err(ParseError::msg("decimal integral part is out of range"))
                } else if vb > u16::MAX as u64 {
                    Err(ParseError::msg("decimal fractional part is out of range"))
                } else {
                    Ok(Some(Decimal { whole: va as u16, frac: vb as u16 }))
                }
            },
        }
    }
}

impl Fraction {
    /// The mixed number `int` and `self`, as a single fraction, when it
    /// fits.
    fn add_integer(&self, int_part: u8) -> (r: Option<Self>)
        ensures
            match r {
                Some(f) => int_part * self.denom + self.numer <= u8::MAX && f == (Fraction {
                    numer: (int_part * self.denom + self.numer) as u8,
                    denom: self.denom,
                }),
                None => int_part * self.denom + self.numer > u8::MAX,
            },
    {
        proof {
            assert((int_part as int) * (self.denom as int) <= 255 * 255) by (nonlinear_arith)
                requires
                    int_part <= 255,
                    self.denom <= 255,
            ;
        }
        let product = (int_part as u32) * (self.denom as u32);
        let total = product + (self.numer as u32);
        if total <= u8::MAX as u32 {
            Some(Fraction { numer: total as u8, denom: self.denom })
        } else {
            None
        }
    }

    /// Tries `s` as a `numer/denom` fraction.
    fn try_parse_from_str(s: &str) -> (r: ParseResult<Option<Self>>)
        ensures
            match r {
                Ok(Some(v)) => sp_try_fraction(s@) == Ok::<Option<Fraction>, ()>(Some(v)),
                Ok(None) => sp_try_fraction(s@) == Ok::<Option<Fraction>, ()>(None),
                Err(_) => sp_try_fraction(s@) is Err,
            },
    {
        proof {
            reveal_strlit("/");
            assert("/"@ =~= seq!['/']);
        }
        let (a, b) = match split_once_str(s, "/") {
            Some(p) => p,
            None => {
                return Ok(None);
            },
        };
        let na = scan_number(a);
        let nb = scan_number(b);
        match (na, nb) {
            (NumScan::NotNumeric, _) => Ok(None),
            (_, NumScan::NotNumeric) => Ok(None),
            (NumScan::TooBig, _) => Err(ParseError::msg("fraction numerator is out of range")),
            (_, NumScan::TooBig) => Err(ParseError::msg("fraction denominator is out of range")),
            (NumScan::Value(va), NumScan::Value(vb)) => {
                if va > u8::MAX as u64 {
                    Err(ParseError::msg("fraction numerator is out of range"))
                } else if vb > u8::MAX as u64 {
                    Err(ParseError::msg("fraction denominator is out of range"))
                } else {
                    Ok(Some(Fraction { numer: va as u8, denom: vb as u8 }))
                }
            },
        }
    }
}

impl QuantityValue {
    /// Parses the leading quantity value of `value`, returning it with
    /// the rest of the text.
    pub fn parse_from_str<'a>(value: &'a str) -> (r: ParseResult<(Self, &'a str)>)
        ensures
            match r {
                Ok(p) => sp_parse_qvalue(value@) == Ok::<_, ()>((p.0, p.1@)),
                Err(_) => sp_parse_qvalue(value@) is Err,
            },
    {
        let (head, rest) = head_tail(value);
        match Integer::try_parse_from_str(head) {
            Err(e) => Err(e),
            Ok(Some(integer)) => match Self::parse_mixed_number(integer, rest) {
                Err(e) => Err(e),
                Ok(Some((fraction, r2))) => Ok((Self::Fraction(fraction), r2)),
                Ok(None) => Ok((Self::Integer(integer), rest)),
            },
            Ok(None) => match Decimal::try_parse_from_str(head) {
                Err(e) => Err(e),
                Ok(Some(decimal)) => Ok((Self::Decimal(decimal), rest)),
                Ok(None) => match Fraction::try_parse_from_str(head) {
                    Err(e) => Err(e),
                    Ok(Some(fraction)) => Ok((Self::Fraction(fraction), rest)),
                    Ok(None) => Err(ParseError::msg("invalid ingredient quantity value")),
                },
            },
        }
    }

    /// Reads a fraction token following the integer part of a mixed
    /// number and combines the two; overflow is a hard error.
    fn parse_mixed_number<'a>(integer: Integer, value: &'a str) -> (r: ParseResult<
        Option<(Fraction, &'a str)>,
    >)
        ensures
            ({
                let (h2, r2) = sp_head_tail(value@);
                match r {
                    Ok(Some(p)) => sp_try_fraction(h2) matches Ok(Some(f)) && integer.0
                        <= u8::MAX && integer.0 * f.denom + f.numer <= u8::MAX && p.0 == (
                    Fraction {
                        numer: (integer.0 * f.denom + f.numer) as u8,
                        denom: f.denom,
                    }) && p.1@ == r2,
                    Ok(None) => sp_try_fraction(h2) == Ok::<Option<Fraction>, ()>(None),
                    Err(_) => sp_try_fraction(h2) is Err || (sp_try_fraction(h2) matches Ok(
                        Some(f),
                    ) && (integer.0 > u8::MAX || integer.0 * f.denom + f.numer > u8::MAX)),
                }
            }),
    {
        let (h2, r2) = head_tail(value);
        let fraction = match Fraction::try_parse_from_str(h2) {
            Err(e) => {
                return Err(e);
            },
            Ok(None) => {
                return Ok(None);
            },
            Ok(Some(f)) => f,
        };
        if integer.0 > u8::MAX as u32 {
            return Err(ParseError::msg("mixed number fraction is out of range"));
        }
        match fraction.add_integer(integer.0 as u8) {
            Some(combined) => Ok(Some((combined, r2))),
            None => Err(ParseError::msg("mixed number fraction is out of range")),
        }
    }

    /// Writes the value: `n`, `whole.frac`, or `numer/denom`.
    pub fn format(&self) -> (r: String)
        ensures
            r@ == sp_format_qvalue(*self),
    {
        match self {
            Self::Integer(Integer(n)) => u64_to_string(*n as u64),
            Self::Decimal(Decimal { whole, frac }) => {
                let mut s = u64_to_string(*whole as u64);
                s.append(".");
                let f = u64_to_string(*frac as u64);
                s.append(f.as_str());
                proof {
                    reveal_strlit(".");
                    assert("."@ =~= seq!['.']);
                }
                s
            },
            Self::Fraction(Fraction { numer, denom }) => {
                let mut s = u64_to_string(*numer as u64);
                s.append("/");
                let d = u64_to_string(*denom as u64);
                s.append(d.as_str());
                proof {
                    reveal_strlit("/");
                    assert("/"@ =~= seq!['/']);
                }
                s
            },
        }
    }
}

// ---------------------------------------------------------------------------
// Quantities
// ---------------------------------------------------------------------------

/// The mathematical value of a `Quantity`.
pub struct QuantityView {
    pub value: QuantityValue,
    pub unit: Option<Seq<char>>,
    pub note: Option<Seq<char>>,
}

/// A quantity: a value, an optional unit, and an optional parenthesized
/// note. Empty unit or note text normalizes to `None`.
#[derive(Debug, PartialEq)]
pub struct Quantity {
    pub value: QuantityValue,
    pub unit: Option<String>,
    pub note: Option<String>,
}

impl DeepView for Quantity {
    type V = QuantityView;

    open spec fn deep_view(&self) -> QuantityView {
        QuantityView { value: self.value, unit: self.unit.deep_view(), note: self.note.deep_view() }
    }
}

/// Empty text normalized away.
pub open spec fn sp_opt_text(s: Seq<char>) -> Option<Seq<char>> {
    if s.len() == 0 {
        None
    } else {
        Some(s)
    }
}

/// What parsing a quantity yields: the leading value, then either
/// `unit (note)` split at the first `" ("` (the part after must close
/// with `)`), or the whole rest as the unit.
pub open spec fn sp_parse_quantity(s: Seq<char>) -> Option<QuantityView> {
    match sp_parse_qvalue(s) {
        Err(()) => None,
        Ok((value, rest)) => match sp_split_once(rest, seq![' ', '(']) {
            Some((u, n)) => if n.len() > 0 && n.last() == ')' {
                Some(
                    QuantityView {
                        value,
                        unit: sp_opt_text(sp_trim(u)),
                        note: sp_opt_text(sp_trim(n.drop_last())),
                    },
                )
            } else {
                None
            },
            None => Some(
                QuantityView { value, unit: sp_opt_text(sp_trim_start(rest)), note: None },
            ),
        },
    }
}

/// The text of a quantity: `value[ unit][ (note)]`.
pub open spec fn sp_format_quantity(q: QuantityView) -> Seq<char> {
    sp_format_qvalue(q.value) + (match q.unit {
        Some(u) => seq![' '] + u,
        None => Seq::<char>::empty(),
    }) + (match q.note {
        Some(n) => seq![' ', '('] + n + seq![')'],
        None => Seq::<char>::empty(),
    })
}

/// A free-text field as it can stand inside a formatted line: non-empty,
/// trim-stable, and free of newlines.
pub open spec fn sp_wf_text(s: Seq<char>) -> bool {
    s.len() > 0 && sp_trim(s) == s && sp_free(s, seq!['\n'])
}

/// The quantities whose formatted text parses back unchanged: a note
/// only beside a unit, a unit that does not open a note early, and no
/// unit whose first word reads as the fraction of a mixed number.
pub open spec fn sp_wf_quantity(q: QuantityView) -> bool {
    &&& match q.unit {
        Some(u) => sp_wf_text(u) && sp_clean_prefix(u, seq![' ', '(']),
        None => true,
    }
    &&& match q.note {
        Some(n) => sp_wf_text(n),
        None => true,
    }
    &&& (q.note is Some ==> q.unit is Some)
    &&& (q.value is Integer ==> match q.unit {
        Some(u) => sp_try_fraction(sp_head_tail(u).0) == Ok::<Option<Fraction>, ()>(None),
        None => true,
    })
}

/// From freeness of a one-character pattern to the characters themselves.
pub proof fn lemma_free_char_elem(s: Seq<char>, c: char)
    requires
        sp_free(s, seq![c]),
    ensures
        forall|i: int| 0 <= i < s.len() ==> s[i] != c,
{
    assert forall|i: int| 0 <= i < s.len() implies s[i] != c by {
        if s[i] == c {
            assert(s.subrange(i, i + 1) =~= seq![c]);
            assert(crate::strings::sp_occurs_at(s, seq![c], i));
        }
    }
}

/// Freeness of a one-character pattern carries over concatenation.
pub proof fn lemma_free_concat(a: Seq<char>, b: Seq<char>, c: char)
    requires
        sp_free(a, seq![c]),
        sp_free(b, seq![c]),
    ensures
        sp_free(a + b, seq![c]),
{
    lemma_free_char_elem(a, c);
    lemma_free_char_elem(b, c);
    assert forall|i: int| 0 <= i < (a + b).len() implies (a + b)[i] != c by {}
    lemma_char_free(a + b, c);
}

/// The text of a quantity value: its shape, and what the typed parsers
/// make of it.
proof fn lemma_format_qvalue_facts(v: QuantityValue)
    ensures
        sp_format_qvalue(v).len() > 0,
        forall|i: int|
            0 <= i < sp_format_qvalue(v).len() ==> (crate::strings::sp_is_digit(
                #[trigger] sp_format_qvalue(v)[i],
            ) || sp_format_qvalue(v)[i] == '.' || sp_format_qvalue(v)[i] == '/'),
        sp_free(sp_format_qvalue(v), seq![' ']),
        sp_free(sp_format_qvalue(v), seq!['\n']),
        match v {
            QuantityValue::Integer(n) => sp_try_integer(sp_format_qvalue(v)) == Ok::<
                Option<u32>,
                (),
            >(Some(n.0)),
            QuantityValue::Decimal(d) => sp_try_integer(sp_format_qvalue(v)) == Ok::<
                Option<u32>,
                (),
            >(None) && sp_try_decimal(sp_format_qvalue(v)) == Ok::<Option<Decimal>, ()>(Some(d)),
            QuantityValue::Fraction(f) => sp_try_integer(sp_format_qvalue(v)) == Ok::<
                Option<u32>,
                (),
            >(None) && sp_try_decimal(sp_format_qvalue(v)) == Ok::<Option<Decimal>, ()>(None)
                && sp_try_fraction(sp_format_qvalue(v)) == Ok::<Option<Fraction>, ()>(Some(f)),
        },
{
    let fv = sp_format_qvalue(v);
    match v {
        QuantityValue::Integer(Integer(n)) => {
            crate::strings::lemma_dec_str_val(n as int);
        },
        QuantityValue::Decimal(Decimal { whole, frac }) => {
            let a = sp_dec_str(whole as int);
            let b = sp_dec_str(frac as int);
            crate::strings::lemma_dec_str_val(whole as int);
            crate::strings::lemma_dec_str_val(frac as int);
            assert(fv == a + seq!['.'] + b);
            assert(fv[a.len() as int] == '.');
            assert(!crate::strings::sp_is_digit('.'));
            assert(!sp_numeric(fv));
            lemma_digits_free(a, '.');
            lemma_split_concat(a, seq!['.'], b);
            assert forall|i: int|
                0 <= i < fv.len() implies (crate::strings::sp_is_digit(fv[i]) || fv[i] == '.'
                || fv[i] == '/') by {
                if i < a.len() {
                    assert(fv[i] == a[i]);
                } else if i > a.len() {
                    assert(fv[i] == b[i - a.len() - 1]);
                }
            }
        },
        QuantityValue::Fraction(Fraction { numer, denom }) => {
            let a = sp_dec_str(numer as int);
            let b = sp_dec_str(denom as int);
            crate::strings::lemma_dec_str_val(numer as int);
            crate::strings::lemma_dec_str_val(denom as int);
            assert(fv == a + seq!['/'] + b);
            assert(fv[a.len() as int] == '/');
            assert(!crate::strings::sp_is_digit('/'));
            assert(!sp_numeric(fv));
            assert forall|i: int|
                0 <= i < fv.len() implies (crate::strings::sp_is_digit(fv[i]) || fv[i] == '/')
                by {
                if i < a.len() {
                    assert(fv[i] == a[i]);
                } else if i > a.len() {
                    assert(fv[i] == b[i - a.len() - 1]);
                }
            }
            // No '.' anywhere, so the decimal shape does not match.
            assert forall|i: int| 0 <= i < fv.len() implies fv[i] != '.' by {}
            lemma_char_free(fv, '.');
            lemma_find_none(fv, seq!['.']);
            lemma_digits_free(a, '/');
            lemma_split_concat(a, seq!['/'], b);
        },
    }
    // Character-level facts give freeness of space and newline.
    assert forall|i: int| 0 <= i < fv.len() implies fv[i] != ' ' by {}
    assert forall|i: int| 0 <= i < fv.len() implies fv[i] != '\n' by {}
    lemma_char_free(fv, ' ');
    lemma_char_free(fv, '\n');
}

/// The first word of `u + tail` is the first word of `u`, whenever
/// `tail` begins with a space.
proof fn lemma_head_of_extension(u: Seq<char>, tail: Seq<char>)
    requires
        tail.len() > 0,
        tail[0] == ' ',
    ensures
        sp_head_tail(u + tail).0 == sp_head_tail(u).0,
{
    let s = u + tail;
    let pat = seq![' '];
    crate::strings::lemma_find_spec(u, pat);
    match crate::strings::sp_find(u, pat) {
        Some(k) => {
            assert(crate::strings::sp_occurs_at(u, pat, k));
            assert(s.subrange(k, k + 1) =~= u.subrange(k, k + 1));
            assert(crate::strings::sp_occurs_at(s, pat, k));
            assert forall|j: int| 0 <= j < k implies !crate::strings::sp_occurs_at(s, pat, j) by {
                if crate::strings::sp_occurs_at(s, pat, j) {
                    assert(s.subrange(j, j + 1)[0] == s[j]);
                    assert(u.subrange(j, j + 1) =~= seq![u[j]]);
                    assert(crate::strings::sp_occurs_at(u, pat, j));
                }
            }
            crate::strings::lemma_find_from_unique(s, pat, 0, k);
            assert(s.subrange(0, k) =~= u.subrange(0, k));
        },
        None => {
            assert forall|j: int| 0 <= j < u.len() implies !crate::strings::sp_occurs_at(
                s,
                pat,
                j,
            ) by {
                if crate::strings::sp_occurs_at(s, pat, j) {
                    assert(s.subrange(j, j + 1)[0] == s[j]);
                    assert(u.subrange(j, j + 1) =~= seq![u[j]]);
                    assert(crate::strings::sp_occurs_at(u, pat, j));
                }
            }
            assert(crate::strings::sp_occurs_at(s, pat, u.len() as int)) by {
                assert(s.subrange(u.len() as int, u.len() + 1 as int) =~= seq![tail[0]]);
            }
            crate::strings::lemma_find_from_unique(s, pat, 0, u.len() as int);
            assert(s.subrange(0, u.len() as int) =~= u);
        },
    }
}

/// Round trip for quantities: the formatted text of a well-formed
/// quantity parses back to the same value.
#[verifier::rlimit(60)]
pub proof fn lemma_quantity_round_trip(q: QuantityView)
    requires
        sp_wf_quantity(q),
    ensures
        sp_parse_quantity(sp_format_quantity(q)) == Some(q),
        sp_format_quantity(q).len() > 0,
        sp_trim(sp_format_quantity(q)) == sp_format_quantity(q),
        sp_free(sp_format_quantity(q), seq!['\n']),
{
    let fv = sp_format_qvalue(q.value);
    let s = sp_format_quantity(q);
    lemma_format_qvalue_facts(q.value);
    lemma_free_char_elem(fv, ' ');
    let popen = seq![' ', '('];
    match q.unit {
        None => {
            // Without a unit there is no note either.
            assert(q.note is None);
            assert(s =~= fv);
            // The head is the whole text; the rest is empty.
            crate::strings::lemma_char_free(fv, ' ');
            lemma_find_none(fv, seq![' ']);
            assert(sp_head_tail(s) == (fv, Seq::<char>::empty()));
            let rest = Seq::<char>::empty();
            assert(sp_try_fraction(sp_head_tail(rest).0) == Ok::<Option<Fraction>, ()>(None))
                by {
                crate::strings::lemma_find_spec(rest, seq![' ']);
                crate::strings::lemma_find_spec(rest, seq!['/']);
            }
            assert(sp_parse_qvalue(s) == Ok::<_, ()>((q.value, rest)));
            assert(crate::strings::sp_find(rest, popen) is None);
            assert(sp_trim_start(rest) == rest);
            assert(sp_parse_quantity(s) == Some(q));
            lemma_trim_stable(s);
        },
        Some(u) => {
            lemma_free_char_elem(u, '\n');
            let suffix = match q.note {
                Some(n) => popen + n + seq![')'],
                None => Seq::<char>::empty(),
            };
            let rest = u + suffix;
            assert(s =~= fv + seq![' '] + rest);
            crate::strings::lemma_char_free(fv, ' ');
            lemma_split_concat(fv, seq![' '], rest);
            assert(sp_head_tail(s) == (fv, rest));
            // The mixed-number check sees the first word of the unit.
            if q.value is Integer {
                if q.note is Some {
                    assert(suffix[0] == ' ');
                    lemma_head_of_extension(u, suffix);
                } else {
                    assert(rest =~= u);
                }
                assert(sp_try_fraction(sp_head_tail(rest).0) == Ok::<Option<Fraction>, ()>(
                    None,
                ));
            }
            assert(sp_parse_qvalue(s) == Ok::<_, ()>((q.value, rest)));
            match q.note {
                None => {
                    assert(rest =~= u);
                    crate::strings::lemma_clean_prefix_free(u, popen);
                    lemma_find_none(u, popen);
                    assert(!sp_is_ws(u[0])) by {
                        if sp_is_ws(u[0]) {
                            lemma_trim_drops_first(u);
                        }
                    }
                    crate::strings::lemma_trim_start_clean(u);
                    assert(sp_trim_start(u) == u);
                    assert(sp_opt_text(sp_trim_start(rest)) == Some(u));
                    assert(sp_parse_quantity(s) == Some(q));
                },
                Some(n) => {
                    assert(rest =~= u + popen + (n + seq![')']));
                    lemma_split_concat(u, popen, n + seq![')']);
                    let after = n + seq![')'];
                    assert(after.len() > 0 && after.last() == ')');
                    assert(after.drop_last() =~= n);
                    assert(sp_trim(n) == n);
                    assert(sp_trim(u) == u);
                    assert(sp_opt_text(sp_trim(u)) == Some(u));
                    assert(sp_opt_text(sp_trim(after.drop_last())) == Some(n));
                    assert(sp_parse_quantity(s) == Some(q));
                },
            }
            // The whole line is trim-stable and newline-free.
            assert(s[0] == fv[0]);
            assert(!sp_is_ws(s[0]));
            let last = s[s.len() - 1];
            match q.note {
                Some(n) => {
                    assert(last == ')');
                },
                None => {
                    assert(last == u[u.len() - 1]);
                    assert(!sp_is_ws(last)) by {
                        if sp_is_ws(last) {
                            lemma_trim_drops_last(u);
                        }
                    }
                },
            }
            lemma_trim_stable(s);
            assert(sp_free(seq![' '], seq!['\n'])) by {
                lemma_char_free(seq![' '], '\n');
            }
            let head = fv + seq![' '];
            lemma_free_concat(fv, seq![' '], '\n');
            assert(sp_free(suffix, seq!['\n'])) by {
                match q.note {
                    Some(n) => {
                        assert(sp_free(popen, seq!['\n'])) by {
                            assert(forall|i: int| 0 <= i < popen.len() ==> popen[i] != '\n');
                            lemma_char_free(popen, '\n');
                        }
                        assert(sp_free(seq![')'], seq!['\n'])) by {
                            lemma_char_free(seq![')'], '\n');
                        }
                        lemma_free_concat(popen, n, '\n');
                        lemma_free_concat(popen + n, seq![')'], '\n');
                        assert((popen + n) + seq![')'] =~= suffix);
                    },
                    None => {
                        lemma_char_free(suffix, '\n');
                    },
                }
            }
            lemma_free_concat(u, suffix, '\n');
            lemma_free_concat(head, u + suffix, '\n');
            assert(head + (u + suffix) =~= s);
        },
    }
}

/// Normalizes empty text to `None`.
fn opt_string(s: &str) -> (r: Option<String>)
    ensures
        r.deep_view() == sp_opt_text(s@),
{
    if s.unicode_len() == 0 {
        None
    } else {
        Some(String::from_str(s))
    }
}

impl ParseFromStr for Quantity {
    open spec fn sp_parse(s: Seq<char>) -> Option<QuantityView> {
        sp_parse_quantity(s)
    }

    open spec fn sp_format(v: QuantityView) -> Seq<char> {
        sp_format_quantity(v)
    }

    open spec fn sp_wf(v: QuantityView) -> bool {
        sp_wf_quantity(v)
    }

    fn parse_from_str(s: &str) -> (r: ParseResult<Self>) {
        let (value, rest) = match QuantityValue::parse_from_str(s) {
            Ok(p) => p,
            Err(e) => {
                return Err(e);
            },
        };
        proof {
            reveal_strlit(" (");
            assert(" ("@ =~= seq![' ', '(']);
        }
        match split_once_str(rest, " (") {
            Some((u, nn)) => {
                let nlen = nn.unicode_len();
                if nlen == 0 || nn.get_char(nlen - 1) != ')' {
                    return Err(ParseError::msg("missing closing parenthesis of quantity note"));
                }
                let inner = nn.substring_char(0, nlen - 1);
                proof {
                    assert(inner@ =~= nn@.drop_last());
                }
                let note_text = trim(inner);
                let unit_text = trim(u);
                Ok(Quantity { value, unit: opt_string(unit_text), note: opt_string(note_text) })
            },
            None => {
                let unit_text = trim_start(rest);
                Ok(Quantity { value, unit: opt_string(unit_text), note: None })
            },
        }
    }

    fn format(&self) -> (r: String) {
        let mut s = self.value.format();
        proof {
            reveal_strlit(" ");
            reveal_strlit(" (");
            reveal_strlit(")");
            assert(" "@ =~= seq![' ']);
            assert(" ("@ =~= seq![' ', '(']);
            assert(")"@ =~= seq![')']);
        }
        match &self.unit {
            Some(u) => {
                s.append(" ");
                s.append(u.as_str());
            },
            None => {},
        }
        match &self.note {
            Some(n) => {
                s.append(" (");
                s.append(n.as_str());
                s.append(")");
            },
            None => {},
        }
        proof {
            assert(s@ =~= sp_format_quantity(self.deep_view()));
        }
        s
    }

    proof fn lemma_round_trip(v: QuantityView) {
        lemma_quantity_round_trip(v);
    }
}

// ---------------------------------------------------------------------------
// Ingredients
// ---------------------------------------------------------------------------

/// The mathematical value of an `Ingredient`.
pub struct IngredientView {
    pub name: Seq<char>,
    pub kind: Option<Seq<char>>,
    pub quantity: Option<QuantityView>,
}

/// One ingredient line: `name[, kind][: quantity]`. The name is never
/// empty; empty kind text normalizes to `None`.
#[derive(Debug, PartialEq)]
pub struct Ingredient {
    pub name: String,
    pub kind: Option<String>,
    pub quantity: Option<Quantity>,
}

impl DeepView for Ingredient {
    type V = IngredientView;

    open spec fn deep_view(&self) -> IngredientView {
        IngredientView {
            name: self.name@,
            kind: self.kind.deep_view(),
            quantity: self.quantity.deep_view(),
        }
    }
}

/// What parsing an ingredient line yields: the part before the first
/// `": "` split into name and kind at the first `", "`, the part after
/// parsed as a quantity.
pub open spec fn sp_parse_ingredient(s: Seq<char>) -> Option<IngredientView> {
    let (nk, q) = match sp_split_once(s, seq![':', ' ']) {
        Some((a, b)) => (sp_trim_end(a), sp_trim_start(b)),
        None => (s, Seq::<char>::empty()),
    };
    let (name, kind) = match sp_split_once(nk, seq![',', ' ']) {
        Some((a, b)) => (sp_trim_end(a), sp_trim_start(b)),
        None => (nk, Seq::<char>::empty()),
    };
    if name.len() == 0 {
        None
    } else if q.len() == 0 {
        Some(IngredientView { name, kind: sp_opt_text(kind), quantity: None })
    } else {
        match sp_parse_quantity(q) {
            None => None,
            Some(qv) => Some(
                IngredientView { name, kind: sp_opt_text(kind), quantity: Some(qv) },
            ),
        }
    }
}

/// The name and kind as they stand at the head of the formatted line.
pub open spec fn sp_name_kind(v: IngredientView) -> Seq<char> {
    match v.kind {
        Some(k) => v.name + seq![',', ' '] + k,
        None => v.name,
    }
}

/// The text of an ingredient.
pub open spec fn sp_format_ingredient(v: IngredientView) -> Seq<char> {
    sp_name_kind(v) + (match v.quantity {
        Some(q) => seq![':', ' '] + sp_format_quantity(q),
        None => Seq::<char>::empty(),
    })
}

/// The ingredients whose formatted line parses back unchanged: name and
/// kind free-text fields that do not fake the `", "` and `": "`
/// separators, and a well-formed quantity.
pub open spec fn sp_wf_ingredient(v: IngredientView) -> bool {
    &&& sp_wf_text(v.name)
    &&& sp_clean_prefix(v.name, seq![',', ' '])
    &&& match v.kind {
        Some(k) => sp_wf_text(k),
        None => true,
    }
    &&& sp_clean_prefix(sp_name_kind(v), seq![':', ' '])
    &&& match v.quantity {
        Some(q) => sp_wf_quantity(q),
        None => true,
    }
}

/// Round trip for ingredients.
#[verifier::rlimit(60)]
pub proof fn lemma_ingredient_round_trip(v: IngredientView)
    requires
        sp_wf_ingredient(v),
    ensures
        sp_parse_ingredient(sp_format_ingredient(v)) == Some(v),
        sp_format_ingredient(v).len() > 0,
        sp_trim(sp_format_ingredient(v)) == sp_format_ingredient(v),
        sp_free(sp_format_ingredient(v), seq!['\n']),
{
    let s = sp_format_ingredient(v);
    let nk = sp_name_kind(v);
    let colon = seq![':', ' '];
    let comma = seq![',', ' '];
    // The name-and-kind head is newline-free, trim-stable, non-empty.
    assert(nk.len() > 0);
    assert(nk[0] == v.name[0]);
    assert(!sp_is_ws(v.name[0])) by {
        if sp_is_ws(v.name[0]) {
            lemma_trim_drops_first(v.name);
        }
    }
    assert(!sp_is_ws(v.name[v.name.len() - 1])) by {
        if sp_is_ws(v.name[v.name.len() - 1]) {
            lemma_trim_drops_last(v.name);
        }
    }
    assert(sp_free(nk, seq!['\n'])) by {
        lemma_free_char_elem(v.name, '\n');
        match v.kind {
            Some(k) => {
                lemma_free_char_elem(k, '\n');
                assert(forall|i: int| 0 <= i < comma.len() ==> comma[i] != '\n');
                lemma_char_free(comma, '\n');
                lemma_free_concat(v.name, comma, '\n');
                lemma_free_concat(v.name + comma, k, '\n');
                assert((v.name + comma) + k =~= nk);
            },
            None => {},
        }
    }
    assert(nk.len() == 0 || !sp_is_ws(nk[nk.len() - 1])) by {
        match v.kind {
            Some(k) => {
                assert(nk[nk.len() - 1] == k[k.len() - 1]);
                if sp_is_ws(k[k.len() - 1]) {
                    lemma_trim_drops_last(k);
                }
            },
            None => {},
        }
    }
    lemma_trim_end_clean(nk);
    // Splitting the line at the first ": ".
    let (nk2, q2): (Seq<char>, Seq<char>) = match v.quantity {
        Some(q) => {
            let fq = sp_format_quantity(q);
            lemma_quantity_round_trip(q);
            assert(s =~= nk + colon + fq);
            lemma_split_concat(nk, colon, fq);
            assert(!sp_is_ws(fq[0])) by {
                if sp_is_ws(fq[0]) {
                    lemma_trim_drops_first(fq);
                }
            }
            lemma_trim_start_clean(fq);
            (sp_trim_end(nk), sp_trim_start(fq))
        },
        None => {
            assert(s =~= nk);
            lemma_clean_prefix_free(nk, colon);
            lemma_find_none(nk, colon);
            (nk, Seq::<char>::empty())
        },
    };
    assert(nk2 == nk);
    // Splitting the head at the first ", ".
    match v.kind {
        Some(k) => {
            assert(nk =~= v.name + comma + k);
            lemma_split_concat(v.name, comma, k);
            lemma_trim_end_clean(v.name);
            assert(!sp_is_ws(k[0])) by {
                if sp_is_ws(k[0]) {
                    lemma_trim_drops_first(k);
                }
            }
            lemma_trim_start_clean(k);
            assert(sp_opt_text(k) == Some(k));
        },
        None => {
            lemma_clean_prefix_free(v.name, comma);
            lemma_find_none(v.name, comma);
        },
    }
    match v.quantity {
        Some(q) => {
            assert(sp_parse_ingredient(s) == Some(v));
        },
        None => {
            assert(sp_parse_ingredient(s) == Some(v));
        },
    }
    // Shape of the whole line.
    assert(s[0] == v.name[0]);
    match v.quantity {
        Some(q) => {
            let fq = sp_format_quantity(q);
            assert(s[s.len() - 1] == fq[fq.len() - 1]);
            assert(!sp_is_ws(s[s.len() - 1])) by {
                if sp_is_ws(fq[fq.len() - 1]) {
                    lemma_trim_drops_last(fq);
                }
            }
            lemma_trim_stable(s);
            assert(forall|i: int| 0 <= i < colon.len() ==> colon[i] != '\n');
            lemma_char_free(colon, '\n');
            lemma_free_concat(nk, colon, '\n');
            lemma_free_concat(nk + colon, fq, '\n');
            assert((nk + colon) + fq =~= s);
        },
        None => {
            lemma_trim_stable(s);
        },
    }
}


impl Ingredient {
    /// Writes the ingredient line.
    fn format_parts(&self) -> (r: String)
        ensures
            r@ == sp_format_ingredient(self.deep_view()),
    {
        proof {
            reveal_strlit(", ");
            reveal_strlit(": ");
            assert(", "@ =~= seq![',', ' ']);
            assert(": "@ =~= seq![':', ' ']);
        }
        let mut s = String::from_str(self.name.as_str());
        match &self.kind {
            Some(k) => {
                s.append(", ");
                s.append(k.as_str());
            },
            None => {},
        }
        match &self.quantity {
            Some(q) => {
                s.append(": ");
                let fq = q.format();
                s.append(fq.as_str());
            },
            None => {},
        }
        proof {
            assert(s@ =~= sp_format_ingredient(self.deep_view()));
        }
        s
    }
}

impl ParseFromStr for Ingredient {
    open spec fn sp_parse(s: Seq<char>) -> Option<IngredientView> {
        sp_parse_ingredient(s)
    }

    open spec fn sp_format(v: IngredientView) -> Seq<char> {
        sp_format_ingredient(v)
    }

    open spec fn sp_wf(v: IngredientView) -> bool {
        sp_wf_ingredient(v)
    }

    fn parse_from_str(s: &str) -> (r: ParseResult<Self>) {
        proof {
            reveal_strlit(", ");
            reveal_strlit(": ");
            assert(", "@ =~= seq![',', ' ']);
            assert(": "@ =~= seq![':', ' ']);
        }
        let (nk, q): (&str, &str) = match split_once_str(s, ": ") {
            Some((a, b)) => (trim_end(a), trim_start(b)),
            None => (s, empty_str(s)),
        };
        let (name, kind): (&str, &str) = match split_once_str(nk, ", ") {
            Some((a, b)) => (trim_end(a), trim_start(b)),
            None => (nk, empty_str(nk)),
        };
        if name.unicode_len() == 0 {
            return Err(ParseError::empty("ingredient name"));
        }
        let kind = opt_string(kind);
        if q.unicode_len() == 0 {
            Ok(Ingredient { name: String::from_str(name), kind, quantity: None })
        } else {
            match Quantity::parse_from_str(q) {
                Err(e) => Err(e),
                Ok(quantity) => Ok(
                    Ingredient { name: String::from_str(name), kind, quantity: Some(quantity) },
                ),
            }
        }
    }

    fn format(&self) -> (r: String) {
        self.format_parts()
    }

    proof fn lemma_round_trip(v: IngredientView) {
        lemma_ingredient_round_trip(v);
    }
}

/// An empty slice of the given text.
fn empty_str<'a>(s: &'a str) -> (r: &'a str)
    ensures
        r@ == Seq::<char>::empty(),
{
    let n = s.unicode_len();
    let r = s.substring_char(n, n);
    proof {
        assert(r@ =~= Seq::<char>::empty());
    }
    r
}

} // verus!
