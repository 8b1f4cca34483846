//! Verified character-level utilities for the recipe text format:
//! substring search, splitting, trimming, and bounded decimal numbers.
//! Every executable function is specified against a spec function over
//! `Seq<char>`, and the lemmas here relate those spec functions to the
//! concatenations that the formatters produce.

use vstd::prelude::*;

verus! {

// ---------------------------------------------------------------------------
// Whitespace and trimming
// ---------------------------------------------------------------------------

/// The characters treated as whitespace when lines are trimmed.
pub open spec fn sp_is_ws(c: char) -> bool {
    c == ' ' || c == '\t' || c == '\n' || c == '\r'
}

/// Executable test matching `sp_is_ws`.
pub fn is_ws(c: char) -> (r: bool)
    ensures
        r == sp_is_ws(c),
{
    c == ' ' || c == '\t' || c == '\n' || c == '\r'
}

/// `s` with leading whitespace removed.
pub open spec fn sp_trim_start(s: Seq<char>) -> Seq<char>
    decreases s.len(),
{
    if s.len() > 0 && sp_is_ws(s[0]) {
        sp_trim_start(s.skip(1))
    } else {
        s
    }
}

/// `s` with trailing whitespace removed.
pub open spec fn sp_trim_end(s: Seq<char>) -> Seq<char>
    decreases s.len(),
{
    if s.len() > 0 && sp_is_ws(s[s.len() - 1]) {
        sp_trim_end(s.drop_last())
    } else {
        s
    }
}

/// `s` with whitespace removed at both ends.
pub open spec fn sp_trim(s: Seq<char>) -> Seq<char> {
    sp_trim_end(sp_trim_start(s))
}

pub proof fn lemma_trim_start_skip(s: Seq<char>, i: int)
    requires
        0 <= i <= s.len(),
        forall|j: int| 0 <= j < i ==> sp_is_ws(s[j]),
    ensures
        sp_trim_start(s) == sp_trim_start(s.skip(i)),
    decreases i,
{
    if i > 0 {
        assert(sp_trim_start(s) == sp_trim_start(s.skip(1)));
        assert(s.skip(1).skip(i - 1) == s.skip(i));
        lemma_trim_start_skip(s.skip(1), i - 1);
    } else {
        assert(s.skip(0) == s);
    }
}

proof fn lemma_trim_end_take(s: Seq<char>, i: int)
    requires
        0 <= i <= s.len(),
        forall|j: int| i <= j < s.len() ==> sp_is_ws(s[j]),
    ensures
        sp_trim_end(s) == sp_trim_end(s.take(i)),
    decreases s.len() - i,
{
    if i < s.len() {
        assert(sp_is_ws(s[s.len() - 1]));
        assert(sp_trim_end(s) == sp_trim_end(s.drop_last()));
        assert(s.drop_last() == s.take(s.len() - 1));
        assert(s.take(s.len() - 1).take(i) == s.take(i));
        lemma_trim_end_take(s.take(s.len() - 1), i);
    } else {
        assert(s.take(i) == s);
    }
}

/// Trimming a sequence with no leading whitespace leaves its front alone.
pub proof fn lemma_trim_start_clean(s: Seq<char>)
    requires
        s.len() == 0 || !sp_is_ws(s[0]),
    ensures
        sp_trim_start(s) == s,
{
}

/// Trimming a sequence with no trailing whitespace leaves its end alone.
pub proof fn lemma_trim_end_clean(s: Seq<char>)
    requires
        s.len() == 0 || !sp_is_ws(s[s.len() - 1]),
    ensures
        sp_trim_end(s) == s,
{
}

/// A sequence that neither starts nor ends with whitespace is trim-stable.
pub proof fn lemma_trim_stable(s: Seq<char>)
    requires
        s.len() == 0 || (!sp_is_ws(s[0]) && !sp_is_ws(s[s.len() - 1])),
    ensures
        sp_trim(s) == s,
{
    lemma_trim_start_clean(s);
    lemma_trim_end_clean(s);
}

/// Returns the slice of `s` with whitespace removed from the front.
pub fn trim_start(s: &str) -> (r: &str)
    ensures
        r@ == sp_trim_start(s@),
{
    let n = s.unicode_len();
    let mut i: usize = 0;
    while i < n && is_ws(s.get_char(i))
        invariant
            0 <= i <= n,
            n == s@.len(),
            forall|j: int| 0 <= j < i ==> sp_is_ws(s@[j]),
        decreases n - i,
    {
        i = i + 1;
    }
    proof {
        lemma_trim_start_skip(s@, i as int);
        lemma_trim_start_clean(s@.skip(i as int));
    }
    s.substring_char(i, n)
}

/// Returns the slice of `s` with whitespace removed from the back.
pub fn trim_end(s: &str) -> (r: &str)
    ensures
        r@ == sp_trim_end(s@),
{
    let n = s.unicode_len();
    let mut i: usize = n;
    while i > 0 && is_ws(s.get_char(i - 1))
        invariant
            0 <= i <= n,
            n == s@.len(),
            forall|j: int| i <= j < n ==> sp_is_ws(s@[j]),
        decreases i,
    {
        i = i - 1;
    }
    proof {
        lemma_trim_end_take(s@, i as int);
        let t = s@.take(i as int);
        assert(t.len() == 0 || !sp_is_ws(t[t.len() - 1]));
        lemma_trim_end_clean(t);
    }
    s.substring_char(0, i)
}

/// Returns the slice of `s` with whitespace removed at both ends.
pub fn trim(s: &str) -> (r: &str)
    ensures
        r@ == sp_trim(s@),
{
    trim_end(trim_start(s))
}

// ---------------------------------------------------------------------------
// Substring search and splitting
// ---------------------------------------------------------------------------

/// `pat` occurs in `s` starting at index `i`.
pub open spec fn sp_occurs_at(s: Seq<char>, pat: Seq<char>, i: int) -> bool {
    0 <= i && i + pat.len() <= s.len() && s.subrange(i, i + pat.len()) == pat
}

/// The first occurrence of `pat` in `s` at an index `>= i`, if any.
pub open spec fn sp_find_from(s: Seq<char>, pat: Seq<char>, i: int) -> Option<int>
    decreases s.len() - i,
{
    if i < 0 || i + pat.len() > s.len() {
        None
    } else if pat.len() == 0 {
        Some(i)
    } else if sp_occurs_at(s, pat, i) {
        Some(i)
    } else {
        sp_find_from(s, pat, i + 1)
    }
}

/// The first occurrence of `pat` in `s`, if any.
pub open spec fn sp_find(s: Seq<char>, pat: Seq<char>) -> Option<int> {
    sp_find_from(s, pat, 0)
}

/// What `sp_find_from` returns is an occurrence, is minimal, and `None`
/// means there is none at or after `i`.
pub proof fn lemma_find_from_spec(s: Seq<char>, pat: Seq<char>, i: int)
    requires
        0 <= i,
    ensures
        match sp_find_from(s, pat, i) {
            Some(k) => sp_occurs_at(s, pat, k) && i <= k && forall|j: int|
                i <= j < k ==> !sp_occurs_at(s, pat, j),
            None => forall|j: int| i <= j ==> !sp_occurs_at(s, pat, j),
        },
    decreases s.len() - i,
{
    if i + pat.len() > s.len() {
    } else if pat.len() == 0 {
        assert(s.subrange(i, i) =~= pat);
    } else if sp_occurs_at(s, pat, i) {
    } else {
        lemma_find_from_spec(s, pat, i + 1);
    }
}

/// `sp_find` returns the least occurrence.
pub proof fn lemma_find_spec(s: Seq<char>, pat: Seq<char>)
    ensures
        match sp_find(s, pat) {
            Some(k) => sp_occurs_at(s, pat, k) && forall|j: int|
                0 <= j < k ==> !sp_occurs_at(s, pat, j),
            None => forall|j: int| 0 <= j ==> !sp_occurs_at(s, pat, j),
        },
{
    lemma_find_from_spec(s, pat, 0);
}

/// If an occurrence exists at `k >= i` and none before `k` (at or after `i`),
/// then `sp_find_from` returns exactly `k`.
pub proof fn lemma_find_from_unique(s: Seq<char>, pat: Seq<char>, i: int, k: int)
    requires
        0 <= i <= k,
        sp_occurs_at(s, pat, k),
        forall|j: int| i <= j < k ==> !sp_occurs_at(s, pat, j),
    ensures
        sp_find_from(s, pat, i) == Some(k),
    decreases k - i,
{
    if i == k {
    } else {
        if pat.len() == 0 {
            assert(s.subrange(i, i) =~= pat);
            assert(sp_occurs_at(s, pat, i));
        } else {
            assert(!sp_occurs_at(s, pat, i));
            assert(i + pat.len() <= s.len());
            lemma_find_from_unique(s, pat, i + 1, k);
        }
    }
}

/// Checks whether `pat` occurs in `s` at index `i` (both as char indices).
fn occurs_at(s: &str, pat: &str, i: usize, n: usize, m: usize) -> (r: bool)
    requires
        n == s@.len(),
        m == pat@.len(),
        i + m <= n,
    ensures
        r == sp_occurs_at(s@, pat@, i as int),
{
    let mut j: usize = 0;
    while j < m
        invariant
            0 <= j <= m,
            n == s@.len(),
            m == pat@.len(),
            i + m <= n,
            forall|l: int| 0 <= l < j ==> s@[i + l] == pat@[l],
        decreases m - j,
    {
        if s.get_char(i + j) != pat.get_char(j) {
            assert(s@.subrange(i as int, i + m) != pat@) by {
                assert(s@.subrange(i as int, i + m)[j as int] != pat@[j as int]);
            }
            return false;
        }
        j = j + 1;
    }
    assert(s@.subrange(i as int, i + m) =~= pat@);
    true
}

/// Finds the first occurrence of `pat` in `s`, as a char index.
pub fn find_sub(s: &str, pat: &str) -> (r: Option<usize>)
    ensures
        match r {
            Some(k) => sp_find(s@, pat@) == Some(k as int),
            None => sp_find(s@, pat@) is None,
        },
{
    let n = s.unicode_len();
    let m = pat.unicode_len();
    if m > n {
        return None;
    }
    if m == 0 {
        return Some(0);
    }
    let mut i: usize = 0;
    while i <= n - m
        invariant
            0 <= i <= n - m + 1,
            n == s@.len(),
            m == pat@.len(),
            0 < m <= n,
            sp_find(s@, pat@) == sp_find_from(s@, pat@, i as int),
        decreases n - i,
    {
        if occurs_at(s, pat, i, n, m) {
            return Some(i);
        }
        i = i + 1;
    }
    None
}

/// The two halves of `s` around the first occurrence of `pat`, if any.
pub open spec fn sp_split_once(s: Seq<char>, pat: Seq<char>) -> Option<(Seq<char>, Seq<char>)> {
    match sp_find(s, pat) {
        Some(i) => Some((s.subrange(0, i), s.subrange(i + pat.len(), s.len() as int))),
        None => None,
    }
}

/// Splits `s` at the first occurrence of `pat`.
pub fn split_once_str<'a>(s: &'a str, pat: &str) -> (r: Option<(&'a str, &'a str)>)
    ensures
        match r {
            Some((a, b)) => sp_split_once(s@, pat@) == Some((a@, b@)),
            None => sp_split_once(s@, pat@) is None,
        },
{
    match find_sub(s, pat) {
        Some(i) => {
            let n = s.unicode_len();
            let m = pat.unicode_len();
            proof {
                lemma_find_spec(s@, pat@);
            }
            let a = s.substring_char(0, i);
            let b = s.substring_char(i + m, n);
            Some((a, b))
        },
        None => None,
    }
}

/// `pat` is a prefix of `s`.
pub open spec fn sp_starts_with(s: Seq<char>, pat: Seq<char>) -> bool {
    pat.len() <= s.len() && s.subrange(0, pat.len() as int) == pat
}

/// Tests whether `s` starts with `pat`.
pub fn starts_with_str(s: &str, pat: &str) -> (r: bool)
    ensures
        r == sp_starts_with(s@, pat@),
{
    let n = s.unicode_len();
    let m = pat.unicode_len();
    if m > n {
        return false;
    }
    occurs_at(s, pat, 0, n, m)
}

/// `s` without a leading `pat`, when `pat` is a prefix.
pub open spec fn sp_skip_prefix(s: Seq<char>, pat: Seq<char>) -> Seq<char> {
    s.subrange(pat.len() as int, s.len() as int)
}

/// Strips a leading `pat` from `s`, if present.
pub fn strip_prefix_str<'a>(s: &'a str, pat: &str) -> (r: Option<&'a str>)
    ensures
        match r {
            Some(t) => sp_starts_with(s@, pat@) && t@ == sp_skip_prefix(s@, pat@),
            None => !sp_starts_with(s@, pat@),
        },
{
    if starts_with_str(s, pat) {
        let n = s.unicode_len();
        let m = pat.unicode_len();
        Some(s.substring_char(m, n))
    } else {
        None
    }
}



// ---------------------------------------------------------------------------
// How splitting relates to concatenation
// ---------------------------------------------------------------------------

/// `pat` does not occur in `a` extended by `pat` before `a`'s end. This is
/// the condition under which text formatted as `a + pat + b` splits back
/// at exactly the seam: `a` holds no occurrence of `pat` and no suffix of
/// `a` begins one that the seam completes.
pub open spec fn sp_clean_prefix(a: Seq<char>, pat: Seq<char>) -> bool {
    forall|i: int| 0 <= i < a.len() ==> !sp_occurs_at(a + pat, pat, i)
}

/// No occurrence of `pat` anywhere in `s`.
pub open spec fn sp_free(s: Seq<char>, pat: Seq<char>) -> bool {
    forall|i: int| !sp_occurs_at(s, pat, i)
}

/// Without any occurrence, `sp_find` returns `None`.
pub proof fn lemma_find_none(s: Seq<char>, pat: Seq<char>)
    requires
        sp_free(s, pat),
        pat.len() > 0,
    ensures
        sp_find(s, pat) is None,
        sp_split_once(s, pat) is None,
{
    lemma_find_spec(s, pat);
}

/// A clean prefix holds no occurrence of the pattern on its own either.
pub proof fn lemma_clean_prefix_free(a: Seq<char>, pat: Seq<char>)
    requires
        sp_clean_prefix(a, pat),
        pat.len() > 0,
    ensures
        sp_free(a, pat),
{
    assert forall|i: int| !sp_occurs_at(a, pat, i) by {
        if sp_occurs_at(a, pat, i) {
            assert((a + pat).subrange(i, i + pat.len()) =~= a.subrange(i, i + pat.len()));
            assert(sp_occurs_at(a + pat, pat, i));
        }
    }
}

/// Splitting `a + pat + b` at the first `pat` recovers `a` and `b`, when
/// `a` is a clean prefix for `pat`.
pub proof fn lemma_split_concat(a: Seq<char>, pat: Seq<char>, b: Seq<char>)
    requires
        sp_clean_prefix(a, pat),
        pat.len() > 0,
    ensures
        sp_find(a + pat + b, pat) == Some(a.len() as int),
        sp_split_once(a + pat + b, pat) == Some((a, b)),
{
    let s = a + pat + b;
    assert(sp_occurs_at(s, pat, a.len() as int)) by {
        assert(s.subrange(a.len() as int, a.len() + pat.len() as int) =~= pat);
    }
    assert forall|j: int| 0 <= j < a.len() implies !sp_occurs_at(s, pat, j) by {
        if sp_occurs_at(s, pat, j) {
            assert((a + pat).subrange(j, j + pat.len()) =~= s.subrange(j, j + pat.len()));
            assert(sp_occurs_at(a + pat, pat, j));
        }
    }
    lemma_find_from_unique(s, pat, 0, a.len() as int);
    assert(s.subrange(0, a.len() as int) =~= a);
    assert(s.subrange(a.len() + pat.len() as int, s.len() as int) =~= b);
}


// ---------------------------------------------------------------------------
// Decimal numbers
// ---------------------------------------------------------------------------

/// `c` is a decimal digit.
pub open spec fn sp_is_digit(c: char) -> bool {
    48 <= c as int && c as int <= 57
}

/// The numeric value of a digit character.
pub open spec fn sp_digit_val(c: char) -> int {
    c as int - 48
}

/// Every character of `s` is a decimal digit.
pub open spec fn sp_all_digits(s: Seq<char>) -> bool {
    forall|i: int| 0 <= i < s.len() ==> sp_is_digit(#[trigger] s[i])
}

/// `s` is a non-empty run of decimal digits.
pub open spec fn sp_numeric(s: Seq<char>) -> bool {
    s.len() > 0 && sp_all_digits(s)
}

/// The value of a run of decimal digits (most significant first).
pub open spec fn sp_dec_val(s: Seq<char>) -> int
    decreases s.len(),
{
    if s.len() == 0 {
        0
    } else {
        sp_dec_val(s.drop_last()) * 10 + sp_digit_val(s.last())
    }
}

/// Digit runs have non-negative value.
pub proof fn lemma_dec_val_nonneg(s: Seq<char>)
    requires
        sp_all_digits(s),
    ensures
        sp_dec_val(s) >= 0,
    decreases s.len(),
{
    if s.len() > 0 {
        assert(sp_all_digits(s.drop_last()));
        lemma_dec_val_nonneg(s.drop_last());
    }
}

/// Reading one more digit multiplies the prefix value by ten and adds it.
pub proof fn lemma_dec_val_step(s: Seq<char>, i: int)
    requires
        0 <= i < s.len(),
    ensures
        sp_dec_val(s.take(i + 1)) == sp_dec_val(s.take(i)) * 10 + sp_digit_val(s[i]),
{
    assert(s.take(i + 1).drop_last() =~= s.take(i));
    assert(s.take(i + 1).last() == s[i]);
}

/// Extending a digit run never shrinks its value.
pub proof fn lemma_dec_val_mono(s: Seq<char>, i: int, j: int)
    requires
        sp_all_digits(s),
        0 <= i <= j <= s.len(),
    ensures
        sp_dec_val(s.take(i)) <= sp_dec_val(s.take(j)),
    decreases j - i,
{
    if i < j {
        lemma_dec_val_mono(s, i, j - 1);
        lemma_dec_val_step(s, j - 1);
        assert(sp_all_digits(s.take(j - 1)));
        lemma_dec_val_nonneg(s.take(j - 1));
    }
}

/// What scanning a token as a bounded decimal number can yield.
pub enum NumScan {
    /// A run of digits whose value fits `u32`.
    Value(u64),
    /// A run of digits whose value exceeds `u32::MAX`.
    TooBig,
    /// Empty, or containing a non-digit: not a number at all.
    NotNumeric,
}

/// Scans `s` as a run of decimal digits, distinguishing a value in `u32`
/// range, a numeric overflow, and a shape mismatch.
pub fn scan_number(s: &str) -> (r: NumScan)
    ensures
        (r is NotNumeric) == !sp_numeric(s@),
        (r is TooBig) == (sp_numeric(s@) && sp_dec_val(s@) > u32::MAX),
        r matches NumScan::Value(v) ==> sp_numeric(s@) && v == sp_dec_val(s@) && v
            <= u32::MAX,
{
    let n = s.unicode_len();
    if n == 0 {
        return NumScan::NotNumeric;
    }
    let mut acc: u64 = 0;
    let mut big: bool = false;
    let mut i: usize = 0;
    while i < n
        invariant
            0 <= i <= n,
            n == s@.len(),
            sp_all_digits(s@.take(i as int)),
            !big ==> acc == sp_dec_val(s@.take(i as int)) && acc <= u32::MAX,
            big ==> sp_dec_val(s@.take(i as int)) > u32::MAX,
        decreases n - i,
    {
        let c = s.get_char(i);
        let u = c as u32;
        if u < 48 || u > 57 {
            assert(!sp_is_digit(s@[i as int]));
            return NumScan::NotNumeric;
        }
        let d: u64 = (u - 48) as u64;
        proof {
            lemma_dec_val_step(s@, i as int);
            assert(s@.take(i + 1).drop_last() =~= s@.take(i as int));
        }
        if big {
            proof {
                assert(sp_dec_val(s@.take(i + 1)) == sp_dec_val(s@.take(i as int)) * 10
                    + sp_digit_val(s@[i as int]));
            }
        } else {
            acc = acc * 10 + d;
            if acc > 0xFFFF_FFFF {
                big = true;
            }
        }
        i = i + 1;
    }
    proof {
        assert(s@.take(n as int) =~= s@);
    }
    if big {
        NumScan::TooBig
    } else {
        NumScan::Value(acc)
    }
}

/// The canonical decimal text of a non-negative number.
pub open spec fn sp_dec_str(n: int) -> Seq<char>
    decreases n,
{
    if n <= 9 {
        seq![sp_digit_char(if n < 0 { 0 } else { n })]
    } else {
        sp_dec_str(n / 10).push(sp_digit_char(n % 10))
    }
}

/// The character of one digit value.
pub open spec fn sp_digit_char(d: int) -> char {
    (48 + d) as char
}

/// The digit characters written by `sp_dec_str` are digits, and reading
/// them back yields the number.
pub proof fn lemma_dec_str_val(n: int)
    requires
        n >= 0,
    ensures
        sp_numeric(sp_dec_str(n)),
        sp_dec_val(sp_dec_str(n)) == n,
    decreases n,
{
    if n <= 9 {
        let s = sp_dec_str(n);
        assert(s.len() == 1);
        assert(s[0] == sp_digit_char(n));
        assert(s[0] as int == 48 + n);
        assert(s.drop_last() =~= Seq::<char>::empty());
        assert(sp_dec_val(Seq::<char>::empty()) == 0);
        assert(s.last() == s[0]);
        assert(sp_dec_val(s) == sp_dec_val(s.drop_last()) * 10 + sp_digit_val(s.last()));
    } else {
        lemma_dec_str_val(n / 10);
        vstd::arithmetic::div_mod::lemma_fundamental_div_mod(n, 10);
        let s = sp_dec_str(n);
        assert(s == sp_dec_str(n / 10).push(sp_digit_char(n % 10)));
        assert(s.drop_last() =~= sp_dec_str(n / 10));
        assert(s.last() == sp_digit_char(n % 10));
        assert(0 <= n % 10 <= 9);
        assert(s.last() as int == 48 + n % 10);
        assert(sp_all_digits(s)) by {
            assert forall|i: int| 0 <= i < s.len() implies sp_is_digit(s[i]) by {
                if i < s.len() - 1 {
                    assert(s[i] == sp_dec_str(n / 10)[i]);
                }
            }
        }
    }
}

/// Two distinct numbers have distinct decimal texts.
pub proof fn lemma_dec_str_injective(a: int, b: int)
    requires
        a >= 0,
        b >= 0,
        a != b,
    ensures
        sp_dec_str(a) != sp_dec_str(b),
{
    lemma_dec_str_val(a);
    lemma_dec_str_val(b);
}

/// A single digit string.
fn digit_str(d: u64) -> (r: &'static str)
    requires
        d <= 9,
    ensures
        r@ =~= seq![sp_digit_char(d as int)],
{
    let r: &'static str = if d == 0 {
        "0"
    } else if d == 1 {
        "1"
    } else if d == 2 {
        "2"
    } else if d == 3 {
        "3"
    } else if d == 4 {
        "4"
    } else if d == 5 {
        "5"
    } else if d == 6 {
        "6"
    } else if d == 7 {
        "7"
    } else if d == 8 {
        "8"
    } else {
        "9"
    };
    proof {
        reveal_strlit("0");
        reveal_strlit("1");
        reveal_strlit("2");
        reveal_strlit("3");
        reveal_strlit("4");
        reveal_strlit("5");
        reveal_strlit("6");
        reveal_strlit("7");
        reveal_strlit("8");
        reveal_strlit("9");
    }
    r
}

/// Writes `n` in decimal.
pub fn u64_to_string(n: u64) -> (r: String)
    ensures
        r@ == sp_dec_str(n as int),
    decreases n,
{
    if n <= 9 {
        let s = digit_str(n);
        String::from_str(s)
    } else {
        let mut r = u64_to_string(n / 10);
        let s = digit_str(n % 10);
        r.append(s);
        proof {
            assert(sp_dec_str(n as int) == sp_dec_str(n as int / 10).push(sp_digit_char(
                n as int % 10,
            )));
            assert(sp_dec_str(n as int / 10).push(sp_digit_char(n as int % 10))
                =~= sp_dec_str(n as int / 10) + seq![sp_digit_char(n as int % 10)]);
        }
        r
    }
}

/// Writes `n` in decimal, for the wider counter type.
pub fn u128_to_string(n: u128) -> (r: String)
    ensures
        r@ == sp_dec_str(n as int),
    decreases n,
{
    if n <= 9 {
        let s = digit_str((n % 10) as u64);
        String::from_str(s)
    } else {
        let mut r = u128_to_string(n / 10);
        let s = digit_str((n % 10) as u64);
        r.append(s);
        proof {
            assert(sp_dec_str(n as int) == sp_dec_str(n as int / 10).push(sp_digit_char(
                n as int % 10,
            )));
            assert(sp_dec_str(n as int / 10).push(sp_digit_char(n as int % 10))
                =~= sp_dec_str(n as int / 10) + seq![sp_digit_char(n as int % 10)]);
        }
        r
    }
}

// ---------------------------------------------------------------------------
// Joining and splitting on a separator
// ---------------------------------------------------------------------------

/// All the pieces of `s` between occurrences of `pat`, in order.
pub open spec fn sp_split_all(s: Seq<char>, pat: Seq<char>) -> Seq<Seq<char>>
    decreases s.len(),
    when true
    via sp_split_all_decreases
{
    if pat.len() == 0 {
        seq![s]
    } else {
        match sp_find(s, pat) {
            None => seq![s],
            Some(i) => seq![s.subrange(0, i)] + sp_split_all(
                s.subrange(i + pat.len(), s.len() as int),
                pat,
            ),
        }
    }
}

#[via_fn]
proof fn sp_split_all_decreases(s: Seq<char>, pat: Seq<char>) {
    lemma_find_spec(s, pat);
}

/// The pieces joined with `pat` between them.
pub open spec fn sp_join(items: Seq<Seq<char>>, pat: Seq<char>) -> Seq<char>
    decreases items.len(),
{
    if items.len() == 0 {
        Seq::empty()
    } else if items.len() == 1 {
        items[0]
    } else {
        items[0] + pat + sp_join(items.skip(1), pat)
    }
}

/// Splitting a join recovers the pieces, when each piece is a clean
/// prefix for the separator.
pub proof fn lemma_split_join(items: Seq<Seq<char>>, pat: Seq<char>)
    requires
        pat.len() > 0,
        items.len() > 0,
        forall|i: int| 0 <= i < items.len() ==> sp_clean_prefix(#[trigger] items[i], pat),
    ensures
        sp_split_all(sp_join(items, pat), pat) == items,
    decreases items.len(),
{
    if items.len() == 1 {
        lemma_clean_prefix_free(items[0], pat);
        lemma_find_none(items[0], pat);
        assert(sp_split_all(sp_join(items, pat), pat) =~= items);
    } else {
        let rest = items.skip(1);
        lemma_split_join(rest, pat);
        let s = items[0] + pat + sp_join(rest, pat);
        lemma_split_concat(items[0], pat, sp_join(rest, pat));
        assert(sp_find(s, pat) == Some(items[0].len() as int));
        assert(s.subrange(0, items[0].len() as int) =~= items[0]);
        assert(s.subrange(items[0].len() + pat.len() as int, s.len() as int) =~= sp_join(rest, pat));
        assert(sp_split_all(s, pat) =~= seq![items[0]] + sp_split_all(sp_join(rest, pat), pat));
        assert(seq![items[0]] + rest =~= items);
    }
}

/// Splits `s` at every occurrence of `pat`.
pub fn split_all_str(s: &str, pat: &str) -> (r: Vec<String>)
    requires
        pat@.len() > 0,
    ensures
        r.deep_view() == sp_split_all(s@, pat@),
{
    let ghost full = s@;
    let mut out: Vec<String> = Vec::new();
    let mut rest: &str = s;
    loop
        invariant
            pat@.len() > 0,
            full == s@,
            sp_split_all(full, pat@) == out.deep_view() + sp_split_all(rest@, pat@),
        decreases rest@.len(),
    {
        let ghost prev = out.deep_view();
        match split_once_str(rest, pat) {
            Some((a, b)) => {
                proof {
                    lemma_find_spec(rest@, pat@);
                }
                out.push(String::from_str(a));
                proof {
                    assert(out.deep_view() =~= prev.push(a@));
                    assert(sp_split_all(rest@, pat@) == seq![a@] + sp_split_all(b@, pat@));
                    assert(prev + (seq![a@] + sp_split_all(b@, pat@)) =~= prev.push(a@)
                        + sp_split_all(b@, pat@));
                }
                rest = b;
            },
            None => {
                out.push(String::from_str(rest));
                proof {
                    assert(out.deep_view() =~= prev.push(rest@));
                    assert(sp_split_all(rest@, pat@) == seq![rest@]);
                    assert(prev + seq![rest@] =~= prev.push(rest@));
                    assert(sp_split_all(full, pat@) == prev + sp_split_all(rest@, pat@));
                    assert(out.deep_view() == sp_split_all(full, pat@));
                }
                return out;
            },
        }
    }
}

/// Joins the pieces with `pat` between them.
pub fn join_all(items: &Vec<String>, pat: &str) -> (r: String)
    ensures
        r@ == sp_join(items.deep_view(), pat@),
{
    let ghost dv = items.deep_view();
    let n = items.len();
    if n == 0 {
        proof {
            assert(sp_join(dv, pat@) =~= Seq::<char>::empty());
        }
        return String::new();
    }
    let mut r = String::from_str(items[0].as_str());
    proof {
        assert(dv.take(1).len() == 1);
        assert(sp_join(dv.take(1), pat@) == dv.take(1)[0]);
        assert(dv.take(1)[0] == items[0]@);
    }
    let mut i: usize = 1;
    while i < n
        invariant
            1 <= i <= n,
            n == items.len(),
            dv == items.deep_view(),
            r@ == sp_join(dv.take(i as int), pat@),
        decreases n - i,
    {
        r.append(pat);
        r.append(items[i].as_str());
        proof {
            assert(dv[i as int] == items[i as int]@);
            lemma_join_take_step(dv, pat@, i as int);
        }
        i = i + 1;
    }
    proof {
        assert(dv.take(n as int) =~= dv);
    }
    r
}

/// Appending one more piece to a join.
proof fn lemma_join_take_step(items: Seq<Seq<char>>, pat: Seq<char>, i: int)
    requires
        1 <= i < items.len(),
    ensures
        sp_join(items.take(i + 1), pat) == sp_join(items.take(i), pat) + pat + items[i],
    decreases i,
{
    if i == 1 {
        let t2 = items.take(2);
        assert(t2.len() == 2);
        assert(sp_join(t2, pat) == t2[0] + pat + sp_join(t2.skip(1), pat));
        assert(t2.skip(1).len() == 1);
        assert(sp_join(t2.skip(1), pat) == t2.skip(1)[0]);
        assert(t2.skip(1)[0] == items[1]);
        assert(items.take(1).len() == 1);
        assert(sp_join(items.take(1), pat) == items.take(1)[0]);
        assert(items.take(1)[0] == items[0]);
        assert(t2[0] == items[0]);
    } else {
        lemma_join_take_step(items.skip(1), pat, i - 1);
        let a = items.take(i + 1);
        let b = items.take(i);
        assert(a.len() >= 2);
        assert(b.len() >= 2);
        assert(sp_join(a, pat) == a[0] + pat + sp_join(a.skip(1), pat));
        assert(sp_join(b, pat) == b[0] + pat + sp_join(b.skip(1), pat));
        assert(a.skip(1) =~= items.skip(1).take(i));
        assert(b.skip(1) =~= items.skip(1).take(i - 1));
        assert(items.skip(1)[i - 1] == items[i]);
        assert(a[0] == items[0]);
        assert(b[0] == items[0]);
        assert(Seq::<char>::add(
            items[0] + pat,
            sp_join(items.skip(1).take(i - 1), pat) + pat + items[i],
        ) =~= (items[0] + pat + sp_join(items.skip(1).take(i - 1), pat)) + pat + items[i]);
    }
}

/// A sequence that nowhere holds the character `c` is free and clean
/// for the one-character pattern of `c`.
pub proof fn lemma_char_free(s: Seq<char>, c: char)
    requires
        forall|i: int| 0 <= i < s.len() ==> s[i] != c,
    ensures
        sp_free(s, seq![c]),
        sp_clean_prefix(s, seq![c]),
{
    let pat = seq![c];
    assert forall|i: int| !sp_occurs_at(s, pat, i) by {
        if sp_occurs_at(s, pat, i) {
            assert(s.subrange(i, i + 1)[0] == s[i]);
        }
    }
    assert forall|i: int| 0 <= i < s.len() implies !sp_occurs_at(s + pat, pat, i) by {
        if sp_occurs_at(s + pat, pat, i) {
            assert((s + pat).subrange(i, i + 1)[0] == (s + pat)[i]);
            assert((s + pat)[i] == s[i]);
        }
    }
}

/// A run of digits is free of any non-digit character.
pub proof fn lemma_digits_free(s: Seq<char>, c: char)
    requires
        sp_all_digits(s),
        !sp_is_digit(c),
    ensures
        sp_free(s, seq![c]),
        sp_clean_prefix(s, seq![c]),
{
    lemma_char_free(s, c);
}

/// A run of digits is trim-stable.
pub proof fn lemma_digits_trim(s: Seq<char>)
    requires
        sp_all_digits(s),
    ensures
        sp_trim(s) == s,
        sp_trim_start(s) == s,
        sp_trim_end(s) == s,
{
    lemma_trim_start_clean(s);
    lemma_trim_end_clean(s);
}

/// A trim-stable non-empty text does not begin with whitespace.
pub proof fn lemma_trim_drops_first(s: Seq<char>)
    requires
        s.len() > 0,
        sp_is_ws(s[0]),
    ensures
        sp_trim(s) != s,
{
    assert(sp_trim_start(s) == sp_trim_start(s.skip(1)));
    lemma_trim_len(s.skip(1));
    lemma_trim_end_len(sp_trim_start(s.skip(1)));
}

/// A trim-stable non-empty text does not end with whitespace.
pub proof fn lemma_trim_drops_last(s: Seq<char>)
    requires
        s.len() > 0,
        sp_is_ws(s[s.len() - 1]),
    ensures
        sp_trim(s) != s,
{
    if sp_is_ws(s[0]) {
        lemma_trim_drops_first(s);
    } else {
        lemma_trim_start_clean(s);
        assert(sp_trim_end(s) == sp_trim_end(s.drop_last()));
        lemma_trim_end_len(s.drop_last());
    }
}

/// Trimming never lengthens.
pub proof fn lemma_trim_len(s: Seq<char>)
    ensures
        sp_trim_start(s).len() <= s.len(),
        sp_trim(s).len() <= s.len(),
    decreases s.len(),
{
    if s.len() > 0 && sp_is_ws(s[0]) {
        lemma_trim_len(s.skip(1));
    } else {
        lemma_trim_end_len(s);
    }
}

/// Trimming the end never lengthens.
pub proof fn lemma_trim_end_len(s: Seq<char>)
    ensures
        sp_trim_end(s).len() <= s.len(),
    decreases s.len(),
{
    if s.len() > 0 && sp_is_ws(s[s.len() - 1]) {
        lemma_trim_end_len(s.drop_last());
    }
}

/// Equality of two string slices, by characters.
pub fn eq_str(a: &str, b: &str) -> (r: bool)
    ensures
        r == (a@ == b@),
{
    let n = a.unicode_len();
    let m = b.unicode_len();
    if n != m {
        assert(a@ != b@);
        return false;
    }
    let mut i: usize = 0;
    while i < n
        invariant
            0 <= i <= n,
            n == a@.len(),
            n == b@.len(),
            forall|j: int| 0 <= j < i ==> a@[j] == b@[j],
        decreases n - i,
    {
        if a.get_char(i) != b.get_char(i) {
            assert(a@ != b@);
            return false;
        }
        i = i + 1;
    }
    assert(a@ =~= b@);
    true
}

} // verus!
