//! Recipe metadata: the yield, duration, source and tags values, and the
//! `key: value` block that carries them.

use vstd::prelude::*;

use crate::errors::{ParseError, ParseResult};
use crate::recipe::ParseFromStr;
use crate::strings::{
    lemma_char_free, lemma_digits_free, lemma_digits_trim, lemma_find_none, lemma_split_concat, lemma_trim_drops_first, lemma_trim_drops_last, lemma_trim_end_clean,
    lemma_trim_stable, lemma_trim_start_clean, scan_number, sp_clean_prefix, sp_dec_str,
    sp_dec_val, sp_free, sp_is_ws, sp_numeric, sp_split_once, sp_trim, sp_trim_end,
    sp_trim_start, split_once_str, trim, trim_end, trim_start, u64_to_string, NumScan,
};
use crate::ingredient::{lemma_free_concat, sp_wf_text};

verus! {

// ---------------------------------------------------------------------------
// Yield
// ---------------------------------------------------------------------------

/// How much a recipe makes: a positive count and an optional unit.
#[derive(Debug, PartialEq)]
pub struct Yield {
    pub value: u32,
    pub unit: Option<String>,
}

/// The mathematical value of a `Yield`.
pub struct YieldView {
    pub value: u32,
    pub unit: Option<Seq<char>>,
}

impl DeepView for Yield {
    type V = YieldView;

    open spec fn deep_view(&self) -> YieldView {
        YieldView { value: self.value, unit: self.unit.deep_view() }
    }
}

/// What parsing a yield yields: `N` or `N unit`, with `N` a positive
/// decimal number fitting `u32`.
pub open spec fn sp_parse_yield(s: Seq<char>) -> Option<YieldView> {
    let (v, unit) = match sp_split_once(s, seq![' ']) {
        Some((a, b)) => (a, Some(sp_trim_start(b))),
        None => (s, None),
    };
    if sp_numeric(v) && sp_dec_val(v) <= u32::MAX {
        if sp_dec_val(v) == 0 {
            None
        } else {
            Some(YieldView { value: sp_dec_val(v) as u32, unit })
        }
    } else {
        None
    }
}

/// The text of a yield.
pub open spec fn sp_format_yield(v: YieldView) -> Seq<char> {
    sp_dec_str(v.value as int) + (match v.unit {
        Some(u) => seq![' '] + u,
        None => Seq::<char>::empty(),
    })
}

/// The yields whose formatted text parses back unchanged.
pub open spec fn sp_wf_yield(v: YieldView) -> bool {
    &&& v.value >= 1
    &&& match v.unit {
        Some(u) => sp_wf_text(u),
        None => true,
    }
}

/// Round trip for yields.
pub proof fn lemma_yield_round_trip(v: YieldView)
    requires
        sp_wf_yield(v),
    ensures
        sp_parse_yield(sp_format_yield(v)) == Some(v),
        sp_format_yield(v).len() > 0,
        sp_trim(sp_format_yield(v)) == sp_format_yield(v),
        sp_free(sp_format_yield(v), seq!['\n']),
{
    let d = sp_dec_str(v.value as int);
    let s = sp_format_yield(v);
    crate::strings::lemma_dec_str_val(v.value as int);
    crate::strings::lemma_digits_free(d, ' ');
    crate::strings::lemma_digits_free(d, '\n');
    match v.unit {
        None => {
            assert(s =~= d);
            lemma_find_none(s, seq![' ']);
            lemma_digits_trim(s);
        },
        Some(u) => {
            assert(s =~= d + seq![' '] + u);
            lemma_split_concat(d, seq![' '], u);
            assert(!sp_is_ws(u[0])) by {
                if sp_is_ws(u[0]) {
                    lemma_trim_drops_first(u);
                }
            }
            lemma_trim_start_clean(u);
            assert(s[0] == d[0]);
            assert(s[s.len() - 1] == u[u.len() - 1]);
            assert(!sp_is_ws(s[s.len() - 1])) by {
                if sp_is_ws(u[u.len() - 1]) {
                    lemma_trim_drops_last(u);
                }
            }
            lemma_trim_stable(s);
            lemma_char_free(seq![' '], '\n');
            lemma_free_concat(d, seq![' '], '\n');
            lemma_free_concat(d + seq![' '], u, '\n');
            assert((d + seq![' ']) + u =~= s);
        },
    }
}

impl ParseFromStr for Yield {
    open spec fn sp_parse(s: Seq<char>) -> Option<YieldView> {
        sp_parse_yield(s)
    }

    open spec fn sp_format(v: YieldView) -> Seq<char> {
        sp_format_yield(v)
    }

    open spec fn sp_wf(v: YieldView) -> bool {
        sp_wf_yield(v)
    }

    fn parse_from_str(s: &str) -> (r: ParseResult<Self>) {
        proof {
            reveal_strlit(" ");
            assert(" "@ =~= seq![' ']);
        }
        let (v, unit): (&str, Option<String>) = match split_once_str(s, " ") {
            Some((a, b)) => (a, Some(String::from_str(trim_start(b)))),
            None => (s, None),
        };
        match scan_number(v) {
            NumScan::Value(n) => {
                if n == 0 {
                    Err(ParseError::msg("metadata value for key 'Yield' must be greater than zero"))
                } else {
                    Ok(Yield { value: n as u32, unit })
                }
            },
            _ => Err(ParseError::msg("metadata value for key 'Yield' must start with a number")),
        }
    }

    fn format(&self) -> (r: String) {
        proof {
            reveal_strlit(" ");
            assert(" "@ =~= seq![' ']);
        }
        let mut s = u64_to_string(self.value as u64);
        match &self.unit {
            Some(u) => {
                s.append(" ");
                s.append(u.as_str());
            },
            None => {},
        }
        proof {
            assert(s@ =~= sp_format_yield(self.deep_view()));
        }
        s
    }

    proof fn lemma_round_trip(v: YieldView) {
        lemma_yield_round_trip(v);
    }
}

// ---------------------------------------------------------------------------
// Duration
// ---------------------------------------------------------------------------

/// How long a recipe takes, normalized so that `minutes < 60`; the zero
/// duration is not a valid value.
#[derive(Clone, Copy, Debug, PartialEq)]
pub struct Duration {
    pub hours: u32,
    pub minutes: u32,
}

impl DeepView for Duration {
    type V = Duration;

    open spec fn deep_view(&self) -> Duration {
        *self
    }
}

/// What parsing one duration token yields: a decimal number fitting
/// `u32`, closed by the unit character.
pub open spec fn sp_parse_unit(t: Seq<char>, u: char) -> Option<u32> {
    if t.len() >= 1 && t.last() == u && sp_numeric(t.drop_last()) && sp_dec_val(t.drop_last())
        <= u32::MAX {
        Some(sp_dec_val(t.drop_last()) as u32)
    } else {
        None
    }
}

/// What parsing a duration yields: `Nh`, `Nm`, or `Nh Nm`, minute
/// overflow rolled into the hours; a zero total is an error, and so is
/// an hour count the normalization would overflow.
pub open spec fn sp_parse_duration(s: Seq<char>) -> Option<Duration> {
    let hm = match sp_split_once(s, seq![' ']) {
        Some((a, b)) => match (sp_parse_unit(a, 'h'), sp_parse_unit(sp_trim_start(b), 'm')) {
            (Some(h), Some(m)) => Some((h, m)),
            _ => None,
        },
        None => match sp_parse_unit(s, 'h') {
            Some(h) => Some((h, 0u32)),
            None => match sp_parse_unit(s, 'm') {
                Some(m) => Some((0u32, m)),
                None => None,
            },
        },
    };
    match hm {
        None => None,
        Some((h, m)) => if h == 0 && m == 0 {
            None
        } else if h + m / 60 > u32::MAX {
            None
        } else {
            Some(Duration { hours: (h + m / 60) as u32, minutes: (m % 60) as u32 })
        },
    }
}

/// The text of a duration: the non-zero parts, joined by one space.
pub open spec fn sp_format_duration(v: Duration) -> Seq<char> {
    if v.hours > 0 && v.minutes > 0 {
        sp_dec_str(v.hours as int) + seq!['h'] + seq![' '] + sp_dec_str(v.minutes as int)
            + seq!['m']
    } else if v.hours > 0 {
        sp_dec_str(v.hours as int) + seq!['h']
    } else if v.minutes > 0 {
        sp_dec_str(v.minutes as int) + seq!['m']
    } else {
        Seq::<char>::empty()
    }
}

/// The durations whose formatted text parses back unchanged.
pub open spec fn sp_wf_duration(v: Duration) -> bool {
    v.minutes < 60 && !(v.hours == 0 && v.minutes == 0)
}

/// A number closed by a unit character reads back as that number.
proof fn lemma_unit_token(n: u32, u: char)
    requires
        !crate::strings::sp_is_digit(u),
    ensures
        sp_parse_unit(sp_dec_str(n as int) + seq![u], u) == Some(n),
        (sp_dec_str(n as int) + seq![u]).len() > 0,
        sp_free(sp_dec_str(n as int) + seq![u], seq![' ']) || u == ' ',
{
    let d = sp_dec_str(n as int);
    let t = d + seq![u];
    crate::strings::lemma_dec_str_val(n as int);
    assert(t.last() == u);
    assert(t.drop_last() =~= d);
    if u != ' ' {
        crate::strings::lemma_digits_free(d, ' ');
        crate::ingredient::lemma_free_char_elem(d, ' ');
        assert(forall|i: int| 0 <= i < t.len() ==> t[i] != ' ');
        lemma_char_free(t, ' ');
    }
}

/// Round trip for durations.
pub proof fn lemma_duration_round_trip(v: Duration)
    requires
        sp_wf_duration(v),
    ensures
        sp_parse_duration(sp_format_duration(v)) == Some(v),
        sp_format_duration(v).len() > 0,
        sp_trim(sp_format_duration(v)) == sp_format_duration(v),
        sp_free(sp_format_duration(v), seq!['\n']),
{
    let s = sp_format_duration(v);
    let dh = sp_dec_str(v.hours as int);
    let dm = sp_dec_str(v.minutes as int);
    crate::strings::lemma_dec_str_val(v.hours as int);
    crate::strings::lemma_dec_str_val(v.minutes as int);
    lemma_unit_token(v.hours, 'h');
    lemma_unit_token(v.minutes, 'm');
    let th = dh + seq!['h'];
    let tm = dm + seq!['m'];
    if v.hours > 0 && v.minutes > 0 {
        assert(s =~= th + seq![' '] + tm);
        assert(sp_clean_prefix(th, seq![' '])) by {
            crate::ingredient::lemma_free_char_elem(th, ' ');
            lemma_char_free(th, ' ');
        }
        lemma_split_concat(th, seq![' '], tm);
        assert(sp_trim_start(tm) == tm) by {
            assert(!sp_is_ws(tm[0]));
            lemma_trim_start_clean(tm);
        }
        assert(sp_parse_duration(s) == Some(v)) by {
            assert(v.minutes / 60 == 0);
            assert(v.minutes % 60 == v.minutes);
        }
    } else if v.hours > 0 {
        assert(s =~= th);
        lemma_find_none(s, seq![' ']);
        assert(sp_parse_unit(s, 'h') == Some(v.hours));
        assert(v.minutes == 0);
        assert(sp_parse_duration(s) == Some(v));
    } else {
        assert(s =~= tm);
        lemma_find_none(s, seq![' ']);
        assert(sp_parse_unit(s, 'h') is None) by {
            assert(s.last() == 'm');
        }
        assert(sp_parse_duration(s) == Some(v)) by {
            assert(v.minutes / 60 == 0);
            assert(v.minutes % 60 == v.minutes);
        }
    }
    // Shape of the text.
    assert(s[0] == sp_dec_str(if v.hours > 0 { v.hours as int } else { v.minutes as int })[0]);
    assert(!sp_is_ws(s[0]));
    assert(s[s.len() - 1] == 'h' || s[s.len() - 1] == 'm');
    lemma_trim_stable(s);
    assert forall|i: int| 0 <= i < s.len() implies s[i] != '\n' by {
        if v.hours > 0 && v.minutes > 0 {
            if i < th.len() {
                assert(s[i] == th[i]);
            } else if i == th.len() {
                assert(s[i] == ' ');
            } else {
                assert(s[i] == tm[i - th.len() - 1]);
            }
        }
    }
    lemma_char_free(s, '\n');
}

impl ParseFromStr for Duration {
    open spec fn sp_parse(s: Seq<char>) -> Option<Duration> {
        sp_parse_duration(s)
    }

    open spec fn sp_format(v: Duration) -> Seq<char> {
        sp_format_duration(v)
    }

    open spec fn sp_wf(v: Duration) -> bool {
        sp_wf_duration(v)
    }

    fn parse_from_str(s: &str) -> (r: ParseResult<Self>) {
        proof {
            reveal_strlit(" ");
            assert(" "@ =~= seq![' ']);
        }
        let hm: Option<(u32, u32)> = match split_once_str(s, " ") {
            Some((a, b)) => {
                match (Self::parse_unit(a, 'h'), Self::parse_unit(trim_start(b), 'm')) {
                    (Some(h), Some(m)) => Some((h, m)),
                    _ => None,
                }
            },
            None => match Self::parse_unit(s, 'h') {
                Some(h) => Some((h, 0)),
                None => match Self::parse_unit(s, 'm') {
                    Some(m) => Some((0, m)),
                    None => None,
                },
            },
        };
        match hm {
            None => Err(ParseError::msg("invalid recipe duration")),
            Some((h, m)) => {
                if h == 0 && m == 0 {
                    Err(ParseError::msg("recipe duration must be greater than zero"))
                } else if h as u64 + (m / 60) as u64 > u32::MAX as u64 {
                    Err(ParseError::msg("recipe duration is out of range"))
                } else {
                    Ok(Duration { hours: h + m / 60, minutes: m % 60 })
                }
            },
        }
    }

    fn format(&self) -> (r: String) {
        proof {
            reveal_strlit("h");
            reveal_strlit("m");
            reveal_strlit(" ");
            assert("h"@ =~= seq!['h']);
            assert("m"@ =~= seq!['m']);
            assert(" "@ =~= seq![' ']);
        }
        let mut s = String::new();
        if self.hours > 0 {
            let d = u64_to_string(self.hours as u64);
            s.append(d.as_str());
            s.append("h");
        }
        if self.hours > 0 && self.minutes > 0 {
            s.append(" ");
        }
        if self.minutes > 0 {
            let d = u64_to_string(self.minutes as u64);
            s.append(d.as_str());
            s.append("m");
        }
        proof {
            assert(s@ =~= sp_format_duration(self.deep_view()));
        }
        s
    }

    proof fn lemma_round_trip(v: Duration) {
        lemma_duration_round_trip(v);
    }
}

impl Duration {
    /// Reads one `<N><unit>` token.
    fn parse_unit(t: &str, u: char) -> (r: Option<u32>)
        ensures
            r == sp_parse_unit(t@, u),
    {
        let n = t.unicode_len();
        if n == 0 || t.get_char(n - 1) != u {
            return None;
        }
        let body = t.substring_char(0, n - 1);
        proof {
            assert(body@ =~= t@.drop_last());
        }
        match scan_number(body) {
            NumScan::Value(v) => Some(v as u32),
            _ => None,
        }
    }
}

// ---------------------------------------------------------------------------
// Link
// ---------------------------------------------------------------------------

/// A named hyperlink, written `name > url`.
#[derive(Debug, PartialEq)]
pub struct Link {
    pub name: String,
    pub url: String,
}

/// The mathematical value of a `Link`.
pub struct LinkView {
    pub name: Seq<char>,
    pub url: Seq<char>,
}

impl DeepView for Link {
    type V = LinkView;

    open spec fn deep_view(&self) -> LinkView {
        LinkView { name: self.name@, url: self.url@ }
    }
}

/// What parsing a link yields: non-empty text on both sides of the
/// first `" > "`.
pub open spec fn sp_parse_link(s: Seq<char>) -> Option<LinkView> {
    match sp_split_once(s, seq![' ', '>', ' ']) {
        None => None,
        Some((a, b)) => {
            let name = sp_trim_end(a);
            let url = sp_trim_start(b);
            if name.len() == 0 {
                None
            } else if url.len() == 0 {
                None
            } else {
                Some(LinkView { name, url })
            }
        },
    }
}

/// The text of a link.
pub open spec fn sp_format_link(v: LinkView) -> Seq<char> {
    v.name + seq![' ', '>', ' '] + v.url
}

/// The links whose formatted text parses back unchanged: the name must
/// not itself read as ending, or containing, the separator.
pub open spec fn sp_wf_link(v: LinkView) -> bool {
    &&& sp_wf_text(v.name)
    &&& sp_wf_text(v.url)
    &&& sp_clean_prefix(v.name, seq![' ', '>', ' '])
}

/// Round trip for links.
pub proof fn lemma_link_round_trip(v: LinkView)
    requires
        sp_wf_link(v),
    ensures
        sp_parse_link(sp_format_link(v)) == Some(v),
        sp_format_link(v).len() > 0,
        sp_trim(sp_format_link(v)) == sp_format_link(v),
        sp_free(sp_format_link(v), seq!['\n']),
{
    let s = sp_format_link(v);
    let sep = seq![' ', '>', ' '];
    lemma_split_concat(v.name, sep, v.url);
    assert(!sp_is_ws(v.name[v.name.len() - 1])) by {
        if sp_is_ws(v.name[v.name.len() - 1]) {
            lemma_trim_drops_last(v.name);
        }
    }
    lemma_trim_end_clean(v.name);
    assert(!sp_is_ws(v.url[0])) by {
        if sp_is_ws(v.url[0]) {
            lemma_trim_drops_first(v.url);
        }
    }
    lemma_trim_start_clean(v.url);
    assert(sp_parse_link(s) == Some(v));
    assert(s[0] == v.name[0]);
    assert(!sp_is_ws(s[0])) by {
        if sp_is_ws(v.name[0]) {
            lemma_trim_drops_first(v.name);
        }
    }
    assert(s[s.len() - 1] == v.url[v.url.len() - 1]);
    assert(!sp_is_ws(s[s.len() - 1])) by {
        if sp_is_ws(v.url[v.url.len() - 1]) {
            lemma_trim_drops_last(v.url);
        }
    }
    lemma_trim_stable(s);
    assert(forall|i: int| 0 <= i < sep.len() ==> sep[i] != '\n');
    lemma_char_free(sep, '\n');
    lemma_free_concat(v.name, sep, '\n');
    lemma_free_concat(v.name + sep, v.url, '\n');
    assert((v.name + sep) + v.url =~= s);
}

impl ParseFromStr for Link {
    open spec fn sp_parse(s: Seq<char>) -> Option<LinkView> {
        sp_parse_link(s)
    }

    open spec fn sp_format(v: LinkView) -> Seq<char> {
        sp_format_link(v)
    }

    open spec fn sp_wf(v: LinkView) -> bool {
        sp_wf_link(v)
    }

    fn parse_from_str(s: &str) -> (r: ParseResult<Self>) {
        proof {
            reveal_strlit(" > ");
            assert(" > "@ =~= seq![' ', '>', ' ']);
        }
        let (a, b) = match split_once_str(s, " > ") {
            Some(p) => p,
            None => {
                return Err(ParseError::msg("missing link separator ' > '"));
            },
        };
        let name = trim_end(a);
        let url = trim_start(b);
        if name.unicode_len() == 0 {
            return Err(ParseError::empty("link name"));
        }
        if url.unicode_len() == 0 {
            return Err(ParseError::empty("link url"));
        }
        Ok(Link { name: String::from_str(name), url: String::from_str(url) })
    }

    fn format(&self) -> (r: String) {
        proof {
            reveal_strlit(" > ");
            assert(" > "@ =~= seq![' ', '>', ' ']);
        }
        let mut s = String::from_str(self.name.as_str());
        s.append(" > ");
        s.append(self.url.as_str());
        proof {
            assert(s@ =~= sp_format_link(self.deep_view()));
        }
        s
    }

    proof fn lemma_round_trip(v: LinkView) {
        lemma_link_round_trip(v);
    }
}

// ---------------------------------------------------------------------------
// Source
// ---------------------------------------------------------------------------

/// Where a recipe comes from: at most one of an author, a book, or a
/// link.
#[derive(Debug, PartialEq)]
pub enum Source {
    Author(String),
    Book(String),
    Link(Link),
}

/// The mathematical value of a `Source`.
pub enum SourceView {
    Author(Seq<char>),
    Book(Seq<char>),
    Link(LinkView),
}

impl DeepView for Source {
    type V = SourceView;

    open spec fn deep_view(&self) -> SourceView {
        match self {
            Source::Author(a) => SourceView::Author(a@),
            Source::Book(b) => SourceView::Book(b@),
            Source::Link(l) => SourceView::Link(l.deep_view()),
        }
    }
}

impl Source {
    /// The metadata line of the source: its key, then its text.
    pub fn format(&self) -> (r: String)
        ensures
            r@ == sp_format_source_line(self.deep_view()),
    {
        proof {
            reveal_strlit("Author: ");
            reveal_strlit("Book: ");
            reveal_strlit("Link: ");
            assert("Author: "@ =~= key_author() + seq![':', ' ']);
            assert("Book: "@ =~= key_book() + seq![':', ' ']);
            assert("Link: "@ =~= key_link() + seq![':', ' ']);
        }
        match self {
            Source::Author(a) => {
                let mut s = String::from_str("Author: ");
                s.append(a.as_str());
                proof {
                    assert(s@ =~= sp_format_source_line(self.deep_view()));
                }
                s
            },
            Source::Book(b) => {
                let mut s = String::from_str("Book: ");
                s.append(b.as_str());
                proof {
                    assert(s@ =~= sp_format_source_line(self.deep_view()));
                }
                s
            },
            Source::Link(l) => {
                let mut s = String::from_str("Link: ");
                let f = l.format();
                s.append(f.as_str());
                proof {
                    assert(s@ =~= sp_format_source_line(self.deep_view()));
                }
                s
            },
        }
    }
}

/// The `Author` key.
pub open spec fn key_author() -> Seq<char> {
    seq!['A', 'u', 't', 'h', 'o', 'r']
}

/// The `Book` key.
pub open spec fn key_book() -> Seq<char> {
    seq!['B', 'o', 'o', 'k']
}

/// The `Link` key.
pub open spec fn key_link() -> Seq<char> {
    seq!['L', 'i', 'n', 'k']
}

/// The `Yield` key.
pub open spec fn key_yield() -> Seq<char> {
    seq!['Y', 'i', 'e', 'l', 'd']
}

/// The `Time` key.
pub open spec fn key_time() -> Seq<char> {
    seq!['T', 'i', 'm', 'e']
}

/// The `Tags` key.
pub open spec fn key_tags() -> Seq<char> {
    seq!['T', 'a', 'g', 's']
}

/// The metadata line of a source value, key included.
pub open spec fn sp_format_source_line(v: SourceView) -> Seq<char> {
    match v {
        SourceView::Author(a) => key_author() + seq![':', ' '] + a,
        SourceView::Book(b) => key_book() + seq![':', ' '] + b,
        SourceView::Link(l) => key_link() + seq![':', ' '] + sp_format_link(l),
    }
}

/// The sources whose metadata line parses back unchanged.
pub open spec fn sp_wf_source(v: SourceView) -> bool {
    match v {
        SourceView::Author(a) => sp_wf_text(a),
        SourceView::Book(b) => sp_wf_text(b),
        SourceView::Link(l) => sp_wf_link(l),
    }
}

// ---------------------------------------------------------------------------
// The key-value block
// ---------------------------------------------------------------------------

/// What parsing one `key: value` line yields, both parts trimmed and
/// non-empty.
pub open spec fn sp_parse_mapping(line: Seq<char>) -> Option<(Seq<char>, Seq<char>)> {
    let t = sp_trim(line);
    match sp_split_once(t, seq![':', ' ']) {
        None => None,
        Some((k, v)) => {
            let key = sp_trim_end(k);
            let value = sp_trim_start(v);
            if key.len() == 0 {
                None
            } else if value.len() == 0 {
                None
            } else {
                Some((key, value))
            }
        },
    }
}

/// The value under the first entry with the given key.
pub open spec fn sp_kv_get(m: Seq<(Seq<char>, Seq<char>)>, key: Seq<char>) -> Option<Seq<char>>
    decreases m.len(),
{
    if m.len() == 0 {
        None
    } else if m[0].0 == key {
        Some(m[0].1)
    } else {
        sp_kv_get(m.skip(1), key)
    }
}

/// Whether the map holds the key.
pub open spec fn sp_kv_has(m: Seq<(Seq<char>, Seq<char>)>, key: Seq<char>) -> bool {
    sp_kv_get(m, key) is Some
}

/// What reading the lines into a key-value map yields, in line order; a
/// line without the `key: value` shape, or a key seen before, is an
/// error.
pub open spec fn sp_kv_build_from(
    lines: Seq<Seq<char>>,
    acc: Seq<(Seq<char>, Seq<char>)>,
) -> Option<Seq<(Seq<char>, Seq<char>)>>
    decreases lines.len(),
{
    if lines.len() == 0 {
        Some(acc)
    } else {
        match sp_parse_mapping(lines[0]) {
            None => None,
            Some(kv) => if sp_kv_has(acc, kv.0) {
                None
            } else {
                sp_kv_build_from(lines.skip(1), acc.push(kv))
            },
        }
    }
}

/// The whole block as a key-value map.
pub open spec fn sp_kv_build(lines: Seq<Seq<char>>) -> Option<Seq<(Seq<char>, Seq<char>)>> {
    sp_kv_build_from(lines, seq![])
}

/// Every key of the map stands in the allowed list.
pub open spec fn sp_keys_subset(m: Seq<(Seq<char>, Seq<char>)>, allowed: Seq<Seq<char>>) -> bool
    decreases m.len(),
{
    if m.len() == 0 {
        true
    } else {
        allowed.contains(m[0].0) && sp_keys_subset(m.skip(1), allowed)
    }
}

// ---------------------------------------------------------------------------
// Metadata
// ---------------------------------------------------------------------------

/// Recipe-level facts: how much it makes, how long it takes, where it
/// comes from, and its tags.
#[derive(Debug, PartialEq)]
pub struct Metadata {
    pub duration: Option<Duration>,
    pub yields: Yield,
    pub source: Option<Source>,
    pub tags: Vec<String>,
}

/// The mathematical value of a `Metadata`.
pub struct MetadataView {
    pub duration: Option<Duration>,
    pub yields: YieldView,
    pub source: Option<SourceView>,
    pub tags: Seq<Seq<char>>,
}

impl DeepView for Metadata {
    type V = MetadataView;

    open spec fn deep_view(&self) -> MetadataView {
        MetadataView {
            duration: self.duration.deep_view(),
            yields: self.yields.deep_view(),
            source: self.source.deep_view(),
            tags: self.tags.deep_view(),
        }
    }
}

/// The source the map holds, by key priority: a `Link` wins over an
/// `Author`, which wins over a `Book`; the outer `None` is a parse
/// error in the link value.
pub open spec fn sp_source_of(m: Seq<(Seq<char>, Seq<char>)>) -> Option<Option<SourceView>> {
    match sp_kv_get(m, key_link()) {
        Some(vl) => match sp_parse_link(vl) {
            None => None,
            Some(l) => Some(Some(SourceView::Link(l))),
        },
        None => match sp_kv_get(m, key_author()) {
            Some(va) => Some(Some(SourceView::Author(va))),
            None => match sp_kv_get(m, key_book()) {
                Some(vb) => Some(Some(SourceView::Book(vb))),
                None => Some(None),
            },
        },
    }
}

/// The keys the extraction consumes: the fixed three, and the one
/// source key that took effect.
pub open spec fn sp_allowed_keys(m: Seq<(Seq<char>, Seq<char>)>) -> Seq<Seq<char>> {
    seq![key_yield(), key_time(), key_tags()] + (if sp_kv_has(m, key_link()) {
        seq![key_link()]
    } else if sp_kv_has(m, key_author()) {
        seq![key_author()]
    } else if sp_kv_has(m, key_book()) {
        seq![key_book()]
    } else {
        Seq::<Seq<char>>::empty()
    })
}

/// The tags under the `Tags` key: comma-space-separated, each trimmed.
pub open spec fn sp_tags_of(m: Seq<(Seq<char>, Seq<char>)>) -> Seq<Seq<char>> {
    match sp_kv_get(m, key_tags()) {
        None => seq![],
        Some(v) => crate::strings::sp_split_all(v, seq![',', ' ']).map_values(
            |t: Seq<char>| sp_trim(t),
        ),
    }
}

/// What extracting the metadata from a key-value map yields: the
/// required `Yield`, the optional duration, at most one source, the
/// tags, and no key beyond those.
pub open spec fn sp_metadata_from_map(m: Seq<(Seq<char>, Seq<char>)>) -> Option<MetadataView> {
    match sp_kv_get(m, key_yield()) {
        None => None,
        Some(vy) => match sp_parse_yield(vy) {
            None => None,
            Some(y) => {
                let dur = match sp_kv_get(m, key_time()) {
                    None => Some(None),
                    Some(vt) => match sp_parse_duration(vt) {
                        None => None,
                        Some(d) => Some(Some(d)),
                    },
                };
                match dur {
                    None => None,
                    Some(duration) => match sp_source_of(m) {
                        None => None,
                        Some(source) => if sp_keys_subset(m, sp_allowed_keys(m)) {
                            Some(
                                MetadataView {
                                    duration,
                                    yields: y,
                                    source,
                                    tags: sp_tags_of(m),
                                },
                            )
                        } else {
                            None
                        },
                    },
                }
            },
        },
    }
}

/// What parsing a metadata block yields.
pub open spec fn sp_parse_metadata(lines: Seq<Seq<char>>) -> Option<MetadataView> {
    match sp_kv_build(lines) {
        None => None,
        Some(m) => sp_metadata_from_map(m),
    }
}

/// The `Yield` line.
pub open spec fn sp_yield_line(y: YieldView) -> Seq<char> {
    key_yield() + seq![':', ' '] + sp_format_yield(y)
}

/// The `Time` line.
pub open spec fn sp_time_line(d: Duration) -> Seq<char> {
    key_time() + seq![':', ' '] + sp_format_duration(d)
}

/// The `Tags` line.
pub open spec fn sp_tags_line(tags: Seq<Seq<char>>) -> Seq<char> {
    key_tags() + seq![':', ' '] + crate::strings::sp_join(tags, seq![',', ' '])
}

/// The lines of a metadata block, in fixed order, absent fields left
/// out.
pub open spec fn sp_format_metadata_lines(v: MetadataView) -> Seq<Seq<char>> {
    seq![sp_yield_line(v.yields)] + (match v.duration {
        Some(d) => seq![sp_time_line(d)],
        None => Seq::<Seq<char>>::empty(),
    }) + (match v.source {
        Some(s) => seq![sp_format_source_line(s)],
        None => Seq::<Seq<char>>::empty(),
    }) + (if v.tags.len() > 0 {
        seq![sp_tags_line(v.tags)]
    } else {
        Seq::<Seq<char>>::empty()
    })
}

/// The metadata whose formatted block parses back unchanged.
pub open spec fn sp_wf_metadata(v: MetadataView) -> bool {
    &&& sp_wf_yield(v.yields)
    &&& match v.duration {
        Some(d) => sp_wf_duration(d),
        None => true,
    }
    &&& match v.source {
        Some(s) => sp_wf_source(s),
        None => true,
    }
    &&& forall|i: int|
        0 <= i < v.tags.len() ==> sp_wf_text(#[trigger] v.tags[i]) && sp_clean_prefix(
            v.tags[i],
            seq![',', ' '],
        )
}

// ---------------------------------------------------------------------------
// Round trip
// ---------------------------------------------------------------------------

/// A key as it may stand before the `": "` separator: non-empty, no
/// colon, no whitespace.
pub open spec fn sp_plain_key(k: Seq<char>) -> bool {
    k.len() > 0 && forall|i: int| 0 <= i < k.len() ==> k[i] != ':' && !sp_is_ws(#[trigger] k[i])
}

/// The six metadata keys are plain and pairwise distinct.
proof fn lemma_keys_facts()
    ensures
        sp_plain_key(key_yield()),
        sp_plain_key(key_time()),
        sp_plain_key(key_tags()),
        sp_plain_key(key_author()),
        sp_plain_key(key_book()),
        sp_plain_key(key_link()),
        key_yield() != key_time() && key_yield() != key_tags() && key_yield() != key_author()
            && key_yield() != key_book() && key_yield() != key_link(),
        key_time() != key_tags() && key_time() != key_author() && key_time() != key_book()
            && key_time() != key_link(),
        key_tags() != key_author() && key_tags() != key_book() && key_tags() != key_link(),
        key_author() != key_book() && key_author() != key_link(),
        key_book() != key_link(),
{
    assert(key_time()[1] != key_tags()[1]);
    assert(key_time()[0] != key_book()[0]);
    assert(key_time()[0] != key_link()[0]);
    assert(key_tags()[0] != key_book()[0]);
    assert(key_tags()[0] != key_link()[0]);
    assert(key_book()[0] != key_link()[0]);
}

/// One formatted `key: value` line: what it maps to, and that it is a
/// sound block line.
proof fn lemma_key_line(key: Seq<char>, value: Seq<char>)
    requires
        sp_plain_key(key),
        sp_wf_text(value),
    ensures
        sp_parse_mapping(key + seq![':', ' '] + value) == Some((key, value)),
        sp_trim(key + seq![':', ' '] + value) == key + seq![':', ' '] + value,
        crate::list::sp_good_line(key + seq![':', ' '] + value),
{
    let sep = seq![':', ' '];
    let line = key + sep + value;
    assert(line[0] == key[0]);
    assert(line[line.len() - 1] == value[value.len() - 1]);
    assert(!sp_is_ws(value[value.len() - 1])) by {
        if sp_is_ws(value[value.len() - 1]) {
            lemma_trim_drops_last(value);
        }
    }
    lemma_trim_stable(line);
    assert(sp_clean_prefix(key, sep)) by {
        assert forall|i: int| 0 <= i < key.len() implies !crate::strings::sp_occurs_at(
            key + sep,
            sep,
            i,
        ) by {
            if crate::strings::sp_occurs_at(key + sep, sep, i) {
                assert((key + sep).subrange(i, i + 2)[0] == (key + sep)[i]);
                assert((key + sep)[i] == key[i]);
            }
        }
    }
    lemma_split_concat(key, sep, value);
    assert(sp_trim_end(key) == key) by {
        lemma_trim_end_clean(key);
    }
    assert(sp_trim_start(value) == value) by {
        assert(!sp_is_ws(value[0])) by {
            if sp_is_ws(value[0]) {
                lemma_trim_drops_first(value);
            }
        }
        lemma_trim_start_clean(value);
    }
    assert(sp_parse_mapping(line) == Some((key, value)));
    assert(sp_free(line, seq!['\n'])) by {
        assert(forall|i: int| 0 <= i < key.len() ==> key[i] != '\n');
        lemma_char_free(key, '\n');
        assert(forall|i: int| 0 <= i < sep.len() ==> sep[i] != '\n');
        lemma_char_free(sep, '\n');
        lemma_free_concat(key, sep, '\n');
        lemma_free_concat(key + sep, value, '\n');
        assert((key + sep) + value =~= line);
    }
}

/// Building a map over concatenated line runs composes.
proof fn lemma_build_append(
    l1: Seq<Seq<char>>,
    l2: Seq<Seq<char>>,
    acc: Seq<(Seq<char>, Seq<char>)>,
)
    ensures
        sp_kv_build_from(l1 + l2, acc) == (match sp_kv_build_from(l1, acc) {
            None => None,
            Some(a) => sp_kv_build_from(l2, a),
        }),
    decreases l1.len(),
{
    if l1.len() == 0 {
        assert(l1 + l2 =~= l2);
    } else {
        assert((l1 + l2)[0] == l1[0]);
        match sp_parse_mapping(l1[0]) {
            None => {},
            Some(kv) => {
                if !sp_kv_has(acc, kv.0) {
                    assert((l1 + l2).skip(1) =~= l1.skip(1) + l2);
                    lemma_build_append(l1.skip(1), l2, acc.push(kv));
                }
            },
        }
    }
}

/// Looking a key up in concatenated maps: the front wins.
proof fn lemma_get_append(
    m1: Seq<(Seq<char>, Seq<char>)>,
    m2: Seq<(Seq<char>, Seq<char>)>,
    k: Seq<char>,
)
    ensures
        sp_kv_get(m1 + m2, k) == (match sp_kv_get(m1, k) {
            Some(v) => Some(v),
            None => sp_kv_get(m2, k),
        }),
    decreases m1.len(),
{
    if m1.len() == 0 {
        assert(m1 + m2 =~= m2);
    } else {
        assert((m1 + m2)[0] == m1[0]);
        assert((m1 + m2).skip(1) =~= m1.skip(1) + m2);
        lemma_get_append(m1.skip(1), m2, k);
    }
}

/// Looking a key up in a one-entry map.
proof fn lemma_get_single(kv: (Seq<char>, Seq<char>), k: Seq<char>)
    ensures
        sp_kv_get(seq![kv], k) == (if kv.0 == k {
            Some(kv.1)
        } else {
            None
        }),
{
    assert(seq![kv].skip(1) =~= Seq::<(Seq<char>, Seq<char>)>::empty());
    assert(sp_kv_get(seq![kv].skip(1), k) is None);
}

/// A map's keys are all allowed exactly when each entry's key is.
proof fn lemma_subset_iff(m: Seq<(Seq<char>, Seq<char>)>, allowed: Seq<Seq<char>>)
    ensures
        sp_keys_subset(m, allowed) <==> (forall|i: int|
            0 <= i < m.len() ==> allowed.contains(#[trigger] m[i].0)),
    decreases m.len(),
{
    if m.len() > 0 {
        lemma_subset_iff(m.skip(1), allowed);
        if sp_keys_subset(m, allowed) {
            assert forall|i: int| 0 <= i < m.len() implies allowed.contains(m[i].0) by {
                if i > 0 {
                    assert(m.skip(1)[i - 1] == m[i]);
                }
            }
        }
        if forall|i: int| 0 <= i < m.len() ==> allowed.contains(#[trigger] m[i].0) {
            assert forall|i: int|
                0 <= i < m.skip(1).len() implies allowed.contains(m.skip(1)[i].0) by {
                assert(m.skip(1)[i] == m[i + 1]);
            }
        }
    }
}

/// Round trip for metadata blocks: the formatted lines of well-formed
/// metadata parse back to the same value, and each line can stand in
/// one block.
#[verifier::rlimit(100)]
pub proof fn lemma_metadata_round_trip(v: MetadataView)
    requires
        sp_wf_metadata(v),
    ensures
        sp_parse_metadata(sp_format_metadata_lines(v)) == Some(v),
        sp_format_metadata_lines(v).len() > 0,
        forall|i: int|
            0 <= i < sp_format_metadata_lines(v).len() ==> crate::list::sp_good_line(
                #[trigger] sp_format_metadata_lines(v)[i],
            ) && sp_trim(sp_format_metadata_lines(v)[i]) == sp_format_metadata_lines(v)[i],
{
    lemma_keys_facts();
    let sep = seq![':', ' '];
    let lines = sp_format_metadata_lines(v);
    // The per-line mapping facts.
    let fy = sp_format_yield(v.yields);
    lemma_yield_round_trip(v.yields);
    lemma_key_line(key_yield(), fy);
    let e_y: Seq<(Seq<char>, Seq<char>)> = seq![(key_yield(), fy)];
    let l_y: Seq<Seq<char>> = seq![sp_yield_line(v.yields)];
    let (l_t, e_t): (Seq<Seq<char>>, Seq<(Seq<char>, Seq<char>)>) = match v.duration {
        Some(d) => {
            lemma_duration_round_trip(d);
            lemma_key_line(key_time(), sp_format_duration(d));
            (seq![sp_time_line(d)], seq![(key_time(), sp_format_duration(d))])
        },
        None => (Seq::<Seq<char>>::empty(), Seq::<(Seq<char>, Seq<char>)>::empty()),
    };
    let (l_s, e_s): (Seq<Seq<char>>, Seq<(Seq<char>, Seq<char>)>) = match v.source {
        Some(s) => {
            let skey = match s {
                SourceView::Author(_) => key_author(),
                SourceView::Book(_) => key_book(),
                SourceView::Link(_) => key_link(),
            };
            let sval = match s {
                SourceView::Author(a) => a,
                SourceView::Book(b) => b,
                SourceView::Link(l) => sp_format_link(l),
            };
            match s {
                SourceView::Author(a) => {
                    lemma_key_line(key_author(), a);
                },
                SourceView::Book(b) => {
                    lemma_key_line(key_book(), b);
                },
                SourceView::Link(l) => {
                    lemma_link_round_trip(l);
                    lemma_key_line(key_link(), sp_format_link(l));
                },
            }
            assert(sp_format_source_line(s) == skey + sep + sval);
            (seq![sp_format_source_line(s)], seq![(skey, sval)])
        },
        None => (Seq::<Seq<char>>::empty(), Seq::<(Seq<char>, Seq<char>)>::empty()),
    };
    let (l_g, e_g): (Seq<Seq<char>>, Seq<(Seq<char>, Seq<char>)>) = if v.tags.len() > 0 {
        let joined = crate::strings::sp_join(v.tags, seq![',', ' ']);
        lemma_tags_value(v.tags);
        lemma_key_line(key_tags(), joined);
        (seq![sp_tags_line(v.tags)], seq![(key_tags(), joined)])
    } else {
        (Seq::<Seq<char>>::empty(), Seq::<(Seq<char>, Seq<char>)>::empty())
    };
    assert(lines =~= ((l_y + l_t) + l_s) + l_g);
    // The entries behind each line.
    assert(e_y[0] == (key_yield(), fy));
    match v.duration {
        Some(d) => {
            assert(e_t[0] == (key_time(), sp_format_duration(d)));
            assert(e_t[0].0 == key_time());
        },
        None => {},
    }
    match v.source {
        Some(s) => {
            match s {
                SourceView::Author(a) => {
                    assert(e_s[0] == (key_author(), a));
                    assert(e_s[0].0 == key_author());
                },
                SourceView::Book(b) => {
                    assert(e_s[0] == (key_book(), b));
                    assert(e_s[0].0 == key_book());
                },
                SourceView::Link(l) => {
                    assert(e_s[0] == (key_link(), sp_format_link(l)));
                    assert(e_s[0].0 == key_link());
                },
            }
        },
        None => {},
    }
    if v.tags.len() > 0 {
        assert(e_g[0] == (key_tags(), crate::strings::sp_join(v.tags, seq![',', ' '])));
        assert(e_g[0].0 == key_tags());
    }
    // Building the map walks the lines in order.
    let m = ((e_y + e_t) + e_s) + e_g;
    assert(sp_kv_build(lines) == Some(m)) by {
        lemma_build_append(l_y + l_t + l_s, l_g, Seq::empty());
        lemma_build_append(l_y + l_t, l_s, Seq::empty());
        lemma_build_append(l_y, l_t, Seq::empty());
        assert(((l_y + l_t) + l_s) + l_g =~= lines);
        // One line at a time.
        assert(sp_kv_build_from(l_y, Seq::empty()) == Some(e_y)) by {
            assert(l_y.skip(1) =~= Seq::<Seq<char>>::empty());
            assert(l_y[0] == key_yield() + seq![':', ' '] + fy);
            assert(sp_parse_mapping(l_y[0]) == Some((key_yield(), fy)));
            let acc2 = Seq::<(Seq<char>, Seq<char>)>::empty().push((key_yield(), fy));
            assert(sp_kv_build_from(l_y.skip(1), acc2) == Some(acc2));
            assert(acc2 =~= e_y);
        }
        assert(sp_kv_build_from(l_t, e_y) == Some(e_y + e_t)) by {
            match v.duration {
                Some(d) => {
                    assert(l_t.skip(1) =~= Seq::<Seq<char>>::empty());
                    assert(l_t[0] == key_time() + seq![':', ' '] + sp_format_duration(d));
                    assert(sp_parse_mapping(l_t[0]) == Some((key_time(), sp_format_duration(d))));
                    assert(!sp_kv_has(e_y, key_time())) by {
                        lemma_get_single(e_y[0], key_time());
                        assert(e_y =~= seq![e_y[0]]);
                    }
                    let acc2 = e_y.push((key_time(), sp_format_duration(d)));
                    assert(sp_kv_build_from(l_t.skip(1), acc2) == Some(acc2));
                    assert(acc2 =~= e_y + e_t);
                },
                None => {
                    assert(e_y + e_t =~= e_y);
                },
            }
        }
        assert(sp_kv_build_from(l_s, e_y + e_t) == Some((e_y + e_t) + e_s)) by {
            match v.source {
                Some(s) => {
                    assert(l_s.skip(1) =~= Seq::<Seq<char>>::empty());
                    match s {
                        SourceView::Author(a) => {
                            assert(l_s[0] == key_author() + seq![':', ' '] + a);
                            assert(sp_parse_mapping(l_s[0]) == Some((key_author(), a)));
                        },
                        SourceView::Book(b) => {
                            assert(l_s[0] == key_book() + seq![':', ' '] + b);
                            assert(sp_parse_mapping(l_s[0]) == Some((key_book(), b)));
                        },
                        SourceView::Link(l) => {
                            assert(l_s[0] == key_link() + seq![':', ' '] + sp_format_link(l));
                            assert(sp_parse_mapping(l_s[0]) == Some((
                                key_link(),
                                sp_format_link(l),
                            )));
                        },
                    }
                    assert(sp_parse_mapping(l_s[0]) == Some(e_s[0]));
                    assert(!sp_kv_has(e_y + e_t, e_s[0].0)) by {
                        lemma_get_append(e_y, e_t, e_s[0].0);
                        lemma_get_single(e_y[0], e_s[0].0);
                        assert(e_y =~= seq![e_y[0]]);
                        if e_t.len() > 0 {
                            lemma_get_single(e_t[0], e_s[0].0);
                            assert(e_t =~= seq![e_t[0]]);
                        }
                    }
                    let acc2 = (e_y + e_t).push(e_s[0]);
                    assert(sp_kv_build_from(l_s.skip(1), acc2) == Some(acc2));
                    assert(acc2 =~= (e_y + e_t) + e_s);
                },
                None => {
                    assert((e_y + e_t) + e_s =~= e_y + e_t);
                },
            }
        }
        assert(sp_kv_build_from(l_g, (e_y + e_t) + e_s) == Some(m)) by {
            if v.tags.len() > 0 {
                assert(l_g.skip(1) =~= Seq::<Seq<char>>::empty());
                assert(l_g[0] == key_tags() + seq![':', ' '] + crate::strings::sp_join(
                    v.tags,
                    seq![',', ' '],
                ));
                assert(sp_parse_mapping(l_g[0]) == Some((key_tags(), crate::strings::sp_join(
                    v.tags,
                    seq![',', ' '],
                ))));
                assert(!sp_kv_has((e_y + e_t) + e_s, key_tags())) by {
                    lemma_get_append(e_y + e_t, e_s, key_tags());
                    lemma_get_append(e_y, e_t, key_tags());
                    lemma_get_single(e_y[0], key_tags());
                    assert(e_y =~= seq![e_y[0]]);
                    if e_t.len() > 0 {
                        lemma_get_single(e_t[0], key_tags());
                        assert(e_t =~= seq![e_t[0]]);
                    }
                    if e_s.len() > 0 {
                        lemma_get_single(e_s[0], key_tags());
                        assert(e_s =~= seq![e_s[0]]);
                    }
                }
                let acc2 = ((e_y + e_t) + e_s).push((key_tags(), crate::strings::sp_join(
                    v.tags,
                    seq![',', ' '],
                )));
                assert(sp_kv_build_from(l_g.skip(1), acc2) == Some(acc2));
                assert(acc2 =~= m);
            } else {
                assert(m =~= (e_y + e_t) + e_s);
            }
        }
    }
    // What each key resolves to in the built map.
    assert forall|k: Seq<char>| true implies #[trigger] sp_kv_get(m, k) == (if k == key_yield() {
        Some(fy)
    } else if e_t.len() > 0 && k == e_t[0].0 {
        Some(e_t[0].1)
    } else if e_s.len() > 0 && k == e_s[0].0 {
        Some(e_s[0].1)
    } else if e_g.len() > 0 && k == e_g[0].0 {
        Some(e_g[0].1)
    } else {
        None
    }) by {
        lemma_get_append((e_y + e_t) + e_s, e_g, k);
        lemma_get_append(e_y + e_t, e_s, k);
        lemma_get_append(e_y, e_t, k);
        lemma_get_single(e_y[0], k);
        assert(e_y =~= seq![e_y[0]]);
        if e_t.len() > 0 {
            lemma_get_single(e_t[0], k);
            assert(e_t =~= seq![e_t[0]]);
        }
        if e_s.len() > 0 {
            lemma_get_single(e_s[0], k);
            assert(e_s =~= seq![e_s[0]]);
        }
        if e_g.len() > 0 {
            lemma_get_single(e_g[0], k);
            assert(e_g =~= seq![e_g[0]]);
        }
    }
    // The extraction sees exactly the formatted fields.
    assert(sp_kv_get(m, key_yield()) == Some(fy));
    assert(sp_parse_yield(fy) == Some(v.yields));
    match v.duration {
        Some(d) => {
            assert(sp_kv_get(m, key_time()) == Some(sp_format_duration(d)));
        },
        None => {
            assert(sp_kv_get(m, key_time()) is None);
        },
    }
    match v.source {
        Some(s) => match s {
            SourceView::Author(a) => {
                assert(sp_kv_get(m, key_link()) is None);
                assert(sp_kv_get(m, key_author()) == Some(a));
                assert(sp_source_of(m) == Some(Some(s)));
            },
            SourceView::Book(b) => {
                assert(sp_kv_get(m, key_link()) is None);
                assert(sp_kv_get(m, key_author()) is None);
                assert(sp_kv_get(m, key_book()) == Some(b));
                assert(sp_source_of(m) == Some(Some(s)));
            },
            SourceView::Link(l) => {
                assert(sp_kv_get(m, key_link()) == Some(sp_format_link(l)));
                assert(sp_source_of(m) == Some(Some(s)));
            },
        },
        None => {
            assert(sp_kv_get(m, key_link()) is None);
            assert(sp_kv_get(m, key_author()) is None);
            assert(sp_kv_get(m, key_book()) is None);
            assert(sp_source_of(m) == Some(None::<SourceView>));
        },
    }
    assert(sp_tags_of(m) == v.tags) by {
        if v.tags.len() > 0 {
            assert(sp_kv_get(m, key_tags()) == Some(crate::strings::sp_join(
                v.tags,
                seq![',', ' '],
            )));
            lemma_tags_split(v.tags);
        } else {
            assert(sp_kv_get(m, key_tags()) is None);
        }
    }
    // No key falls outside the allowed set.
    let allowed = sp_allowed_keys(m);
    assert(sp_keys_subset(m, allowed)) by {
        lemma_subset_iff(m, allowed);
        assert(allowed[0] == key_yield());
        assert(allowed[1] == key_time());
        assert(allowed[2] == key_tags());
        assert forall|i: int| 0 <= i < m.len() implies allowed.contains(#[trigger] m[i].0) by {
            if m[i].0 == key_yield() {
                assert(allowed.contains(m[i].0));
            } else if m[i].0 == key_time() {
                assert(allowed.contains(m[i].0));
            } else if m[i].0 == key_tags() {
                assert(allowed.contains(m[i].0));
            } else {
                assert(e_s.len() > 0 && m[i].0 == e_s[0].0);
                assert(allowed.len() == 4);
                assert(allowed[3] == e_s[0].0);
                assert(allowed.contains(m[i].0));
            }
        }
    }
    assert(sp_metadata_from_map(m) == Some(v));
    // Every line is sound and trim-stable.
    assert forall|i: int|
        0 <= i < lines.len() implies crate::list::sp_good_line(#[trigger] lines[i]) && sp_trim(
        lines[i],
    ) == lines[i] by {
        assert(lines =~= ((l_y + l_t) + l_s) + l_g);
    }
}

/// The joined tags line value is non-empty, trim-stable free text.
proof fn lemma_tags_value(tags: Seq<Seq<char>>)
    requires
        tags.len() > 0,
        forall|i: int|
            0 <= i < tags.len() ==> sp_wf_text(#[trigger] tags[i]) && sp_clean_prefix(
                tags[i],
                seq![',', ' '],
            ),
    ensures
        sp_wf_text(crate::strings::sp_join(tags, seq![',', ' '])),
    decreases tags.len(),
{
    let sep = seq![',', ' '];
    let j = crate::strings::sp_join(tags, sep);
    if tags.len() == 1 {
        assert(j == tags[0]);
    } else {
        lemma_tags_value(tags.skip(1));
        let rest = crate::strings::sp_join(tags.skip(1), sep);
        assert(j == tags[0] + sep + rest);
        assert(j[0] == tags[0][0]);
        assert(j[j.len() - 1] == rest[rest.len() - 1]);
        assert(!sp_is_ws(j[0])) by {
            if sp_is_ws(tags[0][0]) {
                lemma_trim_drops_first(tags[0]);
            }
        }
        assert(!sp_is_ws(j[j.len() - 1])) by {
            if sp_is_ws(rest[rest.len() - 1]) {
                crate::strings::lemma_trim_drops_last(rest);
            }
        }
        lemma_trim_stable(j);
        assert(sp_free(j, seq!['\n'])) by {
            assert(forall|i: int| 0 <= i < sep.len() ==> sep[i] != '\n');
            lemma_char_free(sep, '\n');
            lemma_free_concat(tags[0], sep, '\n');
            lemma_free_concat(tags[0] + sep, rest, '\n');
            assert((tags[0] + sep) + rest =~= j);
        }
    }
}

/// Splitting the joined tags recovers them, trimmed or not.
proof fn lemma_tags_split(tags: Seq<Seq<char>>)
    requires
        tags.len() > 0,
        forall|i: int|
            0 <= i < tags.len() ==> sp_wf_text(#[trigger] tags[i]) && sp_clean_prefix(
                tags[i],
                seq![',', ' '],
            ),
    ensures
        crate::strings::sp_split_all(
            crate::strings::sp_join(tags, seq![',', ' ']),
            seq![',', ' '],
        ).map_values(|t: Seq<char>| sp_trim(t)) == tags,
{
    let sep = seq![',', ' '];
    crate::strings::lemma_split_join(tags, sep);
    let parts = crate::strings::sp_split_all(crate::strings::sp_join(tags, sep), sep);
    assert(parts == tags);
    assert forall|i: int| 0 <= i < tags.len() implies sp_trim(#[trigger] tags[i]) == tags[i] by {
        assert(!sp_is_ws(tags[i][0])) by {
            if sp_is_ws(tags[i][0]) {
                lemma_trim_drops_first(tags[i]);
            }
        }
        assert(!sp_is_ws(tags[i][tags[i].len() - 1])) by {
            if sp_is_ws(tags[i][tags[i].len() - 1]) {
                lemma_trim_drops_last(tags[i]);
            }
        }
        lemma_trim_stable(tags[i]);
    }
    assert(parts.map_values(|t: Seq<char>| sp_trim(t)) =~= tags);
}

// ---------------------------------------------------------------------------
// Executable metadata parsing and formatting
// ---------------------------------------------------------------------------

/// Reads one `key: value` line.
fn parse_mapping(line: &str) -> (r: ParseResult<(String, String)>)
    ensures
        match r {
            Ok(kv) => sp_parse_mapping(line@) == Some((kv.0@, kv.1@)),
            Err(_) => sp_parse_mapping(line@) is None,
        },
{
    proof {
        reveal_strlit(": ");
        assert(": "@ =~= seq![':', ' ']);
    }
    let t = trim(line);
    let (k, v) = match split_once_str(t, ": ") {
        Some(p) => p,
        None => {
            return Err(ParseError::msg("missing key-value separator ': ' in metadata"));
        },
    };
    let key = trim_end(k);
    let value = trim_start(v);
    if key.unicode_len() == 0 {
        return Err(ParseError::empty("metadata key"));
    }
    if value.unicode_len() == 0 {
        return Err(ParseError::empty("metadata value"));
    }
    Ok((String::from_str(key), String::from_str(value)))
}

/// Finds the value under a key.
fn kv_get(map: &Vec<(String, String)>, key: &str) -> (r: Option<String>)
    ensures
        match r {
            Some(v) => sp_kv_get(map.deep_view(), key@) == Some(v@),
            None => sp_kv_get(map.deep_view(), key@) is None,
        },
{
    let ghost dv = map.deep_view();
    let n = map.len();
    let mut i: usize = 0;
    proof {
        assert(dv.skip(0) =~= dv);
    }
    while i < n
        invariant
            0 <= i <= n,
            n == map.len(),
            dv == map.deep_view(),
            sp_kv_get(dv, key@) == sp_kv_get(dv.skip(i as int), key@),
        decreases n - i,
    {
        proof {
            assert(dv.skip(i as int)[0] == dv[i as int]);
            assert(dv[i as int] == (map[i as int].0@, map[i as int].1@));
            assert(dv.skip(i as int).skip(1) =~= dv.skip(i + 1 as int));
        }
        if crate::strings::eq_str(map[i].0.as_str(), key) {
            return Some(map[i].1.clone());
        }
        i = i + 1;
    }
    proof {
        assert(dv.skip(n as int) =~= Seq::<(Seq<char>, Seq<char>)>::empty());
    }
    None
}

impl Metadata {
    /// Parses a metadata block of `key: value` lines; a repeated key is
    /// an error.
    pub fn try_from(lines: Vec<String>) -> (r: ParseResult<Metadata>)
        ensures
            match r {
                Ok(m) => sp_parse_metadata(lines.deep_view()) == Some(m.deep_view()),
                Err(_) => sp_parse_metadata(lines.deep_view()) is None,
            },
    {
        let ghost dv = lines.deep_view();
        let n = lines.len();
        let mut map: Vec<(String, String)> = Vec::new();
        let mut i: usize = 0;
        proof {
            assert(dv.skip(0) =~= dv);
            assert(map.deep_view() =~= Seq::<(Seq<char>, Seq<char>)>::empty());
        }
        while i < n
            invariant
                0 <= i <= n,
                n == lines.len(),
                dv == lines.deep_view(),
                sp_kv_build(dv) == sp_kv_build_from(dv.skip(i as int), map.deep_view()),
            decreases n - i,
        {
            proof {
                assert(dv.skip(i as int)[0] == dv[i as int]);
                assert(dv[i as int] == lines[i as int]@);
                assert(dv.skip(i as int).skip(1) =~= dv.skip(i + 1 as int));
            }
            let kv = match parse_mapping(lines[i].as_str()) {
                Ok(kv) => kv,
                Err(e) => {
                    return Err(e);
                },
            };
            match kv_get(&map, kv.0.as_str()) {
                Some(_) => {
                    return Err(ParseError::msg("duplicate metadata key"));
                },
                None => {},
            }
            let ghost prev = map.deep_view();
            map.push(kv);
            proof {
                assert(map.deep_view() =~= prev.push((kv.0@, kv.1@)));
            }
            i = i + 1;
        }
        proof {
            assert(dv.skip(n as int) =~= Seq::<Seq<char>>::empty());
        }
        Self::from_pairs(map)
    }

    /// Extracts the metadata from key-value pairs: the required
    /// `Yield`, the optional `Time`, at most one source key, the
    /// `Tags`, and nothing else.
    pub fn from_pairs(map: Vec<(String, String)>) -> (r: ParseResult<Metadata>)
        ensures
            match r {
                Ok(m) => sp_metadata_from_map(map.deep_view()) == Some(m.deep_view()),
                Err(_) => sp_metadata_from_map(map.deep_view()) is None,
            },
    {
        proof {
            reveal_strlit("Yield");
            reveal_strlit("Time");
            reveal_strlit("Tags");
            reveal_strlit("Author");
            reveal_strlit("Book");
            reveal_strlit("Link");
            reveal_strlit(", ");
            assert("Yield"@ =~= key_yield());
            assert("Time"@ =~= key_time());
            assert("Tags"@ =~= key_tags());
            assert("Author"@ =~= key_author());
            assert("Book"@ =~= key_book());
            assert("Link"@ =~= key_link());
            assert(", "@ =~= seq![',', ' ']);
        }
        let ghost dv = map.deep_view();
        let vy = match kv_get(&map, "Yield") {
            Some(v) => v,
            None => {
                return Err(ParseError::msg("missing metadata key 'Yield'"));
            },
        };
        let yields = match Yield::parse_from_str(vy.as_str()) {
            Ok(y) => y,
            Err(e) => {
                return Err(e);
            },
        };
        let duration: Option<Duration> = match kv_get(&map, "Time") {
            Some(vt) => match Duration::parse_from_str(vt.as_str()) {
                Ok(d) => Some(d),
                Err(e) => {
                    return Err(e);
                },
            },
            None => None,
        };
        let has_link = kv_get(&map, "Link");
        let has_author = kv_get(&map, "Author");
        let has_book = kv_get(&map, "Book");
        let source: Option<Source> = match &has_link {
            Some(vl) => match Link::parse_from_str(vl.as_str()) {
                Ok(l) => Some(Source::Link(l)),
                Err(e) => {
                    return Err(e);
                },
            },
            None => match &has_author {
                Some(va) => Some(Source::Author(va.clone())),
                None => match &has_book {
                    Some(vb) => Some(Source::Book(vb.clone())),
                    None => None,
                },
            },
        };
        let tags: Vec<String> = match kv_get(&map, "Tags") {
            Some(vg) => {
                let parts = crate::strings::split_all_str(vg.as_str(), ", ");
                let mut out: Vec<String> = Vec::new();
                let pn = parts.len();
                let mut j: usize = 0;
                while j < pn
                    invariant
                        0 <= j <= pn,
                        pn == parts.len(),
                        out.deep_view() =~= parts.deep_view().take(j as int).map_values(
                            |t: Seq<char>| sp_trim(t),
                        ),
                    decreases pn - j,
                {
                    let ghost prev = out.deep_view();
                    out.push(String::from_str(trim(parts[j].as_str())));
                    proof {
                        assert(out.deep_view() =~= prev.push(sp_trim(
                            parts.deep_view()[j as int],
                        )));
                        assert(parts.deep_view().take(j + 1 as int).map_values(
                            |t: Seq<char>| sp_trim(t),
                        ) =~= prev.push(sp_trim(parts.deep_view()[j as int])));
                    }
                    j = j + 1;
                }
                proof {
                    assert(parts.deep_view().take(pn as int) =~= parts.deep_view());
                }
                out
            },
            None => Vec::new(),
        };
        // Any remaining key is unknown.
        let n = map.len();
        let mut i: usize = 0;
        while i < n
            invariant
                0 <= i <= n,
                n == map.len(),
                dv == map.deep_view(),
                "Yield"@ == key_yield() && "Time"@ == key_time() && "Tags"@ == key_tags()
                    && "Author"@ == key_author() && "Book"@ == key_book() && "Link"@
                    == key_link(),
                has_link matches Some(x) ==> sp_kv_has(dv, key_link()),
                has_link is None ==> !sp_kv_has(dv, key_link()),
                has_author matches Some(x) ==> sp_kv_has(dv, key_author()),
                has_author is None ==> !sp_kv_has(dv, key_author()),
                has_book matches Some(x) ==> sp_kv_has(dv, key_book()),
                has_book is None ==> !sp_kv_has(dv, key_book()),
                forall|j: int|
                    0 <= j < i ==> sp_allowed_keys(dv).contains(#[trigger] dv[j].0),
            decreases n - i,
        {
            proof {
                assert(dv[i as int] == (map[i as int].0@, map[i as int].1@));
            }
            let k: &str = map[i].0.as_str();
            let mut ok = crate::strings::eq_str(k, "Yield") || crate::strings::eq_str(k, "Time")
                || crate::strings::eq_str(k, "Tags");
            if !ok {
                match &has_link {
                    Some(_) => {
                        ok = crate::strings::eq_str(k, "Link");
                    },
                    None => match &has_author {
                        Some(_) => {
                            ok = crate::strings::eq_str(k, "Author");
                        },
                        None => match &has_book {
                            Some(_) => {
                                ok = crate::strings::eq_str(k, "Book");
                            },
                            None => {},
                        },
                    },
                }
            }
            if !ok {
                proof {
                    lemma_subset_iff(dv, sp_allowed_keys(dv));
                    let allowed = sp_allowed_keys(dv);
                    assert(allowed[0] == key_yield());
                    assert(allowed[1] == key_time());
                    assert(allowed[2] == key_tags());
                    if allowed.contains(dv[i as int].0) {
                        let w = choose|w: int|
                            0 <= w < allowed.len() && allowed[w] == dv[i as int].0;
                        assert(allowed.len() == 4 ==> allowed[3] == (if sp_kv_has(
                            dv,
                            key_link(),
                        ) {
                            key_link()
                        } else if sp_kv_has(dv, key_author()) {
                            key_author()
                        } else {
                            key_book()
                        }));
                        assert(false);
                    }
                }
                let mut msg = String::from_str("unknown metadata key '");
                msg.append(k);
                msg.append("'");
                return Err(ParseError { message: msg, path: None });
            }
            proof {
                let allowed = sp_allowed_keys(dv);
                assert(allowed[0] == key_yield());
                assert(allowed[1] == key_time());
                assert(allowed[2] == key_tags());
                if allowed.len() == 4 {
                    assert(allowed[3] == (if sp_kv_has(dv, key_link()) {
                        key_link()
                    } else if sp_kv_has(dv, key_author()) {
                        key_author()
                    } else {
                        key_book()
                    }));
                }
                assert(allowed.contains(dv[i as int].0));
            }
            i = i + 1;
        }
        proof {
            lemma_subset_iff(dv, sp_allowed_keys(dv));
        }
        let metadata = Metadata { duration, yields, source, tags };
        proof {
            assert(metadata.deep_view().tags =~= sp_tags_of(dv));
        }
        Ok(metadata)
    }

    /// Writes the metadata block: `Yield`, then `Time`, the source and
    /// `Tags` where present, one line each.
    pub fn format(&self) -> (r: String)
        ensures
            r@ == crate::reader::sp_unlines(sp_format_metadata_lines(self.deep_view())),
    {
        proof {
            reveal_strlit("Yield: ");
            reveal_strlit("Time: ");
            reveal_strlit("Tags: ");
            reveal_strlit("\n");
            reveal_strlit(", ");
            assert("Yield: "@ =~= key_yield() + seq![':', ' ']);
            assert("Time: "@ =~= key_time() + seq![':', ' ']);
            assert("Tags: "@ =~= key_tags() + seq![':', ' ']);
            assert("\n"@ =~= seq!['\n']);
            assert(", "@ =~= seq![',', ' ']);
        }
        let ghost v = self.deep_view();
        let mut s = String::from_str("Yield: ");
        let fy = Yield::format(&self.yields);
        s.append(fy.as_str());
        s.append("\n");
        let ghost l1: Seq<Seq<char>> = seq![sp_yield_line(v.yields)];
        proof {
            crate::reader::lemma_unlines_push(l1, 0);
            assert(l1.take(0) =~= Seq::<Seq<char>>::empty());
            assert(l1.take(1) =~= l1);
            assert(s@ =~= crate::reader::sp_unlines(l1));
        }
        match &self.duration {
            Some(d) => {
                s.append("Time: ");
                let fd = d.format();
                s.append(fd.as_str());
                s.append("\n");
            },
            None => {},
        }
        let ghost l2 = l1 + (match v.duration {
            Some(d) => seq![sp_time_line(d)],
            None => Seq::<Seq<char>>::empty(),
        });
        proof {
            match v.duration {
                Some(d) => {
                    crate::reader::lemma_unlines_concat(l1, seq![sp_time_line(d)]);
                    crate::reader::lemma_unlines_push(seq![sp_time_line(d)], 0);
                    assert(seq![sp_time_line(d)].take(0) =~= Seq::<Seq<char>>::empty());
                    assert(seq![sp_time_line(d)].take(1) =~= seq![sp_time_line(d)]);
                    assert(s@ =~= crate::reader::sp_unlines(l2));
                },
                None => {
                    assert(l2 =~= l1);
                },
            }
        }
        match &self.source {
            Some(src) => {
                let fs = src.format();
                s.append(fs.as_str());
                s.append("\n");
            },
            None => {},
        }
        let ghost l3 = l2 + (match v.source {
            Some(sv) => seq![sp_format_source_line(sv)],
            None => Seq::<Seq<char>>::empty(),
        });
        proof {
            match v.source {
                Some(sv) => {
                    crate::reader::lemma_unlines_concat(l2, seq![sp_format_source_line(sv)]);
                    crate::reader::lemma_unlines_push(seq![sp_format_source_line(sv)], 0);
                    assert(seq![sp_format_source_line(sv)].take(0) =~= Seq::<Seq<char>>::empty());
                    assert(seq![sp_format_source_line(sv)].take(1) =~= seq![
                        sp_format_source_line(sv),
                    ]);
                    assert(s@ =~= crate::reader::sp_unlines(l3));
                },
                None => {
                    assert(l3 =~= l2);
                },
            }
        }
        if self.tags.len() > 0 {
            s.append("Tags: ");
            let jt = crate::strings::join_all(&self.tags, ", ");
            s.append(jt.as_str());
            s.append("\n");
        }
        let ghost l4 = l3 + (if v.tags.len() > 0 {
            seq![sp_tags_line(v.tags)]
        } else {
            Seq::<Seq<char>>::empty()
        });
        proof {
            if v.tags.len() > 0 {
                crate::reader::lemma_unlines_concat(l3, seq![sp_tags_line(v.tags)]);
                crate::reader::lemma_unlines_push(seq![sp_tags_line(v.tags)], 0);
                assert(seq![sp_tags_line(v.tags)].take(0) =~= Seq::<Seq<char>>::empty());
                assert(seq![sp_tags_line(v.tags)].take(1) =~= seq![sp_tags_line(v.tags)]);
                assert(s@ =~= crate::reader::sp_unlines(l4));
            } else {
                assert(l4 =~= l3);
            }
            assert(l4 =~= sp_format_metadata_lines(v));
        }
        s
    }
}

} // verus!
