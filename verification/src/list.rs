//! The structured list model: a flat bullet list, or named sections each
//! holding a bullet list, with symmetric parse and format algorithms.

use vstd::prelude::*;

use crate::errors::{ParseError, ParseResult};
use crate::recipe::ParseFromStr;
use crate::strings::{
    sp_free, sp_is_ws, sp_skip_prefix, sp_starts_with, sp_trim, sp_trim_start, starts_with_str, strip_prefix_str, trim_start,
};

verus! {

/// A named group of items; the items belong to the section alone.
#[derive(Debug, PartialEq)]
pub struct Section<D> {
    pub name: String,
    pub items: Vec<D>,
}

/// The mathematical value of a `Section`.
pub struct SectionView<V> {
    pub name: Seq<char>,
    pub items: Seq<V>,
}

impl<D: DeepView> DeepView for Section<D> {
    type V = SectionView<D::V>;

    open spec fn deep_view(&self) -> SectionView<D::V> {
        SectionView { name: self.name@, items: self.items.deep_view() }
    }
}

impl<D> Section<D> {
    /// A section from its name and items.
    pub fn new(name: String, items: Vec<D>) -> (r: Self)
        ensures
            r.name == name,
            r.items == items,
    {
        Section { name, items }
    }
}

/// A structured list: flat, or grouped into named sections.
#[derive(Debug, PartialEq)]
pub enum List<D> {
    Basic(Vec<D>),
    Sectioned(Vec<Section<D>>),
}

/// The mathematical value of a `List`.
pub enum ListView<V> {
    Basic(Seq<V>),
    Sectioned(Seq<SectionView<V>>),
}

impl<D: DeepView> DeepView for List<D> {
    type V = ListView<D::V>;

    open spec fn deep_view(&self) -> ListView<D::V> {
        match self {
            List::Basic(items) => ListView::Basic(items.deep_view()),
            List::Sectioned(sections) => ListView::Sectioned(sections.deep_view()),
        }
    }
}

// ---------------------------------------------------------------------------
// Spec-level parsing
// ---------------------------------------------------------------------------

/// A line that begins a bullet item.
pub open spec fn sp_is_bullet(l: Seq<char>) -> bool {
    sp_starts_with(l, seq!['-', ' '])
}

/// What an item line holds after the bullet marker, leading whitespace
/// dropped.
pub open spec fn sp_item_body(l: Seq<char>) -> Seq<char> {
    sp_trim_start(sp_skip_prefix(l, seq!['-', ' ']))
}

/// What parsing a run of bullet lines yields: every line must carry the
/// marker and its body must parse.
pub open spec fn sp_parse_items<P: ParseFromStr>(lines: Seq<Seq<char>>) -> Option<Seq<P::V>>
    decreases lines.len(),
{
    if lines.len() == 0 {
        Some(seq![])
    } else if !sp_is_bullet(lines[0]) {
        None
    } else {
        match P::sp_parse(sp_item_body(lines[0])) {
            None => None,
            Some(v) => match sp_parse_items::<P>(lines.skip(1)) {
                None => None,
                Some(rest) => Some(seq![v] + rest),
            },
        }
    }
}

/// How many leading lines carry the bullet marker.
pub open spec fn sp_bullet_run(lines: Seq<Seq<char>>) -> nat
    decreases lines.len(),
{
    if lines.len() == 0 || !sp_is_bullet(lines[0]) {
        0
    } else {
        1 + sp_bullet_run(lines.skip(1))
    }
}

/// The bullet run is a prefix of the lines: within it every line is a
/// bullet, and the line after it (if any) is not.
pub proof fn lemma_bullet_run_spec(lines: Seq<Seq<char>>)
    ensures
        sp_bullet_run(lines) <= lines.len(),
        forall|i: int| 0 <= i < sp_bullet_run(lines) ==> sp_is_bullet(#[trigger] lines[i]),
        sp_bullet_run(lines) < lines.len() ==> !sp_is_bullet(
            lines[sp_bullet_run(lines) as int],
        ),
    decreases lines.len(),
{
    if lines.len() == 0 || !sp_is_bullet(lines[0]) {
    } else {
        lemma_bullet_run_spec(lines.skip(1));
        assert forall|i: int| 0 <= i < sp_bullet_run(lines) implies sp_is_bullet(lines[i]) by {
            if i > 0 {
                assert(lines.skip(1)[i - 1] == lines[i]);
            }
        }
        if sp_bullet_run(lines) < lines.len() {
            assert(lines.skip(1)[sp_bullet_run(lines) - 1] == lines[sp_bullet_run(lines) as int]);
        }
    }
}

/// What parsing sectioned lines yields: each non-bullet line names a
/// section (an empty name is an error) whose items are the bullet lines
/// that follow.
pub open spec fn sp_parse_sectioned<P: ParseFromStr>(lines: Seq<Seq<char>>) -> Option<
    Seq<SectionView<P::V>>,
>
    decreases lines.len(),
    when true
    via sp_parse_sectioned_decreases::<P>
{
    if lines.len() == 0 {
        Some(seq![])
    } else if lines[0].len() == 0 {
        None
    } else {
        let k = sp_bullet_run(lines.skip(1));
        match sp_parse_items::<P>(lines.skip(1).take(k as int)) {
            None => None,
            Some(items) => match sp_parse_sectioned::<P>(lines.skip(1).skip(k as int)) {
                None => None,
                Some(sections) => Some(
                    seq![SectionView { name: lines[0], items }] + sections,
                ),
            },
        }
    }
}

#[via_fn]
proof fn sp_parse_sectioned_decreases<P: ParseFromStr>(lines: Seq<Seq<char>>) {
    if lines.len() > 0 {
        lemma_bullet_run_spec(lines.skip(1));
    }
}

/// What parsing a list yields: the first line decides the shape — a
/// bullet marker (or no content at all) means a flat list, anything
/// else begins the first section.
pub open spec fn sp_parse_list<P: ParseFromStr>(lines: Seq<Seq<char>>) -> Option<ListView<P::V>> {
    if lines.len() == 0 || sp_is_bullet(lines[0]) {
        match sp_parse_items::<P>(lines) {
            None => None,
            Some(items) => Some(ListView::Basic(items)),
        }
    } else {
        match sp_parse_sectioned::<P>(lines) {
            None => None,
            Some(sections) => Some(ListView::Sectioned(sections)),
        }
    }
}

// ---------------------------------------------------------------------------
// Spec-level formatting
// ---------------------------------------------------------------------------

/// The lines of a run of items: `<indent>- <item>` each.
pub open spec fn sp_format_items_lines<P: ParseFromStr>(items: Seq<P::V>, ind: Seq<char>) -> Seq<
    Seq<char>,
> {
    Seq::new(items.len(), |i: int| ind + seq!['-', ' '] + P::sp_format(items[i]))
}

/// The lines of one section: its name, then its items doubly indented.
pub open spec fn sp_format_section_lines<P: ParseFromStr>(
    s: SectionView<P::V>,
    ind: Seq<char>,
) -> Seq<Seq<char>> {
    seq![ind + s.name] + sp_format_items_lines::<P>(s.items, ind + ind)
}

/// The lines of a run of sections.
pub open spec fn sp_format_sections_lines<P: ParseFromStr>(
    sections: Seq<SectionView<P::V>>,
    ind: Seq<char>,
) -> Seq<Seq<char>>
    decreases sections.len(),
{
    if sections.len() == 0 {
        seq![]
    } else {
        sp_format_section_lines::<P>(sections[0], ind) + sp_format_sections_lines::<P>(
            sections.skip(1),
            ind,
        )
    }
}

/// The lines of a whole list.
pub open spec fn sp_format_list_lines<P: ParseFromStr>(l: ListView<P::V>, ind: Seq<char>) -> Seq<
    Seq<char>,
> {
    match l {
        ListView::Basic(items) => sp_format_items_lines::<P>(items, ind),
        ListView::Sectioned(sections) => sp_format_sections_lines::<P>(sections, ind),
    }
}

// ---------------------------------------------------------------------------
// Counting
// ---------------------------------------------------------------------------

/// The item count of a run of sections.
pub open spec fn sp_count_sections<V>(sections: Seq<SectionView<V>>) -> int
    decreases sections.len(),
{
    if sections.len() == 0 {
        0
    } else {
        sections[0].items.len() + sp_count_sections(sections.skip(1))
    }
}

/// The item count of a list.
pub open spec fn sp_count<V>(l: ListView<V>) -> int {
    match l {
        ListView::Basic(items) => items.len() as int,
        ListView::Sectioned(sections) => sp_count_sections(sections),
    }
}

/// Section counts are non-negative and grow with the sections.
proof fn lemma_count_sections_nonneg<V>(sections: Seq<SectionView<V>>)
    ensures
        sp_count_sections(sections) >= 0,
    decreases sections.len(),
{
    if sections.len() > 0 {
        lemma_count_sections_nonneg(sections.skip(1));
    }
}

/// Stepping the partial sum of section counts.
proof fn lemma_count_sections_step<V>(sections: Seq<SectionView<V>>, i: int)
    requires
        0 <= i < sections.len(),
    ensures
        sp_count_sections(sections.skip(i)) == sections[i].items.len() + sp_count_sections(
            sections.skip(i + 1),
        ),
{
    assert(sections.skip(i)[0] == sections[i]);
    assert(sections.skip(i).skip(1) =~= sections.skip(i + 1));
}

impl<D: DeepView> List<D> {
    /// The total number of items over both shapes.
    pub fn count(&self) -> (r: usize)
        requires
            sp_count(self.deep_view()) <= usize::MAX,
        ensures
            r == sp_count(self.deep_view()),
    {
        match self {
            List::Basic(items) => items.len(),
            List::Sectioned(sections) => {
                let n = sections.len();
                let ghost dv = sections.deep_view();
                let mut acc: usize = 0;
                let mut i: usize = 0;
                proof {
                    assert(dv.skip(0) =~= dv);
                }
                while i < n
                    invariant
                        0 <= i <= n,
                        n == sections.len(),
                        dv == sections.deep_view(),
                        sp_count_sections(dv) <= usize::MAX,
                        acc + sp_count_sections(dv.skip(i as int)) == sp_count_sections(dv),
                    decreases n - i,
                {
                    proof {
                        lemma_count_sections_step(dv, i as int);
                        lemma_count_sections_nonneg(dv.skip(i + 1));
                        assert(dv[i as int] == sections[i as int].deep_view());
                        assert(dv[i as int].items.len() == sections[i as int].items.deep_view().len());
                    }
                    acc = acc + sections[i].items.len();
                    i = i + 1;
                }
                proof {
                    assert(dv.skip(n as int) =~= Seq::<SectionView<D::V>>::empty());
                }
                acc
            },
        }
    }
}

// ---------------------------------------------------------------------------
// Executable parsing
// ---------------------------------------------------------------------------

impl<P: ParseFromStr> List<P> {
    /// Parses a run of bullet lines into items; any line without the
    /// marker is a hard error.
    pub fn parse_basic<S: ParseFromStr>(lines: &Vec<String>) -> (r: ParseResult<Vec<S>>)
        ensures
            match r {
                Ok(items) => sp_parse_items::<S>(lines.deep_view()) == Some(items.deep_view()),
                Err(_) => sp_parse_items::<S>(lines.deep_view()) is None,
            },
    {
        proof {
            reveal_strlit("- ");
            assert("- "@ =~= seq!['-', ' ']);
        }
        let ghost dv = lines.deep_view();
        let n = lines.len();
        let mut out: Vec<S> = Vec::new();
        let mut i: usize = 0;
        proof {
            assert(dv.skip(0) =~= dv);
        }
        while i < n
            invariant
                0 <= i <= n,
                n == lines.len(),
                dv == lines.deep_view(),
                match sp_parse_items::<S>(dv.skip(i as int)) {
                    None => sp_parse_items::<S>(dv) is None,
                    Some(rest) => sp_parse_items::<S>(dv) == Some(out.deep_view() + rest),
                },
            decreases n - i,
        {
            proof {
                reveal_strlit("- ");
                assert("- "@ =~= seq!['-', ' ']);
                assert(dv.skip(i as int)[0] == dv[i as int]);
                assert(dv[i as int] == lines[i as int]@);
            }
            let line: &str = lines[i].as_str();
            let body = match strip_prefix_str(line, "- ") {
                Some(b) => b,
                None => {
                    proof {
                        assert(!sp_is_bullet(dv[i as int]));
                        assert(sp_parse_items::<S>(dv.skip(i as int)) is None);
                    }
                    return Err(ParseError::msg("list item must start with '- '"));
                },
            };
            let body = trim_start(body);
            let ghost prev = out.deep_view();
            match S::parse_from_str(body) {
                Err(e) => {
                    return Err(e);
                },
                Ok(item) => {
                    out.push(item);
                    proof {
                        assert(out.deep_view() =~= prev.push(item.deep_view()));
                        assert(dv.skip(i as int).skip(1) =~= dv.skip(i + 1 as int));
                        assert(sp_item_body(dv[i as int]) == body@);
                        match sp_parse_items::<S>(dv.skip(i + 1 as int)) {
                            None => {},
                            Some(rest) => {
                                assert(sp_parse_items::<S>(dv.skip(i as int)) == Some(
                                    seq![item.deep_view()] + rest,
                                ));
                                assert(prev + (seq![item.deep_view()] + rest) =~= prev.push(
                                    item.deep_view(),
                                ) + rest);
                            },
                        }
                    }
                },
            }
            i = i + 1;
        }
        proof {
            assert(dv.skip(n as int) =~= Seq::<Seq<char>>::empty());
            assert(out.deep_view() + Seq::<S::V>::empty() =~= out.deep_view());
        }
        Ok(out)
    }

    /// Parses sectioned lines: a non-bullet line names a section, the
    /// bullet lines after it are its items.
    fn parse_sectioned(lines: &Vec<String>) -> (r: ParseResult<Vec<Section<P>>>)
        ensures
            match r {
                Ok(sections) => sp_parse_sectioned::<P>(lines.deep_view()) == Some(
                    sections.deep_view(),
                ),
                Err(_) => sp_parse_sectioned::<P>(lines.deep_view()) is None,
            },
    {
        proof {
            reveal_strlit("- ");
            assert("- "@ =~= seq!['-', ' ']);
        }
        let ghost dv = lines.deep_view();
        let n = lines.len();
        let mut out: Vec<Section<P>> = Vec::new();
        let mut i: usize = 0;
        proof {
            assert(dv.skip(0) =~= dv);
        }
        while i < n
            invariant
                0 <= i <= n,
                n == lines.len(),
                dv == lines.deep_view(),
                match sp_parse_sectioned::<P>(dv.skip(i as int)) {
                    None => sp_parse_sectioned::<P>(dv) is None,
                    Some(rest) => sp_parse_sectioned::<P>(dv) == Some(out.deep_view() + rest),
                },
            decreases n - i,
        {
            proof {
                reveal_strlit("- ");
                assert("- "@ =~= seq!['-', ' ']);
                assert(dv.skip(i as int)[0] == dv[i as int]);
                assert(dv[i as int] == lines[i as int]@);
            }
            let name: String = lines[i].clone();
            if name.as_str().unicode_len() == 0 {
                return Err(ParseError::empty("list section name"));
            }
            let ghost k = sp_bullet_run(dv.skip(i + 1 as int));
            let ghost end = i + 1 + k;
            proof {
                lemma_bullet_run_spec(dv.skip(i + 1 as int));
                assert(end <= n);
            }
            let mut items: Vec<P> = Vec::new();
            let mut j: usize = i + 1;
            while j < n && starts_with_str(lines[j].as_str(), "- ")
                invariant
                    i + 1 <= j <= end,
                    end == i + 1 + k,
                    end <= n,
                    n == lines.len(),
                    dv == lines.deep_view(),
                    k == sp_bullet_run(dv.skip(i + 1 as int)),
                    dv.skip(i as int)[0].len() > 0,
                    match sp_parse_sectioned::<P>(dv.skip(i as int)) {
                        None => sp_parse_sectioned::<P>(dv) is None,
                        Some(rest) => sp_parse_sectioned::<P>(dv) == Some(
                            out.deep_view() + rest,
                        ),
                    },
                    match sp_parse_items::<P>(dv.subrange(j as int, end as int)) {
                        None => sp_parse_items::<P>(
                            dv.subrange(i + 1 as int, end as int),
                        ) is None,
                        Some(rest) => sp_parse_items::<P>(dv.subrange(i + 1 as int, end as int))
                            == Some(items.deep_view() + rest),
                    },
                decreases n - j,
            {
                proof {
                    reveal_strlit("- ");
                    assert("- "@ =~= seq!['-', ' ']);
                    lemma_bullet_run_spec(dv.skip(i + 1 as int));
                    assert(dv[j as int] == lines[j as int]@);
                    if j >= end {
                        assert(j < n);
                        assert(dv.skip(i + 1 as int)[k as int] == dv[end as int]);
                        assert(!sp_is_bullet(dv[j as int]));
                        assert(false);
                    }
                    assert(dv.subrange(j as int, end as int)[0] == dv[j as int]);
                }
                let line: &str = lines[j].as_str();
                let body = match strip_prefix_str(line, "- ") {
                    Some(b) => b,
                    None => {
                        proof {
                            assert(false);
                        }
                        return Err(ParseError::msg("list item must start with '- '"));
                    },
                };
                let body = trim_start(body);
                let ghost prev = items.deep_view();
                match P::parse_from_str(body) {
                    Err(e) => {
                        proof {
                            assert(sp_item_body(dv[j as int]) == body@);
                            assert(sp_parse_items::<P>(
                                dv.subrange(j as int, end as int),
                            ) is None);
                            assert(dv.skip(i as int).skip(1) =~= dv.skip(i + 1 as int));
                            assert(dv.skip(i + 1 as int).take(k as int) =~= dv.subrange(
                                i + 1 as int,
                                end as int,
                            ));
                            assert(sp_parse_sectioned::<P>(dv.skip(i as int)) is None);
                        }
                        return Err(e);
                    },
                    Ok(item) => {
                        items.push(item);
                        proof {
                            assert(items.deep_view() =~= prev.push(item.deep_view()));
                            assert(dv.subrange(j as int, end as int).skip(1) =~= dv.subrange(
                                j + 1 as int,
                                end as int,
                            ));
                            assert(sp_item_body(dv[j as int]) == body@);
                            match sp_parse_items::<P>(dv.subrange(j + 1 as int, end as int)) {
                                None => {},
                                Some(rest) => {
                                    assert(sp_parse_items::<P>(
                                        dv.subrange(j as int, end as int),
                                    ) == Some(seq![item.deep_view()] + rest));
                                    assert(prev + (seq![item.deep_view()] + rest) =~= prev.push(
                                        item.deep_view(),
                                    ) + rest);
                                },
                            }
                        }
                    },
                }
                j = j + 1;
            }
            proof {
                reveal_strlit("- ");
                assert("- "@ =~= seq!['-', ' ']);
                lemma_bullet_run_spec(dv.skip(i + 1 as int));
                if j < end {
                    assert(dv.skip(i + 1 as int)[j - i - 1] == dv[j as int]);
                    assert(sp_is_bullet(dv[j as int]));
                    assert(false);
                }
                assert(j == end);
                assert(dv.subrange(end as int, end as int) =~= Seq::<Seq<char>>::empty());
                assert(items.deep_view() + Seq::<P::V>::empty() =~= items.deep_view());
                assert(sp_parse_items::<P>(dv.subrange(i + 1 as int, end as int)) == Some(
                    items.deep_view(),
                ));
            }
            let ghost prev_out = out.deep_view();
            let section = Section::new(name, items);
            out.push(section);
            proof {
                assert(out.deep_view() =~= prev_out.push(section.deep_view()));
                assert(dv.skip(i as int).skip(1) =~= dv.skip(i + 1 as int));
                assert(dv.skip(i + 1 as int).take(k as int) =~= dv.subrange(
                    i + 1 as int,
                    end as int,
                ));
                assert(dv.skip(i + 1 as int).skip(k as int) =~= dv.skip(end as int));
                assert(section.deep_view() == (SectionView {
                    name: dv.skip(i as int)[0],
                    items: items.deep_view(),
                }));
                match sp_parse_sectioned::<P>(dv.skip(end as int)) {
                    None => {
                        assert(sp_parse_sectioned::<P>(dv.skip(i as int)) is None);
                    },
                    Some(rest) => {
                        assert(sp_parse_sectioned::<P>(dv.skip(i as int)) == Some(
                            seq![section.deep_view()] + rest,
                        ));
                        assert(prev_out + (seq![section.deep_view()] + rest) =~= prev_out.push(
                            section.deep_view(),
                        ) + rest);
                    },
                }
            }
            i = j;
        }
        proof {
            assert(dv.skip(n as int) =~= Seq::<Seq<char>>::empty());
            assert(out.deep_view() + Seq::<SectionView<P::V>>::empty() =~= out.deep_view());
        }
        Ok(out)
    }

    /// Parses a whole list; the first line (bullet or not) decides
    /// between the flat and the sectioned shape.
    pub fn try_from(lines: Vec<String>) -> (r: ParseResult<Self>)
        ensures
            match r {
                Ok(l) => sp_parse_list::<P>(lines.deep_view()) == Some(l.deep_view()),
                Err(_) => sp_parse_list::<P>(lines.deep_view()) is None,
            },
    {
        proof {
            reveal_strlit("- ");
            assert("- "@ =~= seq!['-', ' ']);
        }
        let basic = if lines.len() == 0 {
            true
        } else {
            proof {
                assert(lines.deep_view()[0] == lines[0]@);
            }
            starts_with_str(lines[0].as_str(), "- ")
        };
        if basic {
            match Self::parse_basic::<P>(&lines) {
                Ok(items) => Ok(List::Basic(items)),
                Err(e) => Err(e),
            }
        } else {
            match Self::parse_sectioned(&lines) {
                Ok(sections) => Ok(List::Sectioned(sections)),
                Err(e) => Err(e),
            }
        }
    }
}

// ---------------------------------------------------------------------------
// Executable formatting
// ---------------------------------------------------------------------------

/// Writes a run of items, one `<indent>- <item>` line each, a newline
/// after every line.
pub fn format_items<D: ParseFromStr>(items: &Vec<D>, indentation: &str) -> (r: String)
    ensures
        r@ == crate::reader::sp_unlines(
            sp_format_items_lines::<D>(items.deep_view(), indentation@),
        ),
{
    proof {
        reveal_strlit("- ");
        reveal_strlit("\n");
        assert("- "@ =~= seq!['-', ' ']);
        assert("\n"@ =~= seq!['\n']);
    }
    let ghost dv = items.deep_view();
    let ghost lines = sp_format_items_lines::<D>(dv, indentation@);
    let n = items.len();
    let mut out = String::new();
    let mut i: usize = 0;
    proof {
        assert(lines.take(0) =~= Seq::<Seq<char>>::empty());
    }
    while i < n
        invariant
            0 <= i <= n,
            n == items.len(),
            dv == items.deep_view(),
            lines == sp_format_items_lines::<D>(dv, indentation@),
            out@ == crate::reader::sp_unlines(lines.take(i as int)),
        decreases n - i,
    {
        proof {
            reveal_strlit("- ");
            reveal_strlit("\n");
            assert("- "@ =~= seq!['-', ' ']);
            assert("\n"@ =~= seq!['\n']);
            crate::reader::lemma_unlines_push(lines, i as int);
            assert(dv[i as int] == items[i as int].deep_view());
        }
        out.append(indentation);
        out.append("- ");
        let f = items[i].format();
        out.append(f.as_str());
        out.append("\n");
        proof {
            assert(lines[i as int] == indentation@ + seq!['-', ' '] + D::sp_format(
                dv[i as int],
            ));
            assert(out@ =~= crate::reader::sp_unlines(lines.take(i as int)) + lines[i as int]
                + seq!['\n']);
        }
        i = i + 1;
    }
    proof {
        assert(lines.take(n as int) =~= lines);
    }
    out
}

/// The lines of a prefix of the sections, extended by one section.
proof fn lemma_sections_lines_take_step<P: ParseFromStr>(
    sections: Seq<SectionView<P::V>>,
    ind: Seq<char>,
    i: int,
)
    requires
        0 <= i < sections.len(),
    ensures
        sp_format_sections_lines::<P>(sections.take(i + 1), ind) == sp_format_sections_lines::<
            P,
        >(sections.take(i), ind) + sp_format_section_lines::<P>(sections[i], ind),
    decreases i,
{
    if i == 0 {
        let t = sections.take(1);
        assert(t[0] == sections[0]);
        assert(t.skip(1) =~= Seq::<SectionView<P::V>>::empty());
        assert(sections.take(0) =~= Seq::<SectionView<P::V>>::empty());
        assert(sp_format_sections_lines::<P>(t, ind) == sp_format_section_lines::<P>(
            sections[0],
            ind,
        ) + sp_format_sections_lines::<P>(t.skip(1), ind));
        assert(sp_format_section_lines::<P>(sections[0], ind) + Seq::<Seq<char>>::empty()
            =~= sp_format_section_lines::<P>(sections[0], ind));
        assert(Seq::<Seq<char>>::empty() + sp_format_section_lines::<P>(sections[0], ind)
            =~= sp_format_section_lines::<P>(sections[0], ind));
    } else {
        lemma_sections_lines_take_step::<P>(sections.skip(1), ind, i - 1);
        let a = sections.take(i + 1);
        let b = sections.take(i);
        assert(a[0] == sections[0]);
        assert(b[0] == sections[0]);
        assert(a.skip(1) =~= sections.skip(1).take(i));
        assert(b.skip(1) =~= sections.skip(1).take(i - 1));
        assert(sections.skip(1)[i - 1] == sections[i]);
        assert(sp_format_section_lines::<P>(sections[0], ind) + (sp_format_sections_lines::<P>(
            sections.skip(1).take(i - 1),
            ind,
        ) + sp_format_section_lines::<P>(sections[i], ind)) =~= (sp_format_section_lines::<P>(
            sections[0],
            ind,
        ) + sp_format_sections_lines::<P>(sections.skip(1).take(i - 1), ind))
            + sp_format_section_lines::<P>(sections[i], ind));
    }
}

impl<P: ParseFromStr> Section<P> {
    /// Writes one section: its name line, then its items doubly
    /// indented.
    fn format(&self, indentation: &str) -> (r: String)
        ensures
            r@ == crate::reader::sp_unlines(
                sp_format_section_lines::<P>(self.deep_view(), indentation@),
            ),
    {
        proof {
            reveal_strlit("\n");
            assert("\n"@ =~= seq!['\n']);
        }
        let mut out = String::from_str(indentation);
        out.append(self.name.as_str());
        out.append("\n");
        let mut double = String::from_str(indentation);
        double.append(indentation);
        let items_text = format_items(&self.items, double.as_str());
        out.append(items_text.as_str());
        proof {
            let sv = self.deep_view();
            let name_line = indentation@ + sv.name;
            let item_lines = sp_format_items_lines::<P>(sv.items, indentation@ + indentation@);
            assert(sp_format_section_lines::<P>(sv, indentation@) =~= seq![name_line]
                + item_lines);
            crate::reader::lemma_unlines_concat(seq![name_line], item_lines);
            assert(crate::reader::sp_unlines(seq![name_line]) =~= name_line + seq!['\n']) by {
                assert(seq![name_line].skip(1) =~= Seq::<Seq<char>>::empty());
                assert(crate::reader::sp_unlines(Seq::<Seq<char>>::empty())
                    == Seq::<char>::empty());
                assert(crate::reader::sp_unlines(seq![name_line]) == seq![name_line][0]
                    + seq!['\n'] + crate::reader::sp_unlines(seq![name_line].skip(1)));
                assert(name_line + seq!['\n'] + Seq::<char>::empty() =~= name_line
                    + seq!['\n']);
            }
            assert(out@ =~= (name_line + seq!['\n']) + crate::reader::sp_unlines(item_lines));
        }
        out
    }
}

impl<P: ParseFromStr> List<P> {
    /// Writes the list: bullet lines, or per-section name lines with
    /// doubly indented bullet lines.
    pub fn format(&self, indentation: &str) -> (r: String)
        ensures
            r@ == crate::reader::sp_unlines(
                sp_format_list_lines::<P>(self.deep_view(), indentation@),
            ),
    {
        match self {
            List::Basic(items) => format_items(items, indentation),
            List::Sectioned(sections) => {
                let ghost dv = sections.deep_view();
                let ghost all = sp_format_sections_lines::<P>(dv, indentation@);
                let n = sections.len();
                let mut out = String::new();
                let mut i: usize = 0;
                proof {
                    assert(dv.take(0) =~= Seq::<SectionView<P::V>>::empty());
                    assert(crate::reader::sp_unlines(Seq::<Seq<char>>::empty())
                        == Seq::<char>::empty());
                }
                while i < n
                    invariant
                        0 <= i <= n,
                        n == sections.len(),
                        dv == sections.deep_view(),
                        out@ == crate::reader::sp_unlines(
                            sp_format_sections_lines::<P>(dv.take(i as int), indentation@),
                        ),
                    decreases n - i,
                {
                    let text = sections[i].format(indentation);
                    out.append(text.as_str());
                    proof {
                        assert(dv[i as int] == sections[i as int].deep_view());
                        lemma_sections_lines_take_step::<P>(dv, indentation@, i as int);
                        crate::reader::lemma_unlines_concat(
                            sp_format_sections_lines::<P>(dv.take(i as int), indentation@),
                            sp_format_section_lines::<P>(dv[i as int], indentation@),
                        );
                    }
                    i = i + 1;
                }
                proof {
                    assert(dv.take(n as int) =~= dv);
                }
                out
            },
        }
    }
}

// ---------------------------------------------------------------------------
// Round trip
// ---------------------------------------------------------------------------

/// Each line trimmed, as the reader hands blocks to the list parser.
pub open spec fn sp_trim_lines(lines: Seq<Seq<char>>) -> Seq<Seq<char>> {
    lines.map_values(|l: Seq<char>| sp_trim(l))
}

/// A line fit to stand inside a block of a document: free of newlines,
/// not ending in a carriage return, and not blank once trimmed.
pub open spec fn sp_good_line(l: Seq<char>) -> bool {
    crate::reader::sp_plain_line(l) && sp_trim(l).len() > 0
}

/// An indentation made of spaces only.
pub open spec fn sp_spaces(ind: Seq<char>) -> bool {
    forall|i: int| 0 <= i < ind.len() ==> ind[i] == ' '
}

/// The sections whose formatted lines parse back unchanged: a non-empty
/// trim-stable name that does not look like a bullet item, over
/// well-formed items.
pub open spec fn sp_wf_section<P: ParseFromStr>(s: SectionView<P::V>) -> bool {
    &&& crate::ingredient::sp_wf_text(s.name)
    &&& !sp_is_bullet(s.name)
    &&& forall|i: int| 0 <= i < s.items.len() ==> P::sp_wf(#[trigger] s.items[i])
}

/// The lists whose formatted lines parse back unchanged. A sectioned
/// list holds at least one section: an empty one would format to no
/// lines at all and read back as an empty flat list.
pub open spec fn sp_wf_list<P: ParseFromStr>(l: ListView<P::V>) -> bool {
    match l {
        ListView::Basic(items) => forall|i: int|
            0 <= i < items.len() ==> P::sp_wf(#[trigger] items[i]),
        ListView::Sectioned(sections) => sections.len() > 0 && forall|i: int|
            0 <= i < sections.len() ==> sp_wf_section::<P>(#[trigger] sections[i]),
    }
}

/// One formatted item line: what it trims to, and that it is a sound
/// block line.
proof fn lemma_item_line<P: ParseFromStr>(v: P::V, ind: Seq<char>)
    requires
        P::sp_wf(v),
        sp_spaces(ind),
    ensures
        ({
            let raw = ind + seq!['-', ' '] + P::sp_format(v);
            &&& sp_trim(raw) == seq!['-', ' '] + P::sp_format(v)
            &&& sp_is_bullet(sp_trim(raw))
            &&& sp_item_body(sp_trim(raw)) == P::sp_format(v)
            &&& sp_good_line(raw)
        }),
{
    let fmt = P::sp_format(v);
    let bl = seq!['-', ' '];
    let raw = ind + bl + fmt;
    P::lemma_round_trip(v);
    crate::strings::lemma_trim_start_skip(raw, ind.len() as int);
    assert(raw.skip(ind.len() as int) =~= bl + fmt);
    assert((bl + fmt)[0] == '-');
    crate::strings::lemma_trim_start_clean(bl + fmt);
    assert(sp_trim_start(raw) == bl + fmt);
    let last = (bl + fmt)[(bl + fmt).len() - 1];
    assert(last == fmt[fmt.len() - 1]);
    assert(!sp_is_ws(last)) by {
        if sp_is_ws(fmt[fmt.len() - 1]) {
            crate::strings::lemma_trim_drops_last(fmt);
        }
    }
    crate::strings::lemma_trim_end_clean(bl + fmt);
    assert(sp_trim(raw) == bl + fmt);
    assert(sp_is_bullet(bl + fmt)) by {
        assert((bl + fmt).subrange(0, 2) =~= bl);
    }
    assert(sp_skip_prefix(bl + fmt, bl) =~= fmt);
    assert(!sp_is_ws(fmt[0])) by {
        if sp_is_ws(fmt[0]) {
            crate::strings::lemma_trim_drops_first(fmt);
        }
    }
    crate::strings::lemma_trim_start_clean(fmt);
    // The raw line holds no newline and does not end in a carriage return.
    assert(forall|i: int| 0 <= i < ind.len() ==> ind[i] != '\n');
    crate::strings::lemma_char_free(ind, '\n');
    assert(forall|i: int| 0 <= i < bl.len() ==> bl[i] != '\n');
    crate::strings::lemma_char_free(bl, '\n');
    lemma_free_concat_lines(ind, bl, '\n');
    lemma_free_concat_lines(ind + bl, fmt, '\n');
    assert(raw[raw.len() - 1] == fmt[fmt.len() - 1]);
}

/// One formatted section-name line.
proof fn lemma_name_line(name: Seq<char>, ind: Seq<char>)
    requires
        crate::ingredient::sp_wf_text(name),
        sp_spaces(ind),
    ensures
        sp_trim(ind + name) == name,
        sp_good_line(ind + name),
{
    let raw = ind + name;
    crate::strings::lemma_trim_start_skip(raw, ind.len() as int);
    assert(raw.skip(ind.len() as int) =~= name);
    assert(!sp_is_ws(name[0])) by {
        if sp_is_ws(name[0]) {
            crate::strings::lemma_trim_drops_first(name);
        }
    }
    crate::strings::lemma_trim_start_clean(name);
    assert(!sp_is_ws(name[name.len() - 1])) by {
        if sp_is_ws(name[name.len() - 1]) {
            crate::strings::lemma_trim_drops_last(name);
        }
    }
    crate::strings::lemma_trim_end_clean(name);
    assert(sp_trim(raw) == name);
    assert(forall|i: int| 0 <= i < ind.len() ==> ind[i] != '\n');
    crate::strings::lemma_char_free(ind, '\n');
    lemma_free_concat_lines(ind, name, '\n');
    assert(raw[raw.len() - 1] == name[name.len() - 1]);
}

/// Freeness of a one-character pattern carries over concatenation.
proof fn lemma_free_concat_lines(a: Seq<char>, b: Seq<char>, c: char)
    requires
        sp_free(a, seq![c]),
        sp_free(b, seq![c]),
    ensures
        sp_free(a + b, seq![c]),
{
    crate::ingredient::lemma_free_concat(a, b, c);
}

/// Round trip for a run of items: the trimmed formatted lines parse
/// back to the items, every line is a bullet, and every raw line is a
/// sound block line.
pub proof fn lemma_items_round_trip<P: ParseFromStr>(items: Seq<P::V>, ind: Seq<char>)
    requires
        forall|i: int| 0 <= i < items.len() ==> P::sp_wf(#[trigger] items[i]),
        sp_spaces(ind),
    ensures
        sp_parse_items::<P>(sp_trim_lines(sp_format_items_lines::<P>(items, ind))) == Some(
            items,
        ),
        forall|i: int|
            0 <= i < items.len() ==> sp_good_line(
                #[trigger] sp_format_items_lines::<P>(items, ind)[i],
            ),
        forall|i: int|
            0 <= i < items.len() ==> sp_is_bullet(
                #[trigger] sp_trim_lines(sp_format_items_lines::<P>(items, ind))[i],
            ),
    decreases items.len(),
{
    let raw = sp_format_items_lines::<P>(items, ind);
    let t = sp_trim_lines(raw);
    assert(t.len() == items.len());
    if items.len() == 0 {
        assert(t =~= Seq::<Seq<char>>::empty());
    } else {
        lemma_item_line::<P>(items[0], ind);
        P::lemma_round_trip(items[0]);
        assert(t[0] == sp_trim(raw[0]));
        assert(raw[0] == ind + seq!['-', ' '] + P::sp_format(items[0]));
        lemma_items_round_trip::<P>(items.skip(1), ind);
        assert(t.skip(1) =~= sp_trim_lines(sp_format_items_lines::<P>(items.skip(1), ind)));
        assert(sp_parse_items::<P>(t) == Some(seq![items[0]] + items.skip(1)));
        assert(seq![items[0]] + items.skip(1) =~= items);
        assert forall|i: int| 0 <= i < items.len() implies sp_good_line(raw[i]) by {
            if i > 0 {
                assert(sp_format_items_lines::<P>(items.skip(1), ind)[i - 1] == raw[i]);
            }
        }
        assert forall|i: int| 0 <= i < items.len() implies sp_is_bullet(t[i]) by {
            if i > 0 {
                assert(sp_trim_lines(sp_format_items_lines::<P>(items.skip(1), ind))[i - 1]
                    == t[i]);
            }
        }
    }
}

/// Round trip for a run of sections.
#[verifier::rlimit(60)]
proof fn lemma_sections_round_trip<P: ParseFromStr>(sections: Seq<SectionView<P::V>>, ind: Seq<char>)
    requires
        forall|i: int| 0 <= i < sections.len() ==> sp_wf_section::<P>(#[trigger] sections[i]),
        sp_spaces(ind),
    ensures
        sp_parse_sectioned::<P>(sp_trim_lines(sp_format_sections_lines::<P>(sections, ind)))
            == Some(sections),
        forall|i: int|
            0 <= i < sp_format_sections_lines::<P>(sections, ind).len() ==> sp_good_line(
                #[trigger] sp_format_sections_lines::<P>(sections, ind)[i],
            ),
        sections.len() > 0 ==> sp_format_sections_lines::<P>(sections, ind).len() > 0,
        sections.len() > 0 ==> !sp_is_bullet(
            sp_trim_lines(sp_format_sections_lines::<P>(sections, ind))[0],
        ) && sp_trim_lines(sp_format_sections_lines::<P>(sections, ind))[0].len() > 0,
    decreases sections.len(),
{
    let raw = sp_format_sections_lines::<P>(sections, ind);
    let t = sp_trim_lines(raw);
    if sections.len() == 0 {
        assert(t =~= Seq::<Seq<char>>::empty());
    } else {
        let s0 = sections[0];
        let ind2 = ind + ind;
        assert(sp_spaces(ind2)) by {
            assert forall|i: int| 0 <= i < ind2.len() implies ind2[i] == ' ' by {
                if i < ind.len() {
                    assert(ind2[i] == ind[i]);
                } else {
                    assert(ind2[i] == ind[i - ind.len()]);
                }
            }
        }
        let m = s0.items.len() as int;
        let item_raw = sp_format_items_lines::<P>(s0.items, ind2);
        let rest_raw = sp_format_sections_lines::<P>(sections.skip(1), ind);
        assert(raw == (seq![ind + s0.name] + item_raw) + rest_raw);
        lemma_name_line(s0.name, ind);
        lemma_items_round_trip::<P>(s0.items, ind2);
        lemma_sections_round_trip::<P>(sections.skip(1), ind);
        let item_t = sp_trim_lines(item_raw);
        let rest_t = sp_trim_lines(rest_raw);
        assert(t[0] == sp_trim(ind + s0.name));
        assert(t[0] == s0.name);
        assert(t.skip(1) =~= item_t + rest_t);
        // The bullet run after the name covers exactly the items.
        lemma_bullet_run_spec(t.skip(1));
        let k = sp_bullet_run(t.skip(1));
        assert forall|i: int| 0 <= i < m implies sp_is_bullet(#[trigger] t.skip(1)[i]) by {
            assert(t.skip(1)[i] == item_t[i]);
        }
        if m < t.skip(1).len() {
            assert(t.skip(1)[m] == rest_t[0]);
            assert(!sp_is_bullet(t.skip(1)[m]));
        }
        assert(k == m) by {
            if k < m {
                assert(!sp_is_bullet(t.skip(1)[k as int]));
                assert(sp_is_bullet(t.skip(1)[k as int]));
            }
            if k > m {
                assert(m < t.skip(1).len());
                assert(sp_is_bullet(t.skip(1)[m]));
                assert(!sp_is_bullet(t.skip(1)[m]));
            }
        }
        assert(t.skip(1).take(m) =~= item_t);
        assert(t.skip(1).skip(m) =~= rest_t);
        assert(sp_parse_items::<P>(item_t) == Some(s0.items));
        assert(sp_parse_sectioned::<P>(rest_t) == Some(sections.skip(1)));
        assert(t.len() > 0);
        assert(t[0].len() > 0);
        assert((SectionView { name: t[0], items: s0.items }) == s0);
        assert(sp_parse_sectioned::<P>(t) == Some(seq![s0] + sections.skip(1)));
        assert(seq![s0] + sections.skip(1) =~= sections);
        // Every raw line is sound.
        assert forall|i: int| 0 <= i < raw.len() implies sp_good_line(raw[i]) by {
            if i == 0 {
                assert(raw[0] == ind + s0.name);
            } else if i <= m {
                assert(raw[i] == item_raw[i - 1]);
            } else {
                assert(raw[i] == rest_raw[i - 1 - m]);
            }
        }
        assert(!sp_is_bullet(t[0]));
    }
}

/// Round trip for lists: the formatted lines of a well-formed list,
/// trimmed as the reader trims them, parse back to the same list; and
/// every raw line can stand inside one block.
pub proof fn lemma_list_round_trip<P: ParseFromStr>(l: ListView<P::V>, ind: Seq<char>)
    requires
        sp_wf_list::<P>(l),
        sp_spaces(ind),
    ensures
        sp_parse_list::<P>(sp_trim_lines(sp_format_list_lines::<P>(l, ind))) == Some(l),
        forall|i: int|
            0 <= i < sp_format_list_lines::<P>(l, ind).len() ==> sp_good_line(
                #[trigger] sp_format_list_lines::<P>(l, ind)[i],
            ),
{
    let raw = sp_format_list_lines::<P>(l, ind);
    let t = sp_trim_lines(raw);
    match l {
        ListView::Basic(items) => {
            lemma_items_round_trip::<P>(items, ind);
            if items.len() == 0 {
                assert(t =~= Seq::<Seq<char>>::empty());
            } else {
                assert(sp_is_bullet(t[0]));
            }
        },
        ListView::Sectioned(sections) => {
            lemma_sections_round_trip::<P>(sections, ind);
            assert(t.len() > 0);
            assert(!sp_is_bullet(t[0]));
        },
    }
}

} // verus!
