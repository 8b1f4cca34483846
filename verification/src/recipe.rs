//! The recipe document model: parse-and-format capability for line items,
//! and the `Recipe` document assembled from title, metadata, ingredient
//! and instruction lists, and notes.

use vstd::prelude::*;

use crate::errors::{ParseError, ParseResult};
use crate::strings::{sp_free, sp_trim, trim};

verus! {

/// A value that can be read from one line of recipe text and written
/// back to one. `sp_parse` and `sp_format` are the mathematical parser
/// and formatter; `sp_wf` describes the values whose formatted line
/// parses back to the same value, which `lemma_round_trip` proves.
pub trait ParseFromStr: Sized + DeepView {
    /// What parsing a line yields, `None` standing for a parse error.
    spec fn sp_parse(s: Seq<char>) -> Option<Self::V>;

    /// The line a value formats to.
    spec fn sp_format(v: Self::V) -> Seq<char>;

    /// The values whose formatted line reads back unchanged.
    spec fn sp_wf(v: Self::V) -> bool;

    /// Parses one line of text.
    fn parse_from_str(s: &str) -> (r: ParseResult<Self>)
        ensures
            r matches Ok(v) ==> Self::sp_parse(s@) == Some(v.deep_view()),
            r is Err ==> Self::sp_parse(s@) is None,
    ;

    /// Writes the value as one line of text.
    fn format(&self) -> (r: String)
        ensures
            r@ == Self::sp_format(self.deep_view()),
    ;

    /// Round trip: a well-formed value's formatted line parses back to
    /// the value itself, and the line is fit to stand in a larger
    /// document: non-empty, trim-stable, and free of newlines.
    proof fn lemma_round_trip(v: Self::V)
        requires
            Self::sp_wf(v),
        ensures
            Self::sp_parse(Self::sp_format(v)) == Some(v),
            Self::sp_format(v).len() > 0,
            sp_trim(Self::sp_format(v)) == Self::sp_format(v),
            sp_free(Self::sp_format(v), seq!['\n']),
    ;
}

impl ParseFromStr for String {
    /// A plain text item: the line itself.
    open spec fn sp_parse(s: Seq<char>) -> Option<Seq<char>> {
        Some(s)
    }

    open spec fn sp_format(v: Seq<char>) -> Seq<char> {
        v
    }

    open spec fn sp_wf(v: Seq<char>) -> bool {
        v.len() > 0 && sp_trim(v) == v && sp_free(v, seq!['\n'])
    }

    fn parse_from_str(s: &str) -> (r: ParseResult<Self>) {
        Ok(s.to_owned())
    }

    fn format(&self) -> (r: String) {
        self.clone()
    }

    proof fn lemma_round_trip(v: Seq<char>) {
    }
}

// ---------------------------------------------------------------------------
// The recipe document
// ---------------------------------------------------------------------------

/// A whole recipe: title, metadata, ingredients, instructions, and
/// optional notes.
#[derive(Debug, PartialEq)]
pub struct Recipe {
    pub title: String,
    pub metadata: crate::metadata::Metadata,
    pub ingredients: crate::list::List<crate::ingredient::Ingredient>,
    pub instructions: crate::list::List<String>,
    pub notes: Vec<String>,
}

/// The mathematical value of a `Recipe`.
pub struct RecipeView {
    pub title: Seq<char>,
    pub metadata: crate::metadata::MetadataView,
    pub ingredients: crate::list::ListView<crate::ingredient::IngredientView>,
    pub instructions: crate::list::ListView<Seq<char>>,
    pub notes: Seq<Seq<char>>,
}

impl DeepView for Recipe {
    type V = RecipeView;

    open spec fn deep_view(&self) -> RecipeView {
        RecipeView {
            title: self.title@,
            metadata: self.metadata.deep_view(),
            ingredients: self.ingredients.deep_view(),
            instructions: self.instructions.deep_view(),
            notes: self.notes.deep_view(),
        }
    }
}

/// The `Ingredients` headline.
pub open spec fn hl_ingredients() -> Seq<char> {
    seq!['I', 'n', 'g', 'r', 'e', 'd', 'i', 'e', 'n', 't', 's']
}

/// The `Instructions` headline.
pub open spec fn hl_instructions() -> Seq<char> {
    seq!['I', 'n', 's', 't', 'r', 'u', 'c', 't', 'i', 'o', 'n', 's']
}

/// The `Notes` headline.
pub open spec fn hl_notes() -> Seq<char> {
    seq!['N', 'o', 't', 'e', 's']
}

/// What parsing a title block yields: exactly one line.
pub open spec fn sp_parse_title(b: Seq<Seq<char>>) -> Option<Seq<char>> {
    if b.len() != 1 {
        None
    } else {
        Some(b[0])
    }
}

/// What parsing a headlined list block yields: the headline alone on
/// the first line, the list on the rest.
pub open spec fn sp_parse_headlined<P: ParseFromStr>(b: Seq<Seq<char>>, hl: Seq<char>) -> Option<
    crate::list::ListView<P::V>,
> {
    if b.len() == 0 || b[0] != hl {
        None
    } else {
        crate::list::sp_parse_list::<P>(b.skip(1))
    }
}

/// What parsing a notes block yields: the `Notes` headline, then a
/// flat bullet list.
pub open spec fn sp_parse_notes(b: Seq<Seq<char>>) -> Option<Seq<Seq<char>>> {
    if b.len() == 0 || b[0] != hl_notes() {
        None
    } else {
        crate::list::sp_parse_items::<String>(b.skip(1))
    }
}

/// What parsing a whole recipe text yields: five blocks in fixed order,
/// the last optional.
pub open spec fn sp_parse_recipe(text: Seq<char>) -> Option<RecipeView> {
    let lines = crate::reader::sp_lines(text);
    let (b1, r1) = crate::reader::sp_next_block(lines, true);
    match b1 {
        None => None,
        Some(tb) => match sp_parse_title(tb) {
            None => None,
            Some(title) => {
                let (b2, r2) = crate::reader::sp_next_block(r1, true);
                match b2 {
                    None => None,
                    Some(mb) => match crate::metadata::sp_parse_metadata(mb) {
                        None => None,
                        Some(metadata) => {
                            let (b3, r3) = crate::reader::sp_next_block(r2, true);
                            match b3 {
                                None => None,
                                Some(gb) => match sp_parse_headlined::<
                                    crate::ingredient::Ingredient,
                                >(gb, hl_ingredients()) {
                                    None => None,
                                    Some(ingredients) => {
                                        let (b4, r4) = crate::reader::sp_next_block(r3, true);
                                        match b4 {
                                            None => None,
                                            Some(sb) => match sp_parse_headlined::<String>(
                                                sb,
                                                hl_instructions(),
                                            ) {
                                                None => None,
                                                Some(instructions) => {
                                                    let (b5, r5) = crate::reader::sp_next_block(
                                                        r4,
                                                        true,
                                                    );
                                                    match b5 {
                                                        None => Some(
                                                            RecipeView {
                                                                title,
                                                                metadata,
                                                                ingredients,
                                                                instructions,
                                                                notes: seq![],
                                                            },
                                                        ),
                                                        Some(nb) => match sp_parse_notes(nb) {
                                                            None => None,
                                                            Some(notes) => Some(
                                                                RecipeView {
                                                                    title,
                                                                    metadata,
                                                                    ingredients,
                                                                    instructions,
                                                                    notes,
                                                                },
                                                            ),
                                                        },
                                                    }
                                                },
                                            },
                                        }
                                    },
                                },
                            }
                        },
                    },
                }
            },
        },
    }
}

/// The two-space indentation unit of formatted lists.
pub open spec fn sp_indent() -> Seq<char> {
    seq![' ', ' ']
}

/// The lines of a formatted recipe, in canonical order.
pub open spec fn sp_recipe_lines(v: RecipeView) -> Seq<Seq<char>> {
    seq![v.title, Seq::<char>::empty()] + crate::metadata::sp_format_metadata_lines(v.metadata)
        + seq![Seq::<char>::empty(), hl_ingredients()] + crate::list::sp_format_list_lines::<
        crate::ingredient::Ingredient,
    >(v.ingredients, sp_indent()) + seq![Seq::<char>::empty(), hl_instructions()]
        + crate::list::sp_format_list_lines::<String>(v.instructions, sp_indent()) + (
    if v.notes.len() > 0 {
        seq![Seq::<char>::empty(), hl_notes()] + crate::list::sp_format_items_lines::<String>(
            v.notes,
            sp_indent(),
        )
    } else {
        Seq::<Seq<char>>::empty()
    })
}

/// The canonical text of a recipe.
pub open spec fn sp_format_recipe(v: RecipeView) -> Seq<char> {
    crate::reader::sp_unlines(sp_recipe_lines(v))
}

/// The recipes whose canonical text parses back to the same value.
pub open spec fn sp_wf_recipe(v: RecipeView) -> bool {
    &&& crate::ingredient::sp_wf_text(v.title)
    &&& crate::metadata::sp_wf_metadata(v.metadata)
    &&& crate::list::sp_wf_list::<crate::ingredient::Ingredient>(v.ingredients)
    &&& crate::list::sp_wf_list::<String>(v.instructions)
    &&& forall|i: int| 0 <= i < v.notes.len() ==> String::sp_wf(#[trigger] v.notes[i])
}

impl Recipe {
    /// Parses a recipe from its text: title, metadata, ingredients and
    /// instructions blocks in order, then an optional notes block.
    pub fn parse_from(text: &str) -> (r: ParseResult<Recipe>)
        ensures
            match r {
                Ok(rec) => sp_parse_recipe(text@) == Some(rec.deep_view()),
                Err(_) => sp_parse_recipe(text@) is None,
            },
    {
        let mut reader = crate::reader::Reader::new(text, true);
        let tb = match reader.next_block() {
            None => {
                return Err(ParseError::msg("missing title"));
            },
            Some(b) => b,
        };
        let title = match Self::parse_title(tb) {
            Ok(t) => t,
            Err(e) => {
                return Err(e);
            },
        };
        let mb = match reader.next_block() {
            None => {
                return Err(ParseError::msg("missing metadata"));
            },
            Some(b) => b,
        };
        let metadata = match crate::metadata::Metadata::try_from(mb) {
            Ok(m) => m,
            Err(e) => {
                return Err(e);
            },
        };
        let gb = match reader.next_block() {
            None => {
                return Err(ParseError::msg("missing ingredients"));
            },
            Some(b) => b,
        };
        let ingredients = match Self::parse_ingredients(gb) {
            Ok(l) => l,
            Err(e) => {
                return Err(e);
            },
        };
        let sb = match reader.next_block() {
            None => {
                return Err(ParseError::msg("missing instructions"));
            },
            Some(b) => b,
        };
        let instructions = match Self::parse_instructions(sb) {
            Ok(l) => l,
            Err(e) => {
                return Err(e);
            },
        };
        let notes = match reader.next_block() {
            None => {
                let empty_notes: Vec<String> = Vec::new();
                proof {
                    assert(empty_notes.deep_view() =~= Seq::<Seq<char>>::empty());
                }
                empty_notes
            },
            Some(nb) => match Self::parse_notes(nb) {
                Ok(n) => n,
                Err(e) => {
                    return Err(e);
                },
            },
        };
        Ok(Recipe { title, metadata, ingredients, instructions, notes })
    }

    /// Reads the title block: exactly one line.
    fn parse_title(lines: Vec<String>) -> (r: ParseResult<String>)
        ensures
            match r {
                Ok(t) => sp_parse_title(lines.deep_view()) == Some(t@),
                Err(_) => sp_parse_title(lines.deep_view()) is None,
            },
    {
        if lines.len() > 1 {
            return Err(ParseError::msg("missing empty line after title line"));
        }
        if lines.len() == 0 {
            return Err(ParseError::empty("title line"));
        }
        proof {
            assert(lines.deep_view()[0] == lines[0]@);
        }
        Ok(lines[0].clone())
    }

    /// Reads the ingredients block: the `Ingredients` headline, then
    /// the list.
    fn parse_ingredients(lines: Vec<String>) -> (r: ParseResult<
        crate::list::List<crate::ingredient::Ingredient>,
    >)
        ensures
            match r {
                Ok(l) => sp_parse_headlined::<crate::ingredient::Ingredient>(
                    lines.deep_view(),
                    hl_ingredients(),
                ) == Some(l.deep_view()),
                Err(_) => sp_parse_headlined::<crate::ingredient::Ingredient>(
                    lines.deep_view(),
                    hl_ingredients(),
                ) is None,
            },
    {
        proof {
            reveal_strlit("Ingredients");
            assert("Ingredients"@ =~= hl_ingredients());
        }
        let mut lines = lines;
        if lines.len() == 0 || !crate::strings::eq_str(lines[0].as_str(), "Ingredients") {
            proof {
                if lines.len() > 0 {
                    assert(lines.deep_view()[0] == lines[0]@);
                }
            }
            return Err(ParseError::msg("missing headline 'Ingredients'"));
        }
        let ghost dv = lines.deep_view();
        lines.remove(0);
        proof {
            assert(lines.deep_view() =~= dv.skip(1));
        }
        crate::list::List::try_from(lines)
    }

    /// Reads the instructions block: the `Instructions` headline, then
    /// the list.
    fn parse_instructions(lines: Vec<String>) -> (r: ParseResult<crate::list::List<String>>)
        ensures
            match r {
                Ok(l) => sp_parse_headlined::<String>(lines.deep_view(), hl_instructions())
                    == Some(l.deep_view()),
                Err(_) => sp_parse_headlined::<String>(
                    lines.deep_view(),
                    hl_instructions(),
                ) is None,
            },
    {
        proof {
            reveal_strlit("Instructions");
            assert("Instructions"@ =~= hl_instructions());
        }
        let mut lines = lines;
        if lines.len() == 0 || !crate::strings::eq_str(lines[0].as_str(), "Instructions") {
            proof {
                if lines.len() > 0 {
                    assert(lines.deep_view()[0] == lines[0]@);
                }
            }
            return Err(ParseError::msg("missing headline 'Instructions'"));
        }
        let ghost dv = lines.deep_view();
        lines.remove(0);
        proof {
            assert(lines.deep_view() =~= dv.skip(1));
        }
        crate::list::List::try_from(lines)
    }

    /// Reads the notes block: the `Notes` headline, then a flat bullet
    /// list.
    fn parse_notes(lines: Vec<String>) -> (r: ParseResult<Vec<String>>)
        ensures
            match r {
                Ok(n) => sp_parse_notes(lines.deep_view()) == Some(n.deep_view()),
                Err(_) => sp_parse_notes(lines.deep_view()) is None,
            },
    {
        proof {
            reveal_strlit("Notes");
            assert("Notes"@ =~= hl_notes());
        }
        let mut lines = lines;
        if lines.len() == 0 || !crate::strings::eq_str(lines[0].as_str(), "Notes") {
            proof {
                if lines.len() > 0 {
                    assert(lines.deep_view()[0] == lines[0]@);
                }
            }
            return Err(ParseError::msg("expected headline 'Notes'"));
        }
        let ghost dv = lines.deep_view();
        lines.remove(0);
        proof {
            assert(lines.deep_view() =~= dv.skip(1));
        }
        crate::list::List::<String>::parse_basic::<String>(&lines)
    }

    /// Writes the canonical text: title, blank line, metadata, blank
    /// line, the two headlined lists, and the notes when there are any.
    pub fn format(&self) -> (r: String)
        ensures
            r@ == sp_format_recipe(self.deep_view()),
    {
        proof {
            reveal_strlit("\n");
            reveal_strlit("Ingredients\n");
            reveal_strlit("\nInstructions\n");
            reveal_strlit("\nNotes\n");
            reveal_strlit("  ");
            assert("\n"@ =~= seq!['\n']);
            assert("Ingredients\n"@ =~= hl_ingredients() + seq!['\n']);
            assert("\nInstructions\n"@ =~= seq!['\n'] + hl_instructions() + seq!['\n']);
            assert("\nNotes\n"@ =~= seq!['\n'] + hl_notes() + seq!['\n']);
            assert("  "@ =~= sp_indent());
        }
        let ghost v = self.deep_view();
        let mut s = String::from_str(self.title.as_str());
        s.append("\n");
        s.append("\n");
        let fm = self.metadata.format();
        s.append(fm.as_str());
        s.append("\n");
        s.append("Ingredients\n");
        let fi = self.ingredients.format("  ");
        s.append(fi.as_str());
        s.append("\nInstructions\n");
        let fs = self.instructions.format("  ");
        s.append(fs.as_str());
        if self.notes.len() > 0 {
            s.append("\nNotes\n");
            let fn_ = crate::list::format_items(&self.notes, "  ");
            s.append(fn_.as_str());
        }
        proof {
            let lines = sp_recipe_lines(v);
            lemma_recipe_lines_unlines(v);
            assert(s@ =~= sp_format_recipe(v));
        }
        s
    }
}

/// The recipes among the texts that parse, in order.
pub open spec fn sp_successes(ts: Seq<Seq<char>>) -> Seq<RecipeView>
    decreases ts.len(),
{
    if ts.len() == 0 {
        seq![]
    } else {
        match sp_parse_recipe(ts[0]) {
            Some(v) => seq![v] + sp_successes(ts.skip(1)),
            None => sp_successes(ts.skip(1)),
        }
    }
}

/// How many of the texts fail to parse.
pub open spec fn sp_failures(ts: Seq<Seq<char>>) -> int
    decreases ts.len(),
{
    if ts.len() == 0 {
        0
    } else {
        (if sp_parse_recipe(ts[0]) is None {
            1int
        } else {
            0int
        }) + sp_failures(ts.skip(1))
    }
}

impl Recipe {
    /// Parses a batch of recipe texts: a text that fails to parse is
    /// recorded as one failure and the batch goes on, rather than
    /// aborting the whole listing.
    pub fn parse_all(texts: &Vec<String>) -> (r: (Vec<Recipe>, usize))
        ensures
            r.0.deep_view() == sp_successes(texts.deep_view()),
            r.1 == sp_failures(texts.deep_view()),
            r.0.len() + r.1 == texts.len(),
    {
        let ghost dv = texts.deep_view();
        let n = texts.len();
        let mut out: Vec<Recipe> = Vec::new();
        let mut failures: usize = 0;
        let mut i: usize = 0;
        proof {
            assert(dv.skip(0) =~= dv);
        }
        while i < n
            invariant
                0 <= i <= n,
                n == texts.len(),
                dv == texts.deep_view(),
                out.len() + failures == i,
                sp_successes(dv) == out.deep_view() + sp_successes(dv.skip(i as int)),
                sp_failures(dv) == failures + sp_failures(dv.skip(i as int)),
            decreases n - i,
        {
            proof {
                assert(dv.skip(i as int)[0] == dv[i as int]);
                assert(dv[i as int] == texts[i as int]@);
                assert(dv.skip(i as int).skip(1) =~= dv.skip(i + 1 as int));
            }
            let ghost prev = out.deep_view();
            match Recipe::parse_from(texts[i].as_str()) {
                Ok(rec) => {
                    out.push(rec);
                    proof {
                        assert(out.deep_view() =~= prev.push(rec.deep_view()));
                        assert(prev + (seq![rec.deep_view()] + sp_successes(
                            dv.skip(i + 1 as int),
                        )) =~= prev.push(rec.deep_view()) + sp_successes(dv.skip(i + 1 as int)));
                    }
                },
                Err(_) => {
                    failures = failures + 1;
                },
            }
            i = i + 1;
        }
        proof {
            assert(dv.skip(n as int) =~= Seq::<Seq<char>>::empty());
            assert(out.deep_view() + Seq::<RecipeView>::empty() =~= out.deep_view());
        }
        (out, failures)
    }
}

/// The text of a recipe is its lines joined: the concatenation the
/// formatter builds piecewise equals `sp_unlines` of the line list.
proof fn lemma_recipe_lines_unlines(v: RecipeView)
    ensures
        sp_format_recipe(v) == v.title + seq!['\n'] + seq!['\n'] + crate::reader::sp_unlines(
            crate::metadata::sp_format_metadata_lines(v.metadata),
        ) + seq!['\n'] + (hl_ingredients() + seq!['\n']) + crate::reader::sp_unlines(
            crate::list::sp_format_list_lines::<crate::ingredient::Ingredient>(
                v.ingredients,
                sp_indent(),
            ),
        ) + (seq!['\n'] + hl_instructions() + seq!['\n']) + crate::reader::sp_unlines(
            crate::list::sp_format_list_lines::<String>(v.instructions, sp_indent()),
        ) + (if v.notes.len() > 0 {
            (seq!['\n'] + hl_notes() + seq!['\n']) + crate::reader::sp_unlines(
                crate::list::sp_format_items_lines::<String>(v.notes, sp_indent()),
            )
        } else {
            Seq::<char>::empty()
        }),
{
    let meta = crate::metadata::sp_format_metadata_lines(v.metadata);
    let ing = crate::list::sp_format_list_lines::<crate::ingredient::Ingredient>(
        v.ingredients,
        sp_indent(),
    );
    let ins = crate::list::sp_format_list_lines::<String>(v.instructions, sp_indent());
    let nts = crate::list::sp_format_items_lines::<String>(v.notes, sp_indent());
    let head: Seq<Seq<char>> = seq![v.title, Seq::<char>::empty()];
    let sep_g: Seq<Seq<char>> = seq![Seq::<char>::empty(), hl_ingredients()];
    let sep_s: Seq<Seq<char>> = seq![Seq::<char>::empty(), hl_instructions()];
    let sep_n: Seq<Seq<char>> = seq![Seq::<char>::empty(), hl_notes()];
    let tail: Seq<Seq<char>> = if v.notes.len() > 0 {
        sep_n + nts
    } else {
        Seq::<Seq<char>>::empty()
    };
    crate::reader::lemma_unlines_concat(head, meta);
    crate::reader::lemma_unlines_concat(head + meta, sep_g);
    crate::reader::lemma_unlines_concat(head + meta + sep_g, ing);
    crate::reader::lemma_unlines_concat(head + meta + sep_g + ing, sep_s);
    crate::reader::lemma_unlines_concat(head + meta + sep_g + ing + sep_s, ins);
    crate::reader::lemma_unlines_concat(head + meta + sep_g + ing + sep_s + ins, tail);
    if v.notes.len() > 0 {
        crate::reader::lemma_unlines_concat(sep_n, nts);
    }
    lemma_unlines_pair(v.title, Seq::<char>::empty());
    lemma_unlines_pair(Seq::<char>::empty(), hl_ingredients());
    lemma_unlines_pair(Seq::<char>::empty(), hl_instructions());
    lemma_unlines_pair(Seq::<char>::empty(), hl_notes());
    assert(sp_recipe_lines(v) =~= head + meta + sep_g + ing + sep_s + ins + tail);
    assert((((((head + meta) + sep_g) + ing) + sep_s) + ins) + tail =~= sp_recipe_lines(v));
    assert(sp_format_recipe(v) =~= v.title + seq!['\n'] + seq!['\n'] + crate::reader::sp_unlines(
        meta,
    ) + seq!['\n'] + (hl_ingredients() + seq!['\n']) + crate::reader::sp_unlines(ing) + (
    seq!['\n'] + hl_instructions() + seq!['\n']) + crate::reader::sp_unlines(ins) + (
    if v.notes.len() > 0 {
        (seq!['\n'] + hl_notes() + seq!['\n']) + crate::reader::sp_unlines(nts)
    } else {
        Seq::<char>::empty()
    }));
}

/// Round trip for whole recipes: parsing the canonical text of any
/// well-formed recipe value yields that value back, structurally equal.
#[verifier::rlimit(100)]
pub proof fn lemma_recipe_round_trip(v: RecipeView)
    requires
        sp_wf_recipe(v),
    ensures
        sp_parse_recipe(sp_format_recipe(v)) == Some(v),
{
    let t = true;
    let ind = sp_indent();
    let empty_line = Seq::<char>::empty();
    let meta = crate::metadata::sp_format_metadata_lines(v.metadata);
    let ing = crate::list::sp_format_list_lines::<crate::ingredient::Ingredient>(
        v.ingredients,
        ind,
    );
    let ins = crate::list::sp_format_list_lines::<String>(v.instructions, ind);
    let nts = crate::list::sp_format_items_lines::<String>(v.notes, ind);
    let lines = sp_recipe_lines(v);
    assert(ind[0] == ' ' && ind[1] == ' ');
    assert(crate::list::sp_spaces(ind));
    crate::metadata::lemma_metadata_round_trip(v.metadata);
    crate::list::lemma_list_round_trip::<crate::ingredient::Ingredient>(v.ingredients, ind);
    crate::list::lemma_list_round_trip::<String>(v.instructions, ind);
    // The headlines are plain, trim-stable, non-blank lines.
    assert(forall|i: int|
        0 <= i < hl_ingredients().len() ==> !crate::strings::sp_is_ws(
            #[trigger] hl_ingredients()[i],
        ) && hl_ingredients()[i] != '\n');
    assert(forall|i: int|
        0 <= i < hl_instructions().len() ==> !crate::strings::sp_is_ws(
            #[trigger] hl_instructions()[i],
        ) && hl_instructions()[i] != '\n');
    assert(forall|i: int|
        0 <= i < hl_notes().len() ==> !crate::strings::sp_is_ws(#[trigger] hl_notes()[i])
            && hl_notes()[i] != '\n');
    crate::strings::lemma_trim_stable(hl_ingredients());
    crate::strings::lemma_trim_stable(hl_instructions());
    crate::strings::lemma_trim_stable(hl_notes());
    crate::strings::lemma_char_free(hl_ingredients(), '\n');
    crate::strings::lemma_char_free(hl_instructions(), '\n');
    crate::strings::lemma_char_free(hl_notes(), '\n');
    // The title is a plain, trim-stable, non-blank line.
    assert(!crate::strings::sp_is_ws(v.title[v.title.len() - 1])) by {
        if crate::strings::sp_is_ws(v.title[v.title.len() - 1]) {
            crate::strings::lemma_trim_drops_last(v.title);
        }
    }
    crate::ingredient::lemma_free_char_elem(v.title, '\n');
    // Every line of the document is plain, so the text splits back into
    // exactly these lines.
    assert(crate::reader::sp_plain_line(empty_line));
    assert forall|i: int| 0 <= i < lines.len() implies crate::reader::sp_plain_line(
        #[trigger] lines[i],
    ) by {
        lemma_line_classified(v, i);
    }
    crate::reader::lemma_lines_unlines(lines);
    assert(crate::reader::sp_lines(sp_format_recipe(v)) == lines);
    // The blocks of the document.
    let b1: Seq<Seq<char>> = seq![v.title];
    let b2 = meta;
    let b3 = seq![hl_ingredients()] + ing;
    let b4 = seq![hl_instructions()] + ins;
    let b5 = seq![hl_notes()] + nts;
    let rest1 = meta + seq![empty_line, hl_ingredients()] + ing + seq![
        empty_line,
        hl_instructions(),
    ] + ins + (if v.notes.len() > 0 {
        seq![empty_line, hl_notes()] + nts
    } else {
        Seq::<Seq<char>>::empty()
    });
    let rest2 = seq![hl_ingredients()] + ing + seq![empty_line, hl_instructions()] + ins + (
    if v.notes.len() > 0 {
        seq![empty_line, hl_notes()] + nts
    } else {
        Seq::<Seq<char>>::empty()
    });
    let rest3 = seq![hl_instructions()] + ins + (if v.notes.len() > 0 {
        seq![empty_line, hl_notes()] + nts
    } else {
        Seq::<Seq<char>>::empty()
    });
    let rest4: Seq<Seq<char>> = if v.notes.len() > 0 {
        seq![hl_notes()] + nts
    } else {
        Seq::<Seq<char>>::empty()
    };
    // Block 1: the title.
    assert(lines =~= b1 + seq![empty_line] + rest1);
    assert(!crate::reader::sp_blank(v.title, t));
    lemma_next_block_chunk_local(b1, rest1);
    assert(crate::reader::sp_proc_lines(b1, t) =~= seq![v.title]);
    assert(crate::reader::sp_next_block(lines, t) == (
        Some(seq![v.title]),
        rest1,
    ));
    assert(sp_parse_title(seq![v.title]) == Some(v.title));
    // Block 2: the metadata.
    assert(rest1 =~= b2 + seq![empty_line] + rest2);
    assert(forall|i: int| 0 <= i < b2.len() ==> !crate::reader::sp_blank(#[trigger] b2[i], t));
    lemma_next_block_chunk_local(b2, rest2);
    assert(crate::reader::sp_proc_lines(b2, t) =~= b2);
    assert(crate::reader::sp_next_block(rest1, t) == (Some(b2), rest2));
    // Block 3: the ingredients.
    assert(rest2 =~= b3 + seq![empty_line] + rest3);
    assert(forall|i: int|
        0 <= i < ing.len() ==> crate::list::sp_good_line(#[trigger] ing[i]));
    assert forall|i: int| 0 <= i < b3.len() implies !crate::reader::sp_blank(
        #[trigger] b3[i],
        t,
    ) by {
        if i > 0 {
            assert(b3[i] == ing[i - 1]);
        }
    }
    lemma_next_block_chunk_local(b3, rest3);
    let tb3 = crate::reader::sp_proc_lines(b3, t);
    assert(tb3 =~= seq![hl_ingredients()] + crate::list::sp_trim_lines(ing));
    assert(crate::reader::sp_next_block(rest2, t) == (Some(tb3), rest3));
    assert(tb3[0] == hl_ingredients());
    assert(tb3.skip(1) =~= crate::list::sp_trim_lines(ing));
    assert(sp_parse_headlined::<crate::ingredient::Ingredient>(tb3, hl_ingredients()) == Some(
        v.ingredients,
    ));
    // Block 4: the instructions.
    let tb4 = crate::reader::sp_proc_lines(b4, t);
    assert(forall|i: int|
        0 <= i < ins.len() ==> crate::list::sp_good_line(#[trigger] ins[i]));
    assert forall|i: int| 0 <= i < b4.len() implies !crate::reader::sp_blank(
        #[trigger] b4[i],
        t,
    ) by {
        if i > 0 {
            assert(b4[i] == ins[i - 1]);
        }
    }
    assert(tb4 =~= seq![hl_instructions()] + crate::list::sp_trim_lines(ins));
    assert(tb4[0] == hl_instructions());
    assert(tb4.skip(1) =~= crate::list::sp_trim_lines(ins));
    assert(sp_parse_headlined::<String>(tb4, hl_instructions()) == Some(v.instructions));
    if v.notes.len() > 0 {
        assert(rest3 =~= b4 + seq![empty_line] + rest4);
        lemma_next_block_chunk_local(b4, rest4);
        assert(crate::reader::sp_next_block(rest3, t) == (Some(tb4), rest4));
        // Block 5: the notes.
        crate::list::lemma_items_round_trip::<String>(v.notes, ind);
        assert(forall|i: int|
            0 <= i < nts.len() ==> crate::list::sp_good_line(#[trigger] nts[i]));
        assert forall|i: int| 0 <= i < b5.len() implies !crate::reader::sp_blank(
            #[trigger] b5[i],
            t,
        ) by {
            if i > 0 {
                assert(b5[i] == nts[i - 1]);
            }
        }
        assert(rest4 =~= b5);
        crate::reader::lemma_next_block_last(b5, t);
        let tb5 = crate::reader::sp_proc_lines(b5, t);
        assert(tb5 =~= seq![hl_notes()] + crate::list::sp_trim_lines(nts));
        assert(tb5[0] == hl_notes());
        assert(tb5.skip(1) =~= crate::list::sp_trim_lines(nts));
        assert(sp_parse_notes(tb5) == Some(v.notes));
        assert(sp_parse_recipe(sp_format_recipe(v)) == Some(v));
    } else {
        assert(rest3 =~= b4);
        crate::reader::lemma_next_block_last(b4, t);
        assert(crate::reader::sp_next_block(rest3, t) == (
            Some(tb4),
            Seq::<Seq<char>>::empty(),
        ));
        assert(crate::reader::sp_next_block(Seq::<Seq<char>>::empty(), t) == (
            None::<Seq<Seq<char>>>,
            Seq::<Seq<char>>::empty(),
        ));
        assert(v.notes =~= Seq::<Seq<char>>::empty());
        assert(sp_parse_recipe(sp_format_recipe(v)) == Some(v));
    }
}

/// Each line of a formatted recipe is plain: the title, a blank
/// separator, a headline, or a line of one of the three inner blocks.
proof fn lemma_line_classified(v: RecipeView, i: int)
    requires
        sp_wf_recipe(v),
        0 <= i < sp_recipe_lines(v).len(),
    ensures
        crate::reader::sp_plain_line(sp_recipe_lines(v)[i]),
{
    let ind = sp_indent();
    let meta = crate::metadata::sp_format_metadata_lines(v.metadata);
    let ing = crate::list::sp_format_list_lines::<crate::ingredient::Ingredient>(
        v.ingredients,
        ind,
    );
    let ins = crate::list::sp_format_list_lines::<String>(v.instructions, ind);
    let nts = crate::list::sp_format_items_lines::<String>(v.notes, ind);
    let lines = sp_recipe_lines(v);
    let l = lines[i];
    assert(ind[0] == ' ' && ind[1] == ' ');
    assert(crate::list::sp_spaces(ind));
    crate::metadata::lemma_metadata_round_trip(v.metadata);
    crate::list::lemma_list_round_trip::<crate::ingredient::Ingredient>(v.ingredients, ind);
    crate::list::lemma_list_round_trip::<String>(v.instructions, ind);
    if v.notes.len() > 0 {
        crate::list::lemma_items_round_trip::<String>(v.notes, ind);
    }
    assert(forall|j: int|
        0 <= j < hl_ingredients().len() ==> !crate::strings::sp_is_ws(
            #[trigger] hl_ingredients()[j],
        ) && hl_ingredients()[j] != '\n');
    assert(forall|j: int|
        0 <= j < hl_instructions().len() ==> !crate::strings::sp_is_ws(
            #[trigger] hl_instructions()[j],
        ) && hl_instructions()[j] != '\n');
    assert(forall|j: int|
        0 <= j < hl_notes().len() ==> !crate::strings::sp_is_ws(#[trigger] hl_notes()[j])
            && hl_notes()[j] != '\n');
    crate::strings::lemma_char_free(hl_ingredients(), '\n');
    crate::strings::lemma_char_free(hl_instructions(), '\n');
    crate::strings::lemma_char_free(hl_notes(), '\n');
    crate::ingredient::lemma_free_char_elem(v.title, '\n');
    assert(!crate::strings::sp_is_ws(v.title[v.title.len() - 1])) by {
        if crate::strings::sp_is_ws(v.title[v.title.len() - 1]) {
            crate::strings::lemma_trim_drops_last(v.title);
        }
    }
    let n_head: int = 2;
    let n_meta = meta.len();
    let n_ing = ing.len();
    let n_ins = ins.len();
    if i == 0 {
        assert(l == v.title);
    } else if i == 1 {
        assert(l =~= Seq::<char>::empty());
    } else if i < n_head + n_meta {
        assert(l == meta[i - n_head]);
        assert(crate::list::sp_good_line(l));
    } else if i == n_head + n_meta {
        assert(l =~= Seq::<char>::empty());
    } else if i == n_head + n_meta + 1 {
        assert(l == hl_ingredients());
    } else if i < n_head + n_meta + 2 + n_ing {
        assert(l == ing[i - n_head - n_meta - 2]);
        assert(crate::list::sp_good_line(l));
    } else if i == n_head + n_meta + 2 + n_ing {
        assert(l =~= Seq::<char>::empty());
    } else if i == n_head + n_meta + 2 + n_ing + 1 {
        assert(l == hl_instructions());
    } else if i < n_head + n_meta + 2 + n_ing + 2 + n_ins {
        assert(l == ins[i - n_head - n_meta - 2 - n_ing - 2]);
        assert(crate::list::sp_good_line(l));
    } else if i == n_head + n_meta + 2 + n_ing + 2 + n_ins {
        assert(v.notes.len() > 0);
        assert(l =~= Seq::<char>::empty());
    } else if i == n_head + n_meta + 2 + n_ing + 2 + n_ins + 1 {
        assert(v.notes.len() > 0);
        assert(l == hl_notes());
    } else {
        assert(v.notes.len() > 0);
        assert(l == nts[i - n_head - n_meta - 2 - n_ing - 2 - n_ins - 2]);
        assert(crate::list::sp_good_line(l));
    }
}

/// The chunk lemma, specialized to trimming mode.
proof fn lemma_next_block_chunk_local(blk: Seq<Seq<char>>, rest: Seq<Seq<char>>)
    requires
        blk.len() > 0,
        forall|i: int| 0 <= i < blk.len() ==> !crate::reader::sp_blank(#[trigger] blk[i], true),
    ensures
        crate::reader::sp_next_block(blk + seq![Seq::<char>::empty()] + rest, true) == (
            Some(crate::reader::sp_proc_lines(blk, true)),
            rest,
        ),
{
    crate::reader::lemma_next_block_chunk(blk, rest, true);
}

/// Joining two lines.
proof fn lemma_unlines_pair(a: Seq<char>, b: Seq<char>)
    ensures
        crate::reader::sp_unlines(seq![a, b]) == a + seq!['\n'] + b + seq!['\n'],
{
    let l: Seq<Seq<char>> = seq![a, b];
    assert(l.skip(1) =~= seq![b]);
    assert(seq![b].skip(1) =~= Seq::<Seq<char>>::empty());
    assert(crate::reader::sp_unlines(Seq::<Seq<char>>::empty()) == Seq::<char>::empty());
    assert(crate::reader::sp_unlines(seq![b]) == seq![b][0] + seq!['\n']
        + crate::reader::sp_unlines(seq![b].skip(1)));
    assert(crate::reader::sp_unlines(l) == a + seq!['\n'] + crate::reader::sp_unlines(seq![b]));
    assert(a + seq!['\n'] + (b + seq!['\n'] + Seq::<char>::empty()) =~= a + seq!['\n'] + b
        + seq!['\n']);
}

} // verus!
