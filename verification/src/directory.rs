//! The directory identity of a recipe: deriving a filesystem-safe name
//! from a title, resolving name collisions deterministically, and the
//! naming rules that keep a directory, its recipe file, and its image
//! file in step. All filesystem effects live with the caller; this
//! module decides every name.

use vstd::prelude::*;

use crate::strings::{eq_str, sp_trim, strip_prefix_str, trim};
use crate::util::{affix_name, contains_name, lemma_probe_bound, sp_affixed};
use crate::Error;

verus! {

/// The file extension of the recipe file inside a recipe directory.
pub open spec fn sp_recipe_ext() -> Seq<char> {
    seq!['r', 'e', 'c', 'i', 'p', 'e']
}

/// What `sanitize_file_name` returns: the name with filesystem-unsafe
/// characters replaced. The result depends on the name alone.
pub uninterp spec fn sanitized_of(s: Seq<char>) -> Seq<char>;

/// Replaces filesystem-unsafe characters in a file name with `_`,
/// without truncation.
///
/// Relies on `sanitize_filename::sanitize_with_options`: a pure
/// rewriting of the name (illegal and control characters and reserved
/// names replaced), a function of its arguments alone.
#[verifier::external_body]
pub fn sanitize_file_name(file_name: &str) -> (r: String)
    ensures
        r@ == sanitized_of(file_name@),
{
    sanitize_filename::sanitize_with_options(
        file_name,
        sanitize_filename::Options { windows: false, truncate: false, replacement: "_" },
    )
}

/// Trims a title and rejects one that is empty or all whitespace.
pub fn sanitize_title(title: &str) -> (r: Result<&str, Error>)
    ensures
        match r {
            Ok(t) => sp_trim(title@).len() > 0 && t@ == sp_trim(title@),
            Err(e) => sp_trim(title@).len() == 0 && e is EmptyRecipeTitle,
        },
{
    let t = trim(title);
    if t.unicode_len() == 0 {
        Err(Error::EmptyRecipeTitle)
    } else {
        Ok(t)
    }
}

/// The directory name a title derives to.
pub open spec fn sp_title_name(title: Seq<char>) -> Seq<char> {
    sanitized_of(sp_trim(title))
}

/// Derives the base directory name for a title: trimmed, then
/// sanitized.
pub fn title_to_name(title: &str) -> (r: Result<String, Error>)
    ensures
        match r {
            Ok(n) => sp_trim(title@).len() > 0 && n@ == sp_title_name(title@),
            Err(e) => sp_trim(title@).len() == 0 && e is EmptyRecipeTitle,
        },
{
    match sanitize_title(title) {
        Ok(t) => Ok(sanitize_file_name(t)),
        Err(e) => Err(e),
    }
}

/// The name with a probe number affixed: `name (i)`.
pub open spec fn sp_slot(name: Seq<char>, i: int) -> Seq<char> {
    sp_affixed(name, seq![' ', '('], seq![')'], i)
}

/// A candidate name is available when no sibling carries it, or when it
/// is the directory's own current name.
pub open spec fn sp_slot_free(
    siblings: Seq<Seq<char>>,
    current: Option<Seq<char>>,
    c: Seq<char>,
) -> bool {
    !siblings.contains(c) || current == Some(c)
}

/// The chosen disambiguated name: the smallest numbered slot, from 2
/// up, that is free among the siblings — a slot equal to the
/// directory's own current name counts as free, so that renaming into
/// one's own slot succeeds rather than probing forever.
pub open spec fn sp_found_slot(
    siblings: Seq<Seq<char>>,
    current: Option<Seq<char>>,
    name: Seq<char>,
    r: Seq<char>,
) -> bool {
    exists|k: int|
        2 <= k && r == sp_slot(name, k) && sp_slot_free(siblings, current, sp_slot(name, k))
            && forall|j: int|
            2 <= j < k ==> !sp_slot_free(siblings, current, #[trigger] sp_slot(name, j))
}

/// Probes `name (2)`, `name (3)`, ... against the sibling names and
/// returns the first free slot; `current` names the directory's own
/// slot, never treated as taken.
pub fn find_available_name(siblings: &Vec<String>, name: &str, current: Option<&str>) -> (r:
    String)
    ensures
        sp_found_slot(
            siblings.deep_view(),
            match current {
                Some(c) => Some(c@),
                None => None,
            },
            name@,
            r@,
        ),
{
    proof {
        reveal_strlit(" (");
        reveal_strlit(")");
        assert(" ("@ =~= seq![' ', '(']);
        assert(")"@ =~= seq![')']);
    }
    let ghost sib = siblings.deep_view();
    let ghost pre_g: Seq<char> = seq![' ', '('];
    let ghost suf_g: Seq<char> = seq![')'];
    let ghost cur: Option<Seq<char>> = match current {
        Some(c) => Some(c@),
        None => None,
    };
    let count = siblings.len();
    let mut i: u128 = 2;
    loop
        invariant
            2 <= i,
            i - 2 <= sib.len(),
            count == sib.len(),
            sib == siblings.deep_view(),
            pre_g == seq![' ', '('] && suf_g == seq![')'],
            cur == (match current {
                Some(c) => Some(c@),
                None => None::<Seq<char>>,
            }),
            " ("@ == seq![' ', '('] && ")"@ == seq![')'],
            forall|j: int| 2 <= j < i ==> !sp_slot_free(sib, cur, #[trigger] sp_slot(name@, j)),
        decreases sib.len() + 2 - i,
    {
        let candidate = affix_name(name, " (", ")", i);
        let mut free = !contains_name(siblings, candidate.as_str());
        if !free {
            match current {
                Some(c) => {
                    free = eq_str(c, candidate.as_str());
                },
                None => {},
            }
        }
        if free {
            proof {
                assert(sp_slot_free(sib, cur, sp_slot(name@, i as int)));
            }
            return candidate;
        }
        proof {
            assert(!sp_slot_free(sib, cur, sp_slot(name@, i as int)));
            assert forall|j: int| 2 <= j < i + 1 implies sib.contains(
                #[trigger] sp_affixed(name@, pre_g, suf_g, j),
            ) by {
                assert(sp_slot(name@, j) == sp_affixed(name@, pre_g, suf_g, j));
                assert(!sp_slot_free(sib, cur, sp_slot(name@, j)));
            }
            lemma_probe_bound(name@, pre_g, suf_g, i + 1 as int, sib);
        }
        i = i + 1;
    }
}

/// The name under which a fresh directory is created among siblings:
/// the base name itself when free, else the first free numbered slot.
pub open spec fn sp_create_name(siblings: Seq<Seq<char>>, name: Seq<char>, r: Seq<char>) -> bool {
    if !siblings.contains(name) {
        r == name
    } else {
        sp_found_slot(siblings, None, name, r)
    }
}

/// One recipe's on-disk storage unit: the parent path and the derived
/// directory name. The handle owns no file data; it is the naming rules.
#[derive(Debug, PartialEq)]
pub struct Directory {
    pub parent: String,
    pub name: String,
}

impl Directory {
    /// A handle for a new recipe with the given title, under `parent`.
    pub fn from_title(parent: &str, title: &str) -> (r: Result<Directory, Error>)
        ensures
            match r {
                Ok(d) => sp_trim(title@).len() > 0 && d.parent@ == parent@ && d.name@
                    == sp_title_name(title@),
                Err(e) => sp_trim(title@).len() == 0 && e is EmptyRecipeTitle,
            },
    {
        match title_to_name(title) {
            Ok(name) => Ok(Directory { parent: String::from_str(parent), name }),
            Err(e) => Err(e),
        }
    }

    /// A handle for an existing directory, its name taken as found on
    /// disk.
    pub fn from_parts(parent: &str, name: &str) -> (r: Directory)
        ensures
            r.parent@ == parent@,
            r.name@ == name@,
    {
        Directory { parent: String::from_str(parent), name: String::from_str(name) }
    }

    /// The directory's own name.
    pub fn base_name(&self) -> (r: &String)
        ensures
            r == self.name,
    {
        &self.name
    }

    /// The directory's path: `parent/name`.
    pub fn path(&self) -> (r: String)
        ensures
            r@ == self.parent@ + seq!['/'] + self.name@,
    {
        proof {
            reveal_strlit("/");
            assert("/"@ =~= seq!['/']);
        }
        let mut s = String::from_str(self.parent.as_str());
        s.append("/");
        s.append(self.name.as_str());
        proof {
            assert(s@ =~= self.parent@ + seq!['/'] + self.name@);
        }
        s
    }

    /// The name of a file inside the directory carrying the directory's
    /// name and the given extension: `name.ext`.
    pub fn file_name(&self, ext: &str) -> (r: String)
        ensures
            r@ == self.name@ + seq!['.'] + ext@,
    {
        proof {
            reveal_strlit(".");
            assert("."@ =~= seq!['.']);
        }
        let mut s = String::from_str(self.name.as_str());
        s.append(".");
        s.append(ext);
        proof {
            assert(s@ =~= self.name@ + seq!['.'] + ext@);
        }
        s
    }

    /// The path of the recipe file: `parent/name/name.recipe`.
    pub fn recipe_path(&self) -> (r: String)
        ensures
            r@ == self.parent@ + seq!['/'] + self.name@ + seq!['/'] + self.name@ + seq!['.']
                + sp_recipe_ext(),
    {
        proof {
            reveal_strlit("/");
            reveal_strlit("recipe");
            assert("/"@ =~= seq!['/']);
            assert("recipe"@ =~= sp_recipe_ext());
        }
        let mut s = self.path();
        s.append("/");
        let f = self.file_name("recipe");
        s.append(f.as_str());
        proof {
            assert(s@ =~= self.parent@ + seq!['/'] + self.name@ + seq!['/'] + self.name@
                + seq!['.'] + sp_recipe_ext());
        }
        s
    }

    /// Settles the name under which the directory is physically
    /// created, given its siblings' names: the base name when free,
    /// else the first free numbered slot, which becomes the handle's
    /// identity.
    pub fn disambiguate(&mut self, siblings: &Vec<String>)
        ensures
            final(self).parent == old(self).parent,
            sp_create_name(siblings.deep_view(), old(self).name@, final(self).name@),
    {
        if !contains_name(siblings, self.name.as_str()) {
            return ;
        }
        let fresh = find_available_name(siblings, self.name.as_str(), None);
        self.name = fresh;
    }

    /// Decides the rename when the recipe's title changes: no change
    /// when the derived name equals the current one; the derived name
    /// when no sibling holds it; else the first numbered slot that is
    /// free or is the directory's own. Returns the old name when the
    /// directory is to be renamed.
    pub fn update_from_title(&mut self, title: &str, siblings: &Vec<String>) -> (r: Result<
        Option<String>,
        Error,
    >)
        ensures
            final(self).parent == old(self).parent,
            match r {
                Ok(prev) => {
                    &&& sp_trim(title@).len() > 0
                    &&& {
                        let derived = sp_title_name(title@);
                        if derived == old(self).name@ {
                            prev is None && *final(self) == *old(self)
                        } else {
                            prev matches Some(p) && p == old(self).name && (
                            if !siblings.deep_view().contains(derived) {
                                final(self).name@ == derived
                            } else {
                                sp_found_slot(
                                    siblings.deep_view(),
                                    Some(old(self).name@),
                                    derived,
                                    final(self).name@,
                                )
                            })
                        }
                    }
                },
                Err(e) => sp_trim(title@).len() == 0 && e is EmptyRecipeTitle && *final(self)
                    == *old(self),
            },
    {
        let name = match title_to_name(title) {
            Ok(n) => n,
            Err(e) => {
                return Err(e);
            },
        };
        if eq_str(name.as_str(), self.name.as_str()) {
            return Ok(None);
        }
        let chosen = if contains_name(siblings, name.as_str()) {
            find_available_name(siblings, name.as_str(), Some(self.name.as_str()))
        } else {
            name
        };
        let mut prev = chosen;
        core::mem::swap(&mut prev, &mut self.name);
        Ok(Some(prev))
    }

    /// The disambiguation suffix of the directory's name relative to
    /// the given title: the non-empty remainder after the title's base
    /// name, when the base name is a strict prefix.
    pub fn suffix(&self, title: &str) -> (r: Option<String>)
        requires
            sp_trim(title@).len() > 0,
        ensures
            ({
                let base = sp_title_name(title@);
                match r {
                    Some(s) => crate::strings::sp_starts_with(self.name@, base) && s@
                        == crate::strings::sp_skip_prefix(self.name@, base) && s@.len() > 0,
                    None => !crate::strings::sp_starts_with(self.name@, base)
                        || self.name@.len() == base.len(),
                }
            }),
    {
        let base = match title_to_name(title) {
            Ok(n) => n,
            Err(_) => {
                proof {
                    assert(false);
                }
                return None;
            },
        };
        match strip_prefix_str(self.name.as_str(), base.as_str()) {
            Some(rest) => {
                if rest.unicode_len() == 0 {
                    None
                } else {
                    Some(String::from_str(rest))
                }
            },
            None => None,
        }
    }

    /// Whether a file with the given stem and extension counts as the
    /// directory's image: the stem must equal the directory name and
    /// the extension must be in the allow-list.
    pub fn is_image_name(&self, stem: &str, ext: &str, allowed_exts: &Vec<String>) -> (r: bool)
        ensures
            r == (stem@ == self.name@ && allowed_exts.deep_view().contains(ext@)),
    {
        eq_str(stem, self.name.as_str()) && contains_name(allowed_exts, ext)
    }
}

} // verus!