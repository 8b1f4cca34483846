//! The configuration the command-line layer hands to the core: the
//! configuration directory and the paths derived from it. Reading the
//! configuration file itself is the caller's concern; this module owns
//! the path rules.

use vstd::prelude::*;

verus! {

/// The name of the default recipe template file inside the
/// configuration directory.
pub open spec fn sp_default_recipe_file() -> Seq<char> {
    seq!['d', 'e', 'f', 'a', 'u', 'l', 't', '.', 'r', 'e', 'c', 'i', 'p', 'e']
}

/// The name of the template directory inside the configuration
/// directory.
pub open spec fn sp_template_dir() -> Seq<char> {
    seq!['t', 'e', 'm', 'p', 'l', 'a', 't', 'e', 's']
}

/// The settings of one run: where the configuration lives, where the
/// recipes live, how to open an editor, and which image extensions are
/// recognized.
#[derive(Debug, PartialEq)]
pub struct Config {
    pub dir: String,
    pub recipe_dir: String,
    pub editor: Vec<String>,
    pub image_file_exts: Vec<String>,
}

impl Config {
    /// The path of the default recipe template:
    /// `<dir>/default.recipe`.
    pub fn default_recipe_path(&self) -> (r: String)
        ensures
            r@ == self.dir@ + seq!['/'] + sp_default_recipe_file(),
    {
        proof {
            reveal_strlit("/default.recipe");
            assert("/default.recipe"@ =~= seq!['/'] + sp_default_recipe_file());
        }
        let mut s = String::from_str(self.dir.as_str());
        s.append("/default.recipe");
        proof {
            assert(s@ =~= self.dir@ + seq!['/'] + sp_default_recipe_file());
        }
        s
    }

    /// The path of the template directory: `<dir>/templates`.
    pub fn template_dir(&self) -> (r: String)
        ensures
            r@ == self.dir@ + seq!['/'] + sp_template_dir(),
    {
        proof {
            reveal_strlit("/templates");
            assert("/templates"@ =~= seq!['/'] + sp_template_dir());
        }
        let mut s = String::from_str(self.dir.as_str());
        s.append("/templates");
        proof {
            assert(s@ =~= self.dir@ + seq!['/'] + sp_template_dir());
        }
        s
    }
}

} // verus!
