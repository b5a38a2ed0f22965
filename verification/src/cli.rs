//! How the command line's flags choose what a command shows.

use vstd::prelude::*;
use crate::cat::CatOptions;
use crate::tree::TreeOptions;

verus! {

/// The option that `cat-file` runs with: the first flag set, in the order
/// `-p`, `-s`, `-t`; none where no flag is set (then nothing is shown).
pub fn cat_option_from_flags(pretty_print: bool, show_size: bool, show_type: bool) -> (res: Option<
    CatOptions,
>)
    ensures
        res == (if pretty_print {
            Some(CatOptions::PrettyPrint)
        } else if show_size {
            Some(CatOptions::ShowSize)
        } else if show_type {
            Some(CatOptions::ShowType)
        } else {
            None
        }),
{
    if pretty_print {
        Some(CatOptions::PrettyPrint)
    } else if show_size {
        Some(CatOptions::ShowSize)
    } else if show_type {
        Some(CatOptions::ShowType)
    } else {
        None
    }
}

/// The option that `ls-tree` runs with: the first flag set, in the order
/// `-d`, `-s`, `-r`, `--name-only`; none where no flag is set (then every
/// entry is listed in full).
pub fn tree_option_from_flags(only_trees: bool, show_size: bool, recurse: bool, name_only: bool) -> (res:
    Option<TreeOptions>)
    ensures
        res == (if only_trees {
            Some(TreeOptions::OnlyTrees)
        } else if show_size {
            Some(TreeOptions::ShowSize)
        } else if recurse {
            Some(TreeOptions::Recurse)
        } else if name_only {
            Some(TreeOptions::NamesOnly)
        } else {
            None
        }),
{
    if only_trees {
        Some(TreeOptions::OnlyTrees)
    } else if show_size {
        Some(TreeOptions::ShowSize)
    } else if recurse {
        Some(TreeOptions::Recurse)
    } else if name_only {
        Some(TreeOptions::NamesOnly)
    } else {
        None
    }
}

} // verus!
