//! The `list` command: its arguments and the listing they ask for.
use vstd::prelude::*;

verus! {

/// The arguments of `list` (alias `ls`).
#[derive(Clone, Debug)]
pub struct ListArgs {
    /// The directory to list.
    pub path: String,
    /// Show size, modification time and a kind glyph.
    pub long: bool,
    /// Show a tree instead of one level.
    pub tree: bool,
    /// How many levels a tree shows (1: the directory's own entries only;
    /// 0 is taken as 1); no bound when absent.
    pub depth: Option<usize>,
}

/// The subcommands.
#[derive(Clone, Debug)]
pub enum Commands {
    List(ListArgs),
}

/// A parsed command line.
#[derive(Clone, Debug)]
pub struct Cli {
    pub command: Commands,
}

/// The listing a command asks for.
#[derive(Clone, Debug, PartialEq, Eq)]
pub enum ListRequest {
    Flat { path: String, long: bool },
    Tree { path: String, long: bool, max_depth: usize },
}

/// Chooses the listing for `list`: a tree when asked, else one level. A
/// tree asked to show `d` levels goes `d - 1` levels below the directory's
/// own entries (none for `d` of 0 or 1); without `--depth` it has no bound.
pub fn handle_list_command(args: &ListArgs) -> (r: ListRequest)
    ensures
        args.tree ==> r == (ListRequest::Tree {
            path: args.path,
            long: args.long,
            max_depth: match args.depth {
                Some(d) => if d >= 1 {
                    (d - 1) as usize
                } else {
                    0
                },
                None => usize::MAX,
            },
        }),
        !args.tree ==> r == (ListRequest::Flat { path: args.path, long: args.long }),
{
    if args.tree {
        let max_depth = match args.depth {
            Some(d) => if d >= 1 {
                d - 1
            } else {
                0
            },
            None => usize::MAX,
        };
        ListRequest::Tree { path: args.path.clone(), long: args.long, max_depth }
    } else {
        ListRequest::Flat { path: args.path.clone(), long: args.long }
    }
}

} // verus!
