//! The arguments of a run, and a whole session as a function of the
//! operator's choices.

use vstd::prelude::*;
use crate::navigator::{replay, NavView, NavigationError, Navigator, Outcome, OutcomeView};
use crate::text::texts;
use crate::tree::{FileNode, Tree};

verus! {

/// What a run is started with: the directory to browse.
#[derive(Debug)]
pub struct Args {
    pub path: String,
}

/// The arguments of a run on the directory `path`.
pub fn parse_args(path: String) -> (args: Args)
    ensures
        args.path@ == path@,
{
    Args { path }
}

/// The selected paths that a whole session over `tree` ends with when the
/// operator makes `choices`, one after the other, or `None` when the
/// choices run out before the session is finished.
pub open spec fn session_result(tree: Tree, choices: Seq<usize>) -> Result<
    Option<Set<Seq<char>>>,
    NavigationError,
> {
    match replay(tree, NavView::start(), choices) {
        Ok((_, OutcomeView::Done(selection))) => Ok(Some(selection)),
        Ok(_) => Ok(None),
        Err(e) => Err(e),
    }
}

/// Runs a whole session over `tree` in which the operator makes `choices`,
/// each the index of an entry of the menu shown at that moment. Hands back
/// the selected paths, each once, when the choices finish the session, and
/// `None` when they run out before. The result depends on the tree and the
/// choices alone.
pub fn interactive_file_selection(tree: FileNode, choices: &Vec<usize>) -> (r: Result<
    Option<Vec<String>>,
    NavigationError,
>)
    requires
        tree@.is_dir,
    ensures
        match session_result(tree@, choices@) {
            Ok(Some(selection)) => r is Ok && r->Ok_0 is Some && texts(r->Ok_0->0@).to_set()
                == selection && texts(r->Ok_0->0@).no_duplicates(),
            Ok(None) => r == Ok::<Option<Vec<String>>, NavigationError>(None),
            Err(e) => r == Err::<Option<Vec<String>>, NavigationError>(e),
        },
{
    let mut navigator = Navigator::new(tree);
    match navigator.run(choices) {
        Ok(Outcome::Done(paths)) => Ok(Some(paths)),
        Ok(_) => Ok(None),
        Err(e) => Err(e),
    }
}

} // verus!
