//! The browsing session: where the operator stands in the tree, what is
//! selected, and what each choice does.

use vstd::prelude::*;
use crate::menu::{
    entry_views, lemma_menu_names_children, lemma_projection_ends,
    lemma_toggle_changes_one_entry, project_node, projection,
    Entry,
    EntryView,
};
use crate::selection::{lemma_toggle_once, lemma_toggle_twice, toggled, Selection};
use crate::text::texts;
use crate::tree::{lemma_child_index, lemma_resolve_wf, FileNode, Tree};

verus! {

/// Why a choice could not be carried out.
#[derive(Clone, Copy, Debug, PartialEq, Eq)]
pub enum NavigationError {
    /// `Up` was chosen at the root.
    NoParent,
    /// The current directory has no subdirectory of that name.
    NoSuchDirectory,
    /// The current directory has no file of that name.
    NoSuchFile,
    /// The menu has no entry at that index.
    NoSuchEntry,
}

/// The mathematical value of a session: the names leading from the root to
/// the current directory, the cursor hint and the selected paths.
pub struct NavView {
    pub position: Seq<Seq<char>>,
    pub cursor: nat,
    pub selection: Set<Seq<char>>,
}

/// The mathematical value of an [`Outcome`].
pub enum OutcomeView {
    Browsing,
    Done(Set<Seq<char>>),
    Restart,
}

/// What a choice led to: the session goes on, it ended with the selected
/// paths, or it started over because nothing was selected.
#[derive(Debug, PartialEq, Eq)]
pub enum Outcome {
    Browsing,
    Done(Vec<String>),
    Restart,
}

impl Outcome {
    /// The outcome is of the same kind as `view`, and a finished session
    /// hands over each selected path exactly once.
    pub open spec fn agrees_with(self, view: OutcomeView) -> bool {
        match (self, view) {
            (Outcome::Browsing, OutcomeView::Browsing) => true,
            (Outcome::Done(paths), OutcomeView::Done(selection)) => texts(paths@).to_set()
                == selection && texts(paths@).no_duplicates(),
            (Outcome::Restart, OutcomeView::Restart) => true,
            _ => false,
        }
    }
}

impl NavView {
    /// The state a session starts in: at the root, nothing selected.
    pub open spec fn start() -> NavView {
        NavView { position: Seq::empty(), cursor: 0, selection: Set::empty() }
    }

    /// The position leads to a directory of the well-formed tree.
    pub open spec fn valid_in(self, tree: Tree) -> bool {
        tree.wf() && tree.resolve(self.position) is Some
    }

    /// The current directory.
    pub open spec fn here(self, tree: Tree) -> Tree {
        tree.resolve(self.position)->0
    }

    /// The menu of the current directory.
    pub open spec fn menu(self, tree: Tree) -> Seq<EntryView> {
        projection(self.here(tree), self.position.len() == 0, self.selection)
    }
}

/// What choosing `entry` does in `state`: the next state and the outcome,
/// or the reason why the entry cannot be carried out.
///
/// `Up` drops the last name of the position and `Descend` adds one; both
/// reset the cursor. `ToggleFile` flips the file's path in the selection and
/// leaves position and cursor alone. `Finish` ends the session when
/// something is selected and starts it over when nothing is.
pub open spec fn step(tree: Tree, state: NavView, entry: EntryView) -> Result<
    (NavView, OutcomeView),
    NavigationError,
> {
    match entry {
        EntryView::Up => if state.position.len() == 0 {
            Err(NavigationError::NoParent)
        } else {
            Ok(
                (
                    NavView { position: state.position.drop_last(), cursor: 0, ..state },
                    OutcomeView::Browsing,
                ),
            )
        },
        EntryView::Descend(name) => if state.here(tree).subdir(name) is Some {
            Ok(
                (
                    NavView { position: state.position.push(name), cursor: 0, ..state },
                    OutcomeView::Browsing,
                ),
            )
        } else {
            Err(NavigationError::NoSuchDirectory)
        },
        EntryView::ToggleFile(name, _) => match state.here(tree).child(name) {
            Some(file) => if file.is_dir {
                Err(NavigationError::NoSuchFile)
            } else {
                Ok(
                    (
                        NavView { selection: toggled(state.selection, file.path), ..state },
                        OutcomeView::Browsing,
                    ),
                )
            },
            None => Err(NavigationError::NoSuchFile),
        },
        EntryView::Finish => if state.selection == Set::<Seq<char>>::empty() {
            Ok((NavView::start(), OutcomeView::Restart))
        } else {
            Ok((state, OutcomeView::Done(state.selection)))
        },
    }
}

/// What choosing the menu entry at `index` does: the cursor hint moves to
/// `index`, then the entry is carried out.
pub open spec fn pick(tree: Tree, state: NavView, index: int) -> Result<
    (NavView, OutcomeView),
    NavigationError,
> {
    if 0 <= index < state.menu(tree).len() {
        step(tree, NavView { cursor: index as nat, ..state }, state.menu(tree)[index])
    } else {
        Err(NavigationError::NoSuchEntry)
    }
}

/// What a run of choices does, one after the other. The run stops at the
/// first choice that ends the session or cannot be carried out.
pub open spec fn replay(tree: Tree, state: NavView, choices: Seq<usize>) -> Result<
    (NavView, OutcomeView),
    NavigationError,
>
    decreases choices.len(),
{
    if choices.len() == 0 {
        Ok((state, OutcomeView::Browsing))
    } else {
        match pick(tree, state, choices[0] as int) {
            Err(e) => Err(e),
            Ok((next, outcome)) => if outcome is Done {
                Ok((next, outcome))
            } else {
                replay(tree, next, choices.drop_first())
            },
        }
    }
}

/// The state in which a run of choices stops: after the choice that ends
/// the session, before the choice that cannot be carried out, or after the
/// last choice.
pub open spec fn state_after(tree: Tree, state: NavView, choices: Seq<usize>) -> NavView
    decreases choices.len(),
{
    if choices.len() == 0 {
        state
    } else {
        match pick(tree, state, choices[0] as int) {
            Err(_) => state,
            Ok((next, outcome)) => if outcome is Done {
                next
            } else {
                state_after(tree, next, choices.drop_first())
            },
        }
    }
}

/// A step that can be carried out leads to a valid state again.
pub proof fn lemma_step_valid(tree: Tree, state: NavView, entry: EntryView)
    requires
        state.valid_in(tree),
        step(tree, state, entry) is Ok,
    ensures
        step(tree, state, entry)->Ok_0.0.valid_in(tree),
{
    match entry {
        EntryView::Descend(name) => {
            let next = state.position.push(name);
            assert(next.drop_last() =~= state.position);
            assert(next.last() == name);
        },
        _ => {},
    }
}

/// Entering a subdirectory and going up again leads back to the directory
/// one started from, with the same children, and leaves the selection as it was.
pub proof fn lemma_descend_then_up(tree: Tree, state: NavView, name: Seq<char>)
    requires
        state.valid_in(tree),
        step(tree, state, EntryView::Descend(name)) is Ok,
    ensures
        ({
            let below = step(tree, state, EntryView::Descend(name))->Ok_0.0;
            let back = step(tree, below, EntryView::Up);
            &&& back is Ok
            &&& back->Ok_0.0.position == state.position
            &&& back->Ok_0.0.selection == state.selection
            &&& back->Ok_0.0.here(tree) == state.here(tree)
            &&& back->Ok_0.0.here(tree).children == state.here(tree).children
            &&& back->Ok_0.0.menu(tree) == state.menu(tree)
        }),
{
    let below = step(tree, state, EntryView::Descend(name))->Ok_0.0;
    assert(below.position.drop_last() =~= state.position);
}

/// Toggling a file changes the selection by exactly that file's path, and
/// nothing else of the state.
pub proof fn lemma_toggle_file_once(tree: Tree, state: NavView, name: Seq<char>, shown: bool)
    requires
        state.valid_in(tree),
        step(tree, state, EntryView::ToggleFile(name, shown)) is Ok,
    ensures
        ({
            let path = state.here(tree).child(name)->0.path;
            let next = step(tree, state, EntryView::ToggleFile(name, shown))->Ok_0.0;
            &&& next.position == state.position
            &&& next.cursor == state.cursor
            &&& next.selection.contains(path) != state.selection.contains(path)
            &&& forall|other: Seq<char>|
                other != path ==> next.selection.contains(other) == state.selection.contains(
                    other,
                )
            &&& state.selection.finite() && state.selection.contains(path)
                ==> next.selection.len() == state.selection.len() - 1
            &&& state.selection.finite() && !state.selection.contains(path)
                ==> next.selection.len() == state.selection.len() + 1
        }),
{
    let path = state.here(tree).child(name)->0.path;
    lemma_toggle_once(state.selection, path);
}

/// Toggling a file flips the marker of that file's entry in the menu and
/// leaves every other entry as it was.
pub proof fn lemma_toggle_file_menu(
    tree: Tree,
    state: NavView,
    name: Seq<char>,
    shown: bool,
    i: int,
)
    requires
        state.valid_in(tree),
        step(tree, state, EntryView::ToggleFile(name, shown)) is Ok,
        0 <= i < state.menu(tree).len(),
    ensures
        ({
            let next = step(tree, state, EntryView::ToggleFile(name, shown))->Ok_0.0;
            &&& next.menu(tree).len() == state.menu(tree).len()
            &&& next.menu(tree)[i] == match state.menu(tree)[i] {
                EntryView::ToggleFile(other, selected) => if other == name {
                    EntryView::ToggleFile(other, !selected)
                } else {
                    state.menu(tree)[i]
                },
                _ => state.menu(tree)[i],
            }
        }),
{
    let here = state.here(tree);
    lemma_resolve_wf(tree, state.position);
    lemma_child_index(here, name);
    let k = here.child_index(name)->0;
    lemma_toggle_changes_one_entry(here, state.position.len() == 0, state.selection, k, i);
}

/// Toggling the same file twice leaves the whole state as it was.
pub proof fn lemma_toggle_file_twice(tree: Tree, state: NavView, name: Seq<char>, shown: bool)
    requires
        state.valid_in(tree),
        step(tree, state, EntryView::ToggleFile(name, shown)) is Ok,
    ensures
        ({
            let once = step(tree, state, EntryView::ToggleFile(name, shown))->Ok_0.0;
            let twice = step(tree, once, EntryView::ToggleFile(name, !shown));
            &&& twice is Ok
            &&& twice->Ok_0.0 == state
        }),
{
    let path = state.here(tree).child(name)->0.path;
    lemma_toggle_twice(state.selection, path);
}

/// `Finish` can always be carried out. It ends the session with the
/// selection when something is selected, and only then; with nothing
/// selected it starts the session over.
pub proof fn lemma_finish(tree: Tree, state: NavView)
    ensures
        step(tree, state, EntryView::Finish) is Ok,
        state.selection != Set::<Seq<char>>::empty() ==> step(tree, state, EntryView::Finish)
            == Ok::<(NavView, OutcomeView), NavigationError>(
            (state, OutcomeView::Done(state.selection)),
        ),
        state.selection == Set::<Seq<char>>::empty() ==> step(tree, state, EntryView::Finish)
            == Ok::<(NavView, OutcomeView), NavigationError>(
            (NavView::start(), OutcomeView::Restart),
        ),
{
}

/// The menu offers `Up` as its first entry everywhere but at the root,
/// where it offers none.
pub proof fn lemma_up_only_below_root(tree: Tree, state: NavView)
    ensures
        state.position.len() == 0 ==> forall|i: int|
            0 <= i < state.menu(tree).len() ==> !(state.menu(tree)[i] is Up),
        state.position.len() > 0 ==> state.menu(tree)[0] is Up,
{
    lemma_projection_ends(state.here(tree), state.position.len() == 0, state.selection);
}

/// Every entry that the menu offers can be carried out.
pub proof fn lemma_menu_entries_apply(tree: Tree, state: NavView, index: int)
    requires
        state.valid_in(tree),
        0 <= index < state.menu(tree).len(),
    ensures
        step(tree, state, state.menu(tree)[index]) is Ok,
        pick(tree, state, index) is Ok,
{
    lemma_resolve_wf(tree, state.position);
    let at_root = state.position.len() == 0;
    lemma_menu_names_children(state.here(tree), at_root, state.selection, index);
    lemma_projection_ends(state.here(tree), at_root, state.selection);
}

/// Whatever two runs of the same choices from the same state of the same
/// tree hand back is alike: both go on, both started over, or both are done
/// with the same set of selected paths.
pub proof fn lemma_same_choices_same_selection(
    tree: Tree,
    state: NavView,
    choices: Seq<usize>,
    first: Outcome,
    second: Outcome,
)
    requires
        replay(tree, state, choices) is Ok,
        first.agrees_with(replay(tree, state, choices)->Ok_0.1),
        second.agrees_with(replay(tree, state, choices)->Ok_0.1),
    ensures
        match (first, second) {
            (Outcome::Browsing, Outcome::Browsing) => true,
            (Outcome::Done(a), Outcome::Done(b)) => texts(a@).to_set() == texts(b@).to_set(),
            (Outcome::Restart, Outcome::Restart) => true,
            _ => false,
        },
{
}

/// A browsing session over a tree that was built before and does not change.
pub struct Navigator {
    tree: FileNode,
    position: Vec<String>,
    cursor: usize,
    selection: Selection,
}

impl View for Navigator {
    type V = NavView;

    closed spec fn view(&self) -> NavView {
        NavView {
            position: texts(self.position@),
            cursor: self.cursor as nat,
            selection: self.selection@,
        }
    }
}

impl Navigator {
    #[verifier::type_invariant]
    spec fn inv(self) -> bool {
        self.tree@.wf() && self.tree@.resolve(texts(self.position@)) is Some
    }

    /// The tree that the session browses.
    pub closed spec fn tree_view(&self) -> Tree {
        self.tree@
    }

    /// A session over `tree`, at the root, with nothing selected.
    pub fn new(tree: FileNode) -> (nav: Navigator)
        requires
            tree@.is_dir,
        ensures
            nav.tree_view() == tree@,
            nav@ == NavView::start(),
            nav@.valid_in(tree@),
    {
        proof {
            use_type_invariant(&tree);
        }
        let nav = Navigator { tree, position: Vec::new(), cursor: 0, selection: Selection::new() };
        proof {
            assert(texts(nav.position@) =~= Seq::<Seq<char>>::empty());
        }
        nav
    }

    /// The tree that the session browses.
    pub fn tree(&self) -> (tree: &FileNode)
        ensures
            tree@ == self.tree_view(),
            self@.valid_in(self.tree_view()),
    {
        proof {
            use_type_invariant(self);
        }
        &self.tree
    }

    /// The names that lead from the root to the current directory.
    pub fn position(&self) -> (position: &Vec<String>)
        ensures
            texts(position@) == self@.position,
    {
        &self.position
    }

    /// The cursor hint.
    pub fn cursor(&self) -> (cursor: usize)
        ensures
            cursor == self@.cursor,
    {
        self.cursor
    }

    /// The selected paths.
    pub fn selection(&self) -> (selection: &Selection)
        ensures
            selection@ == self@.selection,
    {
        &self.selection
    }

    /// The current directory.
    pub fn current(&self) -> (node: &FileNode)
        ensures
            node@ == self@.here(self.tree_view()),
            node@.wf(),
    {
        proof {
            use_type_invariant(self);
            lemma_resolve_wf(self.tree@, texts(self.position@));
        }
        match self.tree.resolve(&self.position) {
            Some(node) => node,
            None => &self.tree,
        }
    }

    /// The menu of the current directory.
    pub fn menu(&self) -> (menu: Vec<Entry>)
        ensures
            entry_views(menu@) == self@.menu(self.tree_view()),
    {
        project_node(self.current(), self.position.len() == 0, &self.selection)
    }

    /// The entry that the prompt should start on: the cursor hint, or the
    /// last entry when the hint lies beyond it.
    pub fn default_index(&self) -> (index: usize)
        ensures
            index < self@.menu(self.tree_view()).len(),
            index == self@.cursor || (index == self@.menu(self.tree_view()).len() - 1 && index
                < self@.cursor),
    {
        let menu = self.menu();
        proof {
            lemma_projection_ends(
                self@.here(self.tree_view()),
                self@.position.len() == 0,
                self@.selection,
            );
            assert(entry_views(menu@).len() == menu@.len());
        }
        if self.cursor < menu.len() {
            self.cursor
        } else {
            menu.len() - 1
        }
    }

    /// Carries out `entry`. When it cannot be carried out, the session is
    /// left as it was.
    pub fn apply(&mut self, entry: &Entry) -> (r: Result<Outcome, NavigationError>)
        ensures
            final(self).tree_view() == old(self).tree_view(),
            match step(old(self).tree_view(), old(self)@, entry@) {
                Ok((next, outcome)) => r is Ok && r->Ok_0.agrees_with(outcome) && final(self)@
                    == next,
                Err(e) => r == Err::<Outcome, NavigationError>(e) && final(self)@ == old(self)@,
            },
    {
        proof {
            use_type_invariant(&*self);
        }
        match entry {
            Entry::Up => {
                if self.position.len() == 0 {
                    return Err(NavigationError::NoParent);
                }
                // The position is taken out, changed and put back: in between
                // the session stands at the root, which is always a position.
                let mut position: Vec<String> = Vec::new();
                core::mem::swap(&mut self.position, &mut position);
                proof {
                    assert(texts(self.position@) =~= Seq::<Seq<char>>::empty());
                }
                let ghost before = position@;
                position.pop();
                proof {
                    assert(texts(position@) =~= texts(before).drop_last());
                }
                self.position = position;
                self.cursor = 0;
                Ok(Outcome::Browsing)
            },
            Entry::Descend(name) => {
                let found = match self.current().find_child(name.as_str()) {
                    Some(child) => child.is_dir(),
                    None => false,
                };
                if !found {
                    return Err(NavigationError::NoSuchDirectory);
                }
                let mut position: Vec<String> = Vec::new();
                core::mem::swap(&mut self.position, &mut position);
                proof {
                    assert(texts(self.position@) =~= Seq::<Seq<char>>::empty());
                }
                let ghost before = position@;
                position.push(name.clone());
                proof {
                    assert(texts(position@) =~= texts(before).push(name@));
                    assert(texts(position@).drop_last() =~= texts(before));
                }
                self.position = position;
                self.cursor = 0;
                Ok(Outcome::Browsing)
            },
            Entry::ToggleFile(name, _) => {
                let path = match self.current().find_child(name.as_str()) {
                    Some(child) => if child.is_dir() {
                        None
                    } else {
                        Some(child.path().clone())
                    },
                    None => None,
                };
                match path {
                    Some(path) => {
                        let mut selection = Selection::new();
                        core::mem::swap(&mut self.selection, &mut selection);
                        selection.toggle(path.as_str());
                        self.selection = selection;
                        Ok(Outcome::Browsing)
                    },
                    None => Err(NavigationError::NoSuchFile),
                }
            },
            Entry::Finish => {
                if self.selection.is_empty() {
                    let position: Vec<String> = Vec::new();
                    proof {
                        assert(texts(position@) =~= Seq::<Seq<char>>::empty());
                    }
                    self.position = position;
                    self.cursor = 0;
                    Ok(Outcome::Restart)
                } else {
                    Ok(Outcome::Done(self.selection.paths()))
                }
            },
        }
    }

    /// Carries out the menu entry at `index`, after moving the cursor hint
    /// there. An index beyond the menu is refused, and the session is then
    /// left as it was.
    pub fn select(&mut self, index: usize) -> (r: Result<Outcome, NavigationError>)
        ensures
            final(self).tree_view() == old(self).tree_view(),
            match pick(old(self).tree_view(), old(self)@, index as int) {
                Ok((next, outcome)) => r is Ok && r->Ok_0.agrees_with(outcome) && final(self)@
                    == next,
                Err(e) => r == Err::<Outcome, NavigationError>(e) && final(self)@ == old(self)@,
            },
            r is Err <==> index >= old(self)@.menu(old(self).tree_view()).len(),
    {
        let menu = self.menu();
        proof {
            use_type_invariant(&*self);
            assert(entry_views(menu@).len() == menu@.len());
        }
        if index >= menu.len() {
            return Err(NavigationError::NoSuchEntry);
        }
        proof {
            assert(entry_views(menu@)[index as int] == menu@[index as int]@);
            lemma_menu_entries_apply(self.tree_view(), self@, index as int);
        }
        self.cursor = index;
        self.apply(&menu[index])
    }

    /// Carries out `choices` one after the other, as the operator would
    /// make them, until one of them ends the session or cannot be carried
    /// out. A choice that cannot be carried out leaves the session as the
    /// choices before it left it.
    pub fn run(&mut self, choices: &Vec<usize>) -> (r: Result<Outcome, NavigationError>)
        ensures
            final(self).tree_view() == old(self).tree_view(),
            final(self)@ == state_after(old(self).tree_view(), old(self)@, choices@),
            match replay(old(self).tree_view(), old(self)@, choices@) {
                Ok((next, outcome)) => r is Ok && r->Ok_0.agrees_with(outcome) && final(self)@
                    == next,
                Err(e) => r == Err::<Outcome, NavigationError>(e),
            },
    {
        let mut i: usize = 0;
        proof {
            assert(choices@.skip(0) =~= choices@);
        }
        while i < choices.len()
            invariant
                i <= choices.len(),
                self.tree_view() == old(self).tree_view(),
                replay(old(self).tree_view(), old(self)@, choices@) == replay(
                    self.tree_view(),
                    self@,
                    choices@.skip(i as int),
                ),
                state_after(old(self).tree_view(), old(self)@, choices@) == state_after(
                    self.tree_view(),
                    self@,
                    choices@.skip(i as int),
                ),
            decreases choices.len() - i,
        {
            proof {
                assert(choices@.skip(i as int)[0] == choices@[i as int]);
                assert(choices@.skip(i as int).drop_first() =~= choices@.skip(i + 1));
            }
            match self.select(choices[i]) {
                Err(e) => {
                    return Err(e);
                },
                Ok(outcome) => {
                    if let Outcome::Done(paths) = outcome {
                        return Ok(Outcome::Done(paths));
                    }
                },
            }
            i += 1;
        }
        Ok(Outcome::Browsing)
    }
}

} // verus!
