//! The list of choices shown for a directory, and how each one is written.

use vstd::prelude::*;
use crate::selection::{lemma_toggle_once, toggled, Selection};
use crate::text::{lex_lt, texts};
use crate::tree::{
    lemma_child_found, lemma_sibling_paths_differ, sorted_by_name, trees, FileNode, Tree,
};

verus! {

/// The mathematical value of an [`Entry`].
pub enum EntryView {
    Up,
    Descend(Seq<char>),
    ToggleFile(Seq<char>, bool),
    Finish,
}

/// One choice of the menu: go to the parent directory, enter the named
/// subdirectory, toggle the named file (shown with its current state), or
/// finish the selection.
#[derive(Debug, PartialEq, Eq)]
pub enum Entry {
    Up,
    Descend(String),
    ToggleFile(String, bool),
    Finish,
}

impl View for Entry {
    type V = EntryView;

    open spec fn view(&self) -> EntryView {
        match *self {
            Entry::Up => EntryView::Up,
            Entry::Descend(name) => EntryView::Descend(name@),
            Entry::ToggleFile(name, selected) => EntryView::ToggleFile(name@, selected),
            Entry::Finish => EntryView::Finish,
        }
    }
}

/// The values of a list of entries.
pub open spec fn entry_views(entries: Seq<Entry>) -> Seq<EntryView> {
    entries.map_values(|e: Entry| e@)
}

/// The directories among `children`, in their order.
pub open spec fn dirs_of(children: Seq<Tree>) -> Seq<Tree> {
    children.filter(|c: Tree| c.is_dir)
}

/// The files among `children`, in their order.
pub open spec fn files_of(children: Seq<Tree>) -> Seq<Tree> {
    children.filter(|c: Tree| !c.is_dir)
}

/// One `Descend` entry for each directory among `children`.
pub open spec fn dir_entries(children: Seq<Tree>) -> Seq<EntryView> {
    dirs_of(children).map_values(|c: Tree| EntryView::Descend(c.name))
}

/// One `ToggleFile` entry for each file among `children`, marked as
/// selected when the file's path is in `selection`.
pub open spec fn file_entries(children: Seq<Tree>, selection: Set<Seq<char>>) -> Seq<EntryView> {
    files_of(children).map_values(
        |c: Tree| EntryView::ToggleFile(c.name, selection.contains(c.path)),
    )
}

/// The menu for `node`: `Up` first unless the node is the root, then the
/// directories, then the files, then `Finish`.
pub open spec fn projection(node: Tree, at_root: bool, selection: Set<Seq<char>>) -> Seq<
    EntryView,
> {
    let head = if at_root {
        Seq::<EntryView>::empty()
    } else {
        seq![EntryView::Up]
    };
    head + dir_entries(node.children) + file_entries(node.children, selection)
        + seq![EntryView::Finish]
}

proof fn lemma_dir_entries_push(children: Seq<Tree>, c: Tree)
    ensures
        dir_entries(children.push(c)) == if c.is_dir {
            dir_entries(children).push(EntryView::Descend(c.name))
        } else {
            dir_entries(children)
        },
{
    children.lemma_filter_push(c, |c: Tree| c.is_dir);
    if c.is_dir {
        assert(dir_entries(children.push(c)) =~= dir_entries(children).push(
            EntryView::Descend(c.name),
        ));
    }
}

proof fn lemma_file_entries_push(children: Seq<Tree>, selection: Set<Seq<char>>, c: Tree)
    ensures
        file_entries(children.push(c), selection) == if !c.is_dir {
            file_entries(children, selection).push(
                EntryView::ToggleFile(c.name, selection.contains(c.path)),
            )
        } else {
            file_entries(children, selection)
        },
{
    children.lemma_filter_push(c, |c: Tree| !c.is_dir);
    if !c.is_dir {
        assert(file_entries(children.push(c), selection) =~= file_entries(
            children,
            selection,
        ).push(EntryView::ToggleFile(c.name, selection.contains(c.path))));
    }
}

/// What is kept of a list in name order is in name order, and each kept
/// node passes the test and comes from the list.
proof fn lemma_filter_sorted(children: Seq<Tree>, pred: spec_fn(Tree) -> bool)
    requires
        sorted_by_name(children),
    ensures
        sorted_by_name(children.filter(pred)),
        forall|i: int|
            0 <= i < children.filter(pred).len() ==> pred(#[trigger] children.filter(pred)[i])
                && children.contains(children.filter(pred)[i]),
    decreases children.len(),
{
    reveal(Seq::filter);
    if children.len() > 0 {
        let init = children.drop_last();
        let last = children.last();
        lemma_filter_sorted(init, pred);
        let kept = init.filter(pred);
        assert forall|i: int| 0 <= i < kept.len() implies lex_lt(
            (#[trigger] kept[i]).name,
            last.name,
        ) && children.contains(kept[i]) by {
            assert(init.contains(kept[i]));
            let k = choose|k: int| 0 <= k < init.len() && init[k] == kept[i];
            assert(children[k] == kept[i]);
            assert(lex_lt(children[k].name, children[children.len() - 1].name));
        }
        assert(children.contains(last)) by {
            assert(children[children.len() - 1] == last);
        }
    }
}

/// Where each entry of a menu stands: `Up` if there is one, then one entry
/// for each directory, then one for each file, then `Finish`.
proof fn lemma_projection_layout(node: Tree, at_root: bool, selection: Set<Seq<char>>)
    ensures
        ({
            let menu = projection(node, at_root, selection);
            let dirs = dirs_of(node.children);
            let files = files_of(node.children);
            let h: int = if at_root {
                0
            } else {
                1
            };
            &&& menu.len() == h + dirs.len() + files.len() + 1
            &&& forall|i: int|
                0 <= i < menu.len() ==> {
                    &&& i < h ==> #[trigger] menu[i] is Up
                    &&& h <= i < h + dirs.len() ==> menu[i] == EntryView::Descend(dirs[i - h].name)
                    &&& h + dirs.len() <= i < h + dirs.len() + files.len() ==> menu[i]
                        == EntryView::ToggleFile(
                        files[i - h - dirs.len()].name,
                        selection.contains(files[i - h - dirs.len()].path),
                    )
                    &&& i >= h + dirs.len() + files.len() ==> menu[i] is Finish
                }
        }),
{
}

/// In the menu of a well-formed node no file comes before a directory, and
/// the directories as well as the files are strictly increasing by name.
pub proof fn lemma_projection_ordered(node: Tree, at_root: bool, selection: Set<Seq<char>>)
    requires
        node.wf(),
    ensures
        ({
            let menu = projection(node, at_root, selection);
            &&& forall|i: int, j: int|
                0 <= i < j < menu.len() && menu[i] is ToggleFile ==> !(menu[j] is Descend)
            &&& forall|i: int, j: int|
                0 <= i < j < menu.len() && menu[i] is Descend && menu[j] is Descend ==> lex_lt(
                    menu[i]->Descend_0,
                    menu[j]->Descend_0,
                )
            &&& forall|i: int, j: int|
                0 <= i < j < menu.len() && menu[i] is ToggleFile && menu[j] is ToggleFile
                    ==> lex_lt(menu[i]->ToggleFile_0, menu[j]->ToggleFile_0)
        }),
{
    let menu = projection(node, at_root, selection);
    let dirs = dirs_of(node.children);
    let files = files_of(node.children);
    lemma_filter_sorted(node.children, |c: Tree| c.is_dir);
    lemma_filter_sorted(node.children, |c: Tree| !c.is_dir);
    let h: int = if at_root {
        0
    } else {
        1
    };
    lemma_projection_layout(node, at_root, selection);
    assert forall|i: int, j: int|
        0 <= i < j < menu.len() && menu[i] is Descend && menu[j] is Descend implies lex_lt(
        menu[i]->Descend_0,
        menu[j]->Descend_0,
    ) by {
        assert(lex_lt(dirs[i - h].name, dirs[j - h].name));
    }
    assert forall|i: int, j: int|
        0 <= i < j < menu.len() && menu[i] is ToggleFile && menu[j] is ToggleFile implies lex_lt(
        menu[i]->ToggleFile_0,
        menu[j]->ToggleFile_0,
    ) by {
        assert(lex_lt(files[i - h - dirs.len()].name, files[j - h - dirs.len()].name));
    }
}

/// `Up` is the first entry of every menu but the root's, and stands nowhere
/// else; `Finish` is the last entry of every menu, and stands nowhere else.
pub proof fn lemma_projection_ends(node: Tree, at_root: bool, selection: Set<Seq<char>>)
    ensures
        ({
            let menu = projection(node, at_root, selection);
            &&& menu.len() >= 1
            &&& forall|i: int| 0 <= i < menu.len() ==> (menu[i] is Up <==> !at_root && i == 0)
            &&& forall|i: int| 0 <= i < menu.len() ==> (menu[i] is Finish <==> i == menu.len() - 1)
        }),
{
    let menu = projection(node, at_root, selection);
    let dirs = dirs_of(node.children);
    let files = files_of(node.children);
    let h: int = if at_root {
        0
    } else {
        1
    };
    lemma_projection_layout(node, at_root, selection);
}

/// Every child is either among the directories or among the files.
proof fn lemma_dirs_and_files(children: Seq<Tree>)
    ensures
        dirs_of(children).len() + files_of(children).len() == children.len(),
    decreases children.len(),
{
    reveal(Seq::filter);
    if children.len() > 0 {
        lemma_dirs_and_files(children.drop_last());
    }
}

/// The menu has one entry for each child of the node, and besides them
/// only `Finish` and, below the root, `Up`.
pub proof fn lemma_projection_len(node: Tree, at_root: bool, selection: Set<Seq<char>>)
    ensures
        projection(node, at_root, selection).len() == node.children.len() + if at_root {
            1int
        } else {
            2int
        },
{
    lemma_dirs_and_files(node.children);
}

/// Every child of the node has its entry in the menu: a directory a
/// `Descend` entry, a file a `ToggleFile` entry that shows whether the
/// file's path is selected.
pub proof fn lemma_projection_covers(
    node: Tree,
    at_root: bool,
    selection: Set<Seq<char>>,
    k: int,
)
    requires
        0 <= k < node.children.len(),
    ensures
        projection(node, at_root, selection).contains(
            if node.children[k].is_dir {
                EntryView::Descend(node.children[k].name)
            } else {
                EntryView::ToggleFile(
                    node.children[k].name,
                    selection.contains(node.children[k].path),
                )
            },
        ),
{
    let menu = projection(node, at_root, selection);
    let child = node.children[k];
    let dirs = dirs_of(node.children);
    let files = files_of(node.children);
    let h: int = if at_root {
        0
    } else {
        1
    };
    if child.is_dir {
        node.children.lemma_filter_contains(|c: Tree| c.is_dir, k);
        let i = choose|i: int| 0 <= i < dirs.len() && dirs[i] == child;
        assert(menu[h + i] == EntryView::Descend(child.name));
    } else {
        node.children.lemma_filter_contains(|c: Tree| !c.is_dir, k);
        let i = choose|i: int| 0 <= i < files.len() && files[i] == child;
        assert(menu[h + dirs.len() + i] == EntryView::ToggleFile(
            child.name,
            selection.contains(child.path),
        ));
    }
}

/// Toggling the path of one file of a well-formed node flips the marker of
/// that file's entry and leaves every other entry of the menu as it was.
pub proof fn lemma_toggle_changes_one_entry(
    node: Tree,
    at_root: bool,
    selection: Set<Seq<char>>,
    k: int,
    i: int,
)
    requires
        node.wf(),
        0 <= k < node.children.len(),
        !node.children[k].is_dir,
        0 <= i < projection(node, at_root, selection).len(),
    ensures
        ({
            let file = node.children[k];
            let before = projection(node, at_root, selection);
            let after = projection(node, at_root, toggled(selection, file.path));
            &&& after.len() == before.len()
            &&& after[i] == match before[i] {
                EntryView::ToggleFile(name, selected) => if name == file.name {
                    EntryView::ToggleFile(name, !selected)
                } else {
                    before[i]
                },
                _ => before[i],
            }
        }),
{
    let file = node.children[k];
    let next = toggled(selection, file.path);
    let dirs = dirs_of(node.children);
    let files = files_of(node.children);
    let h: int = if at_root {
        0
    } else {
        1
    };
    lemma_projection_layout(node, at_root, selection);
    lemma_projection_layout(node, at_root, next);
    lemma_filter_sorted(node.children, |c: Tree| !c.is_dir);
    lemma_toggle_once(selection, file.path);
    if h + dirs.len() <= i < h + dirs.len() + files.len() {
        let shown = files[i - h - dirs.len()];
        assert(node.children.contains(shown));
        let at = choose|at: int| 0 <= at < node.children.len() && node.children[at] == shown;
        if at < k {
            lemma_sibling_paths_differ(node, at, k);
            lemma_child_found(node, at);
            lemma_child_found(node, k);
        } else if k < at {
            lemma_sibling_paths_differ(node, k, at);
            lemma_child_found(node, at);
            lemma_child_found(node, k);
        }
    }
}

/// Every entry of a well-formed node's menu names a child of the right
/// kind: a `Descend` entry a subdirectory, a `ToggleFile` entry a file, whose
/// state it shows as the selection has it.
pub proof fn lemma_menu_names_children(
    node: Tree,
    at_root: bool,
    selection: Set<Seq<char>>,
    i: int,
)
    requires
        node.wf(),
        0 <= i < projection(node, at_root, selection).len(),
    ensures
        match projection(node, at_root, selection)[i] {
            EntryView::Descend(name) => node.subdir(name) is Some,
            EntryView::ToggleFile(name, selected) => node.child(name) is Some && !node.child(
                name,
            )->0.is_dir && selected == selection.contains(node.child(name)->0.path),
            _ => true,
        },
{
    let menu = projection(node, at_root, selection);
    let dirs = dirs_of(node.children);
    let files = files_of(node.children);
    lemma_filter_sorted(node.children, |c: Tree| c.is_dir);
    lemma_filter_sorted(node.children, |c: Tree| !c.is_dir);
    let h: int = if at_root {
        0
    } else {
        1
    };
    if h <= i < h + dirs.len() {
        let dir = dirs[i - h];
        assert(menu[i] == EntryView::Descend(dir.name));
        assert(node.children.contains(dir));
        let k = choose|k: int| 0 <= k < node.children.len() && node.children[k] == dir;
        lemma_child_found(node, k);
    } else if h + dirs.len() <= i < h + dirs.len() + files.len() {
        let file = files[i - h - dirs.len()];
        assert(menu[i] == EntryView::ToggleFile(file.name, selection.contains(file.path)));
        assert(node.children.contains(file));
        let k = choose|k: int| 0 <= k < node.children.len() && node.children[k] == file;
        lemma_child_found(node, k);
    } else if i < h {
        assert(menu[i] is Up);
    } else {
        assert(menu[i] is Finish);
    }
}

/// The menu for `node`, which is the root of the tree or is not.
pub fn project_node(node: &FileNode, at_root: bool, selection: &Selection) -> (menu: Vec<Entry>)
    ensures
        entry_views(menu@) == projection(node@, at_root, selection@),
{
    let kids = node.children();
    let mut menu: Vec<Entry> = Vec::new();
    if !at_root {
        menu.push(Entry::Up);
    }
    let ghost head = entry_views(menu@);
    proof {
        assert(head =~= if at_root {
            Seq::<EntryView>::empty()
        } else {
            seq![EntryView::Up]
        });
        assert(trees(kids@).take(0) =~= Seq::<Tree>::empty());
        reveal(Seq::filter);
        assert(dir_entries(Seq::<Tree>::empty()) =~= Seq::<EntryView>::empty());
        assert(file_entries(Seq::<Tree>::empty(), selection@) =~= Seq::<EntryView>::empty());
        assert(entry_views(menu@) =~= head + dir_entries(trees(kids@).take(0)));
    }
    let mut i: usize = 0;
    while i < kids.len()
        invariant
            i <= kids.len(),
            entry_views(menu@) == head + dir_entries(trees(kids@).take(i as int)),
        decreases kids.len() - i,
    {
        let kid = &kids[i];
        proof {
            assert(trees(kids@).take(i + 1) =~= trees(kids@).take(i as int).push(kid@));
            lemma_dir_entries_push(trees(kids@).take(i as int), kid@);
        }
        if kid.is_dir() {
            let ghost before = menu@;
            menu.push(Entry::Descend(kid.name().clone()));
            proof {
                assert(entry_views(menu@) =~= entry_views(before).push(
                    EntryView::Descend(kid@.name),
                ));
                assert(entry_views(menu@) =~= head + dir_entries(trees(kids@).take(i + 1)));
            }
        }
        i += 1;
    }
    let ghost dirs = entry_views(menu@);
    proof {
        assert(trees(kids@).take(kids@.len() as int) =~= trees(kids@));
        assert(entry_views(menu@) =~= dirs + file_entries(trees(kids@).take(0), selection@));
    }
    let mut i: usize = 0;
    while i < kids.len()
        invariant
            i <= kids.len(),
            dirs == head + dir_entries(node@.children),
            trees(kids@) == node@.children,
            entry_views(menu@) == dirs + file_entries(trees(kids@).take(i as int), selection@),
        decreases kids.len() - i,
    {
        let kid = &kids[i];
        proof {
            assert(trees(kids@).take(i + 1) =~= trees(kids@).take(i as int).push(kid@));
            lemma_file_entries_push(trees(kids@).take(i as int), selection@, kid@);
        }
        if !kid.is_dir() {
            let ghost before = menu@;
            let selected = selection.contains(kid.path().as_str());
            menu.push(Entry::ToggleFile(kid.name().clone(), selected));
            proof {
                assert(entry_views(menu@) =~= entry_views(before).push(
                    EntryView::ToggleFile(kid@.name, selected),
                ));
                assert(entry_views(menu@) =~= dirs + file_entries(
                    trees(kids@).take(i + 1),
                    selection@,
                ));
            }
        }
        i += 1;
    }
    let ghost before = menu@;
    menu.push(Entry::Finish);
    proof {
        assert(trees(kids@).take(kids@.len() as int) =~= trees(kids@));
        assert(entry_views(menu@) =~= entry_views(before).push(EntryView::Finish));
        assert(entry_views(menu@) =~= projection(node@, at_root, selection@));
    }
    menu
}

/// The menu at `position` in `tree`: that of the directory which the
/// position leads to, without `Up` exactly when the position is the root.
/// There is none when the position leads to no directory.
pub open spec fn projection_at(
    tree: Tree,
    position: Seq<Seq<char>>,
    selection: Set<Seq<char>>,
) -> Option<Seq<EntryView>> {
    match tree.resolve(position) {
        Some(node) => Some(projection(node, position.len() == 0, selection)),
        None => None,
    }
}

/// The menu at `position` in `tree`, or `None` when the position leads to
/// no directory of the tree.
pub fn project(tree: &FileNode, position: &Vec<String>, selection: &Selection) -> (menu: Option<
    Vec<Entry>,
>)
    ensures
        match menu {
            Some(entries) => projection_at(tree@, texts(position@), selection@) == Some(
                entry_views(entries@),
            ),
            None => projection_at(tree@, texts(position@), selection@) is None,
        },
{
    match tree.resolve(position) {
        Some(node) => {
            assert(texts(position@).len() == position@.len());
            Some(project_node(node, position.len() == 0, selection))
        },
        None => None,
    }
}

/// The branch connector: one form for the last sibling, another for the rest.
pub open spec fn connector(last_sibling: bool) -> Seq<char> {
    if last_sibling {
        "└──"@
    } else {
        "├──"@
    }
}

/// The marker that tells a selected file from one that is not.
pub open spec fn marker(selected: bool) -> Seq<char> {
    if selected {
        "✓"@
    } else {
        "◦"@
    }
}

/// How an entry is written. A directory shows the connector, the directory
/// sign and its name; a file shows the connector, its marker and its name.
pub open spec fn label_of(entry: EntryView, last_sibling: bool) -> Seq<char> {
    match entry {
        EntryView::Up => "┌── ▴ .."@,
        EntryView::Descend(name) => connector(last_sibling) + " ▸ "@ + name,
        EntryView::ToggleFile(name, selected) => connector(last_sibling) + " "@ + marker(selected)
            + " "@ + name,
        EntryView::Finish => "─── ◉ Finish selection"@,
    }
}

/// Whether the entry at `index` is the last of the directory's own entries:
/// the one just before the closing entry, unless that is `Up`.
pub open spec fn is_last_sibling(menu: Seq<EntryView>, index: int) -> bool {
    index == menu.len() - 2 && (menu[index] is Descend || menu[index] is ToggleFile)
}

/// The labels of a menu, one for each entry.
pub open spec fn labels_of(menu: Seq<EntryView>) -> Seq<Seq<char>> {
    Seq::new(menu.len(), |i: int| label_of(menu[i], is_last_sibling(menu, i)))
}

impl Entry {
    /// How this entry is written.
    pub fn label(&self, last_sibling: bool) -> (text: String)
        ensures
            text@ == label_of(self@, last_sibling),
    {
        let lead = if last_sibling {
            "└──"
        } else {
            "├──"
        };
        match self {
            Entry::Up => String::from_str("┌── ▴ .."),
            Entry::Descend(name) => {
                let mut text = String::from_str(lead);
                text.append(" ▸ ");
                text.append(name.as_str());
                text
            },
            Entry::ToggleFile(name, selected) => {
                let mut text = String::from_str(lead);
                text.append(" ");
                text.append(
                    if *selected {
                        "✓"
                    } else {
                        "◦"
                    },
                );
                text.append(" ");
                text.append(name.as_str());
                text
            },
            Entry::Finish => String::from_str("─── ◉ Finish selection"),
        }
    }
}

/// The labels of `menu`, one for each entry and in the same order.
pub fn labels(menu: &Vec<Entry>) -> (out: Vec<String>)
    ensures
        texts(out@) == labels_of(entry_views(menu@)),
{
    let mut out: Vec<String> = Vec::new();
    let mut i: usize = 0;
    while i < menu.len()
        invariant
            i <= menu.len(),
            out@.len() == i,
            forall|k: int|
                0 <= k < i ==> (#[trigger] out@[k])@ == label_of(
                    menu@[k]@,
                    is_last_sibling(entry_views(menu@), k),
                ),
        decreases menu.len() - i,
    {
        let entry = &menu[i];
        let last = menu.len() - i == 2 && match entry {
            Entry::Descend(_) => true,
            Entry::ToggleFile(_, _) => true,
            _ => false,
        };
        assert(entry_views(menu@)[i as int] == entry@);
        out.push(entry.label(last));
        i += 1;
    }
    proof {
        assert(texts(out@) =~= labels_of(entry_views(menu@)));
    }
    out
}

} // verus!
