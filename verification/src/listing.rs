//! Building the filtered tree from a directory listing.

use vstd::prelude::*;
use crate::filter::{Filter, FilterView};
use crate::paths::{child_path, file_name_of, join_path};
use crate::tree::{lemma_rank, lemma_with_child_wf, rank, FileNode, Tree};

verus! {

/// The mathematical value of a [`Listing`].
pub struct ListingView {
    pub name: Seq<char>,
    pub is_dir: bool,
    pub entries: Seq<ListingView>,
}

/// One entry of a directory as it was read: its name, its kind and, for a
/// directory, what it holds.
pub struct Listing {
    pub name: String,
    pub is_dir: bool,
    pub entries: Vec<Listing>,
}

/// The value of a listing: its own fields and the values of its entries.
pub open spec fn listing_of(listing: Listing) -> ListingView
    decreases listing,
{
    ListingView {
        name: listing.name@,
        is_dir: listing.is_dir,
        entries: Seq::new(
            listing.entries@.len(),
            |i: int|
                if 0 <= i < listing.entries@.len() {
                    listing_of(listing.entries@[i])
                } else {
                    arbitrary()
                },
        ),
    }
}

impl View for Listing {
    type V = ListingView;

    open spec fn view(&self) -> ListingView {
        listing_of(*self)
    }
}

/// The values of a list of listings.
pub open spec fn listings(entries: Seq<Listing>) -> Seq<ListingView> {
    Seq::new(entries.len(), |i: int| entries[i]@)
}

/// `node` after the admitted ones among `entries` were put into it, one
/// after the other. A later entry replaces an earlier one of the same name.
pub open spec fn populated(node: Tree, entries: Seq<ListingView>, filter: FilterView) -> Tree
    decreases entries,
{
    if entries.len() == 0 {
        node
    } else {
        let before = populated(node, entries.drop_last(), filter);
        let entry = entries.last();
        if filter.admits(entry.name, entry.is_dir) {
            before.with_child(entry_tree(node.path, entry, filter))
        } else {
            before
        }
    }
}

/// The subtree for `entry`, found in the directory `parent_path`. Only a
/// directory has its entries looked at.
pub open spec fn entry_tree(parent_path: Seq<char>, entry: ListingView, filter: FilterView) -> Tree
    decreases entry,
{
    let path = child_path(parent_path, entry.name);
    let node = Tree::leaf(entry.name, path, entry.is_dir);
    if entry.is_dir {
        populated(node, entry.entries, filter)
    } else {
        node
    }
}

/// The tree for the directory `root` that holds `entries`.
pub open spec fn built(root: Seq<char>, entries: Seq<ListingView>, filter: FilterView) -> Tree {
    populated(Tree::leaf(file_name_of(root), root, true), entries, filter)
}

/// Putting entries into a node changes its children only.
pub proof fn lemma_populated_keeps(node: Tree, entries: Seq<ListingView>, filter: FilterView)
    ensures
        populated(node, entries, filter).name == node.name,
        populated(node, entries, filter).path == node.path,
        populated(node, entries, filter).is_dir == node.is_dir,
    decreases entries.len(),
{
    if entries.len() > 0 {
        lemma_populated_keeps(node, entries.drop_last(), filter);
    }
}

/// Every node below `tree` is one that `filter` admits.
pub open spec fn sound(tree: Tree, filter: FilterView) -> bool
    decreases tree,
{
    forall|i: int|
        0 <= i < tree.children.len() ==> {
            let child = #[trigger] tree.children[i];
            filter.admits(child.name, child.is_dir) && sound(child, filter)
        }
}

/// Putting a child that fits into a sound node keeps the node sound.
proof fn lemma_with_child_sound(node: Tree, child: Tree, filter: FilterView)
    requires
        sound(node, filter),
        filter.admits(child.name, child.is_dir),
        sound(child, filter),
    ensures
        sound(node.with_child(child), filter),
{
    let kids = node.children;
    let r = rank(kids, child.name) as int;
    lemma_rank(kids, child.name);
    let from = if r < kids.len() && kids[r].name == child.name {
        r + 1
    } else {
        r
    };
    let after = node.with_child(child).children;
    assert(after =~= kids.take(r).push(child) + kids.skip(from));
    assert forall|i: int| 0 <= i < after.len() implies {
        let c = #[trigger] after[i];
        filter.admits(c.name, c.is_dir) && sound(c, filter)
    } by {
        if i < r {
            assert(after[i] == kids[i]);
        } else if i > r {
            assert(after[i] == kids[i - r - 1 + from]);
        }
    }
}

/// Putting entries into a node that is well formed and sound leaves it so.
pub proof fn lemma_populated_sound(node: Tree, entries: Seq<ListingView>, filter: FilterView)
    requires
        node.wf(),
        node.is_dir,
        sound(node, filter),
    ensures
        populated(node, entries, filter).wf(),
        sound(populated(node, entries, filter), filter),
    decreases entries,
{
    if entries.len() > 0 {
        let before = populated(node, entries.drop_last(), filter);
        let entry = entries.last();
        lemma_populated_sound(node, entries.drop_last(), filter);
        lemma_populated_keeps(node, entries.drop_last(), filter);
        if filter.admits(entry.name, entry.is_dir) {
            lemma_entry_tree_sound(node.path, entry, filter);
            let child = entry_tree(node.path, entry, filter);
            lemma_with_child_wf(before, child);
            lemma_with_child_sound(before, child, filter);
        }
    }
}

/// The subtree of an entry is well formed and sound, bears the entry's
/// name and kind, and lies at the parent's path with the name added.
pub proof fn lemma_entry_tree_sound(parent_path: Seq<char>, entry: ListingView, filter: FilterView)
    ensures
        entry_tree(parent_path, entry, filter).wf(),
        sound(entry_tree(parent_path, entry, filter), filter),
        entry_tree(parent_path, entry, filter).name == entry.name,
        entry_tree(parent_path, entry, filter).path == child_path(parent_path, entry.name),
        entry_tree(parent_path, entry, filter).is_dir == entry.is_dir,
    decreases entry,
{
    let node = Tree::leaf(entry.name, child_path(parent_path, entry.name), entry.is_dir);
    if entry.is_dir {
        lemma_populated_sound(node, entry.entries, filter);
        lemma_populated_keeps(node, entry.entries, filter);
    }
}

/// The tree built for a directory is well formed and sound; its root is a
/// directory at the path that was asked for.
pub proof fn lemma_built_sound(root: Seq<char>, entries: Seq<ListingView>, filter: FilterView)
    ensures
        built(root, entries, filter).wf(),
        sound(built(root, entries, filter), filter),
        built(root, entries, filter).path == root,
        built(root, entries, filter).name == file_name_of(root),
        built(root, entries, filter).is_dir,
{
    let node = Tree::leaf(file_name_of(root), root, true);
    lemma_populated_sound(node, entries, filter);
    lemma_populated_keeps(node, entries, filter);
}

proof fn lemma_listings_of(listing: Listing)
    ensures
        listing@.entries == listings(listing.entries@),
{
    assert(listing@.entries =~= listings(listing.entries@));
}

/// Puts the admitted ones among `entries` into `node`.
fn populate(node: &mut FileNode, entries: &Vec<Listing>, filter: &Filter)
    requires
        old(node)@.is_dir,
    ensures
        final(node)@ == populated(old(node)@, listings(entries@), filter@),
    decreases entries,
{
    let mut i: usize = 0;
    while i < entries.len()
        invariant
            i <= entries.len(),
            old(node)@.is_dir,
            node@ == populated(old(node)@, listings(entries@).take(i as int), filter@),
        decreases entries.len() - i,
    {
        let entry = &entries[i];
        proof {
            let upto = listings(entries@).take(i + 1);
            assert(upto.drop_last() =~= listings(entries@).take(i as int));
            assert(upto.last() == entry@);
            lemma_populated_keeps(old(node)@, listings(entries@).take(i as int), filter@);
        }
        if filter.admits(entry.name.as_str(), entry.is_dir) {
            let child = entry_node(node.path().as_str(), entry, filter);
            proof {
                lemma_entry_tree_sound(node@.path, entry@, filter@);
            }
            node.add_child(child);
        }
        i += 1;
    }
    proof {
        assert(listings(entries@).take(entries@.len() as int) =~= listings(entries@));
    }
}

/// The subtree for `entry`, found in the directory `parent_path`.
fn entry_node(parent_path: &str, entry: &Listing, filter: &Filter) -> (node: FileNode)
    ensures
        node@ == entry_tree(parent_path@, entry@, filter@),
    decreases entry,
{
    let path = join_path(parent_path, entry.name.as_str());
    let mut node = FileNode::leaf(entry.name.clone(), path, entry.is_dir);
    if entry.is_dir {
        proof {
            lemma_listings_of(*entry);
        }
        populate(&mut node, &entry.entries, filter);
    }
    node
}

/// Builds the tree for the directory `root` from what was read of it.
/// Entries that the filter does not admit are left out together with all
/// they hold.
pub fn build_file_tree(root: &str, entries: &Vec<Listing>, filter: &Filter) -> (tree: FileNode)
    ensures
        tree@ == built(root@, listings(entries@), filter@),
        tree@.wf(),
        sound(tree@, filter@),
        tree@.path == root@,
        tree@.is_dir,
{
    let mut tree = FileNode::new(String::from_str(root), true);
    populate(&mut tree, entries, filter);
    proof {
        lemma_built_sound(root@, listings(entries@), filter@);
    }
    tree
}

} // verus!
