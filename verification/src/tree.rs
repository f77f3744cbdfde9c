//! The filtered directory tree: nodes keyed by name, kept in name order.

use vstd::prelude::*;
use crate::names::{find_place, keys, lemma_place, lemma_place_is, place, Keyed};
use crate::paths::{child_path, file_name, file_name_of};
use crate::text::{
    chars_eq, chars_lt, chars_of, lemma_lex_lt_irreflexive, lemma_lex_lt_total,
    lemma_lex_lt_transitive, lex_lt, texts,
};

verus! {

/// The mathematical value of a tree node.
pub struct Tree {
    pub name: Seq<char>,
    pub path: Seq<char>,
    pub is_dir: bool,
    pub children: Seq<Tree>,
}

/// Names are strictly increasing along `children`.
pub open spec fn sorted_by_name(children: Seq<Tree>) -> bool {
    forall|i: int, j: int|
        0 <= i < j < children.len() ==> lex_lt(
            #[trigger] children[i].name,
            #[trigger] children[j].name,
        )
}

/// The names of `children`, in their order.
pub open spec fn child_names(children: Seq<Tree>) -> Seq<Seq<char>> {
    children.map_values(|c: Tree| c.name)
}

/// The number of leading children whose name comes before `name`.
pub open spec fn rank(children: Seq<Tree>, name: Seq<char>) -> nat {
    place(child_names(children), name)
}

impl Tree {
    /// A node without children.
    pub open spec fn leaf(name: Seq<char>, path: Seq<char>, is_dir: bool) -> Tree {
        Tree { name, path, is_dir, children: Seq::empty() }
    }

    /// At every level: children are strictly increasing by name, so no two
    /// siblings share a name; only a directory has children; and the path
    /// of a child is the path of its parent with the child's name added.
    pub open spec fn wf(self) -> bool
        decreases self,
    {
        &&& sorted_by_name(self.children)
        &&& (!self.is_dir ==> self.children.len() == 0)
        &&& forall|i: int|
            0 <= i < self.children.len() ==> {
                let child = #[trigger] self.children[i];
                child.path == child_path(self.path, child.name) && child.wf()
            }
    }

    /// `child` can stand among the children of this node: the node is a
    /// directory, and the child lies at the node's path with its name added.
    pub open spec fn takes(self, child: Tree) -> bool {
        self.is_dir && child.path == child_path(self.path, child.name)
    }

    /// Where the child called `name` stands among the children, if there is one.
    pub open spec fn child_index(self, name: Seq<char>) -> Option<int> {
        let r = rank(self.children, name) as int;
        if r < self.children.len() && self.children[r].name == name {
            Some(r)
        } else {
            None
        }
    }

    /// The child called `name`, if there is one.
    pub open spec fn child(self, name: Seq<char>) -> Option<Tree> {
        match self.child_index(name) {
            Some(i) => Some(self.children[i]),
            None => None,
        }
    }

    /// The subdirectory called `name`, if there is one.
    pub open spec fn subdir(self, name: Seq<char>) -> Option<Tree> {
        match self.child(name) {
            Some(c) => if c.is_dir {
                Some(c)
            } else {
                None
            },
            None => None,
        }
    }

    /// The node with `child` put among its children at the place its name
    /// asks for. A child of the same name is replaced.
    pub open spec fn with_child(self, child: Tree) -> Tree {
        let r = rank(self.children, child.name) as int;
        let rest = if r < self.children.len() && self.children[r].name == child.name {
            self.children.skip(r + 1)
        } else {
            self.children.skip(r)
        };
        Tree { children: self.children.take(r).push(child) + rest, ..self }
    }

    /// The directory reached from this node by following `position`, one
    /// name per level. `None` when a name is missing or names a file.
    pub open spec fn resolve(self, position: Seq<Seq<char>>) -> Option<Tree>
        decreases position.len(),
    {
        if position.len() == 0 {
            Some(self)
        } else {
            match self.resolve(position.drop_last()) {
                Some(parent) => parent.subdir(position.last()),
                None => None,
            }
        }
    }
}

/// What `rank` counts: everything before it is smaller, and the child at it is not.
pub proof fn lemma_rank(children: Seq<Tree>, name: Seq<char>)
    ensures
        rank(children, name) <= children.len(),
        forall|k: int| 0 <= k < rank(children, name) ==> lex_lt(#[trigger] children[k].name, name),
        rank(children, name) < children.len() ==> !lex_lt(
            children[rank(children, name) as int].name,
            name,
        ),
{
    let names = child_names(children);
    lemma_place(names, name);
    assert forall|k: int| 0 <= k < rank(children, name) implies lex_lt(
        #[trigger] children[k].name,
        name,
    ) by {
        assert(names[k] == children[k].name);
    }
}

/// `rank` is the only index with everything smaller before it and nothing smaller at it.
pub proof fn lemma_rank_is(children: Seq<Tree>, name: Seq<char>, i: int)
    requires
        0 <= i <= children.len(),
        forall|k: int| 0 <= k < i ==> lex_lt(#[trigger] children[k].name, name),
        i < children.len() ==> !lex_lt(children[i].name, name),
    ensures
        rank(children, name) == i,
{
    let names = child_names(children);
    assert forall|k: int| 0 <= k < i implies lex_lt(#[trigger] names[k], name) by {
        assert(names[k] == children[k].name);
    }
    lemma_place_is(names, name, i);
}

/// In a sorted list a child is found under its own name.
pub proof fn lemma_child_found(node: Tree, i: int)
    requires
        sorted_by_name(node.children),
        0 <= i < node.children.len(),
    ensures
        node.child_index(node.children[i].name) == Some(i),
        node.child(node.children[i].name) == Some(node.children[i]),
{
    let name = node.children[i].name;
    lemma_lex_lt_irreflexive(name);
    lemma_rank_is(node.children, name, i);
}

/// A name that no child bears is not found, and the one found bears the name.
pub proof fn lemma_child_index(node: Tree, name: Seq<char>)
    requires
        sorted_by_name(node.children),
    ensures
        node.child_index(name) matches Some(i) ==> 0 <= i < node.children.len()
            && node.children[i].name == name,
        node.child_index(name) is None ==> forall|k: int|
            0 <= k < node.children.len() ==> (#[trigger] node.children[k]).name != name,
{
    lemma_rank(node.children, name);
    if node.child_index(name) is None {
        assert forall|k: int| 0 <= k < node.children.len() implies (
        #[trigger] node.children[k]).name != name by {
            if node.children[k].name == name {
                lemma_child_found(node, k);
            }
        }
    }
}

/// Putting a well-formed child into a well-formed node keeps it well formed.
pub proof fn lemma_with_child_wf(node: Tree, child: Tree)
    requires
        node.wf(),
        child.wf(),
        node.takes(child),
    ensures
        node.with_child(child).wf(),
{
    let kids = node.children;
    let r = rank(kids, child.name) as int;
    lemma_rank(kids, child.name);
    let replaced = r < kids.len() && kids[r].name == child.name;
    let from = if replaced {
        r + 1
    } else {
        r
    };
    let after = node.with_child(child).children;
    assert(after =~= kids.take(r).push(child) + kids.skip(from));
    assert forall|j: int| from <= j < kids.len() implies lex_lt(
        child.name,
        #[trigger] kids[j].name,
    ) by {
        if replaced {
            assert(lex_lt(kids[r].name, kids[j].name));
        } else {
            lemma_lex_lt_total(kids[r].name, child.name);
            if j > r {
                assert(lex_lt(kids[r].name, kids[j].name));
                lemma_lex_lt_transitive(child.name, kids[r].name, kids[j].name);
            }
        }
    }
    assert forall|i: int, j: int| 0 <= i < j < after.len() implies lex_lt(
        #[trigger] after[i].name,
        #[trigger] after[j].name,
    ) by {
        if j < r {
            assert(after[i] == kids[i] && after[j] == kids[j]);
        } else if j == r {
            assert(after[i] == kids[i] && after[j] == child);
        } else if i < r {
            assert(after[i] == kids[i] && after[j] == kids[j - r - 1 + from]);
            assert(lex_lt(kids[i].name, kids[j - r - 1 + from].name));
        } else if i == r {
            assert(after[i] == child && after[j] == kids[j - r - 1 + from]);
        } else {
            assert(after[i] == kids[i - r - 1 + from] && after[j] == kids[j - r - 1 + from]);
            assert(lex_lt(kids[i - r - 1 + from].name, kids[j - r - 1 + from].name));
        }
    }
    assert forall|i: int| 0 <= i < after.len() implies (#[trigger] after[i]).wf() by {
        if i < r {
            assert(after[i] == kids[i]);
        } else if i == r {
        } else {
            assert(after[i] == kids[i - r - 1 + from]);
        }
    }
}

/// After `with_child`, the new child is found under its name and every
/// other name finds what it found before.
pub proof fn lemma_with_child_lookup(node: Tree, child: Tree, name: Seq<char>)
    requires
        node.wf(),
        child.wf(),
        node.takes(child),
    ensures
        node.with_child(child).child(name) == if name == child.name {
            Some(child)
        } else {
            node.child(name)
        },
{
    let kids = node.children;
    let r = rank(kids, child.name) as int;
    lemma_rank(kids, child.name);
    lemma_with_child_wf(node, child);
    let grown = node.with_child(child);
    let after = grown.children;
    let replaced = r < kids.len() && kids[r].name == child.name;
    let from = if replaced {
        r + 1
    } else {
        r
    };
    assert(after =~= kids.take(r).push(child) + kids.skip(from));
    assert(after[r] == child);
    if name == child.name {
        lemma_child_found(grown, r);
    } else {
        lemma_child_index(node, name);
        lemma_child_index(grown, name);
        match node.child_index(name) {
            Some(i) => {
                let at = if i < r {
                    i
                } else {
                    i - from + r + 1
                };
                assert(after[at] == kids[i]);
                lemma_child_found(grown, at);
            },
            None => {
                if grown.child_index(name) is Some {
                    let at = grown.child_index(name)->0;
                    if at < r {
                        assert(after[at] == kids[at]);
                    } else {
                        assert(after[at] == kids[at - r - 1 + from]);
                    }
                }
            },
        }
    }
}

/// Two names that give the same path inside one directory are the same name.
pub proof fn lemma_child_path_injective(parent: Seq<char>, a: Seq<char>, b: Seq<char>)
    requires
        child_path(parent, a) == child_path(parent, b),
    ensures
        a == b,
{
    if parent.len() == 0 {
    } else if parent.last() == '/' {
        assert(a =~= (parent + a).skip(parent.len() as int));
        assert(b =~= (parent + b).skip(parent.len() as int));
    } else {
        assert(a =~= (parent + seq!['/'] + a).skip(parent.len() as int + 1));
        assert(b =~= (parent + seq!['/'] + b).skip(parent.len() as int + 1));
    }
}

/// No two children of a well-formed node lie at the same path.
pub proof fn lemma_sibling_paths_differ(node: Tree, i: int, j: int)
    requires
        node.wf(),
        0 <= i < j < node.children.len(),
    ensures
        node.children[i].path != node.children[j].path,
{
    let a = node.children[i];
    let b = node.children[j];
    assert(lex_lt(a.name, b.name));
    lemma_lex_lt_irreflexive(a.name);
    if a.path == b.path {
        lemma_child_path_injective(node.path, a.name, b.name);
    }
}

/// Every directory reached in a well-formed tree is well formed.
pub proof fn lemma_resolve_wf(root: Tree, position: Seq<Seq<char>>)
    requires
        root.wf(),
        root.resolve(position) is Some,
    ensures
        root.resolve(position)->0.wf(),
    decreases position.len(),
{
    if position.len() > 0 {
        lemma_resolve_wf(root, position.drop_last());
        let parent = root.resolve(position.drop_last())->0;
        lemma_child_index(parent, position.last());
    }
}

/// Once a prefix of a position leads nowhere, so does the whole position.
pub proof fn lemma_resolve_none(root: Tree, position: Seq<Seq<char>>, n: int)
    requires
        0 <= n <= position.len(),
        root.resolve(position.take(n)) is None,
    ensures
        root.resolve(position) is None,
    decreases position.len() - n,
{
    if n < position.len() {
        assert(position.take(n + 1).drop_last() =~= position.take(n));
        lemma_resolve_none(root, position, n + 1);
    } else {
        assert(position.take(n) =~= position);
    }
}

/// One node of the filtered tree.
pub struct FileNode {
    name: String,
    path: String,
    is_dir: bool,
    children: Vec<FileNode>,
}

/// The values of a list of nodes.
pub open spec fn trees(nodes: Seq<FileNode>) -> Seq<Tree> {
    Seq::new(nodes.len(), |i: int| nodes[i]@)
}

/// The value of a node: its own fields and the values of its children.
pub closed spec fn tree_of(node: FileNode) -> Tree
    decreases node,
{
    Tree {
        name: node.name@,
        path: node.path@,
        is_dir: node.is_dir,
        children: Seq::new(
            node.children@.len(),
            |i: int|
                if 0 <= i < node.children@.len() {
                    tree_of(node.children@[i])
                } else {
                    arbitrary()
                },
        ),
    }
}

impl View for FileNode {
    type V = Tree;

    open spec fn view(&self) -> Tree {
        tree_of(*self)
    }
}

impl Keyed for FileNode {
    open spec fn key_of(&self) -> Seq<char> {
        self@.name
    }

    fn key(&self) -> (key: &String) {
        self.name()
    }
}

/// The place of `name` among `kids`: how many of them come before it.
fn locate(kids: &Vec<FileNode>, name: &Vec<char>) -> (at: usize)
    ensures
        at == rank(trees(kids@), name@),
        at <= kids.len(),
{
    let at = find_place(kids, name);
    proof {
        assert(keys(kids@) =~= child_names(trees(kids@)));
    }
    at
}

impl FileNode {
    /// Every node is well formed.
    #[verifier::type_invariant]
    pub open spec fn inv(self) -> bool {
        self@.wf()
    }

    proof fn lemma_view(self)
        ensures
            self@.name == self.name@,
            self@.path == self.path@,
            self@.is_dir == self.is_dir,
            self@.children == trees(self.children@),
    {
        assert(self@.children.len() == self.children@.len());
        assert forall|i: int| 0 <= i < self.children@.len() implies self@.children[i]
            == self.children@[i]@ by {}
        assert(self@.children =~= trees(self.children@));
    }

    /// The entry's base name.
    pub fn name(&self) -> (r: &String)
        ensures
            r@ == self@.name,
    {
        &self.name
    }

    /// The entry's full path.
    pub fn path(&self) -> (r: &String)
        ensures
            r@ == self@.path,
    {
        &self.path
    }

    /// Whether the entry is a directory.
    pub fn is_dir(&self) -> (r: bool)
        ensures
            r == self@.is_dir,
    {
        self.is_dir
    }

    /// The children, in name order.
    pub fn children(&self) -> (r: &Vec<FileNode>)
        ensures
            trees(r@) == self@.children,
            self@.wf(),
    {
        proof {
            use_type_invariant(self);
            self.lemma_view();
        }
        &self.children
    }

    /// A node for `path` with no children yet. Its name is the path's base name.
    pub fn new(path: String, is_dir: bool) -> (node: FileNode)
        ensures
            node@ == Tree::leaf(file_name_of(path@), path@, is_dir),
    {
        let name = file_name(path.as_str());
        let node = FileNode { name, path, is_dir, children: Vec::new() };
        proof {
            node.lemma_view();
            assert(node@.children =~= Seq::<Tree>::empty());
        }
        node
    }

    /// A node called `name` at `path`, with no children yet.
    pub fn leaf(name: String, path: String, is_dir: bool) -> (node: FileNode)
        ensures
            node@ == Tree::leaf(name@, path@, is_dir),
    {
        let node = FileNode { name, path, is_dir, children: Vec::new() };
        proof {
            node.lemma_view();
            assert(node@.children =~= Seq::<Tree>::empty());
        }
        node
    }

    /// Puts `child` among the children, keyed by its name. A child that was
    /// there under the same name is dropped. The node must be a directory,
    /// and the child must lie at the node's path with its name added.
    pub fn add_child(&mut self, child: FileNode)
        requires
            old(self)@.takes(child@),
        ensures
            final(self)@ == old(self)@.with_child(child@),
    {
        proof {
            use_type_invariant(&*self);
            use_type_invariant(&child);
            self.lemma_view();
            child.lemma_view();
            lemma_with_child_wf(self@, child@);
            lemma_rank(self@.children, child@.name);
        }
        // The children are taken out, changed and put back: in between the
        // node has none, which keeps it well formed.
        let mut kids: Vec<FileNode> = Vec::new();
        core::mem::swap(&mut self.children, &mut kids);
        let name = chars_of(child.name.as_str());
        let at = locate(&kids, &name);
        let ghost before = kids@;
        let ghost target = old(self)@.with_child(child@);
        if at < kids.len() {
            let there = chars_of(kids[at].name.as_str());
            proof {
                kids@[at as int].lemma_view();
            }
            if chars_eq(&there, &name) {
                kids.remove(at);
            }
        }
        kids.insert(at, child);
        proof {
            assert(trees(kids@) =~= target.children);
            let ghost next = FileNode {
                name: self.name,
                path: self.path,
                is_dir: self.is_dir,
                children: kids,
            };
            next.lemma_view();
            assert(next@ == target);
        }
        self.children = kids;
    }

    /// The child called `name`, if there is one.
    pub fn find_child(&self, name: &str) -> (found: Option<&FileNode>)
        ensures
            match found {
                Some(c) => self@.child(name@) == Some(c@),
                None => self@.child(name@) is None,
            },
    {
        proof {
            use_type_invariant(self);
            self.lemma_view();
        }
        let wanted = chars_of(name);
        let at = locate(&self.children, &wanted);
        if at < self.children.len() {
            let kid = &self.children[at];
            let there = chars_of(kid.name.as_str());
            proof {
                kid.lemma_view();
            }
            if chars_eq(&there, &wanted) {
                return Some(kid);
            }
        }
        None
    }

    /// The directory reached by following `position` from this node, one
    /// name per level.
    pub fn resolve(&self, position: &Vec<String>) -> (found: Option<&FileNode>)
        ensures
            match found {
                Some(n) => self@.resolve(texts(position@)) == Some(n@),
                None => self@.resolve(texts(position@)) is None,
            },
    {
        let mut node: &FileNode = self;
        let mut i: usize = 0;
        while i < position.len()
            invariant
                i <= position.len(),
                self@.resolve(texts(position@).take(i as int)) == Some(node@),
            decreases position.len() - i,
        {
            let ghost upto = texts(position@).take(i + 1);
            proof {
                assert(upto.drop_last() =~= texts(position@).take(i as int));
                assert(upto.last() == position@[i as int]@);
                if self@.resolve(upto) is None {
                    lemma_resolve_none(self@, texts(position@), i + 1);
                }
            }
            match node.find_child(position[i].as_str()) {
                Some(c) => {
                    if !c.is_dir {
                        return None;
                    }
                    proof {
                        c.lemma_view();
                    }
                    node = c;
                },
                None => {
                    return None;
                },
            }
            i += 1;
        }
        proof {
            assert(texts(position@).take(position@.len() as int) =~= texts(position@));
        }
        Some(node)
    }
}

} // verus!
