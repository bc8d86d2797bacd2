//! The nodes of a tree and their mathematical model.

use crate::path::{
    check_canonical, file_name, final_component, is_absolute, is_canonical, is_dot_segment,
    lemma_canonical, segments,
};
use vstd::prelude::*;

verus! {

/// The model of a node: one entry of the file system with the entries below it.
pub struct Tree {
    /// The final component of `path`.
    pub name: Seq<char>,
    /// The canonical path of the entry.
    pub path: Seq<char>,
    /// The byte size that the file system reports for the entry itself.
    pub size: u64,
    /// The entries of a directory, in the order in which they were enumerated.
    pub children: Seq<Tree>,
}

impl Tree {
    /// A node without children for the entry at `path`.
    pub open spec fn leaf(path: Seq<char>, size: u64) -> Tree {
        Tree { name: final_component(path), path, size, children: Seq::empty() }
    }

    /// This node with `child` added behind its children.
    pub open spec fn with_child(self, child: Tree) -> Tree {
        Tree { children: self.children.push(child), ..self }
    }

    /// Whether every node of the tree has the canonical path of an entry and
    /// is named by the final component of that path.
    pub open spec fn wf(self) -> bool
        decreases self,
    {
        &&& is_canonical(self.path)
        &&& self.name == final_component(self.path)
        &&& forall|i: int| 0 <= i < self.children.len() ==> (#[trigger] self.children[i]).wf()
    }

    /// Whether `node` is this tree or one of the trees below it.
    pub open spec fn holds(self, node: Tree) -> bool
        decreases self,
    {
        self == node || exists|i: int|
            0 <= i < self.children.len() && (#[trigger] self.children[i]).holds(node)
    }

    /// In a well-formed tree the path of every node is absolute and has no
    /// `.` or `..` segment, and the name of every node is the final component
    /// of its path.
    pub proof fn law_every_node_canonical(self, node: Tree)
        requires
            self.wf(),
            self.holds(node),
        ensures
            is_absolute(node.path),
            forall|i: int|
                0 <= i < segments(node.path).len() ==> !is_dot_segment(
                    #[trigger] segments(node.path)[i],
                ),
            node.name == final_component(node.path),
        decreases self,
    {
        if self == node {
            lemma_canonical(self.path);
        } else {
            let i = choose|i: int|
                0 <= i < self.children.len() && (#[trigger] self.children[i]).holds(node);
            self.children[i].law_every_node_canonical(node);
        }
    }
}

/// The models of `nodes`, one for one.
pub open spec fn trees(nodes: Seq<FileNode>) -> Seq<Tree> {
    nodes.map_values(|n: FileNode| n@)
}

/// One entry of the file system, with the entries below it where it is a
/// directory.
#[derive(Debug, PartialEq, Eq)]
pub struct FileNode {
    name: String,
    path: String,
    size: u64,
    children: Vec<FileNode>,
}

impl View for FileNode {
    type V = Tree;

    closed spec fn view(&self) -> Tree {
        self.model()
    }
}

impl FileNode {
    /// The model of this node: its fields, and the models of its children.
    spec fn model(&self) -> Tree
        decreases self,
    {
        Tree {
            name: self.name@,
            path: self.path@,
            size: self.size,
            children: Seq::new(
                self.children.len() as nat,
                |i: int|
                    if 0 <= i < self.children.len() {
                        self.children[i].model()
                    } else {
                        arbitrary()
                    },
            ),
        }
    }

    /// What holds of every node: its model is well formed.
    #[verifier::type_invariant]
    pub open spec fn inv(self) -> bool {
        self@.wf()
    }

    /// The node of the entry at `canonical`, without children.
    pub(crate) fn leaf(canonical: String, size: u64) -> (node: FileNode)
        requires
            is_canonical(canonical@),
        ensures
            node@ == Tree::leaf(canonical@, size),
            node@.wf(),
    {
        let node = FileNode {
            name: file_name(canonical.as_str()),
            path: canonical,
            size,
            children: Vec::new(),
        };
        assert(node@.children =~= Seq::<Tree>::empty());
        node
    }

    /// A node made of its parts; `None` unless `path` is the canonical path of
    /// an entry and `name` is its final component.
    pub fn new(name: String, path: String, size: u64, children: Vec<FileNode>) -> (node: Option<
        FileNode,
    >)
        ensures
            node is Some <==> is_canonical(path@) && name@ == final_component(path@),
            node matches Some(n) ==> n@ == (Tree {
                name: name@,
                path: path@,
                size,
                children: trees(children@),
            }) && n@.wf(),
    {
        if !check_canonical(path.as_str()) {
            return None;
        }
        let expected = file_name(path.as_str());
        if name != expected {
            return None;
        }
        let n: usize = children.len();
        let mut i: usize = 0;
        while i < n
            invariant
                n == children.len(),
                i <= n,
                forall|j: int| 0 <= j < i ==> (#[trigger] children[j])@.wf(),
            decreases n - i,
        {
            let child = &children[i];
            proof {
                use_type_invariant(child);
            }
            i = i + 1;
        }
        let ghost below = trees(children@);
        let node = FileNode { name, path, size, children };
        assert(node@.children =~= below);
        Some(node)
    }

    /// The name of the entry: the final component of its path.
    pub fn name(&self) -> (name: &str)
        ensures
            name@ == self@.name,
            name@ == final_component(self@.path),
    {
        proof {
            use_type_invariant(self);
        }
        self.name.as_str()
    }

    /// The canonical path of the entry.
    pub fn path(&self) -> (path: &str)
        ensures
            path@ == self@.path,
            is_canonical(path@),
    {
        proof {
            use_type_invariant(self);
        }
        self.path.as_str()
    }

    /// The byte size of the entry itself.
    pub fn size(&self) -> (size: u64)
        ensures
            size == self@.size,
    {
        self.size
    }

    /// The entries below this one, in the order in which they were enumerated.
    pub fn children(&self) -> (children: &Vec<FileNode>)
        ensures
            trees(children@) == self@.children,
            forall|i: int| 0 <= i < children.len() ==> (#[trigger] children[i])@.wf(),
    {
        proof {
            use_type_invariant(self);
        }
        assert forall|i: int| 0 <= i < self.children.len() implies (
        #[trigger] self.children[i])@.wf() by {
            assert(self.children[i]@ == self@.children[i]);
        }
        &self.children
    }

    /// This node with `child` added behind its children.
    pub(crate) fn with_child(self, child: FileNode) -> (node: FileNode)
        ensures
            node@ == self@.with_child(child@),
    {
        proof {
            use_type_invariant(&self);
            use_type_invariant(&child);
        }
        let ghost before = self@;
        let FileNode { name, path, size, mut children } = self;
        children.push(child);
        assert forall|i: int| 0 <= i < children.len() implies (#[trigger] children[i])@.wf() by {
            if i < before.children.len() {
                assert(children[i]@ == before.children[i]);
            }
        }
        let node = FileNode { name, path, size, children };
        assert(node@.children =~= before.children.push(child@));
        node
    }
}

/// The node of the entry at `canonical`, whose byte size is `size`, without
/// children; `None` where `canonical` is not the canonical path of an entry.
pub fn path2node(canonical: &str, size: u64) -> (node: Option<FileNode>)
    ensures
        node is Some <==> is_canonical(canonical@),
        node matches Some(n) ==> n@ == Tree::leaf(canonical@, size) && n@.wf(),
{
    if check_canonical(canonical) {
        Some(FileNode::leaf(String::from_str(canonical), size))
    } else {
        None
    }
}

} // verus!
