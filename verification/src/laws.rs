//! Laws of a build, proved of every file system at rest.
//!
//! Each law speaks of what a walk ends with (`FileSystem::builds`). The
//! lemmas beside them speak of the tree of the model, which is what a walk
//! ends with (`FileSystem::theorem_builds_exactly_tree`).

use crate::error::{Cause, ErrorView};
use crate::model::{ended, Built, FileSystem};
use crate::node::Tree;
use crate::path::is_canonical;
use crate::walk::{EntryView, EventView, StepView, WalkView};
use vstd::prelude::*;

verus! {

impl FileSystem {
    /// Whether `a` and `b` denote the same entry as far as a build can tell
    /// within `depth`: they resolve alike, and where they denote a directory,
    /// its two enumerations fail alike or agree item by item, on the cause
    /// where they fail and on the entry that the two paths denote elsewhere.
    pub open spec fn alike(self, a: Seq<char>, b: Seq<char>, depth: nat) -> bool
        decreases depth, 1nat,
    {
        &&& (self.canonical)(a) == (self.canonical)(b)
        &&& (self.is_dir)(a) == (self.is_dir)(b)
        &&& (self.is_dir)(a) ==> match ((self.entries)(a), (self.entries)(b)) {
            (Ok(left), Ok(right)) => self.alike_entries(left, right, depth),
            (Err(left), Err(right)) => left == right,
            _ => false,
        }
    }

    /// Whether two enumerations agree item by item.
    pub open spec fn alike_entries(
        self,
        left: Seq<EntryView>,
        right: Seq<EntryView>,
        depth: nat,
    ) -> bool
        decreases depth, 0nat,
    {
        &&& left.len() == right.len()
        &&& forall|i: int|
            0 <= i < left.len() ==> match (#[trigger] left[i], right[i]) {
                (EntryView::Path(a), EntryView::Path(b)) => depth > 0 ==> self.alike(
                    a,
                    b,
                    (depth - 1) as nat,
                ),
                (EntryView::Unreadable(a), EntryView::Unreadable(b)) => a == b,
                _ => false,
            }
    }

    /// Whether `target` is `path` or lies below it, at most `depth`
    /// directories down: the path of an entry of `path`, or of an entry of
    /// such an entry, and so on.
    pub open spec fn reaches(self, path: Seq<char>, target: Seq<char>, depth: nat) -> bool
        decreases depth,
    {
        ||| path == target
        ||| {
            &&& depth > 0
            &&& (self.is_dir)(path)
            &&& (self.entries)(path) matches Ok(entries)
            &&& exists|i: int|
                0 <= i < entries.len() && (#[trigger] entries[i]) is Path && self.reaches(
                    entries[i]->Path_0,
                    target,
                    (depth - 1) as nat,
                )
        }
    }

    /// A walk ends in one way only.
    pub proof fn law_builds_once(self, path: Seq<char>, one: Built, other: Built)
        requires
            self.builds(path, one),
            self.builds(path, other),
        ensures
            one == other,
    {
        let a = choose|steps: nat| self.run(WalkView::start(path), steps) == ended(one);
        let b = choose|steps: nat| self.run(WalkView::start(path), steps) == ended(other);
        self.theorem_walk_ends_with_tree(path, a);
        self.theorem_walk_builds_tree(path, a);
        assert(self.run(WalkView::start(path), b) == ended(self.tree(path, a)->0));
    }

    /// Every tree that a walk ends with is well formed: each of its nodes has
    /// the canonical path of an entry, and is named by the final component of
    /// that path.
    pub proof fn law_built_tree_is_wf(self, path: Seq<char>, tree: Tree)
        requires
            self.builds(path, Ok(tree)),
        ensures
            tree.wf(),
    {
        let steps = choose|steps: nat|
            self.run(WalkView::start(path), steps) == ended(Ok::<Tree, ErrorView>(tree));
        self.lemma_run_keeps_wf(WalkView::start(path), steps);
    }

    /// The root of a tree that is built has as its path the canonical form of
    /// the path that was asked for, in whatever form that path was given, and
    /// as its size the size of the entry at that canonical path.
    pub proof fn law_root_is_canonical(self, path: Seq<char>, tree: Tree)
        requires
            self.builds(path, Ok(tree)),
        ensures
            (self.canonical)(path) == Ok::<Seq<char>, Cause>(tree.path),
            (self.size)(tree.path) == Ok::<u64, Cause>(tree.size),
    {
        let depth = self.lemma_depth_of(path, Ok(tree));
    }

    /// The tree that is built of a directory mirrors the directory: it has one
    /// child for each item of the enumeration, in order, and the child is the
    /// tree that is built of that entry. The tree that is built of anything
    /// else has no children.
    pub proof fn law_tree_mirrors_directory(self, path: Seq<char>, tree: Tree)
        requires
            self.builds(path, Ok(tree)),
        ensures
            !(self.is_dir)(path) ==> tree.children.len() == 0,
            (self.is_dir)(path) ==> {
                &&& (self.entries)(path) matches Ok(entries)
                &&& tree.children.len() == entries.len()
                &&& forall|i: int|
                    0 <= i < entries.len() ==> (#[trigger] entries[i]) is Path && self.builds(
                        entries[i]->Path_0,
                        Ok(tree.children[i]),
                    )
            },
    {
        let depth = self.lemma_depth_of(path, Ok(tree));
        if (self.is_dir)(path) {
            let entries = (self.entries)(path)->Ok_0;
            self.lemma_children_complete(path, entries, depth);
            assert forall|i: int| 0 <= i < entries.len() implies (#[trigger] entries[i]) is Path
                && self.builds(entries[i]->Path_0, Ok(tree.children[i])) by {
                self.theorem_walk_builds_tree(entries[i]->Path_0, (depth - 1) as nat);
            }
        }
    }

    /// The build of a directory that holds files only ends with a tree that
    /// has one child for each entry, in order: the node of that file, with
    /// the file's byte size.
    pub proof fn law_flat_directory(self, path: Seq<char>, entries: Seq<EntryView>)
        requires
            self.is_listed(path, entries),
            forall|i: int|
                0 <= i < entries.len() ==> (#[trigger] entries[i]) is Path && self.is_file(
                    entries[i]->Path_0,
                ),
        ensures
            self.builds(
                path,
                Ok(
                    Tree {
                        children: Seq::new(entries.len(), |i: int| self.node(entries[i]->Path_0)),
                        ..self.node(path)
                    },
                ),
            ),
    {
        self.lemma_flat_children(path, entries);
        self.theorem_walk_builds_tree(path, 1);
    }

    /// The build of a directory without entries ends with its node, and the
    /// node has no children.
    pub proof fn law_empty_directory(self, path: Seq<char>)
        requires
            self.is_listed(path, Seq::empty()),
        ensures
            self.builds(path, Ok(self.node(path))),
            self.node(path).children == Seq::<Tree>::empty(),
    {
        self.theorem_walk_builds_tree(path, 0);
    }

    /// No entry is left out: where a tree is built of `path`, a tree is built
    /// of everything below `path`, and is part of the tree of `path`. A build
    /// of `path` that ends with a tree has met no failure anywhere below.
    pub proof fn law_every_descendant_built(
        self,
        path: Seq<char>,
        tree: Tree,
        target: Seq<char>,
        depth: nat,
    )
        requires
            self.builds(path, Ok(tree)),
            self.reaches(path, target, depth),
        ensures
            exists|below: Tree| #[trigger] tree.holds(below) && self.builds(target, Ok(below)),
        decreases depth,
    {
        if path == target {
            assert(tree.holds(tree));
        } else {
            let entries = (self.entries)(path)->Ok_0;
            let i = choose|i: int|
                0 <= i < entries.len() && (#[trigger] entries[i]) is Path && self.reaches(
                    entries[i]->Path_0,
                    target,
                    (depth - 1) as nat,
                );
            self.law_tree_mirrors_directory(path, tree);
            let child = tree.children[i];
            self.law_every_descendant_built(entries[i]->Path_0, child, target, (depth - 1) as nat);
            let below = choose|below: Tree|
                #[trigger] child.holds(below) && self.builds(target, Ok(below));
            assert(tree.holds(below));
        }
    }

    /// A failure anywhere is the failure of the whole: where the build of
    /// anything below `path` ends with a failure, the build of `path` ends
    /// with no tree.
    pub proof fn law_fail_fast(
        self,
        path: Seq<char>,
        target: Seq<char>,
        depth: nat,
        error: ErrorView,
        built: Built,
    )
        requires
            self.builds(path, built),
            self.reaches(path, target, depth),
            self.builds(target, Err(error)),
        ensures
            built is Err,
    {
        if let Ok(tree) = built {
            self.law_every_descendant_built(path, tree, target, depth);
            let below = choose|below: Tree|
                #[trigger] tree.holds(below) && self.builds(target, Ok(below));
            self.law_builds_once(target, Ok(below), Err(error));
        }
    }

    /// The build of a directory whose enumeration fails at an item ends with
    /// no tree.
    pub proof fn law_unreadable_item_fails(
        self,
        path: Seq<char>,
        entries: Seq<EntryView>,
        i: int,
        built: Built,
    )
        requires
            self.builds(path, built),
            (self.is_dir)(path),
            (self.entries)(path) == Ok::<Seq<EntryView>, Cause>(entries),
            0 <= i < entries.len(),
            entries[i] is Unreadable,
        ensures
            built is Err,
    {
        if let Ok(tree) = built {
            self.law_tree_mirrors_directory(path, tree);
        }
    }

    /// A walk that is told of a failure ends with a failure, whatever it has
    /// built so far.
    pub proof fn law_failure_ends_walk(walk: WalkView, cause: Cause)
        ensures
            walk.step(EventView::Failed(cause)) is Failed,
    {
    }

    /// Two paths that denote the same entry build the same: the same tree
    /// where a tree is built, and a failure of the same kind elsewhere.
    pub proof fn law_same_entry_same_tree(self, a: Seq<char>, b: Seq<char>, built: Built)
        requires
            forall|depth: nat| self.alike(a, b, depth),
            self.builds(a, built),
        ensures
            match built {
                Ok(tree) => self.builds(b, Ok(tree)),
                Err(error) => exists|other: ErrorView|
                    other.kind == error.kind && self.builds(b, Err(other)),
            },
    {
        let depth = self.lemma_depth_of(a, built);
        self.lemma_alike_trees(a, b, depth);
        self.theorem_walk_builds_tree(b, depth);
    }

    /// A sound walk stays sound however long this file system answers it,
    /// and ends, where it ends with a tree, with a well-formed one.
    pub proof fn lemma_run_keeps_wf(self, walk: WalkView, steps: nat)
        requires
            walk.wf(),
        ensures
            self.run(walk, steps).wf(),
        decreases steps,
    {
        if steps > 0 {
            walk.law_step_keeps_wf(self.answer(walk.pending));
            if let StepView::Continue(next) = walk.step(self.answer(walk.pending)) {
                self.lemma_run_keeps_wf(next, (steps - 1) as nat);
            }
        }
    }

    /// A depth within which the tree of `path` is what a walk of `path` ends
    /// with.
    pub proof fn lemma_depth_of(self, path: Seq<char>, built: Built) -> (depth: nat)
        requires
            self.builds(path, built),
        ensures
            self.tree(path, depth) == Some(built),
    {
        self.theorem_builds_exactly_tree(path, built);
        choose|depth: nat| #[trigger] self.tree(path, depth) == Some(built)
    }

    /// A tree that is had within `depth` is had within any greater depth, and
    /// is the same there.
    pub proof fn law_tree_deeper(self, path: Seq<char>, depth: nat, deeper: nat)
        requires
            self.tree(path, depth) is Some,
            depth <= deeper,
        ensures
            self.tree(path, deeper) == self.tree(path, depth),
        decreases depth, 1nat, 0nat,
    {
        if let Ok(canonical) = (self.canonical)(path) {
            if is_canonical(canonical) && (self.size)(canonical) is Ok && (self.is_dir)(path) {
                if let Ok(entries) = (self.entries)(path) {
                    self.lemma_children_deeper(path, entries, depth, deeper);
                }
            }
        }
    }

    /// Children that are had within `depth` are had within any greater depth,
    /// and are the same there.
    pub proof fn lemma_children_deeper(
        self,
        dir: Seq<char>,
        entries: Seq<EntryView>,
        depth: nat,
        deeper: nat,
    )
        requires
            self.children(dir, entries, depth) is Some,
            depth <= deeper,
        ensures
            self.children(dir, entries, deeper) == self.children(dir, entries, depth),
        decreases depth, 0nat, entries.len(),
    {
        if entries.len() > 0 {
            if let EntryView::Path(path) = entries.first() {
                self.law_tree_deeper(path, (depth - 1) as nat, (deeper - 1) as nat);
                if self.tree(path, (depth - 1) as nat) matches Some(Ok(_)) {
                    self.lemma_children_deeper(dir, entries.drop_first(), depth, deeper);
                }
            }
        }
    }

    /// The children of the model are the trees of the items, one for one:
    /// every item is the path of an entry that has a tree of its own.
    pub proof fn lemma_children_complete(
        self,
        dir: Seq<char>,
        entries: Seq<EntryView>,
        depth: nat,
    )
        requires
            self.children(dir, entries, depth) matches Some(Ok(_)),
        ensures
            self.children(dir, entries, depth)->0->Ok_0.len() == entries.len(),
            entries.len() > 0 ==> depth > 0,
            forall|i: int|
                0 <= i < entries.len() ==> (#[trigger] entries[i]) is Path && self.tree(
                    entries[i]->Path_0,
                    (depth - 1) as nat,
                ) == Some(Ok::<Tree, ErrorView>(self.children(dir, entries, depth)->0->Ok_0[i])),
        decreases entries.len(),
    {
        if entries.len() > 0 {
            let rest = entries.drop_first();
            self.lemma_children_complete(dir, rest, depth);
            assert forall|i: int| 0 <= i < entries.len() implies (#[trigger] entries[i]) is Path
                && self.tree(entries[i]->Path_0, (depth - 1) as nat) == Some(
                Ok::<Tree, ErrorView>(self.children(dir, entries, depth)->0->Ok_0[i]),
            ) by {
                if i > 0 {
                    assert(entries[i] == rest[i - 1]);
                }
            }
        }
    }

    /// The children of a directory that holds files only are the nodes of
    /// those files.
    proof fn lemma_flat_children(self, dir: Seq<char>, entries: Seq<EntryView>)
        requires
            forall|i: int|
                0 <= i < entries.len() ==> (#[trigger] entries[i]) is Path && self.is_file(
                    entries[i]->Path_0,
                ),
        ensures
            self.children(dir, entries, 1) == Some(
                Ok::<Seq<Tree>, ErrorView>(
                    Seq::new(entries.len(), |i: int| self.node(entries[i]->Path_0)),
                ),
            ),
        decreases entries.len(),
    {
        let nodes = Seq::new(entries.len(), |i: int| self.node(entries[i]->Path_0));
        if entries.len() == 0 {
            assert(nodes =~= Seq::<Tree>::empty());
        } else {
            let rest = entries.drop_first();
            let first = entries.first();
            self.lemma_flat_children(dir, rest);
            let others = Seq::new(rest.len(), |i: int| self.node(rest[i]->Path_0));
            assert(self.tree(first->Path_0, 0) == Some(
                Ok::<Tree, ErrorView>(self.node(first->Path_0)),
            ));
            assert(seq![self.node(first->Path_0)] + others =~= nodes);
        }
    }

    /// Two paths that are alike within `depth` have, within `depth`, the same
    /// tree, or failures of the same kind, or no tree either.
    pub proof fn lemma_alike_trees(self, a: Seq<char>, b: Seq<char>, depth: nat)
        requires
            self.alike(a, b, depth),
        ensures
            match (self.tree(a, depth), self.tree(b, depth)) {
                (None, None) => true,
                (Some(Ok(x)), Some(Ok(y))) => x == y,
                (Some(Err(x)), Some(Err(y))) => x.kind == y.kind,
                _ => false,
            },
        decreases depth, 1nat, 0nat,
    {
        if let Ok(canonical) = (self.canonical)(a) {
            if is_canonical(canonical) && (self.size)(canonical) is Ok && (self.is_dir)(a) {
                if let (Ok(left), Ok(right)) = ((self.entries)(a), (self.entries)(b)) {
                    self.lemma_alike_children(a, b, left, right, depth);
                }
            }
        }
    }

    /// Two enumerations that agree item by item within `depth` give, within
    /// `depth`, the same children, or failures of the same kind, or no
    /// children either.
    proof fn lemma_alike_children(
        self,
        a: Seq<char>,
        b: Seq<char>,
        left: Seq<EntryView>,
        right: Seq<EntryView>,
        depth: nat,
    )
        requires
            self.alike_entries(left, right, depth),
        ensures
            match (self.children(a, left, depth), self.children(b, right, depth)) {
                (None, None) => true,
                (Some(Ok(x)), Some(Ok(y))) => x == y,
                (Some(Err(x)), Some(Err(y))) => x.kind == y.kind,
                _ => false,
            },
        decreases depth, 0nat, left.len(),
    {
        if left.len() > 0 {
            if let (EntryView::Path(x), EntryView::Path(y)) = (left[0], right[0]) {
                if depth > 0 {
                    self.lemma_alike_trees(x, y, (depth - 1) as nat);
                    assert(self.alike_entries(left.drop_first(), right.drop_first(), depth)) by {
                        assert forall|i: int| 0 <= i < left.len() - 1 implies {
                            &&& #[trigger] left.drop_first()[i] == left[i + 1]
                            &&& right.drop_first()[i] == right[i + 1]
                        } by {}
                    }
                    self.lemma_alike_children(
                        a,
                        b,
                        left.drop_first(),
                        right.drop_first(),
                        depth,
                    );
                }
            }
        }
    }
}

} // verus!
