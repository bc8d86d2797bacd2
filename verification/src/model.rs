//! What a walk builds, stated without steps: the tree of a path in a file
//! system at rest, and the proof that a walk driven by that file system ends
//! with exactly this tree, or with exactly this failure.

use crate::error::{kind_of, Cause, ErrorKind, ErrorView, Operation};
use crate::node::Tree;
use crate::path::is_canonical;
use crate::walk::{EntryView, EventView, FrameView, Pending, StepView, WalkView};
use vstd::prelude::*;

verus! {

/// A file system at rest: what it answers to each operation on each path,
/// the same whenever it is asked.
pub struct FileSystem {
    /// The canonical form of a path.
    pub canonical: spec_fn(Seq<char>) -> Result<Seq<char>, Cause>,
    /// The byte size of the entry at a canonical path.
    pub size: spec_fn(Seq<char>) -> Result<u64, Cause>,
    /// Whether a path denotes a directory.
    pub is_dir: spec_fn(Seq<char>) -> bool,
    /// The enumeration of the directory at a path.
    pub entries: spec_fn(Seq<char>) -> Result<Seq<EntryView>, Cause>,
}

/// The end of a build: the tree, or the failure.
pub type Built = Result<Tree, ErrorView>;

/// The step that ends a walk with `built`.
pub open spec fn ended(built: Built) -> StepView {
    match built {
        Ok(tree) => StepView::Done(tree),
        Err(error) => StepView::Failed(error),
    }
}

impl FileSystem {
    /// What this file system answers to the operation that `pending` waits for.
    pub open spec fn answer(self, pending: Pending) -> EventView {
        match pending {
            Pending::Canonical { path } => match (self.canonical)(path) {
                Ok(canonical) => EventView::Canonical(canonical),
                Err(cause) => EventView::Failed(cause),
            },
            Pending::Size { canonical, .. } => match (self.size)(canonical) {
                Ok(size) => EventView::Size(size),
                Err(cause) => EventView::Failed(cause),
            },
            Pending::IsDir { path, .. } => EventView::IsDir((self.is_dir)(path)),
            Pending::Entries { path, .. } => match (self.entries)(path) {
                Ok(entries) => EventView::Entries(entries),
                Err(cause) => EventView::Failed(cause),
            },
        }
    }

    /// Whether `path` denotes an entry that resolves, has a size, and is no
    /// directory.
    pub open spec fn is_file(self, path: Seq<char>) -> bool {
        &&& (self.canonical)(path) matches Ok(canonical)
        &&& is_canonical(canonical)
        &&& (self.size)(canonical) is Ok
        &&& !(self.is_dir)(path)
    }

    /// Whether `path` denotes a directory that resolves, has a size, and is
    /// enumerated as `entries`.
    pub open spec fn is_listed(self, path: Seq<char>, entries: Seq<EntryView>) -> bool {
        &&& (self.canonical)(path) matches Ok(canonical)
        &&& is_canonical(canonical)
        &&& (self.size)(canonical) is Ok
        &&& (self.is_dir)(path)
        &&& (self.entries)(path) == Ok::<Seq<EntryView>, Cause>(entries)
    }

    /// The node of the entry that `path` resolves to, without children.
    pub open spec fn node(self, path: Seq<char>) -> Tree
        recommends
            (self.canonical)(path) is Ok,
            (self.size)((self.canonical)(path)->Ok_0) is Ok,
    {
        let canonical = (self.canonical)(path)->Ok_0;
        Tree::leaf(canonical, (self.size)(canonical)->Ok_0)
    }

    /// Where `walk` stands after this file system has answered it `steps`
    /// times, or fewer where the walk ended before.
    pub open spec fn run(self, walk: WalkView, steps: nat) -> StepView
        decreases steps,
    {
        if steps == 0 {
            StepView::Continue(walk)
        } else {
            match walk.step(self.answer(walk.pending)) {
                StepView::Continue(next) => self.run(next, (steps - 1) as nat),
                end => end,
            }
        }
    }

    /// Where a walk that stands at `step` stands after `steps` more answers.
    pub open spec fn resume(self, step: StepView, steps: nat) -> StepView {
        match step {
            StepView::Continue(walk) => self.run(walk, steps),
            end => end,
        }
    }

    /// The tree of `path`: the node of the entry that `path` resolves to,
    /// and, where `path` denotes a directory, below it the trees of the
    /// directory's entries in the order of their enumeration. The first
    /// operation that fails, in that order, is the failure of the whole.
    ///
    /// `None` where directories nest more than `depth` deep below `path`.
    pub open spec fn tree(self, path: Seq<char>, depth: nat) -> Option<Built>
        decreases depth, 1nat, 0nat,
    {
        match (self.canonical)(path) {
            Err(cause) => Some(
                Err(ErrorView { kind: kind_of(Operation::Canonicalize, cause), path }),
            ),
            Ok(canonical) => if !is_canonical(canonical) {
                Some(Err(ErrorView { kind: ErrorKind::CanonicalizationFailure, path }))
            } else {
                match (self.size)(canonical) {
                    Err(cause) => Some(
                        Err(
                            ErrorView {
                                kind: kind_of(Operation::Metadata, cause),
                                path: canonical,
                            },
                        ),
                    ),
                    Ok(size) => if !(self.is_dir)(path) {
                        Some(Ok(Tree::leaf(canonical, size)))
                    } else {
                        match (self.entries)(path) {
                            Err(cause) => Some(
                                Err(ErrorView { kind: kind_of(Operation::ReadDir, cause), path }),
                            ),
                            Ok(entries) => match self.children(path, entries, depth) {
                                None => None,
                                Some(Err(error)) => Some(Err(error)),
                                Some(Ok(children)) => Some(
                                    Ok(Tree { children, ..Tree::leaf(canonical, size) }),
                                ),
                            },
                        }
                    },
                }
            },
        }
    }

    /// The trees of the items `entries` of the directory `dir`, in order, or
    /// the first failure among them: that of the enumeration at an item, or
    /// that of an entry's own tree.
    ///
    /// `None` where an entry's tree is not to be had within `depth - 1`.
    pub open spec fn children(self, dir: Seq<char>, entries: Seq<EntryView>, depth: nat) -> Option<
        Result<Seq<Tree>, ErrorView>,
    >
        decreases depth, 0nat, entries.len(),
    {
        if entries.len() == 0 {
            Some(Ok(Seq::empty()))
        } else {
            match entries.first() {
                EntryView::Unreadable(cause) => Some(
                    Err(ErrorView { kind: kind_of(Operation::ReadDir, cause), path: dir }),
                ),
                EntryView::Path(path) => if depth == 0 {
                    None
                } else {
                    match self.tree(path, (depth - 1) as nat) {
                        None => None,
                        Some(Err(error)) => Some(Err(error)),
                        Some(Ok(first)) => match self.children(dir, entries.drop_first(), depth) {
                            None => None,
                            Some(Err(error)) => Some(Err(error)),
                            Some(Ok(others)) => Some(Ok(seq![first] + others)),
                        },
                    }
                },
            }
        }
    }

    /// Whether a walk of `path` that this file system answers ends with
    /// `built`.
    pub open spec fn builds(self, path: Seq<char>, built: Built) -> bool {
        exists|steps: nat| self.run(WalkView::start(path), steps) == ended(built)
    }
}

impl FileSystem {
    /// A walk of `path` ends with `built` exactly where `built` is the tree
    /// of `path`, or its failure, within some depth. A walk of a path
    /// whose tree is to be had within no depth never ends.
    pub proof fn theorem_builds_exactly_tree(self, path: Seq<char>, built: Built)
        ensures
            self.builds(path, built) <==> exists|depth: nat|
                #[trigger] self.tree(path, depth) == Some(built),
    {
        if self.builds(path, built) {
            let steps = choose|steps: nat| self.run(WalkView::start(path), steps) == ended(built);
            self.theorem_walk_ends_with_tree(path, steps);
        }
        if exists|depth: nat| #[trigger] self.tree(path, depth) == Some(built) {
            let depth = choose|depth: nat| #[trigger] self.tree(path, depth) == Some(built);
            self.theorem_walk_builds_tree(path, depth);
        }
    }

    /// A walk of `path` that this file system answers ends with the tree of
    /// `path`, or with the failure of that tree, and with nothing else.
    pub proof fn theorem_walk_builds_tree(self, path: Seq<char>, depth: nat)
        requires
            self.tree(path, depth) is Some,
        ensures
            self.builds(path, self.tree(path, depth)->0),
            forall|steps: nat|
                !(#[trigger] self.run(WalkView::start(path), steps) is Continue) ==> self.run(
                    WalkView::start(path),
                    steps,
                ) == ended(self.tree(path, depth)->0),
    {
        let start = WalkView::start(path);
        let enough = self.tree_steps(path, depth);
        let end = ended(self.tree(path, depth)->0);
        self.lemma_tree_run(Seq::empty(), path, depth);
        assert forall|steps: nat| !(#[trigger] self.run(start, steps) is Continue) implies self.run(
            start,
            steps,
        ) == end by {
            if steps <= enough {
                self.lemma_run_add(start, steps, (enough - steps) as nat);
            } else {
                self.lemma_run_add(start, enough, (steps - enough) as nat);
            }
        }
    }

    /// A walk of `path` that has ended after `steps` answers has built the
    /// tree of `path`, which is to be had within `steps`.
    pub proof fn theorem_walk_ends_with_tree(self, path: Seq<char>, steps: nat)
        requires
            !(self.run(WalkView::start(path), steps) is Continue),
        ensures
            self.tree(path, steps) is Some,
            self.run(WalkView::start(path), steps) == ended(self.tree(path, steps)->0),
    {
        if self.tree(path, steps) is None {
            self.lemma_tree_run_goes_on(Seq::empty(), path, steps, steps);
        }
        self.theorem_walk_builds_tree(path, steps);
    }
}

impl FileSystem {
    /// How many answers a walk takes to build `tree(path, depth)`.
    spec fn tree_steps(self, path: Seq<char>, depth: nat) -> nat
        decreases depth, 1nat, 0nat,
    {
        match (self.canonical)(path) {
            Err(_) => 1,
            Ok(canonical) => if !is_canonical(canonical) {
                1
            } else {
                match (self.size)(canonical) {
                    Err(_) => 2,
                    Ok(_) => if !(self.is_dir)(path) {
                        3
                    } else {
                        match (self.entries)(path) {
                            Err(_) => 4,
                            Ok(entries) => 4 + self.children_steps(path, entries, depth),
                        }
                    },
                }
            },
        }
    }

    /// How many answers a walk takes to build `children(dir, entries, depth)`.
    spec fn children_steps(self, dir: Seq<char>, entries: Seq<EntryView>, depth: nat) -> nat
        decreases depth, 0nat, entries.len(),
    {
        if entries.len() == 0 {
            0
        } else {
            match entries.first() {
                EntryView::Unreadable(_) => 0,
                EntryView::Path(path) => if depth == 0 {
                    0
                } else {
                    let first = self.tree_steps(path, (depth - 1) as nat);
                    match self.tree(path, (depth - 1) as nat) {
                        Some(Ok(_)) => first + self.children_steps(
                            dir,
                            entries.drop_first(),
                            depth,
                        ),
                        _ => first,
                    }
                },
            }
        }
    }

    /// Answers taken in two runs are answers taken in one.
    proof fn lemma_run_add(self, walk: WalkView, a: nat, b: nat)
        ensures
            self.run(walk, a + b) == self.resume(self.run(walk, a), b),
        decreases a,
    {
        if a > 0 {
            match walk.step(self.answer(walk.pending)) {
                StepView::Continue(next) => {
                    self.lemma_run_add(next, (a - 1) as nat, b);
                },
                _ => {},
            }
        }
    }

    /// A walk that is about to visit `path` below the directories `stack`
    /// comes, by the answers of this file system, to hand the tree of `path`
    /// to `stack`, or to the failure of that tree.
    proof fn lemma_tree_run(self, stack: Seq<FrameView>, path: Seq<char>, depth: nat)
        requires
            self.tree(path, depth) is Some,
        ensures
            self.run(
                WalkView { stack, pending: Pending::Canonical { path } },
                self.tree_steps(path, depth),
            ) == (match self.tree(path, depth)->0 {
                Ok(tree) => WalkView::deliver(stack, tree),
                Err(error) => StepView::Failed(error),
            }),
        decreases depth, 1nat, 0nat,
    {
        // The answers about `path` itself, four at most, are read off the
        // definitions; what follows is the walk through its entries.
        reveal_with_fuel(FileSystem::run, 5);
        let entries = (self.entries)(path)->Ok_0;
        if self.is_listed(path, entries) {
            let visiting = WalkView { stack, pending: Pending::Canonical { path } };
            let frame = FrameView { node: self.node(path), path, rest: entries };
            self.lemma_run_add(visiting, 4, self.children_steps(path, entries, depth));
            self.lemma_children_run(stack, frame, depth);
            assert(frame.node.children + self.children(path, entries, depth)->0->Ok_0
                =~= self.children(path, entries, depth)->0->Ok_0);
        }
    }

    /// A walk that goes on with the directory `frame` below the directories
    /// `stack` comes, by the answers of this file system, to hand that
    /// directory's node, with the trees of its remaining entries added, to
    /// `stack`, or to the first failure among those entries.
    proof fn lemma_children_run(self, stack: Seq<FrameView>, frame: FrameView, depth: nat)
        requires
            self.children(frame.path, frame.rest, depth) is Some,
        ensures
            self.resume(
                WalkView::advance(stack, frame),
                self.children_steps(frame.path, frame.rest, depth),
            ) == (match self.children(frame.path, frame.rest, depth)->0 {
                Ok(children) => WalkView::deliver(
                    stack,
                    Tree { children: frame.node.children + children, ..frame.node },
                ),
                Err(error) => StepView::Failed(error),
            }),
        decreases depth, 0nat, frame.rest.len(),
    {
        if frame.rest.len() == 0 {
            assert(frame.node.children + Seq::<Tree>::empty() =~= frame.node.children);
        } else if let EntryView::Path(path) = frame.rest.first() {
            // The walk enters the first entry, with the directory waiting
            // on the stack for its tree.
            let waiting = FrameView { rest: frame.rest.drop_first(), ..frame };
            let inner = stack.push(waiting);
            let visiting = WalkView { stack: inner, pending: Pending::Canonical { path } };
            let first = self.tree_steps(path, (depth - 1) as nat);
            self.lemma_tree_run(inner, path, (depth - 1) as nat);
            if let Some(Ok(tree)) = self.tree(path, (depth - 1) as nat) {
                // The tree comes back to the directory, which goes on with
                // the entries that are left.
                let grown = FrameView { node: waiting.node.with_child(tree), ..waiting };
                let others = self.children_steps(frame.path, waiting.rest, depth);
                assert(inner.drop_last() =~= stack);
                self.lemma_run_add(visiting, first, others);
                self.lemma_children_run(stack, grown, depth);
                if let Some(Ok(rest)) = self.children(frame.path, waiting.rest, depth) {
                    assert(grown.node.children + rest =~= frame.node.children + (seq![tree]
                        + rest));
                }
            }
        }
    }

    /// A walk that is about to visit `path` is still under way after `steps`
    /// answers, where the tree of `path` is not to be had within `depth` and
    /// `steps` is at most `depth + 4`.
    proof fn lemma_tree_run_goes_on(
        self,
        stack: Seq<FrameView>,
        path: Seq<char>,
        depth: nat,
        steps: nat,
    )
        requires
            self.tree(path, depth) is None,
            steps <= depth + 4,
        ensures
            self.run(WalkView { stack, pending: Pending::Canonical { path } }, steps) is Continue,
        decreases depth, 1nat, 0nat,
    {
        // A tree is wanting only below a directory that was enumerated: the
        // four answers about `path` itself leave the walk under way.
        reveal_with_fuel(FileSystem::run, 5);
        if steps > 4 {
            let visiting = WalkView { stack, pending: Pending::Canonical { path } };
            let frame = FrameView {
                node: self.node(path),
                path,
                rest: (self.entries)(path)->Ok_0,
            };
            self.lemma_run_add(visiting, 4, (steps - 4) as nat);
            self.lemma_children_run_goes_on(stack, frame, depth, (steps - 4) as nat);
        }
    }

    /// A walk that goes on with the directory `frame` is still under way
    /// after `steps` answers, where the children of `frame` are not to be had
    /// within `depth` and `steps` is at most `depth`.
    proof fn lemma_children_run_goes_on(
        self,
        stack: Seq<FrameView>,
        frame: FrameView,
        depth: nat,
        steps: nat,
    )
        requires
            self.children(frame.path, frame.rest, depth) is None,
            steps <= depth,
        ensures
            self.resume(WalkView::advance(stack, frame), steps) is Continue,
        decreases depth, 0nat, frame.rest.len(),
    {
        // Children are wanting only where an item is the path of an entry:
        // the walk enters it.
        let path = frame.rest.first()->Path_0;
        let waiting = FrameView { rest: frame.rest.drop_first(), ..frame };
        let inner = stack.push(waiting);
        let visiting = WalkView { stack: inner, pending: Pending::Canonical { path } };
        if depth > 0 {
            let below = (depth - 1) as nat;
            match self.tree(path, below) {
                None => {
                    self.lemma_tree_run_goes_on(inner, path, below, steps);
                },
                Some(Ok(tree)) => {
                    // The tree of the entry comes back to the directory
                    // after `first` answers, and the walk goes on from there.
                    let first = self.tree_steps(path, below);
                    let grown = FrameView { node: waiting.node.with_child(tree), ..waiting };
                    self.lemma_tree_run(inner, path, below);
                    assert(inner.drop_last() =~= stack);
                    if steps < first {
                        self.lemma_run_add(visiting, steps, (first - steps) as nat);
                    } else {
                        self.lemma_run_add(visiting, first, (steps - first) as nat);
                        self.lemma_children_run_goes_on(
                            stack,
                            grown,
                            depth,
                            (steps - first) as nat,
                        );
                    }
                },
                Some(Err(_)) => {},
            }
        }
    }
}

} // verus!