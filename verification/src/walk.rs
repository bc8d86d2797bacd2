//! The walk: a build as a sequence of steps, each of which asks for one
//! operation on the file system and takes its answer.
//!
//! The walk itself never touches the file system. Whoever drives it performs
//! the operation that the walk asks for and hands back what came of it, until
//! the walk ends with a tree or with a failure.

use crate::error::{classify, kind_of, Cause, ErrorKind, ErrorView, FsError, Operation};
use crate::node::{FileNode, Tree};
use crate::path::{check_canonical, is_canonical};
use vstd::prelude::*;

verus! {

/// The model of one item of a directory's enumeration.
pub enum EntryView {
    /// The path of an entry.
    Path(Seq<char>),
    /// The enumeration failed at this item.
    Unreadable(Cause),
}

/// One item of a directory's enumeration.
#[derive(Debug, PartialEq, Eq)]
pub enum Entry {
    /// The path of an entry.
    Path(String),
    /// The enumeration failed at this item.
    Unreadable(Cause),
}

impl View for Entry {
    type V = EntryView;

    open spec fn view(&self) -> EntryView {
        match self {
            Entry::Path(p) => EntryView::Path(p@),
            Entry::Unreadable(c) => EntryView::Unreadable(*c),
        }
    }
}

/// The models of `entries`, one for one.
pub open spec fn entry_views(entries: Seq<Entry>) -> Seq<EntryView> {
    entries.map_values(|e: Entry| e@)
}

/// The model of an answer.
pub enum EventView {
    /// The canonical form of the path.
    Canonical(Seq<char>),
    /// The byte size of the entry.
    Size(u64),
    /// Whether the path denotes a directory.
    IsDir(bool),
    /// The directory's items as enumerated.
    Entries(Seq<EntryView>),
    /// The operation failed.
    Failed(Cause),
}

/// What came of the operation that a walk asked for.
#[derive(Debug, PartialEq, Eq)]
pub enum Event {
    /// The canonical form of the path: the answer to `Operation::Canonicalize`.
    Canonical(String),
    /// The byte size of the entry: the answer to `Operation::Metadata`.
    Size(u64),
    /// Whether the path denotes a directory: the answer to `Operation::IsDir`.
    IsDir(bool),
    /// The directory's items as enumerated: the answer to `Operation::ReadDir`.
    Entries(Vec<Entry>),
    /// The operation failed.
    Failed(Cause),
}

impl View for Event {
    type V = EventView;

    open spec fn view(&self) -> EventView {
        match self {
            Event::Canonical(c) => EventView::Canonical(c@),
            Event::Size(n) => EventView::Size(*n),
            Event::IsDir(b) => EventView::IsDir(*b),
            Event::Entries(es) => EventView::Entries(entry_views(es@)),
            Event::Failed(c) => EventView::Failed(*c),
        }
    }
}

/// What a walk waits for: the answer to one operation on one path.
pub enum Pending {
    /// The canonical form of `path`.
    Canonical { path: Seq<char> },
    /// The byte size of the entry at `canonical`, which `path` resolved to.
    Size { path: Seq<char>, canonical: Seq<char> },
    /// Whether `path`, the path of `node`, denotes a directory.
    IsDir { path: Seq<char>, node: Tree },
    /// The items of the directory `path`, whose node is `node`.
    Entries { path: Seq<char>, node: Tree },
}

impl Pending {
    /// The operation whose answer is awaited.
    pub open spec fn operation(self) -> Operation {
        match self {
            Pending::Canonical { .. } => Operation::Canonicalize,
            Pending::Size { .. } => Operation::Metadata,
            Pending::IsDir { .. } => Operation::IsDir,
            Pending::Entries { .. } => Operation::ReadDir,
        }
    }

    /// The path that the operation is asked about: the canonical path for
    /// `Operation::Metadata`, and the path as it was first met for the others.
    pub open spec fn target(self) -> Seq<char> {
        match self {
            Pending::Canonical { path } => path,
            Pending::Size { canonical, .. } => canonical,
            Pending::IsDir { path, .. } => path,
            Pending::Entries { path, .. } => path,
        }
    }

    /// The failure that `cause` amounts to when it ends the awaited operation.
    pub open spec fn failure(self, cause: Cause) -> ErrorView {
        ErrorView { kind: kind_of(self.operation(), cause), path: self.target() }
    }

    /// Whether what has been made of the entry so far is sound: a resolved
    /// path is the canonical path of an entry, and a node is well formed.
    pub open spec fn wf(self) -> bool {
        match self {
            Pending::Canonical { .. } => true,
            Pending::Size { canonical, .. } => is_canonical(canonical),
            Pending::IsDir { node, .. } => node.wf(),
            Pending::Entries { node, .. } => node.wf(),
        }
    }
}

/// The model of a directory that is being walked.
pub struct FrameView {
    /// The directory's node, with the children visited so far.
    pub node: Tree,
    /// The directory's path, as it was first met.
    pub path: Seq<char>,
    /// The items of its enumeration that are still to visit.
    pub rest: Seq<EntryView>,
}

/// Whether the node of each of the directories `stack` is well formed.
pub open spec fn frames_wf(stack: Seq<FrameView>) -> bool {
    forall|i: int| 0 <= i < stack.len() ==> (#[trigger] stack[i]).node.wf()
}

/// The model of a walk in progress.
pub struct WalkView {
    /// The directories that enclose the entry being visited, outermost first.
    pub stack: Seq<FrameView>,
    /// What the walk waits for.
    pub pending: Pending,
}

/// The model of what a step leads to.
pub enum StepView {
    /// The walk goes on.
    Continue(WalkView),
    /// The walk ended with the tree.
    Done(Tree),
    /// The walk ended with a failure.
    Failed(ErrorView),
}

impl StepView {
    /// Whether the walk, where it goes on, is sound, and the tree, where the
    /// walk ended with one, is well formed.
    pub open spec fn wf(self) -> bool {
        match self {
            StepView::Continue(walk) => walk.wf(),
            StepView::Done(tree) => tree.wf(),
            StepView::Failed(_) => true,
        }
    }
}

impl WalkView {
    /// Whether the walk is sound: every node it holds is well formed.
    pub open spec fn wf(self) -> bool {
        frames_wf(self.stack) && self.pending.wf()
    }

    /// The walk that builds the tree of `path`, before its first step.
    pub open spec fn start(path: Seq<char>) -> WalkView {
        WalkView { stack: Seq::empty(), pending: Pending::Canonical { path } }
    }

    /// Hands the finished `node` to the innermost of the directories `stack`,
    /// as its next child, and goes on with that directory; with no directory
    /// left, `node` is the tree.
    pub open spec fn deliver(stack: Seq<FrameView>, node: Tree) -> StepView
        decreases stack.len(), 0int,
    {
        if stack.len() == 0 {
            StepView::Done(node)
        } else {
            let top = stack.last();
            Self::advance(stack.drop_last(), FrameView { node: top.node.with_child(node), ..top })
        }
    }

    /// Goes on with the directory `frame`, which `stack` encloses: visits the
    /// next item of its enumeration, fails where the enumeration failed at
    /// that item, and hands the directory's node on where no item is left.
    pub open spec fn advance(stack: Seq<FrameView>, frame: FrameView) -> StepView
        decreases stack.len(), 1int,
    {
        if frame.rest.len() == 0 {
            Self::deliver(stack, frame.node)
        } else {
            match frame.rest.first() {
                EntryView::Unreadable(cause) => StepView::Failed(
                    ErrorView { kind: kind_of(Operation::ReadDir, cause), path: frame.path },
                ),
                EntryView::Path(path) => StepView::Continue(
                    WalkView {
                        stack: stack.push(FrameView { rest: frame.rest.drop_first(), ..frame }),
                        pending: Pending::Canonical { path },
                    },
                ),
            }
        }
    }

    /// What the walk does with `event`, the answer to the operation it asked
    /// for.
    ///
    /// A path is resolved, then sized, then tested for being a directory, and
    /// a directory is then enumerated and its items visited in turn. A failed
    /// operation ends the walk, and so does a resolved path that is not the
    /// canonical path of an entry. An answer to another operation than the
    /// one asked for counts as a failure of the latter with `Cause::Other`.
    pub open spec fn step(self, event: EventView) -> StepView {
        match (self.pending, event) {
            (Pending::Canonical { path }, EventView::Canonical(canonical)) => {
                if is_canonical(canonical) {
                    StepView::Continue(
                        WalkView { pending: Pending::Size { path, canonical }, ..self },
                    )
                } else {
                    StepView::Failed(
                        ErrorView { kind: ErrorKind::CanonicalizationFailure, path },
                    )
                }
            },
            (Pending::Size { path, canonical }, EventView::Size(size)) => StepView::Continue(
                WalkView {
                    pending: Pending::IsDir { path, node: Tree::leaf(canonical, size) },
                    ..self
                },
            ),
            (Pending::IsDir { path, node }, EventView::IsDir(is_dir)) => {
                if is_dir {
                    StepView::Continue(
                        WalkView { pending: Pending::Entries { path, node }, ..self },
                    )
                } else {
                    Self::deliver(self.stack, node)
                }
            },
            (Pending::Entries { path, node }, EventView::Entries(entries)) => Self::advance(
                self.stack,
                FrameView { node, path, rest: entries },
            ),
            (pending, EventView::Failed(cause)) => StepView::Failed(pending.failure(cause)),
            (pending, _) => StepView::Failed(pending.failure(Cause::Other)),
        }
    }

    /// Handing a well-formed node to directories whose nodes are well formed
    /// leads to a sound walk or to a well-formed tree.
    pub proof fn lemma_deliver_wf(stack: Seq<FrameView>, node: Tree)
        requires
            frames_wf(stack),
            node.wf(),
        ensures
            Self::deliver(stack, node).wf(),
        decreases stack.len(), 0int,
    {
        if stack.len() > 0 {
            let top = stack.last();
            Self::lemma_advance_wf(
                stack.drop_last(),
                FrameView { node: top.node.with_child(node), ..top },
            );
        }
    }

    /// Going on with a directory whose node is well formed, below directories
    /// whose nodes are, leads to a sound walk or to a well-formed tree.
    pub proof fn lemma_advance_wf(stack: Seq<FrameView>, frame: FrameView)
        requires
            frames_wf(stack),
            frame.node.wf(),
        ensures
            Self::advance(stack, frame).wf(),
        decreases stack.len(), 1int,
    {
        if frame.rest.len() == 0 {
            Self::lemma_deliver_wf(stack, frame.node);
        }
    }

    /// Whatever the answer, a step of a sound walk leads to a sound walk or
    /// to a well-formed tree: every node of every tree that a walk ends with
    /// has the canonical path of an entry, and is named by the final
    /// component of that path.
    pub proof fn law_step_keeps_wf(self, event: EventView)
        requires
            self.wf(),
        ensures
            self.step(event).wf(),
    {
        match (self.pending, event) {
            (Pending::IsDir { path, node }, EventView::IsDir(is_dir)) => {
                if !is_dir {
                    Self::lemma_deliver_wf(self.stack, node);
                }
            },
            (Pending::Entries { path, node }, EventView::Entries(entries)) => {
                Self::lemma_advance_wf(self.stack, FrameView { node, path, rest: entries });
            },
            _ => {},
        }
    }
}

/// A directory that is being walked.
#[derive(Debug)]
struct Frame {
    node: FileNode,
    path: String,
    entries: Vec<Entry>,
    /// How many of `entries` have been taken up.
    next: usize,
}

impl View for Frame {
    type V = FrameView;

    closed spec fn view(&self) -> FrameView {
        FrameView {
            node: self.node@,
            path: self.path@,
            rest: entry_views(self.entries@).skip(self.next as int),
        }
    }
}

impl Frame {
    #[verifier::type_invariant]
    spec fn inv(self) -> bool {
        self.next <= self.entries.len()
    }
}

/// The models of `frames`, one for one.
spec fn frame_views(frames: Seq<Frame>) -> Seq<FrameView> {
    frames.map_values(|f: Frame| f@)
}

/// What a walk waits for, and what it has made of the entry so far.
#[derive(Debug)]
enum Phase {
    Canonical { path: String },
    Size { path: String, canonical: String },
    IsDir { path: String, node: FileNode },
    Entries { path: String, node: FileNode },
}

impl View for Phase {
    type V = Pending;

    closed spec fn view(&self) -> Pending {
        match self {
            Phase::Canonical { path } => Pending::Canonical { path: path@ },
            Phase::Size { path, canonical } => Pending::Size {
                path: path@,
                canonical: canonical@,
            },
            Phase::IsDir { path, node } => Pending::IsDir { path: path@, node: node@ },
            Phase::Entries { path, node } => Pending::Entries { path: path@, node: node@ },
        }
    }
}

/// A build in progress: the directories entered so far, and the operation on
/// the file system whose answer the build waits for.
#[derive(Debug)]
pub struct Walk {
    stack: Vec<Frame>,
    phase: Phase,
}

impl View for Walk {
    type V = WalkView;

    closed spec fn view(&self) -> WalkView {
        WalkView { stack: frame_views(self.stack@), pending: self.phase@ }
    }
}

/// What a step leads to.
#[derive(Debug)]
pub enum Step {
    /// The walk goes on: perform the operation it asks for, and step again.
    Continue(Walk),
    /// The walk ended with the tree.
    Done(FileNode),
    /// The walk ended with a failure, and no tree.
    Failed(FsError),
}

impl View for Step {
    type V = StepView;

    open spec fn view(&self) -> StepView {
        match self {
            Step::Continue(walk) => StepView::Continue(walk@),
            Step::Done(node) => StepView::Done(node@),
            Step::Failed(error) => StepView::Failed(error@),
        }
    }
}

impl Walk {
    /// What holds of every walk: it is sound.
    #[verifier::type_invariant]
    pub open spec fn inv(self) -> bool {
        self@.wf()
    }

    /// Begins the build of the tree of `path`.
    pub fn start(path: String) -> (walk: Walk)
        ensures
            walk@ == WalkView::start(path@),
            walk@.wf(),
    {
        let walk = Walk { stack: Vec::new(), phase: Phase::Canonical { path } };
        assert(walk@.stack =~= Seq::<FrameView>::empty());
        walk
    }

    /// The operation whose answer the walk waits for.
    pub fn operation(&self) -> (op: Operation)
        ensures
            op == self@.pending.operation(),
    {
        match &self.phase {
            Phase::Canonical { .. } => Operation::Canonicalize,
            Phase::Size { .. } => Operation::Metadata,
            Phase::IsDir { .. } => Operation::IsDir,
            Phase::Entries { .. } => Operation::ReadDir,
        }
    }

    /// The path that the operation is asked about.
    pub fn target(&self) -> (path: &str)
        ensures
            path@ == self@.pending.target(),
    {
        match &self.phase {
            Phase::Canonical { path } => path.as_str(),
            Phase::Size { canonical, .. } => canonical.as_str(),
            Phase::IsDir { path, .. } => path.as_str(),
            Phase::Entries { path, .. } => path.as_str(),
        }
    }

    /// Takes `event`, the answer to the operation that the walk asked for.
    pub fn step(self, event: Event) -> (next: Step)
        ensures
            next@ == self@.step(event@),
            next@.wf(),
    {
        proof {
            use_type_invariant(&self);
            self@.law_step_keeps_wf(event@);
        }
        let Walk { stack, phase } = self;
        match (phase, event) {
            (Phase::Canonical { path }, Event::Canonical(canonical)) => {
                if check_canonical(canonical.as_str()) {
                    Step::Continue(Walk { stack, phase: Phase::Size { path, canonical } })
                } else {
                    Step::Failed(FsError::new(ErrorKind::CanonicalizationFailure, path))
                }
            },
            (Phase::Size { path, canonical }, Event::Size(size)) => {
                let node = FileNode::leaf(canonical, size);
                Step::Continue(Walk { stack, phase: Phase::IsDir { path, node } })
            },
            (Phase::IsDir { path, node }, Event::IsDir(is_dir)) => {
                if is_dir {
                    Step::Continue(Walk { stack, phase: Phase::Entries { path, node } })
                } else {
                    deliver(stack, node)
                }
            },
            (Phase::Entries { path, node }, Event::Entries(entries)) => {
                assert(entry_views(entries@).skip(0) =~= entry_views(entries@));
                advance(stack, Frame { node, path, entries, next: 0 })
            },
            (phase, Event::Failed(cause)) => Step::Failed(fail(phase, cause)),
            (phase, _) => Step::Failed(fail(phase, Cause::Other)),
        }
    }
}

/// The failure that `cause` amounts to when it ends the operation that
/// `phase` waits for.
fn fail(phase: Phase, cause: Cause) -> (error: FsError)
    ensures
        error@ == phase@.failure(cause),
{
    match phase {
        Phase::Canonical { path } => FsError::new(classify(Operation::Canonicalize, cause), path),
        Phase::Size { canonical, .. } => FsError::new(
            classify(Operation::Metadata, cause),
            canonical,
        ),
        Phase::IsDir { path, .. } => FsError::new(classify(Operation::IsDir, cause), path),
        Phase::Entries { path, .. } => FsError::new(classify(Operation::ReadDir, cause), path),
    }
}

/// Hands the finished `node` to the innermost directory of `stack`.
fn deliver(stack: Vec<Frame>, node: FileNode) -> (next: Step)
    requires
        frames_wf(frame_views(stack@)),
    ensures
        next@ == WalkView::deliver(frame_views(stack@), node@),
{
    let ghost frames = frame_views(stack@);
    let mut stack = stack;
    match stack.pop() {
        None => Step::Done(node),
        Some(top) => {
            proof {
                use_type_invariant(&top);
            }
            assert(frame_views(stack@) =~= frames.drop_last());
            let Frame { node: parent, path, entries, next } = top;
            advance(stack, Frame { node: parent.with_child(node), path, entries, next })
        },
    }
}

/// Goes on with the directory `frame`, which `stack` encloses.
fn advance(stack: Vec<Frame>, frame: Frame) -> (next: Step)
    requires
        frames_wf(frame_views(stack@)),
    ensures
        next@ == WalkView::advance(frame_views(stack@), frame@),
{
    let ghost goal = WalkView::advance(frame_views(stack@), frame@);
    let mut outer = stack;
    let mut current = frame;
    loop
        invariant
            goal == WalkView::advance(frame_views(stack@), frame@),
            goal == WalkView::advance(frame_views(outer@), current@),
            frames_wf(frame_views(outer@)),
        decreases outer.len(),
    {
        proof {
            use_type_invariant(&current);
        }
        let ghost below = frame_views(outer@);
        let ghost rest = current@.rest;
        let Frame { node, path, entries, next } = current;
        if next < entries.len() {
            assert(rest.drop_first() =~= entry_views(entries@).skip(next + 1));
            match &entries[next] {
                Entry::Unreadable(cause) => {
                    return Step::Failed(FsError::new(classify(Operation::ReadDir, *cause), path));
                },
                Entry::Path(entry) => {
                    let entry = entry.clone();
                    proof {
                        use_type_invariant(&node);
                    }
                    let resumed = Frame { node, path, entries, next: next + 1 };
                    outer.push(resumed);
                    assert(frame_views(outer@) =~= below.push(resumed@));
                    return Step::Continue(
                        Walk { stack: outer, phase: Phase::Canonical { path: entry } },
                    );
                },
            }
        }
        match outer.pop() {
            None => {
                return Step::Done(node);
            },
            Some(top) => {
                proof {
                    use_type_invariant(&top);
                }
                assert(frame_views(outer@) =~= below.drop_last());
                let Frame { node: parent, path, entries, next } = top;
                current = Frame { node: parent.with_child(node), path, entries, next };
            },
        }
    }
}

} // verus!
