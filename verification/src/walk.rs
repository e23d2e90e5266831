//! The walk through a directory tree, step by step: what is to be read next, and the line
//! that comes of it.
use crate::filters::Filters;
use crate::line::{
    child_prefix, dir_line, make_child_prefix, make_dir_line, make_stem, stem, FileTask,
    FileTaskView, LineView, TreeLine,
};
use crate::listing::{arrange, entry_views, shown, Entry, EntryView};
use vstd::prelude::*;

verus! {

/// A directory on the way: what stands in front of its entries, and those that are still to
/// be shown, last one first.
struct Frame {
    prefix: String,
    rest: Vec<Entry>,
}

/// What a directory on the way holds: its prefix, and the entries still to be shown.
pub struct FrameView {
    pub prefix: Seq<char>,
    pub todo: Seq<EntryView>,
}

/// A walk through a directory tree.
pub struct TreeWalk {
    filters: Filters,
    show_lines: bool,
    stack: Vec<Frame>,
    pending: Option<String>,
}

/// What a walk holds: the directories on the way, the innermost one last, and the prefix for
/// the entries of the directory that is to be listed next, if there is one.
pub struct WalkView {
    pub filters: Filters,
    pub show_lines: bool,
    pub stack: Seq<FrameView>,
    pub pending: Option<Seq<char>>,
}

/// What is to be done next: show a directory's line and list the directory, read a file and
/// show its line, or nothing more.
pub enum Task {
    Directory(TreeLine),
    File(FileTask),
    Done,
}

/// What a `Task` holds.
pub enum TaskView {
    Directory(LineView),
    File(FileTaskView),
    Done,
}

impl View for Task {
    type V = TaskView;

    open spec fn view(&self) -> TaskView {
        match self {
            Task::Directory(line) => TaskView::Directory(line@),
            Task::File(file) => TaskView::File(file@),
            Task::Done => TaskView::Done,
        }
    }
}

/// What the directories on the way hold.
spec fn frame_views(stack: Seq<Frame>) -> Seq<FrameView> {
    stack.map_values(
        |f: Frame| FrameView { prefix: f.prefix@, todo: entry_views(f.rest@).reverse() },
    )
}

/// The directories on the way without the innermost ones that are finished.
pub open spec fn unfinished(stack: Seq<FrameView>) -> Seq<FrameView>
    decreases stack.len(),
{
    if stack.len() == 0 || stack.last().todo.len() > 0 {
        stack
    } else {
        unfinished(stack.drop_last())
    }
}

impl WalkView {
    /// The start: the root is to be listed, and nothing stands in front of its entries.
    pub open spec fn start(filters: Filters, show_lines: bool) -> WalkView {
        WalkView { filters, show_lines, stack: Seq::empty(), pending: Some(Seq::empty()) }
    }

    /// Whether nothing is left to be shown.
    pub open spec fn is_over(self) -> bool {
        unfinished(self.stack).len() == 0
    }

    /// The next entry to be shown.
    pub open spec fn entry(self) -> EntryView {
        unfinished(self.stack).last().todo[0]
    }

    /// Whether the next entry is the last one of its directory.
    pub open spec fn entry_is_last(self) -> bool {
        unfinished(self.stack).last().todo.len() == 1
    }

    /// What stands in front of the next entry.
    pub open spec fn prefix(self) -> Seq<char> {
        unfinished(self.stack).last().prefix
    }

    /// The next task of a walk that goes on.
    pub open spec fn task(self) -> TaskView {
        let e = self.entry();
        let last = self.entry_is_last();
        if self.is_over() {
            TaskView::Done
        } else if e.is_dir {
            TaskView::Directory(dir_line(self.prefix(), last, e.name, e.path))
        } else {
            TaskView::File(
                FileTaskView {
                    stem: stem(self.prefix(), last, e.name),
                    path: e.path,
                    count_lines: self.show_lines,
                },
            )
        }
    }

    /// The walk after that task was handed out: the entry is done with, and a directory is to
    /// be listed.
    pub open spec fn after_task(self) -> WalkView {
        if self.is_over() {
            self.stopped()
        } else {
            let open = unfinished(self.stack);
            let top = open.last();
            WalkView {
                stack: open.drop_last().push(
                    FrameView { prefix: top.prefix, todo: top.todo.skip(1) },
                ),
                pending: if self.entry().is_dir {
                    Some(child_prefix(self.prefix(), self.entry_is_last()))
                } else {
                    None
                },
                ..self
            }
        }
    }

    /// A walk that has ended.
    pub open spec fn stopped(self) -> WalkView {
        WalkView { stack: Seq::empty(), pending: None, ..self }
    }

    /// The walk after the listing of the pending directory came in. One that could not be
    /// listed shows nothing.
    pub open spec fn after_listing(self, listing: Option<Seq<EntryView>>) -> WalkView {
        WalkView {
            stack: if self.pending is Some && listing is Some {
                self.stack.push(
                    FrameView { prefix: self.pending->0, todo: shown(listing->0, self.filters) },
                )
            } else {
                self.stack
            },
            pending: None,
            ..self
        }
    }
}

/// What an optional listing holds.
pub open spec fn opt_entries(listing: Option<Vec<Entry>>) -> Option<Seq<EntryView>> {
    match listing {
        Some(entries) => Some(entry_views(entries@)),
        None => None,
    }
}

impl View for TreeWalk {
    type V = WalkView;

    closed spec fn view(&self) -> WalkView {
        WalkView {
            filters: self.filters,
            show_lines: self.show_lines,
            stack: frame_views(self.stack@),
            pending: match self.pending {
                Some(prefix) => Some(prefix@),
                None => None,
            },
        }
    }
}

impl TreeWalk {
    /// A walk whose root is still to be listed.
    pub fn new(filters: Filters, show_lines: bool) -> (r: Self)
        ensures
            r@ == WalkView::start(filters, show_lines),
    {
        let r = TreeWalk { filters, show_lines, stack: Vec::new(), pending: Some(String::new()) };
        assert(r@.stack =~= Seq::<FrameView>::empty());
        r
    }

    /// Whether a directory is to be listed now. A walk that was cancelled lists none.
    pub fn wants_listing(&self, cancelled: bool) -> (r: bool)
        ensures
            r == (!cancelled && self@.pending is Some),
    {
        !cancelled && self.pending.is_some()
    }

    /// Takes in the listing of the pending directory: `None` where it could not be read.
    pub fn enter(&mut self, listing: Option<Vec<Entry>>)
        ensures
            final(self)@ == old(self)@.after_listing(opt_entries(listing)),
    {
        let mut pending: Option<String> = None;
        std::mem::swap(&mut pending, &mut self.pending);
        if let Some(prefix) = pending {
            if let Some(entries) = listing {
                let rest = arrange(entries, &self.filters);
                self.stack.push(Frame { prefix, rest });
            }
        }
        assert(self@.stack =~= old(self)@.after_listing(opt_entries(listing)).stack);
    }

    /// The next task. A walk that was cancelled has none left.
    pub fn next(&mut self, cancelled: bool) -> (r: Task)
        ensures
            r@ == if cancelled {
                TaskView::Done
            } else {
                old(self)@.task()
            },
            final(self)@ == if cancelled {
                old(self)@.stopped()
            } else {
                old(self)@.after_task()
            },
    {
        let ghost start = self@;
        self.pending = None;
        if cancelled {
            self.stack = Vec::new();
            assert(self@.stack =~= start.stopped().stack);
            return Task::Done;
        }
        loop
            invariant
                !cancelled,
                self@.filters == start.filters,
                self@.show_lines == start.show_lines,
                self.pending is None,
                unfinished(self@.stack) == unfinished(start.stack),
                start == old(self)@,
            decreases self.stack.len(),
        {
            let ghost before = self@.stack;
            match self.stack.pop() {
                None => {
                    assert(self@.stack =~= Seq::<FrameView>::empty());
                    return Task::Done;
                },
                Some(frame) => {
                    let mut frame = frame;
                    let ghost view = FrameView {
                        prefix: frame.prefix@,
                        todo: entry_views(frame.rest@).reverse(),
                    };
                    assert(before.last() == view);
                    assert(self@.stack =~= before.drop_last());
                    if let Some(e) = frame.rest.pop() {
                        let last = frame.rest.len() == 0;
                        proof {
                            assert(view.todo[0] == e@);
                            assert(unfinished(before) == before);
                            assert(entry_views(frame.rest@).reverse() =~= view.todo.skip(1));
                        }
                        if e.is_dir {
                            let line = make_dir_line(
                                frame.prefix.as_str(),
                                last,
                                e.name.as_str(),
                                e.path,
                            );
                            self.pending = Some(make_child_prefix(frame.prefix.as_str(), last));
                            self.stack.push(frame);
                            assert(self@.stack =~= start.after_task().stack);
                            return Task::Directory(line);
                        }
                        let stem = make_stem(frame.prefix.as_str(), last, e.name.as_str());
                        self.stack.push(frame);
                        assert(self@.stack =~= start.after_task().stack);
                        return Task::File(
                            FileTask { stem, path: e.path, count_lines: self.show_lines },
                        );
                    }
                    assert(view.todo.len() == 0);
                },
            }
        }
    }
}

/// A walk that has ended has no task and no directory to list, and keeps its settings; so has
/// one whose root could not be listed.
pub proof fn law_ended_walk(walk: WalkView, filters: Filters, show_lines: bool)
    ensures
        walk.stopped().task() is Done,
        walk.stopped().pending is None,
        walk.stopped().filters == walk.filters,
        walk.stopped().show_lines == walk.show_lines,
        WalkView::start(filters, show_lines).after_listing(None).task() is Done,
        WalkView::start(filters, show_lines).pending is Some,
        WalkView::start(filters, show_lines).filters == filters,
        WalkView::start(filters, show_lines).show_lines == show_lines,
{
}

/// What a task and a listing hold is taken over as it stands.
pub proof fn law_task_views(task: Task, listing: Option<Vec<Entry>>)
    ensures
        match task {
            Task::Directory(line) => task@ == TaskView::Directory(line@),
            Task::File(file) => task@ == TaskView::File(file@),
            Task::Done => task@ == TaskView::Done,
        },
        listing is None <==> opt_entries(listing) is None,
        listing matches Some(entries) ==> opt_entries(listing) == Some(entry_views(entries@)),
{
}

} // verus!
