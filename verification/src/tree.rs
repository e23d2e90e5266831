//! The state of the tree view.
use crate::channel::{
    ask_line, hung_up, items, lemma_items_append, line_channel, lines_taken, new_flag,
    look_for_stop, looked, looks, new_line_channel, one_round, raised, request_stop, same_flag,
    stop_requested, took_lines, watches, Reply, StopFlag, StopWatch,
};
use crate::filters::Filters;
use crate::line::TreeLine;
use crate::number::{decimal, push_decimal};
use crate::size::{format_size, size_text};
use crate::text::chars_of;
use crate::walk::{Task, TaskView, TreeWalk, WalkView};
use crossbeam_channel::{Receiver, Sender};
use vstd::prelude::*;

verus! {

/// How many lines are taken over in one round, so that the view stays responsive.
pub const LINES_PER_ROUND: usize = 5000;

/// The view's ends of a running job: the lines come in at `rx`, and `cancel` stops the job.
pub struct TreeHandle {
    pub rx: Receiver<TreeLine>,
    pub cancel: StopFlag,
}

/// A job to be run in the background: it walks through the tree, sends the lines, and stops
/// when it is cancelled.
pub struct TreeJob {
    pub walk: TreeWalk,
    pub tx: Sender<TreeLine>,
    pub cancel: StopWatch,
}

/// The tree view: the lines so far and their totals, the running job, whether the tree is
/// complete, and whether it is out of date.
pub struct TreeState {
    pub lines: Vec<TreeLine>,
    pub root_display: String,
    pub files: usize,
    pub dirs: usize,
    pub total_bytes: u64,
    pub handle: Option<TreeHandle>,
    pub done: bool,
    pub dirty: bool,
}

/// The directories among some lines.
pub open spec fn count_dirs(lines: Seq<TreeLine>) -> nat
    decreases lines.len(),
{
    if lines.len() == 0 {
        0
    } else {
        count_dirs(lines.drop_last()) + if lines.last().is_dir {
            1nat
        } else {
            0nat
        }
    }
}

/// The files among some lines.
pub open spec fn count_files(lines: Seq<TreeLine>) -> nat {
    (lines.len() - count_dirs(lines)) as nat
}

/// The bytes of the files among some lines.
pub open spec fn sum_bytes(lines: Seq<TreeLine>) -> nat
    decreases lines.len(),
{
    if lines.len() == 0 {
        0
    } else {
        sum_bytes(lines.drop_last()) + if lines.last().is_dir {
            0nat
        } else {
            lines.last().size as nat
        }
    }
}

/// The texts of some lines, one after the other.
pub open spec fn texts(lines: Seq<TreeLine>) -> Seq<char>
    decreases lines.len(),
{
    if lines.len() == 0 {
        Seq::empty()
    } else {
        texts(lines.drop_last()) + lines.last().text@
    }
}

/// A text without the newlines at its end.
pub open spec fn without_newlines(s: Seq<char>) -> Seq<char>
    decreases s.len(),
{
    if s.len() > 0 && s.last() == '\n' {
        without_newlines(s.drop_last())
    } else {
        s
    }
}

/// No more directories than lines.
proof fn lemma_dirs_bound(lines: Seq<TreeLine>)
    ensures
        count_dirs(lines) <= lines.len(),
    decreases lines.len(),
{
    if lines.len() > 0 {
        lemma_dirs_bound(lines.drop_last());
    }
}

impl TreeState {
    /// The totals are those of the lines. The bytes are counted modulo 2^64.
    pub open spec fn counted(self) -> bool {
        &&& self.dirs == count_dirs(self.lines@)
        &&& self.files == count_files(self.lines@)
        &&& self.total_bytes == sum_bytes(self.lines@) % 0x1_0000_0000_0000_0000
    }

    /// The totals are right, and a tree that is not complete has a job and shows every line
    /// that was taken from it, in order, each once.
    pub open spec fn inv(self) -> bool {
        &&& self.counted()
        &&& !self.done ==> self.handle is Some && self.lines@ == items(
            lines_taken(self.handle->0.rx),
        )
    }

    /// Whether two states differ at most in the lines and their totals.
    pub open spec fn same_but_lines(self, other: Self) -> bool {
        &&& self.root_display@ == other.root_display@
        &&& self.handle == other.handle
        &&& self.done == other.done
        &&& self.dirty == other.dirty
    }

    /// Whether two states differ at most in being out of date.
    pub open spec fn same_but_dirty(self, other: Self) -> bool {
        &&& self.lines@ == other.lines@
        &&& self.files == other.files
        &&& self.dirs == other.dirs
        &&& self.total_bytes == other.total_bytes
        &&& self.root_display@ == other.root_display@
        &&& self.handle == other.handle
        &&& self.done == other.done
    }

    /// Whether a round of replies leads from this state, with the job's ends `h`, to `after`:
    /// these replies, and nothing else, are taken from the job's channel, whose receiving end
    /// is `rx` then, their lines are added, and a job whose channel has hung up is over.
    pub open spec fn took_round(
        self,
        after: Self,
        h: TreeHandle,
        rx: Receiver<TreeLine>,
        replies: Seq<Reply<TreeLine>>,
    ) -> bool {
        &&& took_lines(h.rx, rx, replies)
        &&& one_round(replies, LINES_PER_ROUND as nat)
        &&& after.lines@ == self.lines@ + items(replies)
        &&& after.root_display@ == self.root_display@
        &&& after.dirty == self.dirty
        &&& after.done == (self.done || hung_up(replies))
        &&& after.handle == if hung_up(replies) {
            None
        } else {
            Some(TreeHandle { rx, cancel: h.cancel })
        }
    }

    /// Whether asking the job once for its lines leads from this state to `after`: without a
    /// job nothing changes, and else a round of replies is taken.
    pub open spec fn polled(self, after: Self) -> bool {
        match self.handle {
            None => after == self,
            Some(h) => exists|rx: Receiver<TreeLine>, replies: Seq<Reply<TreeLine>>| #[trigger]
                self.took_round(after, h, rx, replies),
        }
    }

    /// Stops the running job, if there is one, and starts over with the directory `dir`:
    /// returns the job that is to be run, or nothing if it is no directory.
    pub fn start(&mut self, dir: &str, is_dir: bool, filters: &Filters, show_lines: bool) -> (r:
        Option<TreeJob>)
        ensures
            old(self).handle matches Some(h) ==> stop_requested(h.cancel),
            final(self).inv(),
            final(self).lines@.len() == 0,
            !final(self).dirty,
            r is Some <==> is_dir,
            match r {
                Some(job) => {
                    &&& final(self).root_display@ == dir@
                    &&& !final(self).done
                    &&& final(self).handle matches Some(h) && line_channel(job.tx, h.rx)
                        && lines_taken(h.rx).len() == 0 && watches(job.cancel, h.cancel)
                        && !raised(h.cancel)
                    &&& looks(job.cancel).len() == 0
                    &&& job.walk@ == WalkView::start(*filters, show_lines)
                },
                None => {
                    &&& final(self).root_display@ == "Not a valid directory"@
                    &&& final(self).done
                    &&& final(self).handle is Some <==> old(self).handle is Some
                    &&& old(self).handle matches Some(h) ==> {
                        let kept = final(self).handle->0;
                        &&& kept.rx == h.rx
                        &&& raised(kept.cancel)
                        &&& same_flag(h.cancel, kept.cancel)
                    }
                },
            },
    {
        if let Some(h) = &mut self.handle {
            request_stop(&mut h.cancel);
        }
        self.lines = Vec::new();
        self.root_display = dir.to_owned();
        self.files = 0;
        self.dirs = 0;
        self.total_bytes = 0;
        self.done = false;
        self.dirty = false;
        if !is_dir {
            self.root_display = "Not a valid directory".to_owned();
            self.done = true;
            return None;
        }
        let (tx, rx) = new_line_channel();
        let (cancel, watch) = new_flag();
        self.handle = Some(TreeHandle { rx, cancel });
        Some(TreeJob { walk: TreeWalk::new(*filters, show_lines), tx, cancel: watch })
    }

    /// Adds a line and counts it.
    pub fn add_line(&mut self, line: TreeLine)
        requires
            old(self).counted(),
        ensures
            final(self).counted(),
            final(self).lines@ == old(self).lines@.push(line),
            final(self).same_but_lines(*old(self)),
    {
        let is_dir = line.is_dir;
        let size = line.size;
        let ghost before = self.lines@;
        self.lines.push(line);
        proof {
            assert(self.lines@.drop_last() =~= before);
            lemma_dirs_bound(before);
            lemma_dirs_bound(self.lines@);
            assert(self.lines.len() <= usize::MAX);
        }
        if is_dir {
            self.dirs += 1;
        } else {
            self.files += 1;
            self.total_bytes = self.total_bytes.wrapping_add(size);
        }
    }

    /// Takes in one reply of the job's channel; says whether to ask for another one.
    pub fn on_reply(&mut self, reply: Reply<TreeLine>) -> (more: bool)
        requires
            old(self).counted(),
        ensures
            final(self).counted(),
            more == (reply is Item),
            final(self).root_display@ == old(self).root_display@,
            final(self).dirty == old(self).dirty,
            match reply {
                Reply::Item(line) => {
                    &&& final(self).lines@ == old(self).lines@.push(line)
                    &&& final(self).same_but_lines(*old(self))
                },
                Reply::Empty => *final(self) == *old(self),
                Reply::Disconnected => {
                    &&& final(self).lines@ == old(self).lines@
                    &&& final(self).done
                    &&& final(self).handle is None
                },
            },
    {
        match reply {
            Reply::Item(line) => {
                self.add_line(line);
                true
            },
            Reply::Empty => false,
            Reply::Disconnected => {
                self.done = true;
                self.handle = None;
                false
            },
        }
    }

    /// Takes over the lines that have come in, up to a limit, and ends the job when its
    /// channel has hung up.
    pub fn poll(&mut self)
        requires
            old(self).inv(),
        ensures
            final(self).inv(),
            old(self).polled(*final(self)),
    {
        if self.handle.is_none() {
            return ;
        }
        let ghost first = self.handle->0;
        let ghost mut replies: Seq<Reply<TreeLine>> = Seq::empty();
        let mut n: usize = 0;
        assert(self.lines@ =~= old(self).lines@ + items(replies));
        assert(lines_taken(first.rx) =~= lines_taken(first.rx) + replies);
        while n < LINES_PER_ROUND
            invariant
                n <= LINES_PER_ROUND,
                self.counted(),
                old(self).inv(),
                old(self).handle == Some(first),
                self.handle is Some,
                self.handle->0.cancel == first.cancel,
                took_lines(first.rx, self.handle->0.rx, replies),
                replies.len() == n,
                forall|i: int| 0 <= i < replies.len() ==> (#[trigger] replies[i]) is Item,
                self.lines@ == old(self).lines@ + items(replies),
                self.root_display@ == old(self).root_display@,
                self.dirty == old(self).dirty,
                self.done == old(self).done,
            decreases LINES_PER_ROUND - n,
        {
            let ghost so_far = replies;
            let reply = match &mut self.handle {
                Some(h) => ask_line(&mut h.rx),
                None => Reply::Empty,
            };
            let ghost rx = self.handle->0.rx;
            proof {
                replies = replies.push(reply);
                assert(replies.drop_last() =~= so_far);
                assert(lines_taken(rx) =~= lines_taken(first.rx) + replies);
                assert(took_lines(first.rx, rx, replies));
                lemma_items_append(lines_taken(first.rx), replies);
            }
            let more = self.on_reply(reply);
            assert(self.lines@ =~= old(self).lines@ + items(replies));
            if !more {
                assert(one_round(replies, LINES_PER_ROUND as nat));
                assert(old(self).took_round(*self, old(self).handle->0, rx, replies));
                return ;
            }
            n += 1;
        }
        proof {
            lemma_items_append(lines_taken(first.rx), replies);
            assert(one_round(replies, LINES_PER_ROUND as nat));
            assert(old(self).took_round(*self, old(self).handle->0, self.handle->0.rx, replies));
        }
    }

    /// The whole tree as text: the root, and the lines below it.
    pub fn to_copyable_text(&self) -> (r: String)
        ensures
            r@ == self.root_display@ + "\n"@ + texts(self.lines@),
    {
        let mut out = self.root_display.clone();
        out.append("\n");
        let ghost head = out@;
        let mut i: usize = 0;
        assert(out@ =~= head + texts(self.lines@.take(0)));
        while i < self.lines.len()
            invariant
                i <= self.lines.len(),
                out@ == head + texts(self.lines@.take(i as int)),
            decreases self.lines.len() - i,
        {
            out.append(self.lines[i].text.as_str());
            i += 1;
            assert(self.lines@.take(i as int).drop_last() =~= self.lines@.take(i - 1));
            assert(out@ =~= head + texts(self.lines@.take(i as int)));
        }
        assert(self.lines@.take(i as int) =~= self.lines@);
        out
    }

    /// The totals as text.
    pub fn summary(&self) -> (r: String)
        ensures
            r@ == decimal(self.files as nat) + " files, "@ + decimal(self.dirs as nat)
                + " folders, "@ + size_text(self.total_bytes as nat),
    {
        let mut out = String::new();
        push_decimal(&mut out, self.files as u64);
        out.append(" files, ");
        push_decimal(&mut out, self.dirs as u64);
        out.append(" folders, ");
        let size = format_size(self.total_bytes);
        out.append(size.as_str());
        assert(out@ =~= decimal(self.files as nat) + " files, "@ + decimal(self.dirs as nat)
            + " folders, "@ + size_text(self.total_bytes as nat));
        out
    }

    /// How many rows the view has: one for the root, and one for each line.
    pub fn row_count(&self) -> (r: usize)
        requires
            self.lines.len() < usize::MAX,
        ensures
            r == self.lines.len() + 1,
    {
        self.lines.len() + 1
    }

    /// The text of a row: the root first, and then the lines without their newlines.
    pub fn row_text(&self, row: usize) -> (r: String)
        requires
            row <= self.lines.len(),
        ensures
            r@ == if row == 0 {
                self.root_display@
            } else {
                without_newlines(self.lines@[row - 1].text@)
            },
    {
        if row == 0 {
            self.root_display.clone()
        } else {
            trim_newlines(self.lines[row - 1].text.as_str())
        }
    }
}

impl TreeJob {
    /// Whether the walk has the next task `task` and is at `after` then, given whether the
    /// request to stop is seen.
    pub open spec fn steps(self, stopped: bool, task: TaskView, after: WalkView) -> bool {
        if stopped {
            task == TaskView::Done && after == self.walk@.stopped()
        } else {
            task == self.walk@.task() && after == self.walk@.after_task()
        }
    }

    /// Whether asking once if a directory is to be listed leads from this job to `after` and
    /// gives `wanted`: the flag is looked at once, and a directory is to be listed if one is
    /// pending and the request to stop was not seen.
    pub open spec fn asked_for_listing(self, after: Self, wanted: bool) -> bool {
        let seen = looks(after.cancel).last();
        &&& looked(self.cancel, after.cancel, seen)
        &&& after.walk@ == self.walk@
        &&& after.tx == self.tx
        &&& wanted == (!seen && self.walk@.pending is Some)
    }

    /// Whether asking once for the next task leads from this job to `after` and gives `task`:
    /// the flag is looked at once, and the task is the walk's own, unless the request to stop
    /// was seen.
    pub open spec fn asked_for_task(self, after: Self, task: TaskView) -> bool {
        let seen = looks(after.cancel).last();
        &&& looked(self.cancel, after.cancel, seen)
        &&& self.steps(seen, task, after.walk@)
        &&& after.tx == self.tx
    }

    /// Whether a directory is to be listed now: if one is pending, and no request to stop is
    /// seen.
    pub fn wants_listing(&mut self) -> (r: bool)
        ensures
            old(self).asked_for_listing(*final(self), r),
    {
        let stopped = look_for_stop(&mut self.cancel);
        self.walk.wants_listing(stopped)
    }

    /// The next task: none, if the request to stop is seen.
    pub fn next(&mut self) -> (r: Task)
        ensures
            old(self).asked_for_task(*final(self), r@),
    {
        let stopped = look_for_stop(&mut self.cancel);
        self.walk.next(stopped)
    }
}

impl Default for TreeState {
    /// An empty tree without a job, which is out of date.
    fn default() -> (r: Self)
        ensures
            r.inv(),
            r.lines@.len() == 0,
            r.root_display@.len() == 0,
            r.handle is None,
            r.done,
            r.dirty,
    {
        TreeState {
            lines: Vec::new(),
            root_display: String::new(),
            files: 0,
            dirs: 0,
            total_bytes: 0,
            handle: None,
            done: true,
            dirty: true,
        }
    }
}

/// Takes the newlines off the end of a text.
fn trim_newlines(s: &str) -> (r: String)
    ensures
        r@ == without_newlines(s@),
{
    let chars = chars_of(s);
    let mut n: usize = chars.len();
    assert(chars@.take(n as int) =~= s@);
    while n > 0 && chars[n - 1] == '\n'
        invariant
            n <= chars.len(),
            without_newlines(chars@.take(n as int)) == without_newlines(s@),
        decreases n,
    {
        assert(chars@.take(n as int).drop_last() =~= chars@.take(n - 1));
        n -= 1;
    }
    let mut out = String::new();
    let mut i: usize = 0;
    while i < n
        invariant
            i <= n <= chars.len(),
            out@ == chars@.take(i as int),
        decreases n - i,
    {
        out.push(chars[i]);
        i += 1;
        assert(out@ =~= chars@.take(i as int));
    }
    out
}

/// No line is lost or doubled: from its start on, whenever it is asked, a tree shows exactly
/// the lines that were taken from its job's channel, in their order; and it is complete only
/// when that channel has hung up.
pub proof fn law_no_line_is_lost(before: TreeState, after: TreeState)
    requires
        before.inv(),
        !before.done,
        before.polled(after),
    ensures
        exists|rx: Receiver<TreeLine>|
            {
                &&& forall|tx: Sender<TreeLine>|
                    line_channel(tx, before.handle->0.rx) ==> line_channel(tx, rx)
                &&& after.lines@ == items(#[trigger] lines_taken(rx))
                &&& after.done <==> hung_up(lines_taken(rx))
                &&& !after.done ==> after.handle is Some && after.handle->0.rx == rx
            },
{
    let h = before.handle->0;
    let (rx, replies) = choose|rx: Receiver<TreeLine>, replies: Seq<Reply<TreeLine>>| #[trigger]
        before.took_round(after, h, rx, replies);
    lemma_items_append(lines_taken(h.rx), replies);
    assert(lines_taken(rx).last() == replies.last());
    assert(after.lines@ == items(lines_taken(rx)));
}

/// Every line stands for a folder or a file, and none for both.
pub proof fn law_totals_add_up(tree: TreeState)
    requires
        tree.counted(),
    ensures
        tree.files + tree.dirs == tree.lines.len(),
{
    lemma_dirs_bound(tree.lines@);
}

/// The total is the sum of the file sizes, as long as the sum fits in 64 bits.
pub proof fn law_total_is_the_sum(tree: TreeState)
    requires
        tree.counted(),
        sum_bytes(tree.lines@) <= u64::MAX,
    ensures
        tree.total_bytes == sum_bytes(tree.lines@),
{
}

/// Lines that come in later are copied after those that were there: the copied text of a
/// growing tree only grows at its end.
pub proof fn law_copied_text_grows(a: Seq<TreeLine>, b: Seq<TreeLine>)
    ensures
        texts(a + b) == texts(a) + texts(b),
    decreases b.len(),
{
    if b.len() == 0 {
        assert(a + b =~= a);
        assert(texts(a) + texts(b) =~= texts(a));
    } else {
        law_copied_text_grows(a, b.drop_last());
        assert((a + b).drop_last() =~= a + b.drop_last());
        assert(texts(a + b) =~= texts(a) + texts(b));
    }
}

/// The totals of two stretches of lines are those of the one and those of the other: a
/// directory counts one folder, a file one file and its bytes.
pub proof fn law_totals_of_lines(a: Seq<TreeLine>, b: Seq<TreeLine>, line: TreeLine)
    ensures
        count_dirs(a + b) == count_dirs(a) + count_dirs(b),
        count_files(a + b) == count_files(a) + count_files(b),
        sum_bytes(a + b) == sum_bytes(a) + sum_bytes(b),
        line.is_dir ==> count_dirs(seq![line]) == 1 && count_files(seq![line]) == 0 && sum_bytes(
            seq![line],
        ) == 0,
        !line.is_dir ==> count_dirs(seq![line]) == 0 && count_files(seq![line]) == 1 && sum_bytes(
            seq![line],
        ) == line.size,
        texts(seq![line]) == line.text@,
    decreases b.len(),
{
    let one = seq![line];
    assert(one.drop_last() =~= Seq::<TreeLine>::empty());
    assert(count_dirs(one.drop_last()) == 0 && sum_bytes(one.drop_last()) == 0);
    assert(texts(one.drop_last()).len() == 0);
    assert(texts(one) =~= line.text@);
    lemma_dirs_bound(a);
    lemma_dirs_bound(b);
    if b.len() == 0 {
        assert(a + b =~= a);
    } else {
        law_totals_of_lines(a, b.drop_last(), line);
        lemma_dirs_bound(b.drop_last());
        assert((a + b).drop_last() =~= a + b.drop_last());
        assert((a + b).last() == b.last());
    }
}

/// The totals that a tree shows are those of its lines, the bytes modulo 2^64.
pub proof fn law_totals_are_those_of_the_lines(tree: TreeState)
    requires
        tree.inv(),
    ensures
        tree.dirs == count_dirs(tree.lines@),
        tree.files == count_files(tree.lines@),
        (tree.total_bytes - sum_bytes(tree.lines@)) % 18446744073709551616 == 0,
{
}

/// A text without the newlines at its end ends in none, and only newlines were taken off.
pub proof fn law_newlines_are_taken_off(s: Seq<char>)
    ensures
        ({
            let r = without_newlines(s);
            &&& r.len() <= s.len()
            &&& s.take(r.len() as int) == r
            &&& forall|i: int| r.len() <= i < s.len() ==> s[i] == '\n'
            &&& r.len() > 0 ==> r.last() != '\n'
        }),
    decreases s.len(),
{
    let r = without_newlines(s);
    if s.len() > 0 && s.last() == '\n' {
        let front = s.drop_last();
        law_newlines_are_taken_off(front);
        assert(s.take(r.len() as int) =~= front.take(r.len() as int));
        assert forall|i: int| r.len() <= i < s.len() implies s[i] == '\n' by {
            if i < s.len() - 1 {
                assert(front[i] == s[i]);
            }
        }
    } else {
        assert(s.take(s.len() as int) =~= s);
    }
}

/// Asking a job for its lines changes nothing but the lines, their totals and whether the tree
/// is complete, and takes no more than five thousand lines at a time.
pub proof fn law_asking_changes_only_lines(before: TreeState, after: TreeState)
    requires
        before.polled(after),
    ensures
        after.root_display@ == before.root_display@,
        after.dirty == before.dirty,
        before.done ==> after.done,
        before.handle is None ==> after == before,
        before.lines@.len() <= after.lines@.len() <= before.lines@.len() + 5000,
        after.lines@.take(before.lines@.len() as int) == before.lines@,
        before.handle is Some && after.handle is Some ==> after.handle->0.cancel
            == before.handle->0.cancel,
{
    if let Some(h) = before.handle {
        let (rx, replies) = choose|rx: Receiver<TreeLine>, replies: Seq<Reply<TreeLine>>| #[trigger]
            before.took_round(after, h, rx, replies);
        lemma_items_bound(replies);
        assert(after.lines@.take(before.lines@.len() as int) =~= before.lines@);
    } else {
        assert(after.lines@.take(before.lines@.len() as int) =~= before.lines@);
    }
}

/// No more messages than replies.
proof fn lemma_items_bound(replies: Seq<Reply<TreeLine>>)
    ensures
        items(replies).len() <= replies.len(),
    decreases replies.len(),
{
    if replies.len() > 0 {
        lemma_items_bound(replies.drop_last());
    }
}

/// What is the same in two states that differ at most in the lines, or at most in being out of
/// date; and of a tree that is not complete, that its lines are those taken from its job.
pub proof fn law_states_of_a_tree(a: TreeState, b: TreeState)
    ensures
        a.same_but_lines(b) ==> a.root_display@ == b.root_display@ && a.handle == b.handle && a.done
            == b.done && a.dirty == b.dirty,
        a.same_but_dirty(b) ==> a.lines@ == b.lines@ && a.files == b.files && a.dirs == b.dirs
            && a.total_bytes == b.total_bytes && a.root_display@ == b.root_display@ && a.handle
            == b.handle && a.done == b.done,
        a.inv() && !a.done ==> a.handle is Some && a.lines@ == items(lines_taken(a.handle->0.rx)),
{
}

/// A job that has seen the request to stop lists nothing more and has no task left.
pub proof fn law_stopped_job_ends(
    job: TreeJob,
    asked: TreeJob,
    wanted: bool,
    after: TreeJob,
    task: TaskView,
)
    requires
        looks(job.cancel).len() > 0,
        looks(job.cancel).last(),
        job.asked_for_listing(asked, wanted),
        job.asked_for_task(after, task),
    ensures
        !wanted,
        asked.walk@ == job.walk@,
        task is Done,
        after.walk@.task() is Done,
        looks(asked.cancel).len() == looks(job.cancel).len() + 1,
        looks(after.cancel).len() == looks(job.cancel).len() + 1,
{
}

} // verus!
