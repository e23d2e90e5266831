//! The whole tree of a directory, and that a walk shows exactly it.
use crate::channel::{
    asked_to_stop, looks, stop_requested, stop_was_seen, watches, StopFlag,
};
use crate::filters::Filters;
use crate::line::{
    child_prefix, dir_line, law_each_level_indents_by_four, law_name_stands_behind_the_branch, stem,
    FileTaskView, LineView, TreeLine,
};
use crate::listing::{display_order, law_display_order_exists, shown, EntryView};
use crate::tree::{texts, TreeJob};
use crate::walk::{unfinished, FrameView, TaskView, WalkView};
use std::path::PathBuf;
use vstd::prelude::*;

verus! {

/// A directory tree at rest: an entry with what can be read of it. A directory has a listing
/// where it can be listed; a file has a size and a content where they can be read.
pub struct Node {
    pub entry: EntryView,
    pub listing: Option<Seq<Node>>,
    pub size: Option<u64>,
    pub content: Option<Seq<u8>>,
}

/// What a disk answers: the listing of a directory, and the size and content of a file.
pub struct Disk {
    pub list: spec_fn(PathBuf) -> Option<Seq<EntryView>>,
    pub size: spec_fn(PathBuf) -> Option<u64>,
    pub content: spec_fn(PathBuf) -> Option<Seq<u8>>,
}

/// The entries of a listing.
pub open spec fn node_entries(nodes: Seq<Node>) -> Seq<EntryView> {
    nodes.map_values(|n: Node| n.entry)
}

/// The line of an entry.
pub open spec fn node_line(node: Node, show_lines: bool, prefix: Seq<char>, last: bool) -> LineView {
    let e = node.entry;
    if e.is_dir {
        dir_line(prefix, last, e.name, e.path)
    } else {
        (FileTaskView {
            stem: stem(prefix, last, e.name),
            path: e.path,
            count_lines: show_lines,
        }).line(node.size, node.content)
    }
}

/// The lines of a directory from its entry `a` on, counted in display order: the line of each
/// entry, followed by the lines of what it contains.
pub open spec fn outline_from(
    nodes: Seq<Node>,
    filters: Filters,
    show_lines: bool,
    prefix: Seq<char>,
    a: int,
) -> Seq<LineView>
    decreases nodes, display_order(node_entries(nodes), filters).len() - a,
{
    let order = display_order(node_entries(nodes), filters);
    if a < 0 || a >= order.len() || order[a] < 0 || order[a] >= nodes.len() {
        Seq::empty()
    } else {
        let node = nodes[order[a]];
        let last = a == order.len() - 1;
        let below = match node.listing {
            Some(kids) => if node.entry.is_dir {
                outline_from(kids, filters, show_lines, child_prefix(prefix, last), 0)
            } else {
                Seq::empty()
            },
            None => Seq::empty(),
        };
        seq![node_line(node, show_lines, prefix, last)] + below + outline_from(
            nodes,
            filters,
            show_lines,
            prefix,
            a + 1,
        )
    }
}

/// The lines of a directory tree.
pub open spec fn outline(nodes: Seq<Node>, filters: Filters, show_lines: bool) -> Seq<LineView> {
    outline_from(nodes, filters, show_lines, Seq::empty(), 0)
}

/// Whether a disk answers as a tree at rest says.
pub open spec fn answers(disk: Disk, nodes: Seq<Node>) -> bool
    decreases nodes,
{
    forall|i: int| 0 <= i < nodes.len() ==> answers_node(disk, #[trigger] nodes[i])
}

/// The same for one entry.
pub open spec fn answers_node(disk: Disk, node: Node) -> bool
    decreases node,
{
    let path = node.entry.path;
    if node.entry.is_dir {
        match node.listing {
            Some(kids) => (disk.list)(path) == Some(node_entries(kids)) && answers(disk, kids),
            None => (disk.list)(path) == None::<Seq<EntryView>>,
        }
    } else {
        (disk.size)(path) == node.size && (disk.content)(path) == node.content
    }
}

/// The lines that a walk shows on a disk in at most `steps` steps.
pub open spec fn lines_shown(walk: WalkView, disk: Disk, steps: nat) -> Seq<LineView>
    decreases steps,
{
    if steps == 0 {
        Seq::empty()
    } else {
        match walk.task() {
            TaskView::Done => Seq::empty(),
            TaskView::Directory(line) => seq![line] + lines_shown(
                walk.after_task().after_listing((disk.list)(line.path)),
                disk,
                (steps - 1) as nat,
            ),
            TaskView::File(file) => seq![
                file.line((disk.size)(file.path), (disk.content)(file.path)),
            ] + lines_shown(walk.after_task(), disk, (steps - 1) as nat),
        }
    }
}

/// A directory on the way, in a tree at rest: the entries from `at` on are still to be shown.
struct NodeFrame {
    nodes: Seq<Node>,
    prefix: Seq<char>,
    at: int,
}

/// The directories on the way as the walk holds them.
spec fn frames(stack: Seq<NodeFrame>, filters: Filters) -> Seq<FrameView> {
    stack.map_values(
        |f: NodeFrame|
            FrameView {
                prefix: f.prefix,
                todo: shown(node_entries(f.nodes), filters).skip(f.at),
            },
    )
}

/// Whether the directories on the way are in order, on a disk that answers as they say.
spec fn sound(stack: Seq<NodeFrame>, filters: Filters, disk: Disk) -> bool {
    forall|k: int|
        0 <= k < stack.len() ==> {
            let f = #[trigger] stack[k];
            &&& 0 <= f.at <= display_order(node_entries(f.nodes), filters).len()
            &&& answers(disk, f.nodes)
        }
}

/// The lines that are still to come.
spec fn to_come(stack: Seq<NodeFrame>, filters: Filters, show_lines: bool) -> Seq<LineView>
    decreases stack.len(),
{
    if stack.len() == 0 {
        Seq::empty()
    } else {
        let f = stack.last();
        outline_from(f.nodes, filters, show_lines, f.prefix, f.at) + to_come(
            stack.drop_last(),
            filters,
            show_lines,
        )
    }
}

/// A walk shows the lines that are to come.
proof fn lemma_shows_what_is_to_come(
    stack: Seq<NodeFrame>,
    walk: WalkView,
    disk: Disk,
    steps: nat,
)
    requires
        walk.stack == frames(stack, walk.filters),
        sound(stack, walk.filters, disk),
        steps > to_come(stack, walk.filters, walk.show_lines).len(),
    ensures
        lines_shown(walk, disk, steps) == to_come(stack, walk.filters, walk.show_lines),
    decreases steps, stack.len(), 1nat,
{
    if stack.len() == 0 {
        assert(walk.is_over());
    } else {
        lemma_shows_top(stack, walk, disk, steps);
    }
}

/// The same where there is a directory on the way.
proof fn lemma_shows_top(stack: Seq<NodeFrame>, walk: WalkView, disk: Disk, steps: nat)
    requires
        stack.len() > 0,
        walk.stack == frames(stack, walk.filters),
        sound(stack, walk.filters, disk),
        steps > to_come(stack, walk.filters, walk.show_lines).len(),
    ensures
        lines_shown(walk, disk, steps) == to_come(stack, walk.filters, walk.show_lines),
    decreases steps, stack.len(), 0nat,
{
    let filters = walk.filters;
    let show_lines = walk.show_lines;
    let f = stack.last();
    let below = stack.drop_last();
    let es = node_entries(f.nodes);
    let order = display_order(es, filters);
    law_display_order_exists(es, filters);
    assert(walk.stack.drop_last() =~= frames(below, filters));
    assert(sound(below, filters, disk));
    if f.at == order.len() {
        assert(walk.stack.last().todo.len() == 0);
        let outer = WalkView { stack: frames(below, filters), ..walk };
        assert(to_come(stack, filters, show_lines) =~= to_come(below, filters, show_lines));
        lemma_shows_what_is_to_come(below, outer, disk, steps);
        assert(unfinished(walk.stack) == unfinished(outer.stack));
        assert(walk.task() == outer.task());
        assert(walk.after_task() == outer.after_task());
    } else {
        let a = f.at;
        let i = order[a];
        assert(0 <= i < es.len());
        let node = f.nodes[i];
        let last = a == order.len() - 1;
        let top = walk.stack.last();
        assert(unfinished(walk.stack) == walk.stack);
        assert(top.todo[0] == shown(es, filters)[a]);
        assert(top.todo[0] == node.entry);
        assert(answers_node(disk, f.nodes[i]));
        let next = NodeFrame { at: a + 1, ..f };
        let onward = below.push(next);
        let first = node_line(node, show_lines, f.prefix, last);
        let rest = outline_from(f.nodes, filters, show_lines, f.prefix, a + 1);
        let outside = to_come(below, filters, show_lines);
        assert(onward.drop_last() =~= below);
        assert(to_come(onward, filters, show_lines) == rest + outside);
        assert(walk.after_task().stack =~= frames(onward, filters)) by {
            assert(top.todo.skip(1) =~= shown(es, filters).skip(a + 1));
        }
        assert(sound(onward, filters, disk));
        if node.entry.is_dir {
            let after = walk.after_task().after_listing((disk.list)(node.entry.path));
            match node.listing {
                Some(kids) => {
                    let child = NodeFrame {
                        nodes: kids,
                        prefix: child_prefix(f.prefix, last),
                        at: 0,
                    };
                    let deeper = onward.push(child);
                    let inside = outline_from(kids, filters, show_lines, child.prefix, 0);
                    assert(deeper.drop_last() =~= onward);
                    assert(to_come(deeper, filters, show_lines) == inside + (rest + outside));
                    assert(to_come(stack, filters, show_lines) =~= seq![first] + (inside + (rest
                        + outside)));
                    assert(after.stack =~= frames(deeper, filters)) by {
                        assert(shown(node_entries(kids), filters).skip(0) =~= shown(
                            node_entries(kids),
                            filters,
                        ));
                    }
                    assert(sound(deeper, filters, disk));
                    lemma_shows_what_is_to_come(deeper, after, disk, (steps - 1) as nat);
                },
                None => {
                    assert(to_come(stack, filters, show_lines) =~= seq![first] + (rest + outside));
                    assert(after.stack =~= frames(onward, filters));
                    lemma_shows_what_is_to_come(onward, after, disk, (steps - 1) as nat);
                },
            }
        } else {
            assert(to_come(stack, filters, show_lines) =~= seq![first] + (rest + outside));
            lemma_shows_what_is_to_come(onward, walk.after_task(), disk, (steps - 1) as nat);
        }
    }
}

/// A walk that is not cancelled shows the outline of the directory, line by line, and nothing
/// else: every visible entry in its place, each directory followed by what it contains.
pub proof fn law_walk_shows_the_outline(
    nodes: Seq<Node>,
    filters: Filters,
    show_lines: bool,
    disk: Disk,
    steps: nat,
)
    requires
        answers(disk, nodes),
        steps > outline(nodes, filters, show_lines).len(),
    ensures
        lines_shown(
            WalkView::start(filters, show_lines).after_listing(Some(node_entries(nodes))),
            disk,
            steps,
        ) == outline(nodes, filters, show_lines),
{
    let walk = WalkView::start(filters, show_lines).after_listing(Some(node_entries(nodes)));
    let root = NodeFrame { nodes, prefix: Seq::empty(), at: 0 };
    let stack = seq![root];
    assert(stack.drop_last() =~= Seq::<NodeFrame>::empty());
    reveal_with_fuel(to_come, 2);
    assert(to_come(stack, filters, show_lines) =~= outline(nodes, filters, show_lines));
    assert(shown(node_entries(nodes), filters).skip(0) =~= shown(node_entries(nodes), filters));
    assert(walk.stack =~= frames(stack, filters));
    lemma_shows_what_is_to_come(stack, walk, disk, steps);
}

/// The texts of some lines, one after the other.
pub open spec fn outline_text(lines: Seq<LineView>) -> Seq<char>
    decreases lines.len(),
{
    if lines.len() == 0 {
        Seq::empty()
    } else {
        outline_text(lines.drop_last()) + lines.last().text
    }
}

/// The text of lines is that of what they hold.
proof fn lemma_texts(lines: Seq<TreeLine>)
    ensures
        texts(lines) == outline_text(lines.map_values(|l: TreeLine| l@)),
    decreases lines.len(),
{
    let views = lines.map_values(|l: TreeLine| l@);
    if lines.len() > 0 {
        lemma_texts(lines.drop_last());
        assert(views.drop_last() =~= lines.drop_last().map_values(|l: TreeLine| l@));
    }
}

/// What is copied of a tree whose lines a walk has shown is the outline of the directory.
pub proof fn law_copied_tree_is_the_outline(
    lines: Seq<TreeLine>,
    nodes: Seq<Node>,
    filters: Filters,
    show_lines: bool,
    disk: Disk,
    steps: nat,
)
    requires
        answers(disk, nodes),
        steps > outline(nodes, filters, show_lines).len(),
        lines.map_values(|l: TreeLine| l@) == lines_shown(
            WalkView::start(filters, show_lines).after_listing(Some(node_entries(nodes))),
            disk,
            steps,
        ),
    ensures
        texts(lines) == outline_text(outline(nodes, filters, show_lines)),
{
    lemma_texts(lines);
    law_walk_shows_the_outline(nodes, filters, show_lines, disk, steps);
}

/// A round of a job: the job is asked whether a directory is to be listed, takes in the
/// listing if that is so, and is asked for its next task.
pub struct Round {
    pub wanted: bool,
    pub asked: TreeJob,
    pub listed: TreeJob,
    pub task: TaskView,
    pub after: TreeJob,
}

/// Whether a round starts with a job whose directory to be listed next is `dir`.
pub open spec fn is_round(job: TreeJob, dir: PathBuf, disk: Disk, round: Round) -> bool {
    &&& job.asked_for_listing(round.asked, round.wanted)
    &&& round.listed.cancel == round.asked.cancel
    &&& round.listed.walk@ == if round.wanted {
        round.asked.walk@.after_listing((disk.list)(dir))
    } else {
        round.asked.walk@
    }
    &&& round.listed.asked_for_task(round.after, round.task)
}

/// The directory to be listed next, after a task.
pub open spec fn next_dir(dir: PathBuf, task: TaskView) -> PathBuf {
    match task {
        TaskView::Directory(line) => line.path,
        _ => dir,
    }
}

/// Whether rounds follow each other, from a job on.
pub open spec fn is_run(job: TreeJob, dir: PathBuf, disk: Disk, rounds: Seq<Round>) -> bool
    decreases rounds.len(),
{
    rounds.len() > 0 ==> {
        &&& is_round(job, dir, disk, rounds[0])
        &&& is_run(rounds[0].after, next_dir(dir, rounds[0].task), disk, rounds.skip(1))
    }
}

/// The lines that come of a task.
pub open spec fn task_lines(task: TaskView, disk: Disk) -> Seq<LineView> {
    match task {
        TaskView::Directory(line) => seq![line],
        TaskView::File(file) => seq![
            file.line((disk.size)(file.path), (disk.content)(file.path)),
        ],
        TaskView::Done => Seq::empty(),
    }
}

/// The lines that come of the tasks of some rounds.
pub open spec fn run_lines(rounds: Seq<Round>, disk: Disk) -> Seq<LineView>
    decreases rounds.len(),
{
    if rounds.len() == 0 {
        Seq::empty()
    } else {
        task_lines(rounds[0].task, disk) + run_lines(rounds.skip(1), disk)
    }
}

/// Nothing comes of a job that has seen the request to stop.
proof fn lemma_stopped_run(job: TreeJob, dir: PathBuf, disk: Disk, rounds: Seq<Round>)
    requires
        is_run(job, dir, disk, rounds),
        stop_was_seen(job.cancel),
    ensures
        run_lines(rounds, disk).len() == 0,
    decreases rounds.len(),
{
    if rounds.len() > 0 {
        let r = rounds[0];
        assert(looks(r.asked.cancel).last());
        assert(looks(r.after.cancel).last());
        lemma_stopped_run(r.after, next_dir(dir, r.task), disk, rounds.skip(1));
    }
}

/// A run shows what the walk shows, up to where the request to stop is seen.
proof fn lemma_run(job: TreeJob, dir: PathBuf, disk: Disk, rounds: Seq<Round>)
    requires
        is_run(job, dir, disk, rounds),
    ensures
        ({
            let all = lines_shown(
                job.walk@.after_listing((disk.list)(dir)),
                disk,
                rounds.len(),
            );
            &&& run_lines(rounds, disk).is_prefix_of(all)
            &&& !asked_to_stop(job.cancel) ==> run_lines(rounds, disk) == all
        }),
    decreases rounds.len(),
{
    let walk = job.walk@.after_listing((disk.list)(dir));
    let all = lines_shown(walk, disk, rounds.len());
    let lines = run_lines(rounds, disk);
    if rounds.len() > 0 {
        let r = rounds[0];
        let rest = rounds.skip(1);
        let dir_after = next_dir(dir, r.task);
        if looks(r.after.cancel).last() {
            assert(asked_to_stop(r.listed.cancel));
            assert(asked_to_stop(job.cancel)) by {
                assert forall|f: StopFlag| #[trigger] watches(job.cancel, f) implies
                    stop_requested(f) by {
                    assert(watches(r.asked.cancel, f));
                }
            }
            lemma_stopped_run(r.after, dir_after, disk, rest);
            assert(lines.len() == 0);
            assert(lines =~= all.subrange(0, 0));
        } else {
            assert(!looks(r.asked.cancel).last());
            if job.walk@.pending is None {
                assert(walk == job.walk@);
            }
            assert(r.listed.walk@ == walk);
            lemma_run(r.after, dir_after, disk, rest);
            assert(asked_to_stop(r.after.cancel) ==> asked_to_stop(job.cancel)) by {
                assert forall|f: StopFlag|
                    asked_to_stop(r.after.cancel) && #[trigger] watches(job.cancel, f) implies
                    stop_requested(f) by {
                    assert(watches(r.asked.cancel, f));
                    assert(watches(r.after.cancel, f));
                }
            }
            let then = r.after.walk@.after_listing((disk.list)(dir_after));
            let below = lines_shown(then, disk, rest.len());
            match r.task {
                TaskView::Directory(line) => {
                    assert(all == seq![line] + below);
                    assert(lines =~= all.subrange(0, lines.len() as int));
                },
                TaskView::File(file) => {
                    assert(then == r.after.walk@);
                    assert(lines =~= all.subrange(0, lines.len() as int));
                },
                TaskView::Done => {
                    assert(walk.is_over());
                    assert(then == r.after.walk@);
                    assert(then.is_over());
                    assert(below.len() == 0);
                    assert(all.len() == 0);
                    assert(lines =~= all);
                },
            }
        }
    }
}

/// More steps show more of the same lines, and none if the walk had come to its end.
proof fn lemma_more_steps(walk: WalkView, disk: Disk, n: nat, m: nat)
    requires
        n <= m,
    ensures
        lines_shown(walk, disk, n).is_prefix_of(lines_shown(walk, disk, m)),
        lines_shown(walk, disk, n).len() < n ==> lines_shown(walk, disk, n) == lines_shown(
            walk,
            disk,
            m,
        ),
    decreases n,
{
    let few = lines_shown(walk, disk, n);
    let many = lines_shown(walk, disk, m);
    if n > 0 {
        let (k, l) = ((n - 1) as nat, (m - 1) as nat);
        match walk.task() {
            TaskView::Directory(line) => {
                lemma_more_steps(
                    walk.after_task().after_listing((disk.list)(line.path)),
                    disk,
                    k,
                    l,
                );
            },
            TaskView::File(_) => {
                lemma_more_steps(walk.after_task(), disk, k, l);
            },
            TaskView::Done => {},
        }
        assert(few =~= many.subrange(0, few.len() as int));
    } else {
        assert(few =~= many.subrange(0, 0));
    }
}

/// Every round shows at most one line, and one without a task none.
proof fn lemma_run_length(rounds: Seq<Round>, disk: Disk)
    ensures
        run_lines(rounds, disk).len() <= rounds.len(),
        rounds.len() > 0 && rounds.last().task is Done ==> run_lines(rounds, disk).len()
            < rounds.len(),
    decreases rounds.len(),
{
    if rounds.len() > 0 {
        lemma_run_length(rounds.skip(1), disk);
        if rounds.len() > 1 {
            assert(rounds.skip(1).last() == rounds.last());
        }
    }
}

/// Whatever happens, a job that was just started shows the outline of the directory from its
/// beginning on, line by line: one that is asked to stop shows no more than a part of it, and
/// never a wrong line.
pub proof fn law_job_shows_a_beginning(
    job: TreeJob,
    dir: PathBuf,
    disk: Disk,
    rounds: Seq<Round>,
    nodes: Seq<Node>,
    filters: Filters,
    show_lines: bool,
)
    requires
        job.walk@ == WalkView::start(filters, show_lines),
        (disk.list)(dir) == Some(node_entries(nodes)),
        answers(disk, nodes),
        is_run(job, dir, disk, rounds),
    ensures
        run_lines(rounds, disk).is_prefix_of(outline(nodes, filters, show_lines)),
{
    let walk = WalkView::start(filters, show_lines).after_listing(Some(node_entries(nodes)));
    let tree = outline(nodes, filters, show_lines);
    let n = rounds.len();
    let m = n + tree.len() + 1;
    lemma_run(job, dir, disk, rounds);
    lemma_more_steps(walk, disk, n, m);
    law_walk_shows_the_outline(nodes, filters, show_lines, disk, m);
    let lines = run_lines(rounds, disk);
    let shown_by_walk = lines_shown(walk, disk, n);
    assert(lines =~= tree.subrange(0, lines.len() as int)) by {
        assert(lines =~= shown_by_walk.subrange(0, lines.len() as int));
        assert(shown_by_walk =~= tree.subrange(0, shown_by_walk.len() as int));
    }
}

/// A job that was just started and is not asked to stop shows the whole outline of the
/// directory, line by line, by the time it has no task left.
pub proof fn law_job_shows_the_outline(
    job: TreeJob,
    dir: PathBuf,
    disk: Disk,
    rounds: Seq<Round>,
    nodes: Seq<Node>,
    filters: Filters,
    show_lines: bool,
)
    requires
        job.walk@ == WalkView::start(filters, show_lines),
        !asked_to_stop(job.cancel),
        (disk.list)(dir) == Some(node_entries(nodes)),
        answers(disk, nodes),
        is_run(job, dir, disk, rounds),
        rounds.len() > 0,
        rounds.last().task is Done,
    ensures
        run_lines(rounds, disk) == outline(nodes, filters, show_lines),
{
    let walk = WalkView::start(filters, show_lines).after_listing(Some(node_entries(nodes)));
    let n = rounds.len();
    let m = n + outline(nodes, filters, show_lines).len() + 1;
    lemma_run(job, dir, disk, rounds);
    lemma_run_length(rounds, disk);
    lemma_more_steps(walk, disk, n, m);
    law_walk_shows_the_outline(nodes, filters, show_lines, disk, m);
}

/// A job that is not asked to stop lists every pending directory, and has exactly the walk's
/// own tasks.
pub proof fn law_job_goes_on_unless_asked(
    job: TreeJob,
    asked: TreeJob,
    wanted: bool,
    after: TreeJob,
    task: TaskView,
)
    requires
        !asked_to_stop(job.cancel),
        job.asked_for_listing(asked, wanted),
        job.asked_for_task(after, task),
    ensures
        wanted <==> job.walk@.pending is Some,
        task == job.walk@.task(),
        after.walk@ == job.walk@.after_task(),
{
}

/// The lines of a directory, entry by entry: the line of each shown entry, with a bent branch
/// for the last one alone, and below a directory that could be listed the lines of what it
/// holds, one level further in; and nothing behind the last entry.
pub proof fn law_outline_by_entries(
    nodes: Seq<Node>,
    filters: Filters,
    show_lines: bool,
    prefix: Seq<char>,
    a: int,
)
    requires
        0 <= a,
    ensures
        ({
            let list = shown(node_entries(nodes), filters);
            let order = display_order(node_entries(nodes), filters);
            let lines = outline_from(nodes, filters, show_lines, prefix, a);
            let rest = outline_from(nodes, filters, show_lines, prefix, a + 1);
            let last = a + 1 == list.len();
            let e = list[a];
            let node = nodes[order[a]];
            &&& a >= list.len() ==> lines.len() == 0
            &&& a < list.len() ==> lines.len() > 0 && node.entry == e
            &&& a < list.len() && e.is_dir ==> lines[0] == dir_line(prefix, last, e.name, e.path)
            &&& a < list.len() && !e.is_dir ==> lines[0] == (FileTaskView {
                stem: stem(prefix, last, e.name),
                path: e.path,
                count_lines: show_lines,
            }).line(node.size, node.content)
            &&& a < list.len() ==> lines.skip(1) == (if e.is_dir && node.listing is Some {
                outline_from(
                    node.listing->0,
                    filters,
                    show_lines,
                    child_prefix(prefix, last),
                    0,
                ) + rest
            } else {
                rest
            })
        }),
{
    let es = node_entries(nodes);
    let order = display_order(es, filters);
    law_display_order_exists(es, filters);
    if a < order.len() {
        assert(0 <= order[a] < es.len());
        let node = nodes[order[a]];
        assert(shown(es, filters)[a] == node.entry);
        let last = a == order.len() - 1;
        let lines = outline_from(nodes, filters, show_lines, prefix, a);
        let rest = outline_from(nodes, filters, show_lines, prefix, a + 1);
        let below = match node.listing {
            Some(kids) => if node.entry.is_dir {
                outline_from(kids, filters, show_lines, child_prefix(prefix, last), 0)
            } else {
                Seq::empty()
            },
            None => Seq::empty(),
        };
        assert(lines == seq![node_line(node, show_lines, prefix, last)] + below + rest);
        assert(lines.skip(1) =~= below + rest);
        assert(below.len() == 0 ==> below + rest =~= rest);
    }
}

/// Whether lines are others with a text put in front of each.
pub open spec fn moved_in(front: Seq<char>, lines: Seq<LineView>, moved: Seq<LineView>) -> bool {
    &&& moved.len() == lines.len()
    &&& forall|i: int|
        0 <= i < lines.len() ==> {
            &&& (#[trigger] moved[i]).text == front + lines[i].text
            &&& moved[i].path == lines[i].path
            &&& moved[i].is_dir == lines[i].is_dir
            &&& moved[i].size == lines[i].size
        }
}

/// What stands in front of the entries of a directory is only put in front of its lines: at
/// whatever depth a directory lies, its lines are the same but for that.
pub proof fn law_depth_only_moves_lines_in(
    nodes: Seq<Node>,
    filters: Filters,
    show_lines: bool,
    front: Seq<char>,
    prefix: Seq<char>,
    a: int,
)
    ensures
        moved_in(
            front,
            outline_from(nodes, filters, show_lines, prefix, a),
            outline_from(nodes, filters, show_lines, front + prefix, a),
        ),
    decreases nodes, display_order(node_entries(nodes), filters).len() - a,
{
    let order = display_order(node_entries(nodes), filters);
    if !(a < 0 || a >= order.len() || order[a] < 0 || order[a] >= nodes.len()) {
        let node = nodes[order[a]];
        let last = a == order.len() - 1;
        let near = outline_from(nodes, filters, show_lines, prefix, a);
        let far = outline_from(nodes, filters, show_lines, front + prefix, a);
        let near_rest = outline_from(nodes, filters, show_lines, prefix, a + 1);
        let far_rest = outline_from(nodes, filters, show_lines, front + prefix, a + 1);
        law_depth_only_moves_lines_in(nodes, filters, show_lines, front, prefix, a + 1);
        let first = node_line(node, show_lines, prefix, last);
        let far_first = node_line(node, show_lines, front + prefix, last);
        assert(far_first.text =~= front + first.text);
        assert(moved_in(front, seq![first], seq![far_first]));
        match node.listing {
            Some(kids) => {
                if node.entry.is_dir {
                    let p = child_prefix(prefix, last);
                    assert(child_prefix(front + prefix, last) =~= front + p);
                    law_depth_only_moves_lines_in(kids, filters, show_lines, front, p, 0);
                    let near_below = outline_from(kids, filters, show_lines, p, 0);
                    let far_below = outline_from(kids, filters, show_lines, front + p, 0);
                    lemma_moved_in(front, seq![first], seq![far_first], near_below, far_below);
                    lemma_moved_in(
                        front,
                        seq![first] + near_below,
                        seq![far_first] + far_below,
                        near_rest,
                        far_rest,
                    );
                } else {
                    lemma_moved_in(front, seq![first], seq![far_first], near_rest, far_rest);
                    assert(near =~= seq![first] + near_rest);
                    assert(far =~= seq![far_first] + far_rest);
                }
            },
            None => {
                lemma_moved_in(front, seq![first], seq![far_first], near_rest, far_rest);
                assert(near =~= seq![first] + near_rest);
                assert(far =~= seq![far_first] + far_rest);
            },
        }
    }
}

/// Lines that are moved in one after the other.
proof fn lemma_moved_in(
    front: Seq<char>,
    a: Seq<LineView>,
    b: Seq<LineView>,
    c: Seq<LineView>,
    d: Seq<LineView>,
)
    requires
        moved_in(front, a, b),
        moved_in(front, c, d),
    ensures
        moved_in(front, a + c, b + d),
{
    let (near, far) = (a + c, b + d);
    assert forall|i: int| 0 <= i < near.len() implies {
        &&& (#[trigger] far[i]).text == front + near[i].text
        &&& far[i].path == near[i].path
        &&& far[i].is_dir == near[i].is_dir
        &&& far[i].size == near[i].size
    } by {
        if i < a.len() {
            assert(far[i] == b[i]);
        } else {
            assert(far[i] == d[i - a.len()]);
        }
    }
}

/// The depths of the entries of a directory tree, in the order of its lines: the entries of
/// the directory have the depth `d`, and those of a directory in it one more.
pub open spec fn depths_from(nodes: Seq<Node>, filters: Filters, d: nat, a: int) -> Seq<nat>
    decreases nodes, display_order(node_entries(nodes), filters).len() - a,
{
    let order = display_order(node_entries(nodes), filters);
    if a < 0 || a >= order.len() || order[a] < 0 || order[a] >= nodes.len() {
        Seq::empty()
    } else {
        let node = nodes[order[a]];
        let below = match node.listing {
            Some(kids) => if node.entry.is_dir {
                depths_from(kids, filters, d + 1, 0)
            } else {
                Seq::empty()
            },
            None => Seq::empty(),
        };
        seq![d] + below + depths_from(nodes, filters, d, a + 1)
    }
}

/// Whether a text is indented for a depth: it begins with four characters for each level, a
/// space or a bar in front, and then has a branch.
pub open spec fn indented(text: Seq<char>, depth: nat) -> bool {
    &&& text.len() >= 4 * depth + 4
    &&& forall|j: int|
        0 <= j < depth ==> #[trigger] text[4 * j] == ' ' || text[4 * j] == '│'
    &&& text[4 * depth as int] == '├' || text[4 * depth as int] == '└'
}

/// Whether each of some lines is indented for its depth.
pub open spec fn all_indented(lines: Seq<LineView>, depths: Seq<nat>) -> bool {
    &&& lines.len() == depths.len()
    &&& forall|i: int| 0 <= i < lines.len() ==> indented(#[trigger] lines[i].text, depths[i])
}

/// The depth of every entry can be read off its line, at any depth: four times as many
/// characters as the entry is deep stand in front of its branch.
pub proof fn law_indentation_tells_the_depth(
    nodes: Seq<Node>,
    filters: Filters,
    show_lines: bool,
)
    ensures
        all_indented(outline(nodes, filters, show_lines), depths_from(nodes, filters, 0, 0)),
{
    lemma_all_indented(nodes, filters, show_lines, Seq::empty(), 0, 0);
}

/// The same below a directory.
proof fn lemma_all_indented(
    nodes: Seq<Node>,
    filters: Filters,
    show_lines: bool,
    prefix: Seq<char>,
    d: nat,
    a: int,
)
    requires
        prefix.len() == 4 * d,
        forall|j: int| 0 <= j < d ==> #[trigger] prefix[4 * j] == ' ' || prefix[4 * j] == '│',
    ensures
        all_indented(
            outline_from(nodes, filters, show_lines, prefix, a),
            depths_from(nodes, filters, d, a),
        ),
    decreases nodes, display_order(node_entries(nodes), filters).len() - a,
{
    let order = display_order(node_entries(nodes), filters);
    if !(a < 0 || a >= order.len() || order[a] < 0 || order[a] >= nodes.len()) {
        let node = nodes[order[a]];
        let last = a == order.len() - 1;
        lemma_all_indented(nodes, filters, show_lines, prefix, d, a + 1);
        let rest = outline_from(nodes, filters, show_lines, prefix, a + 1);
        let rest_depths = depths_from(nodes, filters, d, a + 1);
        let first = node_line(node, show_lines, prefix, last);
        let branch = stem(prefix, last, node.entry.name);
        law_name_stands_behind_the_branch(prefix, last, node.entry.name);
        assert(first.text.take(branch.len() as int) =~= branch);
        assert(branch.len() >= 4 * d + 4);
        assert forall|j: int| 0 <= j < branch.len() implies first.text[j] == branch[j] by {
            assert(first.text.take(branch.len() as int)[j] == branch[j]);
        }
        assert forall|j: int| 0 <= j < d implies #[trigger] first.text[4 * j] == ' '
            || first.text[4 * j] == '│' by {
            assert(branch.take(prefix.len() as int)[4 * j] == prefix[4 * j]);
        }
        assert(indented(first.text, d));
        assert(all_indented(seq![first], seq![d]));
        let lines = outline_from(nodes, filters, show_lines, prefix, a);
        let depths = depths_from(nodes, filters, d, a);
        match node.listing {
            Some(kids) => {
                if node.entry.is_dir {
                    let p = child_prefix(prefix, last);
                    law_each_level_indents_by_four(prefix, last);
                    assert forall|j: int| 0 <= j < d + 1 implies #[trigger] p[4 * j] == ' ' || p[4
                        * j] == '│' by {
                        if j < d {
                            assert(p.take(prefix.len() as int)[4 * j] == prefix[4 * j]);
                        }
                    }
                    lemma_all_indented(kids, filters, show_lines, p, d + 1, 0);
                    let below = outline_from(kids, filters, show_lines, p, 0);
                    let below_depths = depths_from(kids, filters, d + 1, 0);
                    lemma_indented_append(seq![first], seq![d], below, below_depths);
                    lemma_indented_append(
                        seq![first] + below,
                        seq![d] + below_depths,
                        rest,
                        rest_depths,
                    );
                } else {
                    lemma_indented_append(seq![first], seq![d], rest, rest_depths);
                    assert(lines =~= seq![first] + rest);
                    assert(depths =~= seq![d] + rest_depths);
                }
            },
            None => {
                lemma_indented_append(seq![first], seq![d], rest, rest_depths);
                assert(lines =~= seq![first] + rest);
                assert(depths =~= seq![d] + rest_depths);
            },
        }
    }
}

/// Indented lines one after the other.
proof fn lemma_indented_append(a: Seq<LineView>, b: Seq<nat>, c: Seq<LineView>, d: Seq<nat>)
    requires
        all_indented(a, b),
        all_indented(c, d),
    ensures
        all_indented(a + c, b + d),
{
    let (lines, depths) = (a + c, b + d);
    assert forall|i: int| 0 <= i < lines.len() implies indented(
        #[trigger] lines[i].text,
        depths[i],
    ) by {
        if i < a.len() {
            assert(indented(a[i].text, b[i]));
        } else {
            assert(indented(c[i - a.len()].text, d[i - a.len()]));
        }
    }
}

} // verus!
