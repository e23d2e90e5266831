//! The channels and flags by which a view and its background job talk to each other.
use crate::line::TreeLine;
use crate::search::SearchResult;
use crossbeam_channel::{Receiver, Sender};
use std::sync::atomic::AtomicBool;
use std::sync::Arc;
use vstd::prelude::*;

verus! {

/// The receiving end of a channel.
#[verifier::external_type_specification]
#[verifier::external_body]
#[verifier::reject_recursive_types(T)]
pub struct ExReceiver<T>(Receiver<T>);

/// The sending end of a channel.
#[verifier::external_type_specification]
#[verifier::external_body]
#[verifier::reject_recursive_types(T)]
pub struct ExSender<T>(Sender<T>);

/// What a channel answers when it is asked for a message: the next one, that there is none
/// yet, or that there will be none any more.
pub enum Reply<T> {
    Item(T),
    Empty,
    Disconnected,
}

/// The messages among some replies, in their order.
pub open spec fn items<T>(replies: Seq<Reply<T>>) -> Seq<T>
    decreases replies.len(),
{
    if replies.len() == 0 {
        Seq::empty()
    } else {
        match replies.last() {
            Reply::Item(item) => items(replies.drop_last()).push(item),
            _ => items(replies.drop_last()),
        }
    }
}

/// Whether some replies make up one round of asking: messages up to the limit, or fewer
/// messages and then a reply that is none.
pub open spec fn one_round<T>(replies: Seq<Reply<T>>, limit: nat) -> bool {
    &&& replies.len() <= limit
    &&& forall|i: int| 0 <= i < replies.len() - 1 ==> (#[trigger] replies[i]) is Item
    &&& replies.len() < limit ==> replies.len() > 0 && !(replies.last() is Item)
}

/// Whether the last reply says that no message will come any more.
pub open spec fn hung_up<T>(replies: Seq<Reply<T>>) -> bool {
    replies.len() > 0 && replies.last() is Disconnected
}

/// The messages of more replies come after those of the first.
pub proof fn lemma_items_append<T>(a: Seq<Reply<T>>, b: Seq<Reply<T>>)
    ensures
        items(a + b) == items(a) + items(b),
    decreases b.len(),
{
    if b.len() == 0 {
        assert(a + b =~= a);
        assert(items(a) + items(b) =~= items(a));
    } else {
        lemma_items_append(a, b.drop_last());
        assert((a + b).drop_last() =~= a + b.drop_last());
        assert((a + b).last() == b.last());
        assert(items(a + b) =~= items(a) + items(b));
    }
}

/// Whether two ends belong to the same channel of tree lines.
pub uninterp spec fn line_channel(tx: Sender<TreeLine>, rx: Receiver<TreeLine>) -> bool;

/// The replies that were taken from a channel of tree lines at this end, in their order.
pub uninterp spec fn lines_taken(rx: Receiver<TreeLine>) -> Seq<Reply<TreeLine>>;

/// Whether two ends belong to the same channel of search results.
pub uninterp spec fn result_channel(tx: Sender<SearchResult>, rx: Receiver<SearchResult>) -> bool;

/// The replies that were taken from a channel of search results at this end, in their order.
pub uninterp spec fn results_taken(rx: Receiver<SearchResult>) -> Seq<Reply<SearchResult>>;

/// The view's end of a stop flag, of which there is one: the request to stop is put in here.
#[verifier::external_body]
pub struct StopFlag {
    flag: Arc<AtomicBool>,
}

/// The job's end of a stop flag: it can be looked at here, and not changed.
#[verifier::external_body]
pub struct StopWatch {
    flag: Arc<AtomicBool>,
}

/// Whether the request to stop is in the flag.
pub uninterp spec fn raised(flag: StopFlag) -> bool;

/// Whether the two are the ends of the same stop flag.
pub uninterp spec fn watches(watch: StopWatch, flag: StopFlag) -> bool;

/// Whether the request to stop is put into the flag at some time.
pub uninterp spec fn stop_requested(flag: StopFlag) -> bool;

/// What the looks at the flag that were taken at this end gave, in their order.
pub uninterp spec fn looks(watch: StopWatch) -> Seq<bool>;

/// Whether the job that looks at the flag here is asked to stop at some time.
pub open spec fn asked_to_stop(watch: StopWatch) -> bool {
    forall|f: StopFlag| #[trigger] watches(watch, f) ==> stop_requested(f)
}

/// Whether the last look at this end saw the request to stop.
pub open spec fn stop_was_seen(watch: StopWatch) -> bool {
    looks(watch).len() > 0 && looks(watch).last()
}

/// Whether the same flag is looked at in two places, or in two states of one.
pub open spec fn same_watch(a: StopWatch, b: StopWatch) -> bool {
    forall|f: StopFlag| #[trigger] watches(b, f) == watches(a, f)
}

/// Whether between two states of the job's end one look was taken, which gave `seen`: the
/// request to stop is seen only if it is made, and once it was seen it stays so.
pub open spec fn looked(before: StopWatch, after: StopWatch, seen: bool) -> bool {
    &&& looks(after) == looks(before).push(seen)
    &&& same_watch(before, after)
    &&& seen ==> asked_to_stop(before)
    &&& stop_was_seen(before) ==> seen
}

/// Whether the same jobs watch a stop flag in two states of the view's end.
pub open spec fn same_flag(before: StopFlag, after: StopFlag) -> bool {
    forall|w: StopWatch| #[trigger] watches(w, after) == watches(w, before)
}

/// Whether exactly these replies were taken from a channel of tree lines between two states
/// of its receiving end.
pub open spec fn took_lines(
    before: Receiver<TreeLine>,
    after: Receiver<TreeLine>,
    replies: Seq<Reply<TreeLine>>,
) -> bool {
    &&& lines_taken(after) == lines_taken(before) + replies
    &&& forall|tx: Sender<TreeLine>| #[trigger]
        line_channel(tx, after) == line_channel(tx, before)
}

/// Whether exactly these replies were taken from a channel of search results between two
/// states of its receiving end.
pub open spec fn took_results(
    before: Receiver<SearchResult>,
    after: Receiver<SearchResult>,
    replies: Seq<Reply<SearchResult>>,
) -> bool {
    &&& results_taken(after) == results_taken(before) + replies
    &&& forall|tx: Sender<SearchResult>| #[trigger]
        result_channel(tx, after) == result_channel(tx, before)
}

/// Calls `crossbeam_channel::unbounded`, which returns the two ends of a new channel: nothing
/// was taken from it yet.
#[verifier::external_body]
pub(crate) fn new_line_channel() -> (r: (Sender<TreeLine>, Receiver<TreeLine>))
    ensures
        line_channel(r.0, r.1),
        lines_taken(r.1).len() == 0,
{
    crossbeam_channel::unbounded()
}

/// Calls `Receiver::try_recv`, which takes the next message out of the channel, or says that
/// there is none now, or none any more. Which of these it is rests with the sender, and is
/// left open: what is claimed is that this reply, and no other, was taken, and that a channel
/// that has hung up stays so.
#[verifier::external_body]
pub(crate) fn ask_line(rx: &mut Receiver<TreeLine>) -> (r: Reply<TreeLine>)
    ensures
        took_lines(*old(rx), *final(rx), seq![r]),
        hung_up(lines_taken(*old(rx))) ==> r is Disconnected,
{
    match rx.try_recv() {
        Ok(line) => Reply::Item(line),
        Err(crossbeam_channel::TryRecvError::Empty) => Reply::Empty,
        Err(crossbeam_channel::TryRecvError::Disconnected) => Reply::Disconnected,
    }
}

/// Calls `crossbeam_channel::unbounded`, as `new_line_channel` does, for search results.
#[verifier::external_body]
pub(crate) fn new_result_channel() -> (r: (Sender<SearchResult>, Receiver<SearchResult>))
    ensures
        result_channel(r.0, r.1),
        results_taken(r.1).len() == 0,
{
    crossbeam_channel::unbounded()
}

/// Calls `Receiver::try_recv`, as `ask_line` does, on a channel of search results.
#[verifier::external_body]
pub(crate) fn ask_result(rx: &mut Receiver<SearchResult>) -> (r: Reply<SearchResult>)
    ensures
        took_results(*old(rx), *final(rx), seq![r]),
        hung_up(results_taken(*old(rx))) ==> r is Disconnected,
{
    match rx.try_recv() {
        Ok(result) => Reply::Item(result),
        Err(crossbeam_channel::TryRecvError::Empty) => Reply::Empty,
        Err(crossbeam_channel::TryRecvError::Disconnected) => Reply::Disconnected,
    }
}

/// Calls `AtomicBool::new` with `false`, and hands out both ends of the flag: the request to
/// stop is not in it, and nobody has looked yet.
#[verifier::external_body]
pub(crate) fn new_flag() -> (r: (StopFlag, StopWatch))
    ensures
        !raised(r.0),
        watches(r.1, r.0),
        looks(r.1).len() == 0,
{
    let flag = Arc::new(AtomicBool::new(false));
    (StopFlag { flag: flag.clone() }, StopWatch { flag })
}

/// Calls `AtomicBool::store` with `true`, by which the job that watches the flag is asked to
/// stop. The request is in the flag from then on, and the same jobs watch it.
#[verifier::external_body]
pub(crate) fn request_stop(flag: &mut StopFlag)
    ensures
        raised(*final(flag)),
        stop_requested(*old(flag)),
        same_flag(*old(flag), *final(flag)),
{
    flag.flag.store(true, std::sync::atomic::Ordering::Relaxed);
}

/// Calls `AtomicBool::load`, which says whether the request to stop is seen in the flag. The
/// flag starts with `false` and only that request changes it, so it is seen only if it is made,
/// and once it was seen here it is seen by every later look. When a request that is made is
/// first seen rests with the threads, and is left open.
#[verifier::external_body]
pub(crate) fn look_for_stop(watch: &mut StopWatch) -> (r: bool)
    ensures
        looked(*old(watch), *final(watch), r),
{
    watch.flag.load(std::sync::atomic::Ordering::Relaxed)
}

/// Calls `Arc::clone`, which makes a further end of the same flag, for a further thread: nobody
/// has looked there yet.
#[verifier::external_body]
pub(crate) fn further_watch(watch: &StopWatch) -> (r: StopWatch)
    ensures
        looks(r).len() == 0,
        same_watch(*watch, r),
{
    StopWatch { flag: watch.flag.clone() }
}

/// The messages among replies: a reply that is a message counts, and no other.
pub proof fn law_messages<T>(replies: Seq<Reply<T>>, item: T)
    ensures
        items(Seq::<Reply<T>>::empty()).len() == 0,
        items(replies.push(Reply::Item(item))) == items(replies).push(item),
        items(replies.push(Reply::Empty)) == items(replies),
        items(replies.push(Reply::Disconnected)) == items(replies),
{
    assert(replies.push(Reply::Item(item)).drop_last() =~= replies);
    assert(replies.push(Reply::<T>::Empty).drop_last() =~= replies);
    assert(replies.push(Reply::<T>::Disconnected).drop_last() =~= replies);
}

/// A round of asking ends at the first reply that is no message, or with as many messages as
/// the limit allows, and with nothing else: so it takes all that waits, up to the limit.
pub proof fn law_a_round<T>(replies: Seq<Reply<T>>, limit: nat)
    requires
        one_round(replies, limit),
    ensures
        replies.len() <= limit,
        items(replies).len() == limit || (replies.len() > 0 && !(replies.last() is Item)),
        items(replies).len() + 1 >= replies.len(),
        hung_up(replies) <==> replies.len() > 0 && replies[replies.len() - 1] == Reply::<
            T,
        >::Disconnected,
{
    if replies.len() > 0 {
        let front = replies.drop_last();
        assert forall|i: int| 0 <= i < front.len() implies (#[trigger] front[i]) is Item by {
            assert(front[i] == replies[i]);
        }
        lemma_only_messages(front);
    }
}

/// Among messages alone every reply counts.
proof fn lemma_only_messages<T>(replies: Seq<Reply<T>>)
    requires
        forall|i: int| 0 <= i < replies.len() ==> (#[trigger] replies[i]) is Item,
    ensures
        items(replies).len() == replies.len(),
    decreases replies.len(),
{
    if replies.len() > 0 {
        let front = replies.drop_last();
        assert forall|i: int| 0 <= i < front.len() implies (#[trigger] front[i]) is Item by {
            assert(front[i] == replies[i]);
        }
        lemma_only_messages(front);
        assert(replies[replies.len() - 1] is Item);
    }
}

/// What one look at a flag says: it is one look more, at the same flag; a request that is seen
/// is made, and one that was seen is seen again.
pub proof fn law_a_look(before: StopWatch, after: StopWatch, seen: bool, flag: StopFlag)
    requires
        looked(before, after, seen),
        watches(before, flag),
    ensures
        looks(after) == looks(before) + seq![seen],
        watches(after, flag),
        seen ==> stop_requested(flag),
        looks(before).len() > 0 && looks(before).last() ==> seen,
        seen <==> stop_was_seen(after),
{
    assert(looks(after) =~= looks(before) + seq![seen]);
}

/// What is taken from a channel comes behind what was taken before, and nothing else does; it
/// stays the same channel.
pub proof fn law_what_is_taken(
    a: Receiver<TreeLine>,
    b: Receiver<TreeLine>,
    lines: Seq<Reply<TreeLine>>,
    c: Receiver<SearchResult>,
    d: Receiver<SearchResult>,
    results: Seq<Reply<SearchResult>>,
    line_tx: Sender<TreeLine>,
    result_tx: Sender<SearchResult>,
)
    ensures
        took_lines(a, b, lines) ==> lines_taken(b) == lines_taken(a) + lines && (line_channel(
            line_tx,
            b,
        ) <==> line_channel(line_tx, a)),
        took_results(c, d, results) ==> results_taken(d) == results_taken(c) + results && (
        result_channel(result_tx, d) <==> result_channel(result_tx, c)),
{
}

/// The same flag is watched in the same places, and its request reaches the same jobs.
pub proof fn law_same_flag(a: StopFlag, b: StopFlag, v: StopWatch, w: StopWatch)
    ensures
        same_flag(a, b) ==> (watches(v, a) <==> watches(v, b)),
        same_watch(v, w) ==> (watches(v, a) <==> watches(w, a)),
        asked_to_stop(v) && watches(v, a) ==> stop_requested(a),
{
}

} // verus!
