//! Searching a directory tree for file names.
use crate::channel::{
    ask_result, asked_to_stop, further_watch, hung_up, items, lemma_items_append, look_for_stop,
    looked, looks, new_flag, new_result_channel, one_round, raised, request_stop, result_channel,
    results_taken, same_watch, stop_requested, stop_was_seen, took_results, watches, Reply,
    StopFlag, StopWatch,
};
use crate::filters::{extension, plain_name, Filters};
use crate::glob::{
    glob, has_wildcard, law_patterns_one_after_the_other, law_shortest_patterns,
    law_stars_around_are_contains, law_wildcards, takes,
};
pub use crate::glob::{glob_matches, is_glob};
use crate::size::{format_size_padded, padded_size_text};
use crate::text::{
    ascii_lower, ascii_lower_char, ascii_upper, contains_text, fold, folded, has_part, law_parts,
    lower, made_of, occurs_at,
};
use crossbeam_channel::{Receiver, Sender};
use std::path::PathBuf;
use std::time::SystemTime;
use vstd::prelude::*;
use vstd::utf8::is_ascii_chars;

verus! {

/// How many results are taken over in one round, so that the view stays responsive.
pub const RESULTS_PER_ROUND: usize = 2000;

/// The most threads that a search uses.
pub const MAX_THREADS: usize = 8;

/// A file or directory that was found.
pub struct SearchResult {
    pub path: PathBuf,
    pub is_dir: bool,
    pub size: u64,
    pub accessed: Option<SystemTime>,
}

/// The view's ends of a running search: the results come in at `rx`, and `cancel` stops it.
pub struct SearchHandle {
    pub rx: Receiver<SearchResult>,
    pub cancel: StopFlag,
}

/// A query made ready for matching.
pub struct Matcher {
    pub prepared: String,
    pub is_glob: bool,
    pub case_sensitive: bool,
}

/// A search to be run in the background.
pub struct SearchJob {
    pub matcher: Matcher,
    pub filters: Filters,
    pub tx: Sender<SearchResult>,
    pub cancel: StopWatch,
}

/// What becomes of an entry that a search comes by: the search ends, it goes on, or the entry
/// is reported as a directory or a file.
#[derive(Clone, Copy, Debug, PartialEq, Eq, Structural)]
pub enum Visit {
    Quit,
    Continue,
    Report { is_dir: bool },
}

/// How a search walks through the directories.
#[derive(Clone, Copy, Debug, PartialEq, Eq, Structural)]
pub struct WalkOptions {
    pub threads: usize,
    pub hidden: bool,
    pub git_ignore: bool,
    pub git_global: bool,
    pub git_exclude: bool,
}

/// Whether a name that was folded matches a query that was folded.
pub open spec fn folded_match(query: Seq<char>, wild: bool, name: Seq<char>) -> bool {
    if wild {
        glob(query, name)
    } else {
        has_part(name, query)
    }
}

/// Whether a query finds a name: as a glob pattern if it holds a wildcard, else as a part of
/// the name.
pub open spec fn finds(query: Seq<char>, case_sensitive: bool, name: Seq<char>) -> bool {
    folded_match(
        folded(query, case_sensitive),
        has_wildcard(query),
        folded(name, case_sensitive),
    )
}

impl SearchResult {
    /// The size as it is shown beside a file; a directory has none.
    pub fn size_column(&self) -> (r: Option<String>)
        ensures
            r is None <==> self.is_dir,
            r matches Some(text) ==> text@ == padded_size_text(self.size as nat),
    {
        if self.is_dir {
            None
        } else {
            Some(format_size_padded(self.size))
        }
    }
}

impl Matcher {
    /// Whether this is the query `query`, made ready.
    pub open spec fn is_for(self, query: Seq<char>, case_sensitive: bool) -> bool {
        &&& self.prepared@ == folded(query, case_sensitive)
        &&& self.is_glob == has_wildcard(query)
        &&& self.case_sensitive == case_sensitive
    }

    /// Whether a name matches.
    pub open spec fn accepts(self, name: Seq<char>) -> bool {
        folded_match(self.prepared@, self.is_glob, folded(name, self.case_sensitive))
    }

    /// Makes a query ready.
    pub fn new(query: &str, case_sensitive: bool) -> (r: Self)
        ensures
            r.is_for(query@, case_sensitive),
            forall|name: Seq<char>| #[trigger]
                r.accepts(name) == finds(query@, case_sensitive, name),
    {
        Matcher { prepared: fold(query, case_sensitive), is_glob: is_glob(query), case_sensitive }
    }

    /// Matches a name that was folded.
    pub fn matches_folded(&self, hay: &str) -> (r: bool)
        ensures
            r == folded_match(self.prepared@, self.is_glob, hay@),
    {
        if self.is_glob {
            glob_matches(self.prepared.as_str(), hay)
        } else {
            contains_text(hay, self.prepared.as_str())
        }
    }

    /// Matches a name.
    pub fn matches(&self, name: &str) -> (r: bool)
        ensures
            r == self.accepts(name@),
    {
        let hay = fold(name, self.case_sensitive);
        self.matches_folded(hay.as_str())
    }

    /// What becomes of an entry, given whether the filters hide it: nothing more is looked at
    /// once the search is cancelled, and an entry that cannot be read, that is hidden or that
    /// does not match is passed over. The kind of an entry may be unknown.
    pub open spec fn verdict(
        self,
        cancelled: bool,
        name: Option<Seq<char>>,
        is_dir: Option<bool>,
        hidden: bool,
    ) -> Visit {
        if cancelled {
            Visit::Quit
        } else if name is Some && !hidden && self.accepts(name->0) {
            Visit::Report { is_dir: known_dir(is_dir) }
        } else {
            Visit::Continue
        }
    }

    /// Decides on an entry, given whether the filters hide it.
    pub fn visit_unless_hidden(
        &self,
        cancelled: bool,
        name: Option<&str>,
        is_dir: Option<bool>,
        hidden: bool,
    ) -> (r: Visit)
        ensures
            r == self.verdict(cancelled, text_of(name), is_dir, hidden),
    {
        if cancelled {
            return Visit::Quit;
        }
        match name {
            Some(name) => {
                if !hidden && self.matches(name) {
                    Visit::Report { is_dir: is_directory(is_dir) }
                } else {
                    Visit::Continue
                }
            },
            None => Visit::Continue,
        }
    }

    /// Whether `visit` may be what becomes of an entry. The root of the search is never hidden.
    /// For it and for a plain file name the result is fixed; for another text the extension by
    /// which it may be hidden is left open.
    pub open spec fn may_visit(
        self,
        filters: Filters,
        cancelled: bool,
        is_root: bool,
        name: Option<Seq<char>>,
        is_dir: Option<bool>,
        visit: Visit,
    ) -> bool {
        match name {
            None => visit == self.verdict(cancelled, None, is_dir, false),
            Some(n) => {
                &&& is_root || plain_name(n) ==> visit == self.verdict(
                    cancelled,
                    name,
                    is_dir,
                    !is_root && filters.hides(n, known_dir(is_dir), extension(n)),
                )
                &&& exists|ext: Option<Seq<char>>|
                    visit == self.verdict(
                        cancelled,
                        name,
                        is_dir,
                        !is_root && #[trigger] filters.hides(n, known_dir(is_dir), ext),
                    )
            },
        }
    }

    /// Decides on an entry. For the root of the search, which is never hidden, and for a plain
    /// file name the result is fixed; for another text the extension by which it may be hidden
    /// is what the system's path rules make it.
    pub fn visit(
        &self,
        filters: &Filters,
        cancelled: bool,
        is_root: bool,
        name: Option<&str>,
        is_dir: Option<bool>,
    ) -> (r: Visit)
        ensures
            self.may_visit(*filters, cancelled, is_root, text_of(name), is_dir, r),
    {
        let hidden = match name {
            Some(n) => !is_root && filters.should_skip(n, is_directory(is_dir)),
            None => false,
        };
        self.visit_unless_hidden(cancelled, name, is_dir, hidden)
    }
}

/// One of the threads of a search, with its own end of the stop flag.
pub struct SearchWorker<'a> {
    pub job: &'a SearchJob,
    pub cancel: StopWatch,
}

impl SearchJob {
    /// Sets up a thread of the search.
    pub fn worker(&self) -> (r: SearchWorker<'_>)
        ensures
            r.works_for(*self),
            looks(r.cancel).len() == 0,
    {
        SearchWorker { job: self, cancel: further_watch(&self.cancel) }
    }
}

impl<'a> SearchWorker<'a> {
    /// Whether this thread belongs to a search: it runs the search and looks at its flag.
    pub open spec fn works_for(self, job: SearchJob) -> bool {
        *self.job == job && same_watch(job.cancel, self.cancel)
    }

    /// Whether deciding once on an entry leads from this state to `after` and gives `visit`:
    /// the flag is looked at once, and it is what the matcher decides, given the filters and
    /// whether the request to stop was seen.
    pub open spec fn decided(
        self,
        after: Self,
        is_root: bool,
        name: Option<Seq<char>>,
        is_dir: Option<bool>,
        visit: Visit,
    ) -> bool {
        let seen = looks(after.cancel).last();
        &&& looked(self.cancel, after.cancel, seen)
        &&& after.job == self.job
        &&& self.job.matcher.may_visit(self.job.filters, seen, is_root, name, is_dir, visit)
    }

    /// Decides on an entry.
    pub fn visit(&mut self, is_root: bool, name: Option<&str>, is_dir: Option<bool>) -> (r: Visit)
        ensures
            old(self).decided(*final(self), is_root, text_of(name), is_dir, r),
    {
        let stopped = look_for_stop(&mut self.cancel);
        self.job.matcher.visit(&self.job.filters, stopped, is_root, name, is_dir)
    }
}

/// The characters of an optional text.
pub open spec fn text_of(s: Option<&str>) -> Option<Seq<char>> {
    match s {
        Some(s) => Some(s@),
        None => None,
    }
}

/// Whether an entry is known to be a directory.
pub open spec fn known_dir(is_dir: Option<bool>) -> bool {
    is_dir == Some(true)
}

/// Tests the kind of an entry.
fn is_directory(is_dir: Option<bool>) -> (r: bool)
    ensures
        r == known_dir(is_dir),
{
    match is_dir {
        Some(b) => b,
        None => false,
    }
}

/// Whether a search goes on into an entry: a directory that the filters hide is not looked
/// into, unless the search starts there.
pub fn goes_into(filters: &Filters, is_root: bool, name: Option<&str>, is_dir: Option<bool>) -> (r:
    bool)
    ensures
        is_root || name is None || !known_dir(is_dir) ==> r,
        !is_root && known_dir(is_dir) ==> (name matches Some(n) ==> r == !filters.hides(
            n@,
            true,
            None,
        )),
{
    match name {
        Some(n) => is_root || !is_directory(is_dir) || !filters.should_skip(n, true),
        None => true,
    }
}

/// The result for an entry. Of a file, size and time of the last access are taken over where
/// they could be read.
pub fn found(path: PathBuf, is_dir: bool, meta: Option<(u64, Option<SystemTime>)>) -> (r:
    SearchResult)
    ensures
        r.path == path,
        r.is_dir == is_dir,
        (r.size, r.accessed) == match meta {
            Some(known) => if is_dir {
                (0, None)
            } else {
                known
            },
            None => (0, None),
        },
{
    if is_dir {
        return SearchResult { path, is_dir, size: 0, accessed: None };
    }
    match meta {
        Some((size, accessed)) => SearchResult { path, is_dir, size, accessed },
        None => SearchResult { path, is_dir, size: 0, accessed: None },
    }
}

/// How a search walks: with as many threads as the machine runs at once, if that is known,
/// but not more than the limit; past hidden files where the filters hide them, and past those
/// that git ignores, but without regard to the user's own git settings.
pub fn walk_options(parallelism: Option<usize>, filters: &Filters) -> (r: WalkOptions)
    ensures
        r == (WalkOptions {
            threads: if parallelism is Some && parallelism->0 < MAX_THREADS {
                parallelism->0
            } else {
                MAX_THREADS
            },
            hidden: filters.hide_hidden,
            git_ignore: true,
            git_global: false,
            git_exclude: true,
        }),
        r.threads <= MAX_THREADS,
{
    let threads: usize = match parallelism {
        Some(n) => if n < MAX_THREADS {
            n
        } else {
            MAX_THREADS
        },
        None => MAX_THREADS,
    };
    WalkOptions {
        threads,
        hidden: filters.hide_hidden,
        git_ignore: true,
        git_global: false,
        git_exclude: true,
    }
}

/// Whether a job and a view's ends of it were set up together for a query: they share a
/// channel that nothing was taken from yet, and a flag without the request to stop in it.
pub open spec fn set_up(
    job: SearchJob,
    handle: SearchHandle,
    query: Seq<char>,
    case_sensitive: bool,
    filters: Filters,
) -> bool {
    &&& job.matcher.is_for(query, case_sensitive)
    &&& job.filters == filters
    &&& result_channel(job.tx, handle.rx)
    &&& results_taken(handle.rx).len() == 0
    &&& watches(job.cancel, handle.cancel)
    &&& !raised(handle.cancel)
}

/// Sets up a search: the job that is to be run in the background, and the view's ends of it.
pub fn search(query: &str, case_sensitive: bool, filters: &Filters) -> (r: (
    SearchJob,
    SearchHandle,
))
    ensures
        set_up(r.0, r.1, query@, case_sensitive, *filters),
{
    let (cancel, watch) = new_flag();
    let (tx, rx) = new_result_channel();
    let matcher = Matcher::new(query, case_sensitive);
    (SearchJob { matcher, filters: *filters, tx, cancel: watch }, SearchHandle { rx, cancel })
}

/// Takes in one reply of the channel; says whether to ask for another one.
pub fn keep_result(buf: &mut Vec<SearchResult>, reply: Reply<SearchResult>) -> (more: bool)
    ensures
        more == (reply is Item),
        final(buf)@ == match reply {
            Reply::Item(result) => old(buf)@.push(result),
            _ => old(buf)@,
        },
{
    match reply {
        Reply::Item(result) => {
            buf.push(result);
            true
        },
        _ => false,
    }
}

/// Whether exactly these replies were taken by a view between two states of its ends, and
/// their results put behind those that it had.
pub open spec fn took_over(
    before: SearchHandle,
    after: SearchHandle,
    replies: Seq<Reply<SearchResult>>,
    had: Seq<SearchResult>,
    has: Seq<SearchResult>,
) -> bool {
    &&& took_results(before.rx, after.rx, replies)
    &&& after.cancel == before.cancel
    &&& has == had + items(replies)
}

/// Drains available results from the channel (non-blocking, capped per frame to stay
/// responsive).
pub fn drain_results(handle: &mut SearchHandle, buf: &mut Vec<SearchResult>)
    ensures
        exists|replies: Seq<Reply<SearchResult>>|
            {
                &&& one_round(replies, RESULTS_PER_ROUND as nat)
                &&& #[trigger] took_over(
                    *old(handle),
                    *final(handle),
                    replies,
                    old(buf)@,
                    final(buf)@,
                )
            },
{
    let ghost mut replies: Seq<Reply<SearchResult>> = Seq::empty();
    let mut n: usize = 0;
    assert(buf@ =~= old(buf)@ + items(replies));
    assert(results_taken(handle.rx) =~= results_taken(handle.rx) + replies);
    while n < RESULTS_PER_ROUND
        invariant
            n <= RESULTS_PER_ROUND,
            replies.len() == n,
            forall|i: int| 0 <= i < replies.len() ==> (#[trigger] replies[i]) is Item,
            took_over(*old(handle), *handle, replies, old(buf)@, buf@),
        decreases RESULTS_PER_ROUND - n,
    {
        let ghost so_far = replies;
        let reply = ask_result(&mut handle.rx);
        proof {
            replies = replies.push(reply);
            assert(replies.drop_last() =~= so_far);
            assert(results_taken(handle.rx) =~= results_taken(old(handle).rx) + replies);
        }
        let more = keep_result(buf, reply);
        assert(buf@ =~= old(buf)@ + items(replies));
        assert(took_over(*old(handle), *handle, replies, old(buf)@, buf@));
        if !more {
            assert(one_round(replies, RESULTS_PER_ROUND as nat));
            return ;
        }
        n += 1;
    }
    assert(one_round(replies, RESULTS_PER_ROUND as nat));
}

/// Returns true if the search is done (channel closed, all senders dropped). It asks the
/// channel for a message to find out; a message that comes is kept.
pub fn is_done(handle: &mut SearchHandle, buf: &mut Vec<SearchResult>) -> (r: bool)
    ensures
        exists|reply: Reply<SearchResult>|
            {
                &&& #[trigger] took_over(
                    *old(handle),
                    *final(handle),
                    seq![reply],
                    old(buf)@,
                    final(buf)@,
                )
                &&& r == (reply is Disconnected)
            },
        hung_up(results_taken(old(handle).rx)) ==> r,
{
    let reply = ask_result(&mut handle.rx);
    let ghost asked = reply;
    let done = matches!(reply, Reply::Disconnected);
    keep_result(buf, reply);
    proof {
        let one = seq![asked];
        assert(one.drop_last() =~= Seq::<Reply<SearchResult>>::empty());
        assert(items(one.drop_last()) =~= Seq::<SearchResult>::empty());
        assert(buf@ =~= old(buf)@ + items(one));
        assert(took_over(*old(handle), *handle, one, old(buf)@, buf@));
    }
    done
}

/// The search view: the query, the running search, the results so far, and whether they are
/// complete.
pub struct SearchState {
    pub query: String,
    pub handle: Option<SearchHandle>,
    pub results: Vec<SearchResult>,
    pub done: bool,
    pub case_sensitive: bool,
}

impl SearchState {
    /// A search is complete exactly when none is running, and a running one shows every
    /// result that was taken from its channel, in order, each once.
    pub open spec fn inv(self) -> bool {
        &&& self.done == (self.handle is None)
        &&& self.handle matches Some(h) ==> self.results@ == items(results_taken(h.rx))
    }

    /// Whether asking the search once for its results leads from this state to `after`: without
    /// a search nothing changes. Else one round of replies and one further reply, and nothing
    /// else, are taken from its channel, their results are added, and the further reply tells
    /// whether the search is over, as it is when the round has ended with the channel hung up.
    pub open spec fn polled(self, after: Self) -> bool {
        match self.handle {
            None => after == self,
            Some(h) => exists|
                now: SearchHandle,
                round: Seq<Reply<SearchResult>>,
                last: Reply<SearchResult>,
            |
                {
                    &&& #[trigger] took_over(
                        h,
                        now,
                        round.push(last),
                        self.results@,
                        after.results@,
                    )
                    &&& one_round(round, RESULTS_PER_ROUND as nat)
                    &&& hung_up(round) ==> last is Disconnected
                    &&& after.query@ == self.query@
                    &&& after.case_sensitive == self.case_sensitive
                    &&& after.done == (self.done || last is Disconnected)
                    &&& after.handle == if last is Disconnected {
                        None
                    } else {
                        Some(now)
                    }
                },
        }
    }

    /// Stops the running search, if there is one, and starts over with the current query.
    pub fn start(&mut self, filters: &Filters) -> (r: SearchJob)
        ensures
            old(self).handle matches Some(h) ==> stop_requested(h.cancel),
            final(self).inv(),
            final(self).results@.len() == 0,
            !final(self).done,
            final(self).query@ == old(self).query@,
            final(self).case_sensitive == old(self).case_sensitive,
            final(self).handle matches Some(h) && set_up(
                r,
                h,
                old(self).query@,
                old(self).case_sensitive,
                *filters,
            ),
    {
        if let Some(h) = &mut self.handle {
            request_stop(&mut h.cancel);
        }
        self.results = Vec::new();
        self.done = false;
        let (job, handle) = search(self.query.as_str(), self.case_sensitive, filters);
        assert(self.results@ =~= items(results_taken(handle.rx)));
        self.handle = Some(handle);
        job
    }

    /// Stops the running search, if there is one, and shows nothing.
    pub fn clear(&mut self)
        ensures
            old(self).handle matches Some(h) ==> stop_requested(h.cancel),
            final(self).inv(),
            final(self).results@.len() == 0,
            final(self).done,
            final(self).handle is None,
            final(self).query@ == old(self).query@,
            final(self).case_sensitive == old(self).case_sensitive,
    {
        if let Some(h) = &mut self.handle {
            request_stop(&mut h.cancel);
        }
        self.results = Vec::new();
        self.done = true;
        self.handle = None;
    }

    /// After the query, the case switch or the filters have changed: an empty query shows
    /// nothing, any other is searched for anew.
    pub fn query_changed(&mut self, filters: &Filters) -> (r: Option<SearchJob>)
        ensures
            old(self).handle matches Some(h) ==> stop_requested(h.cancel),
            final(self).inv(),
            final(self).results@.len() == 0,
            final(self).query@ == old(self).query@,
            final(self).case_sensitive == old(self).case_sensitive,
            r is None <==> old(self).query@.len() == 0,
            final(self).done == (r is None),
            match r {
                Some(job) => final(self).handle matches Some(h) && set_up(
                    job,
                    h,
                    old(self).query@,
                    old(self).case_sensitive,
                    *filters,
                ),
                None => final(self).handle is None,
            },
    {
        if self.query.as_str().is_empty() {
            self.clear();
            None
        } else {
            Some(self.start(filters))
        }
    }

    /// Takes in whether the search is complete.
    pub fn on_checked(&mut self, complete: bool)
        ensures
            final(self).query@ == old(self).query@,
            final(self).results@ == old(self).results@,
            final(self).case_sensitive == old(self).case_sensitive,
            final(self).done == (old(self).done || complete),
            final(self).handle == if complete {
                None
            } else {
                old(self).handle
            },
    {
        if complete {
            self.done = true;
            self.handle = None;
        }
    }

    /// Takes over the results that have come in, up to a limit, and then asks whether the
    /// search is complete; a result that comes in answer to that is taken over too. Says
    /// whether a search was running.
    pub fn poll(&mut self) -> (r: bool)
        requires
            old(self).inv(),
        ensures
            final(self).inv(),
            r == old(self).handle is Some,
            old(self).polled(*final(self)),
    {
        let ghost had = self.results@;
        let complete = match &mut self.handle {
            Some(h) => {
                let ghost first = *h;
                drain_results(h, &mut self.results);
                let ghost drained = *h;
                let ghost between = self.results@;
                let ghost round = choose|round: Seq<Reply<SearchResult>>|
                    {
                        &&& one_round(round, RESULTS_PER_ROUND as nat)
                        &&& #[trigger] took_over(first, drained, round, had, between)
                    };
                let complete = is_done(h, &mut self.results);
                assert(hung_up(round) ==> results_taken(drained.rx).last() == round.last());
                proof {
                    let last = choose|last: Reply<SearchResult>|
                        {
                            &&& #[trigger] took_over(
                                drained,
                                *h,
                                seq![last],
                                between,
                                self.results@,
                            )
                            &&& complete == (last is Disconnected)
                        };
                    lemma_took_over_twice(
                        first,
                        drained,
                        *h,
                        round,
                        last,
                        had,
                        between,
                        self.results@,
                    );
                    lemma_items_append(results_taken(first.rx), round.push(last));
                }
                complete
            },
            None => {
                return false;
            },
        };
        self.on_checked(complete);
        true
    }
}

/// What is taken over in a round and with one further reply is taken over in order.
proof fn lemma_took_over_twice(
    a: SearchHandle,
    b: SearchHandle,
    c: SearchHandle,
    round: Seq<Reply<SearchResult>>,
    last: Reply<SearchResult>,
    first: Seq<SearchResult>,
    second: Seq<SearchResult>,
    third: Seq<SearchResult>,
)
    requires
        took_over(a, b, round, first, second),
        took_over(b, c, seq![last], second, third),
    ensures
        took_over(a, c, round.push(last), first, third),
{
    assert(round.push(last) =~= round + seq![last]);
    lemma_items_append(round, seq![last]);
    assert(results_taken(c.rx) =~= results_taken(a.rx) + round.push(last));
    assert(third =~= first + items(round.push(last)));
}

impl Default for SearchState {
    /// No query, no search and no results.
    fn default() -> (r: Self)
        ensures
            r.inv(),
            r.query@.len() == 0,
            r.handle is None,
            r.results@.len() == 0,
            r.done,
            !r.case_sensitive,
    {
        SearchState {
            query: String::new(),
            handle: None,
            results: Vec::new(),
            done: true,
            case_sensitive: false,
        }
    }
}

/// The path by which a result is shown: that below the root of the search, where there is one.
pub open spec fn shown_path(below_root: Option<Seq<char>>, path: Seq<char>) -> Seq<char> {
    match below_root {
        Some(p) => p,
        None => path,
    }
}

/// How a result is shown: its path, below the root of the search if it lies there, with a
/// slash behind a directory.
pub fn result_label(below_root: Option<&str>, path: &str, is_dir: bool) -> (r: String)
    ensures
        r@ == if is_dir {
            shown_path(text_of(below_root), path@) + "/"@
        } else {
            shown_path(text_of(below_root), path@)
        },
{
    let mut out = match below_root {
        Some(p) => p.to_owned(),
        None => path.to_owned(),
    };
    if is_dir {
        out.append("/");
    }
    out
}

/// Texts with a newline between each two.
pub open spec fn joined(paths: Seq<String>) -> Seq<char>
    decreases paths.len(),
{
    if paths.len() == 0 {
        Seq::empty()
    } else if paths.len() == 1 {
        paths[0]@
    } else {
        joined(paths.drop_last()) + "\n"@ + paths.last()@
    }
}

/// All paths as one text, each on its own line.
pub fn join_paths(paths: &Vec<String>) -> (r: String)
    ensures
        r@ == joined(paths@),
{
    let mut out = String::new();
    let mut i: usize = 0;
    while i < paths.len()
        invariant
            i <= paths.len(),
            out@ == joined(paths@.take(i as int)),
        decreases paths.len() - i,
    {
        if i > 0 {
            out.append("\n");
        }
        out.append(paths[i].as_str());
        i += 1;
        assert(paths@.take(i as int).drop_last() =~= paths@.take(i - 1));
        assert(out@ =~= joined(paths@.take(i as int)));
    }
    assert(paths@.take(i as int) =~= paths@);
    out
}

/// A plain query finds the same names as a glob pattern that has it between two stars.
pub proof fn law_plain_query_is_a_glob(query: Seq<char>, name: Seq<char>)
    requires
        !has_wildcard(query),
    ensures
        finds(query, true, name) <==> finds(seq!['*'] + query + seq!['*'], true, name),
{
    let starred = seq!['*'] + query + seq!['*'];
    assert(starred[0] == '*');
    law_stars_around_are_contains(query, name);
}

/// A search that is not asked to stop goes on, and reports every entry that it comes by, that
/// matches and that the filters do not hide.
pub proof fn law_search_goes_on_unless_asked(
    job: SearchJob,
    before: SearchWorker<'_>,
    after: SearchWorker<'_>,
    is_root: bool,
    name: Seq<char>,
    is_dir: Option<bool>,
    visit: Visit,
)
    requires
        !asked_to_stop(job.cancel),
        before.works_for(job),
        before.decided(after, is_root, Some(name), is_dir, visit),
    ensures
        after.works_for(job),
        visit != Visit::Quit,
        is_root || plain_name(name) ==> visit == job.matcher.verdict(
            false,
            Some(name),
            is_dir,
            !is_root && job.filters.hides(name, known_dir(is_dir), extension(name)),
        ),
{
    assert(asked_to_stop(before.cancel) ==> asked_to_stop(job.cancel)) by {
        assert forall|f: StopFlag|
            asked_to_stop(before.cancel) && #[trigger] watches(job.cancel, f) implies
            stop_requested(f) by {
            assert(watches(before.cancel, f));
        }
    }
}

/// A thread of a search that has seen the request to stop ends at every entry.
pub proof fn law_stopped_search_quits(
    before: SearchWorker<'_>,
    after: SearchWorker<'_>,
    is_root: bool,
    name: Option<Seq<char>>,
    is_dir: Option<bool>,
    visit: Visit,
)
    requires
        stop_was_seen(before.cancel),
        before.decided(after, is_root, name, is_dir, visit),
    ensures
        visit == Visit::Quit,
        stop_was_seen(after.cancel),
{
}

/// What the filters hide in the tree, the search does not report either, whatever the query.
pub proof fn law_filters_are_shared(
    matcher: Matcher,
    filters: Filters,
    cancelled: bool,
    name: Seq<char>,
    is_dir: bool,
    ext: Option<Seq<char>>,
)
    requires
        filters.hides(name, is_dir, ext),
    ensures
        !(matcher.verdict(
            cancelled,
            Some(name),
            Some(is_dir),
            filters.hides(name, known_dir(Some(is_dir)), ext),
        ) is Report),
{
}

/// No result is lost or doubled: from its start on, whenever it is asked, a search shows
/// exactly the results that were taken from its channel, in their order; and it is complete
/// only when that channel has hung up.
pub proof fn law_no_result_is_lost(before: SearchState, after: SearchState)
    requires
        before.inv(),
        !before.done,
        before.polled(after),
    ensures
        exists|rx: Receiver<SearchResult>|
            {
                &&& forall|tx: Sender<SearchResult>|
                    result_channel(tx, before.handle->0.rx) ==> result_channel(tx, rx)
                &&& after.results@ == items(#[trigger] results_taken(rx))
                &&& after.done <==> hung_up(results_taken(rx))
                &&& !after.done ==> after.handle is Some && after.handle->0.rx == rx
            },
{
    let h = before.handle->0;
    let (now, round, last) = choose|
        now: SearchHandle,
        round: Seq<Reply<SearchResult>>,
        last: Reply<SearchResult>,
    |
        {
            &&& #[trigger] took_over(h, now, round.push(last), before.results@, after.results@)
            &&& one_round(round, RESULTS_PER_ROUND as nat)
            &&& after.done == (before.done || last is Disconnected)
            &&& after.handle == if last is Disconnected {
                None
            } else {
                Some(now)
            }
        };
    lemma_items_append(results_taken(h.rx), round.push(last));
    assert(results_taken(now.rx).last() == last);
    assert(after.results@ == items(results_taken(now.rx)));
}

/// With the case switch off, names that differ only in case are found by the same queries.
pub proof fn law_case_does_not_matter(query: Seq<char>, a: Seq<char>, b: Seq<char>)
    requires
        lower(a) == lower(b),
    ensures
        finds(query, false, a) <==> finds(query, false, b),
{
}

/// With the case switch off, an ASCII query finds the same names in upper case, in lower case
/// and as it stands.
pub proof fn law_case_of_the_query_does_not_matter(query: Seq<char>, name: Seq<char>)
    requires
        is_ascii_chars(query),
    ensures
        finds(ascii_upper(query), false, name) <==> finds(query, false, name),
        finds(ascii_lower(query), false, name) <==> finds(query, false, name),
{
    lemma_same_letters(query, ascii_upper(query));
    lemma_same_letters(query, ascii_lower(query));
}

/// ASCII texts that are equal in lower case hold the same wildcards.
proof fn lemma_same_letters(a: Seq<char>, b: Seq<char>)
    requires
        is_ascii_chars(a),
        b == ascii_upper(a) || b == ascii_lower(a),
    ensures
        is_ascii_chars(b),
        lower(a) == lower(b),
        has_wildcard(a) == has_wildcard(b),
{
    assert(b.len() == a.len());
    assert forall|i: int| 0 <= i < a.len() implies ascii_lower_char(b[i]) == ascii_lower_char(a[i])
        && '\0' <= #[trigger] b[i] <= '\u{7f}' && (b[i] == '*' <==> a[i] == '*') && (b[i] == '?'
        <==> a[i] == '?') by {
        assert('\0' <= a[i] <= '\u{7f}');
    }
    assert(ascii_lower(a) =~= ascii_lower(b));
    if has_wildcard(a) {
        let i = choose|i: int| 0 <= i < a.len() && (a[i] == '*' || a[i] == '?');
        assert(b[i] == '*' || b[i] == '?');
    }
    if has_wildcard(b) {
        let i = choose|i: int| 0 <= i < b.len() && (b[i] == '*' || b[i] == '?');
        assert(a[i] == '*' || a[i] == '?');
    }
}

/// Among ASCII names, what an ASCII query finds with regard to case it also finds without.
pub proof fn law_case_sensitive_search_finds_less(query: Seq<char>, name: Seq<char>)
    requires
        is_ascii_chars(query),
        is_ascii_chars(name),
        finds(query, true, name),
    ensures
        finds(query, false, name),
{
    if has_wildcard(query) {
        lemma_glob_in_lower_case(query, name);
    } else {
        let at = choose|at: int| occurs_at(name, query, at);
        let part = ascii_lower(name).subrange(at, at + query.len());
        assert forall|i: int| 0 <= i < query.len() implies part[i] == ascii_lower(query)[i] by {
            assert(name.subrange(at, at + query.len())[i] == query[i]);
        }
        assert(part =~= ascii_lower(query));
        assert(occurs_at(ascii_lower(name), ascii_lower(query), at));
    }
}

/// A pattern and a text that match also match in lower case.
proof fn lemma_glob_in_lower_case(p: Seq<char>, t: Seq<char>)
    requires
        glob(p, t),
    ensures
        glob(ascii_lower(p), ascii_lower(t)),
    decreases p.len(),
{
    let lp = ascii_lower(p);
    let lt = ascii_lower(t);
    if p.len() > 0 {
        assert(lp.skip(1) =~= ascii_lower(p.skip(1)));
        if p[0] == '*' {
            let k = choose|k: int| 0 <= k <= t.len() && glob(p.skip(1), #[trigger] t.skip(k));
            lemma_glob_in_lower_case(p.skip(1), t.skip(k));
            assert(lt.skip(k) =~= ascii_lower(t.skip(k)));
            assert(lp[0] == '*');
            assert(glob(lp.skip(1), lt.skip(k)));
        } else {
            lemma_glob_in_lower_case(p.skip(1), t.skip(1));
            assert(lt.skip(1) =~= ascii_lower(t.skip(1)));
            assert(lp[0] == ascii_lower_char(p[0]));
            assert(lp[0] != '*');
            assert(takes(lp[0], lt[0]));
        }
    }
}

/// A query with wildcards is a pattern for the whole name, and any other query a part of it;
/// without regard to case, both are compared in lower case.
pub proof fn law_what_a_query_finds(query: Seq<char>, name: Seq<char>)
    ensures
        ({
            let wild = exists|i: int|
                0 <= i < query.len() && (query[i] == '*' || query[i] == '?');
            &&& wild ==> (finds(query, true, name) <==> glob(query, name))
            &&& wild ==> (finds(query, false, name) <==> glob(lower(query), lower(name)))
            &&& !wild ==> (finds(query, true, name) <==> exists|start: Seq<char>, rest: Seq<char>|
                made_of(name, start, query, rest))
            &&& !wild ==> (finds(query, false, name) <==> exists|start: Seq<char>, rest: Seq<char>|
                made_of(lower(name), start, lower(query), rest))
        }),
{
    law_wildcards(query);
    law_parts(name, query);
    law_parts(lower(name), lower(query));
}

/// A query with wildcards is bound to both ends of the name: where it starts or ends with a
/// plain character, so does every name that it finds; and without a star it finds only names
/// of its own length.
pub proof fn law_wildcard_query_is_bound_to_the_ends(query: Seq<char>, name: Seq<char>)
    requires
        exists|i: int| 0 <= i < query.len() && (query[i] == '*' || query[i] == '?'),
        finds(query, true, name),
    ensures
        query[0] != '*' && query[0] != '?' ==> name.len() > 0 && name[0] == query[0],
        query.last() != '*' && query.last() != '?' ==> name.len() > 0 && name.last()
            == query.last(),
        (forall|i: int| 0 <= i < query.len() ==> query[i] != '*') ==> name.len() == query.len(),
{
    law_what_a_query_finds(query, name);
    let first = query[0];
    if first != '*' && first != '?' {
        assert(query =~= seq![first] + query.skip(1));
        law_patterns_one_after_the_other(seq![first], query.skip(1), name);
        let k = choose|k: int|
            0 <= k <= name.len() && glob(seq![first], #[trigger] name.take(k)) && glob(
                query.skip(1),
                name.skip(k),
            );
        law_shortest_patterns(first, name.take(k));
        assert(name.take(k)[0] == name[0]);
    }
    let last = query.last();
    if last != '*' && last != '?' {
        assert(query =~= query.drop_last() + seq![last]);
        law_patterns_one_after_the_other(query.drop_last(), seq![last], name);
        let k = choose|k: int|
            0 <= k <= name.len() && glob(query.drop_last(), #[trigger] name.take(k)) && glob(
                seq![last],
                name.skip(k),
            );
        law_shortest_patterns(last, name.skip(k));
        assert(name.skip(k)[0] == name[k]);
    }
    if forall|i: int| 0 <= i < query.len() ==> query[i] != '*' {
        lemma_one_by_one(query, name);
    }
}

/// Without a star a pattern takes as many characters as it has.
proof fn lemma_one_by_one(p: Seq<char>, t: Seq<char>)
    requires
        glob(p, t),
        forall|i: int| 0 <= i < p.len() ==> p[i] != '*',
    ensures
        p.len() == t.len(),
    decreases p.len(),
{
    if p.len() > 0 {
        let p1 = p.skip(1);
        assert forall|i: int| 0 <= i < p1.len() implies p1[i] != '*' by {
            assert(p1[i] == p[i + 1]);
        }
        lemma_one_by_one(p1, t.skip(1));
    }
}

/// Whether two characters are equal, or the same ASCII letter in upper and in lower case.
pub open spec fn same_letter(a: char, b: char) -> bool {
    ||| a == b
    ||| 65 <= a as int <= 90 && b as int == a as int + 32
    ||| 65 <= b as int <= 90 && a as int == b as int + 32
}

/// Without regard to case a plain ASCII query finds an ASCII name just if the name has, at
/// some place, the query's letters one after the other, each in upper or in lower case.
pub proof fn law_plain_query_without_case(query: Seq<char>, name: Seq<char>)
    requires
        is_ascii_chars(query),
        is_ascii_chars(name),
        forall|i: int| 0 <= i < query.len() ==> query[i] != '*' && query[i] != '?',
    ensures
        finds(query, false, name) <==> exists|at: int|
            0 <= at && at + query.len() <= name.len() && stands_without_case(name, query, at),
{
    let (q, n) = (lower(query), lower(name));
    law_wildcards(query);
    assert forall|a: char, b: char| #[trigger] same_letter(a, b) <==> ascii_lower_char(a)
        == ascii_lower_char(b) by {}
    if finds(query, false, name) {
        let at = choose|at: int| occurs_at(n, q, at);
        assert forall|i: int| 0 <= i < query.len() implies #[trigger] same_letter(
            name[at + i],
            query[i],
        ) by {
            assert(n.subrange(at, at + q.len())[i] == q[i]);
        }
        assert(stands_without_case(name, query, at));
    }
    if exists|at: int|
        0 <= at && at + query.len() <= name.len() && stands_without_case(name, query, at) {
        let at = choose|at: int|
            0 <= at && at + query.len() <= name.len() && stands_without_case(name, query, at);
        assert forall|i: int| 0 <= i < q.len() implies n.subrange(at, at + q.len())[i] == q[i] by {
            assert(same_letter(name[at + i], query[i]));
        }
        assert(n.subrange(at, at + q.len()) =~= q);
        assert(occurs_at(n, q, at));
    }
}

/// Whether the letters of a query stand at a place of a name, each in upper or in lower case.
pub open spec fn stands_without_case(name: Seq<char>, query: Seq<char>, at: int) -> bool {
    forall|i: int| 0 <= i < query.len() ==> #[trigger] same_letter(name[at + i], query[i])
}

/// A cancelled search ends at every entry. Else an entry is reported just if it could be read,
/// is not hidden and is found by the query, as the kind that it is known to be, and as a file
/// where that is not known; and any other entry is passed over.
pub proof fn law_what_becomes_of_an_entry(
    matcher: Matcher,
    query: Seq<char>,
    case_sensitive: bool,
    name: Option<Seq<char>>,
    is_dir: Option<bool>,
    hidden: bool,
)
    requires
        matcher.is_for(query, case_sensitive),
    ensures
        matcher.verdict(true, name, is_dir, hidden) == Visit::Quit,
        ({
            let visit = matcher.verdict(false, name, is_dir, hidden);
            let found = name is Some && !hidden && finds(query, case_sensitive, name->0);
            &&& !found ==> visit == Visit::Continue
            &&& found && is_dir == Some(true) ==> visit == (Visit::Report { is_dir: true })
            &&& found && is_dir != Some(true) ==> visit == (Visit::Report { is_dir: false })
        }),
{
}

/// Copied paths are put together with one newline between each two, and nothing in front or
/// behind.
pub proof fn law_copied_paths(a: Seq<String>, b: Seq<String>, path: String)
    ensures
        joined(Seq::<String>::empty()).len() == 0,
        joined(seq![path]) == path@,
        a.len() > 0 && b.len() > 0 ==> joined(a + b) == joined(a) + seq!['\n'] + joined(b),
    decreases b.len(),
{
    reveal_strlit("\n");
    assert("\n"@ =~= seq!['\n']);
    if a.len() > 0 && b.len() > 0 {
        let all = a + b;
        assert(all.last() == b.last());
        assert(all.drop_last() =~= a + b.drop_last());
        if b.len() == 1 {
            assert(a + b.drop_last() =~= a);
            assert(joined(all) =~= joined(a) + seq!['\n'] + joined(b));
        } else {
            law_copied_paths(a, b.drop_last(), path);
            assert(joined(all) =~= joined(a) + seq!['\n'] + joined(b));
        }
    }
}

/// A result is shown by its path below the root of the search where it has one, and else by
/// its whole path; what an optional text holds is taken over as it stands.
pub proof fn law_shown_path(below: Seq<char>, path: Seq<char>, text: Option<&str>)
    ensures
        shown_path(Some(below), path) == below,
        shown_path(None, path) == path,
        text is None <==> text_of(text) is None,
        text matches Some(s) ==> text_of(text) == Some(s@),
        known_dir(Some(true)) && !known_dir(Some(false)) && !known_dir(None),
{
}

/// A search that was set up finds with the job's matcher what the query finds, has the
/// filters as they are, sends to its view, whose channel nothing was taken from, and looks at
/// its view's flag, which holds no request to stop.
pub proof fn law_what_is_set_up(
    job: SearchJob,
    handle: SearchHandle,
    query: Seq<char>,
    case_sensitive: bool,
    filters: Filters,
    name: Seq<char>,
)
    requires
        set_up(job, handle, query, case_sensitive, filters),
    ensures
        job.matcher.accepts(name) <==> finds(query, case_sensitive, name),
        job.filters == filters,
        result_channel(job.tx, handle.rx),
        results_taken(handle.rx).len() == 0,
        watches(job.cancel, handle.cancel),
        !raised(handle.cancel),
{
}

/// A search is complete just if none is running, and while one runs, the results are those
/// that were taken from its channel.
pub proof fn law_state_of_a_search(state: SearchState)
    requires
        state.inv(),
    ensures
        state.done <==> state.handle is None,
        state.handle matches Some(h) ==> state.results@ == items(results_taken(h.rx)),
{
}

/// Asking a search for its results changes neither the query nor the case switch, keeps the
/// results that were there in front, and takes no more than two thousand and one.
pub proof fn law_asking_changes_only_results(before: SearchState, after: SearchState)
    requires
        before.polled(after),
    ensures
        after.query@ == before.query@,
        after.case_sensitive == before.case_sensitive,
        before.done ==> after.done,
        before.handle is None ==> after == before,
        before.results@.len() <= after.results@.len() <= before.results@.len() + 2001,
        after.results@.take(before.results@.len() as int) == before.results@,
        before.handle is Some && after.handle is Some ==> after.handle->0.cancel
            == before.handle->0.cancel,
{
    if let Some(h) = before.handle {
        let (now, round, last) = choose|
            now: SearchHandle,
            round: Seq<Reply<SearchResult>>,
            last: Reply<SearchResult>,
        |
            {
                &&& #[trigger] took_over(h, now, round.push(last), before.results@, after.results@)
                &&& one_round(round, RESULTS_PER_ROUND as nat)
                &&& after.handle == if last is Disconnected {
                    None
                } else {
                    Some(now)
                }
            };
        lemma_items_bound(round.push(last));
    }
    assert(after.results@.take(before.results@.len() as int) =~= before.results@);
}

/// No more messages than replies.
proof fn lemma_items_bound(replies: Seq<Reply<SearchResult>>)
    ensures
        items(replies).len() <= replies.len(),
    decreases replies.len(),
{
    if replies.len() > 0 {
        lemma_items_bound(replies.drop_last());
    }
}

/// Whatever a name is like, it is passed over, ends the search or is reported as an entry that
/// is hidden, or is not, is; and the root is never hidden.
pub proof fn law_visit_of_any_name(
    matcher: Matcher,
    filters: Filters,
    cancelled: bool,
    is_root: bool,
    name: Option<Seq<char>>,
    is_dir: Option<bool>,
    visit: Visit,
)
    requires
        matcher.may_visit(filters, cancelled, is_root, name, is_dir, visit),
    ensures
        cancelled ==> visit == Visit::Quit,
        !cancelled && name is None ==> visit == Visit::Continue,
        is_root ==> visit == matcher.verdict(cancelled, name, is_dir, false),
        visit == matcher.verdict(cancelled, name, is_dir, false) || visit == matcher.verdict(
            cancelled,
            name,
            is_dir,
            true,
        ),
        name matches Some(n) ==> (plain_name(n) ==> visit == matcher.verdict(
            cancelled,
            name,
            is_dir,
            !is_root && filters.hides(n, is_dir == Some(true), extension(n)),
        )),
{
}

/// What a view takes over comes behind what it had, from the same channel and with the same
/// flag.
pub proof fn law_what_is_taken_over(
    before: SearchHandle,
    after: SearchHandle,
    replies: Seq<Reply<SearchResult>>,
    had: Seq<SearchResult>,
    has: Seq<SearchResult>,
)
    requires
        took_over(before, after, replies, had, has),
    ensures
        has == had + items(replies),
        results_taken(after.rx) == results_taken(before.rx) + replies,
        after.cancel == before.cancel,
{
}

} // verus!
