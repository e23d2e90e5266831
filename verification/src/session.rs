//! The state of the application, and what its controls do to it.
use crate::channel::{
    line_channel, lines_taken, looks, raised, same_flag, stop_requested, watches,
};
use crate::filters::Filters;
use crate::search::{set_up, SearchJob, SearchState};
use crate::tree::{TreeJob, TreeState};
use crate::walk::WalkView;
use vstd::prelude::*;

verus! {

/// The two views.
#[derive(Clone, Copy, Debug, PartialEq, Eq, Structural)]
pub enum Tab {
    Tree,
    Search,
}

/// The application: the directory, the settings of the tree, the view that is open, and the
/// two views.
pub struct App {
    pub dir: String,
    pub filters: Filters,
    pub show_lines: bool,
    pub tab: Tab,
    pub tree: TreeState,
    pub search: SearchState,
}

/// What asking the running jobs came to: whether one was asked, so that the window is to be
/// drawn again, and whether it was a search.
#[derive(Clone, Copy, Debug, PartialEq, Eq, Structural)]
pub struct Polled {
    pub repaint: bool,
    pub searching: bool,
}

impl App {
    /// Both views are in order.
    pub open spec fn inv(self) -> bool {
        self.tree.inv() && self.search.inv()
    }

    /// The tree is not out of date while it is open.
    pub open spec fn tree_is_current(self) -> bool {
        self.tab == Tab::Tree ==> !self.tree.dirty
    }

    /// Whether two states agree in everything but the open view and the tree.
    pub open spec fn same_but_tab_and_tree(self, other: Self) -> bool {
        &&& self.dir@ == other.dir@
        &&& self.filters == other.filters
        &&& self.show_lines == other.show_lines
        &&& self.search == other.search
    }

    /// The application at its start, with the tree still to be started.
    pub fn new(dir: String) -> (r: Self)
        ensures
            r.inv(),
            r.dir@ == dir@,
            r.filters == (Filters {
                hide_hidden: true,
                hide_git: true,
                hide_node_modules: true,
                hide_target: true,
                hide_build: false,
                hide_obj_files: false,
                hide_lock_files: false,
            }),
            r.show_lines,
            r.tab == Tab::Tree,
            r.tree.lines@.len() == 0,
            r.tree.handle is None,
            r.tree.done,
            r.tree.dirty,
            r.search.query@.len() == 0,
            r.search.results@.len() == 0,
            r.search.handle is None,
            r.search.done,
            !r.search.case_sensitive,
    {
        App {
            dir,
            filters: Filters::default(),
            show_lines: true,
            tab: Tab::Tree,
            tree: TreeState::default(),
            search: SearchState::default(),
        }
    }

    /// Starts the tree anew with the current directory and settings: returns the job that is
    /// to be run, or nothing if `dir` is no directory.
    pub fn start_tree(&mut self, is_dir: bool) -> (r: Option<TreeJob>)
        requires
            old(self).inv(),
        ensures
            final(self).inv(),
            final(self).tree_is_current(),
            final(self).tab == old(self).tab,
            final(self).same_but_tab_and_tree(*old(self)),
            old(self).tree.handle matches Some(h) ==> stop_requested(h.cancel),
            final(self).tree.lines@.len() == 0,
            !final(self).tree.dirty,
            final(self).tree.done == !is_dir,
            r is Some <==> is_dir,
            match r {
                Some(job) => {
                    &&& final(self).tree.root_display@ == old(self).dir@
                    &&& job.walk@ == WalkView::start(old(self).filters, old(self).show_lines)
                    &&& final(self).tree.handle matches Some(h) && line_channel(job.tx, h.rx)
                        && lines_taken(h.rx).len() == 0 && watches(job.cancel, h.cancel)
                        && !raised(h.cancel)
                    &&& looks(job.cancel).len() == 0
                },
                None => {
                    &&& final(self).tree.root_display@ == "Not a valid directory"@
                    &&& final(self).tree.handle is Some <==> old(self).tree.handle is Some
                    &&& old(self).tree.handle matches Some(h) ==> {
                        let kept = final(self).tree.handle->0;
                        &&& kept.rx == h.rx
                        &&& raised(kept.cancel)
                        &&& same_flag(h.cancel, kept.cancel)
                    }
                },
            },
    {
        self.tree.start(self.dir.as_str(), is_dir, &self.filters, self.show_lines)
    }

    /// After the directory has changed: says whether the tree is to be started anew. A tree
    /// that is not open is only marked as out of date.
    pub fn dir_changed(&mut self) -> (restart: bool)
        requires
            old(self).inv(),
        ensures
            final(self).inv(),
            restart == (old(self).tab == Tab::Tree),
            restart ==> *final(self) == *old(self),
            !restart ==> {
                &&& final(self).tree.dirty
                &&& final(self).tab == old(self).tab
                &&& final(self).same_but_tab_and_tree(*old(self))
                &&& final(self).tree.same_but_dirty(old(self).tree)
                &&& final(self).tree_is_current()
            },
    {
        if self.tab == Tab::Tree {
            true
        } else {
            self.tree.dirty = true;
            false
        }
    }

    /// Opens the tree: says whether it is to be started anew, because it is out of date.
    pub fn open_tree(&mut self) -> (restart: bool)
        requires
            old(self).inv(),
        ensures
            final(self).inv(),
            restart == (old(self).tab != Tab::Tree && old(self).tree.dirty),
            final(self).tab == Tab::Tree,
            final(self).tree == old(self).tree,
            final(self).same_but_tab_and_tree(*old(self)),
            old(self).tree_is_current() && !restart ==> final(self).tree_is_current(),
    {
        if self.tab != Tab::Tree {
            self.tab = Tab::Tree;
            self.tree.dirty
        } else {
            false
        }
    }

    /// Opens the search.
    pub fn open_search(&mut self)
        requires
            old(self).inv(),
        ensures
            final(self).inv(),
            final(self).tab == Tab::Search,
            final(self).tree == old(self).tree,
            final(self).same_but_tab_and_tree(*old(self)),
            final(self).tree_is_current(),
    {
        self.tab = Tab::Search;
    }

    /// After the query or the case switch has changed: the search is started anew with the
    /// current ones and the filters, or shows nothing if the query is empty.
    pub fn search_changed(&mut self) -> (r: Option<SearchJob>)
        requires
            old(self).inv(),
        ensures
            final(self).inv(),
            final(self).dir@ == old(self).dir@,
            final(self).filters == old(self).filters,
            final(self).show_lines == old(self).show_lines,
            final(self).tab == old(self).tab,
            final(self).tree == old(self).tree,
            old(self).search.handle matches Some(h) ==> stop_requested(h.cancel),
            final(self).search.results@.len() == 0,
            final(self).search.query@ == old(self).search.query@,
            final(self).search.case_sensitive == old(self).search.case_sensitive,
            r is None <==> old(self).search.query@.len() == 0,
            final(self).search.done == (r is None),
            r matches Some(job) ==> final(self).search.handle matches Some(h) && set_up(
                job,
                h,
                old(self).search.query@,
                old(self).search.case_sensitive,
                old(self).filters,
            ),
    {
        self.search.query_changed(&self.filters)
    }

    /// After the filters have changed, which both views share: says whether the tree is to be
    /// started anew, as after a change of the directory, and starts the search anew.
    pub fn filters_changed(&mut self) -> (r: (bool, Option<SearchJob>))
        requires
            old(self).inv(),
        ensures
            final(self).inv(),
            final(self).dir@ == old(self).dir@,
            final(self).filters == old(self).filters,
            final(self).show_lines == old(self).show_lines,
            final(self).tab == old(self).tab,
            r.0 == (old(self).tab == Tab::Tree),
            final(self).tree.same_but_dirty(old(self).tree),
            final(self).tree.dirty == (old(self).tree.dirty || !r.0),
            old(self).tree_is_current() ==> final(self).tree_is_current(),
            old(self).search.handle matches Some(h) ==> stop_requested(h.cancel),
            final(self).search.results@.len() == 0,
            final(self).search.query@ == old(self).search.query@,
            final(self).search.case_sensitive == old(self).search.case_sensitive,
            r.1 is None <==> old(self).search.query@.len() == 0,
            final(self).search.done == (r.1 is None),
            r.1 matches Some(job) ==> final(self).search.handle matches Some(h) && set_up(
                job,
                h,
                old(self).search.query@,
                old(self).search.case_sensitive,
                old(self).filters,
            ),
    {
        let restart = self.dir_changed();
        let job = self.search_changed();
        (restart, job)
    }

    /// Asks the views that are not complete for what has come in.
    pub fn poll(&mut self) -> (r: Polled)
        requires
            old(self).inv(),
        ensures
            final(self).inv(),
            final(self).dir@ == old(self).dir@,
            final(self).filters == old(self).filters,
            final(self).show_lines == old(self).show_lines,
            final(self).tab == old(self).tab,
            old(self).tree.done ==> final(self).tree == old(self).tree,
            !old(self).tree.done ==> old(self).tree.polled(final(self).tree),
            old(self).search.done ==> final(self).search == old(self).search,
            !old(self).search.done ==> old(self).search.polled(final(self).search),
            r.repaint == (!old(self).tree.done || !old(self).search.done),
            r.searching == !old(self).search.done,
            old(self).tree_is_current() ==> final(self).tree_is_current(),
    {
        let mut repaint = false;
        let mut searching = false;
        if !self.tree.done {
            self.tree.poll();
            repaint = true;
        }
        if !self.search.done {
            searching = self.search.poll();
            repaint = true;
        }
        Polled { repaint, searching }
    }
}

/// What is the same in two states that differ at most in the open view and the tree, when the
/// tree is up to date, and when both views are in order.
pub proof fn law_states_of_the_application(a: App, b: App)
    ensures
        a.same_but_tab_and_tree(b) ==> a.dir@ == b.dir@ && a.filters == b.filters && a.show_lines
            == b.show_lines && a.search == b.search,
        a.tree_is_current() <==> !(a.tab == Tab::Tree && a.tree.dirty),
        a.inv() <==> a.tree.inv() && a.search.inv(),
{
}

} // verus!
