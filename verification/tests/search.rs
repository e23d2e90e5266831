use std::path::PathBuf;
use std::time::SystemTime;
use tree_print::channel::Reply;
use tree_print::filters::Filters;
use tree_print::highlight::{highlight, highlight_spans, mark_label, Segment, Span};
use tree_print::search::{
    drain_results, found, goes_into, is_done, join_paths, keep_result, result_label, search,
    walk_options, Matcher, SearchJob, SearchResult, SearchState, Visit, WalkOptions, RESULTS_PER_ROUND,
};
use tree_print::session::{App, Polled, Tab};

fn result(name: &str) -> SearchResult {
    SearchResult { path: PathBuf::from(name), is_dir: false, size: 1, accessed: None }
}

fn no_filters() -> Filters {
    Filters {
        hide_hidden: false,
        hide_git: false,
        hide_node_modules: false,
        hide_target: false,
        hide_build: false,
        hide_obj_files: false,
        hide_lock_files: false,
    }
}

fn stopped(job: &SearchJob) -> bool {
    job.worker().visit(false, None, None) == Visit::Quit
}

fn names(results: &[SearchResult]) -> Vec<String> {
    results.iter().map(|r| r.path.to_string_lossy().into_owned()).collect()
}

fn span(start: usize, end: usize, highlighted: bool) -> Span {
    Span { start, end, highlighted }
}

fn pieces(segments: Option<Vec<Segment>>) -> Option<Vec<(String, bool)>> {
    segments.map(|v| v.into_iter().map(|s| (s.text, s.highlighted)).collect())
}

fn owned(v: &[(&str, bool)]) -> Option<Vec<(String, bool)>> {
    Some(v.iter().map(|(s, b)| (s.to_string(), *b)).collect())
}

#[test]
fn plain_queries_are_parts_of_names() {
    let m = Matcher::new("main", true);
    assert!(m.matches("src_main.rs"));
    assert!(!m.matches("Main.rs"));
    let m = Matcher::new("MAIN", false);
    assert!(m.matches("src_main.rs"));
    assert!(m.matches("Main.rs"));
    assert!(!m.matches("mai"));
}

#[test]
fn glob_queries_match_whole_names() {
    let m = Matcher::new("*.RS", false);
    assert!(m.is_glob);
    assert_eq!(m.prepared, "*.rs");
    assert!(m.matches("Main.rs"));
    assert!(!m.matches("main.rs.bak"));
    let m = Matcher::new("*.RS", true);
    assert!(!m.matches("main.rs"));
    assert!(m.matches_folded("main.RS"));
}

#[test]
fn a_plain_query_is_a_glob_between_stars() {
    for name in ["abc", "xabcx", "ab", "a*bc"] {
        let plain = Matcher::new("abc", true).matches(name);
        assert_eq!(plain, Matcher::new("*abc*", true).matches(name));
    }
}

#[test]
fn case_does_not_matter_when_switched_off() {
    for query in ["read", "*.MD", "ME."] {
        let m = Matcher::new(query, false);
        assert!(m.matches("README.md"));
        assert!(m.matches("readme.MD"));
    }
}

#[test]
fn an_ascii_query_finds_the_same_in_any_case() {
    for name in ["README.md", "readme", "Cargo.toml", "makefile", "ÄREAD.MD"] {
        for query in ["rEad", "*.Md", "ma?e*", "C"] {
            let found = Matcher::new(query, false).matches(name);
            assert_eq!(found, Matcher::new(&query.to_uppercase(), false).matches(name));
            assert_eq!(found, Matcher::new(&query.to_lowercase(), false).matches(name));
            if Matcher::new(query, true).matches(name) {
                assert!(found);
            }
        }
    }
    assert!(Matcher::new("rE", true).matches("xrEx"));
    assert!(Matcher::new("RE", false).matches("xrEx"));
    assert!(!Matcher::new("RE", true).matches("xrEx"));
}

#[test]
fn entries_are_visited() {
    let m = Matcher::new("a", false);
    let f = Filters::default();
    assert_eq!(m.visit(&f, true, false, Some("a"), Some(true)), Visit::Quit);
    assert_eq!(m.visit(&f, false, false, None, None), Visit::Continue);
    assert_eq!(m.visit(&f, false, false, Some("b"), Some(true)), Visit::Continue);
    assert_eq!(m.visit(&f, false, false, Some("A"), Some(true)), Visit::Report { is_dir: true });
    assert_eq!(m.visit(&f, false, false, Some("A"), Some(false)), Visit::Report { is_dir: false });
    assert_eq!(m.visit(&f, false, false, Some("A"), None), Visit::Report { is_dir: false });
    assert_eq!(m.visit_unless_hidden(false, Some("A"), None, true), Visit::Continue);
    assert_eq!(
        m.visit_unless_hidden(false, Some("A"), None, false),
        Visit::Report { is_dir: false }
    );
}

#[test]
fn a_search_passes_over_what_the_filters_hide() {
    let m = Matcher::new("*", false);
    let file = Visit::Report { is_dir: false };
    let dir = Visit::Report { is_dir: true };
    let hide = |set: &dyn Fn(&mut Filters)| {
        let mut f = no_filters();
        set(&mut f);
        f
    };
    let cases: Vec<(Filters, &str, bool)> = vec![
        (hide(&|f| f.hide_hidden = true), ".env", false),
        (hide(&|f| f.hide_hidden = true), ".cache", true),
        (hide(&|f| f.hide_git = true), ".git", true),
        (hide(&|f| f.hide_node_modules = true), "node_modules", true),
        (hide(&|f| f.hide_target = true), "target", true),
        (hide(&|f| f.hide_build = true), "dist", true),
        (hide(&|f| f.hide_obj_files = true), "main.o", false),
        (hide(&|f| f.hide_lock_files = true), "Cargo.lock", false),
    ];
    for (filters, name, is_dir) in cases {
        assert_eq!(m.visit(&filters, false, false, Some(name), Some(is_dir)), Visit::Continue);
        assert_eq!(m.visit(&filters, true, false, Some(name), Some(is_dir)), Visit::Quit);
        let shown = if is_dir { dir } else { file };
        assert_eq!(m.visit(&no_filters(), false, false, Some(name), Some(is_dir)), shown);
        assert_eq!(goes_into(&filters, false, Some(name), Some(is_dir)), !is_dir);
        assert!(goes_into(&filters, true, Some(name), Some(is_dir)));
        assert_eq!(m.visit(&filters, false, true, Some(name), Some(is_dir)), shown);
        assert!(goes_into(&no_filters(), false, Some(name), Some(is_dir)));
    }
    let f = Filters::default();
    assert_eq!(m.visit(&f, false, false, Some("target"), Some(false)), file);
    assert_eq!(m.visit(&f, false, false, Some("main.o"), Some(false)), file);
    assert!(goes_into(&f, false, None, None));
    assert!(goes_into(&f, false, Some("target"), None));
    let mut f = Filters::default();
    f.hide_hidden = false;
    assert_eq!(m.visit(&f, false, false, Some(".env"), Some(false)), file);
}

#[test]
fn results_hold_what_is_known() {
    let t = SystemTime::UNIX_EPOCH;
    let r = found(PathBuf::from("f"), false, Some((7, Some(t))));
    assert_eq!((r.size, r.accessed, r.is_dir), (7, Some(t), false));
    let r = found(PathBuf::from("f"), false, None);
    assert_eq!((r.size, r.accessed), (0, None));
    let r = found(PathBuf::from("d"), true, Some((7, Some(t))));
    assert_eq!((r.size, r.accessed, r.is_dir), (0, None, true));
    assert_eq!(r.path, PathBuf::from("d"));
    assert!(r.size_column().is_none());
    assert_eq!(result("x").size_column().as_deref(), Some("     1 B "));
}

#[test]
fn threads_are_limited() {
    let options = |threads, hidden| WalkOptions {
        threads,
        hidden,
        git_ignore: true,
        git_global: false,
        git_exclude: true,
    };
    let f = Filters::default();
    assert_eq!(walk_options(None, &f), options(8, true));
    assert_eq!(walk_options(Some(3), &f), options(3, true));
    assert_eq!(walk_options(Some(64), &f), options(8, true));
    assert_eq!(walk_options(Some(3), &no_filters()), options(3, false));
}

#[test]
fn results_are_drained() {
    let (job, mut handle) = search("q", false, &Filters::default());
    assert_eq!(job.filters, Filters::default());
    let mut buf = vec![result("first")];
    drain_results(&mut handle, &mut buf);
    assert_eq!(buf.len(), 1);
    assert!(!is_done(&mut handle, &mut buf));
    for i in 0..2001u32 {
        job.tx.send(result(&format!("{i}"))).unwrap();
    }
    drain_results(&mut handle, &mut buf);
    assert_eq!(buf.len(), 2001);
    assert_eq!(buf[1].path, PathBuf::from("0"));
    drain_results(&mut handle, &mut buf);
    assert_eq!(buf.len(), 2002);
    assert!(!stopped(&job));
    drop(job);
    assert!(is_done(&mut handle, &mut buf));
    assert!(is_done(&mut handle, &mut buf));
    assert_eq!(buf.len(), 2002);
}

#[test]
fn asking_whether_a_search_is_done_keeps_a_result() {
    let (job, mut handle) = search("q", false, &Filters::default());
    job.tx.send(result("a")).unwrap();
    job.tx.send(result("b")).unwrap();
    drop(job);
    let mut buf = Vec::new();
    assert!(!is_done(&mut handle, &mut buf));
    assert_eq!(names(&buf), ["a"]);
    drain_results(&mut handle, &mut buf);
    assert_eq!(names(&buf), ["a", "b"]);
    assert!(is_done(&mut handle, &mut buf));
    assert_eq!(buf.len(), 2);
}

#[test]
fn every_result_is_shown_once_and_in_order() {
    for count in [0usize, 1, RESULTS_PER_ROUND - 1, RESULTS_PER_ROUND, RESULTS_PER_ROUND + 1, 4500] {
        let mut state = SearchState::default();
        state.query = "x".to_string();
        let job = state.start(&Filters::default());
        let sent: Vec<String> = (0..count).map(|i| format!("{i}")).collect();
        for name in &sent {
            job.tx.send(result(name)).unwrap();
        }
        drop(job);
        let mut rounds = 0usize;
        while state.poll() {
            rounds += 1;
            assert_eq!(state.done, state.handle.is_none());
        }
        assert!(state.done);
        assert_eq!(rounds, count / (RESULTS_PER_ROUND + 1) + 1);
        assert_eq!(names(&state.results), sent);
    }
}

#[test]
fn replies_of_a_search_are_kept() {
    let mut buf = Vec::new();
    assert!(keep_result(&mut buf, Reply::Item(result("a"))));
    assert!(!keep_result(&mut buf, Reply::Empty));
    assert!(!keep_result(&mut buf, Reply::Disconnected));
    assert_eq!(buf.len(), 1);
}

#[test]
fn a_search_runs_to_its_end() {
    let mut state = SearchState::default();
    assert!(state.done && state.handle.is_none() && !state.case_sensitive);
    assert!(!state.poll());
    state.query = "x".to_string();
    let job = state.query_changed(&Filters::default()).unwrap();
    assert!(!state.done && !stopped(&job));
    assert_eq!(job.matcher.prepared, "x");
    job.tx.send(result("ax")).unwrap();
    assert!(state.poll());
    assert_eq!(state.results.len(), 1);
    assert!(!state.done);
    job.tx.send(result("bx")).unwrap();
    drop(job);
    assert!(state.poll());
    assert_eq!(state.results.len(), 2);
    assert!(state.done && state.handle.is_none());
    assert!(!state.poll());
}

#[test]
fn a_new_query_stops_the_search_before() {
    let mut state = SearchState::default();
    state.query = "x".to_string();
    let first = state.start(&Filters::default());
    first.tx.send(result("ax")).unwrap();
    state.poll();
    state.query = "y".to_string();
    let second = state.query_changed(&no_filters()).unwrap();
    assert_eq!(second.filters, no_filters());
    assert!(!stopped(&second));
    assert!(stopped(&first));
    assert!(state.results.is_empty());
    state.query = String::new();
    assert!(state.query_changed(&no_filters()).is_none());
    assert!(stopped(&second));
    assert!(state.done && state.handle.is_none());
    state.on_checked(true);
    assert!(state.done);
}

#[test]
fn labels_and_copied_paths() {
    assert_eq!(result_label(Some("a/b"), "/r/a/b", true), "a/b/");
    assert_eq!(result_label(Some("a/b"), "/r/a/b", false), "a/b");
    assert_eq!(result_label(None, "/r/a/b", true), "/r/a/b/");
    assert_eq!(result_label(None, "/r/a/b", false), "/r/a/b");
    let v = |s: &[&str]| s.iter().map(|s| s.to_string()).collect::<Vec<String>>();
    assert_eq!(join_paths(&v(&[])), "");
    assert_eq!(join_paths(&v(&["a"])), "a");
    assert_eq!(join_paths(&v(&["a", "", "c"])), "a\n\nc");
}

#[test]
fn matches_are_marked() {
    assert_eq!(
        pieces(highlight("foo bar foo", "foo", true)),
        owned(&[("foo", true), (" bar ", false), ("foo", true)])
    );
    assert_eq!(pieces(highlight("aaa", "aa", true)), owned(&[("aa", true), ("a", false)]));
    assert_eq!(pieces(highlight("FooBar", "BAR", false)), owned(&[("Foo", false), ("Bar", true)]));
    assert_eq!(pieces(highlight("FooBar", "BAR", true)), owned(&[("FooBar", false)]));
    assert_eq!(pieces(highlight("", "x", true)), owned(&[]));
    assert_eq!(pieces(highlight("é-é", "é", true)), owned(&[("é", true), ("-", false), ("é", true)]));
    assert_eq!(pieces(highlight("xÉy", "é", false)), owned(&[("x", false), ("É", true), ("y", false)]));
}

#[test]
fn matches_are_marked_where_folding_changes_widths() {
    assert_eq!(pieces(highlight("İx", "x", false)), owned(&[("İ", false), ("x", true)]));
    assert_eq!(
        pieces(highlight("İab", "a", false)),
        owned(&[("İ", false), ("a", true), ("b", false)])
    );
    assert_eq!(pieces(highlight("İa", "i", false)), owned(&[("İ", true), ("a", false)]));
    assert_eq!(pieces(highlight("İa", "İA", false)), owned(&[("İa", true)]));
    assert_eq!(pieces(highlight("\u{212a}a", "a", false)), owned(&[("\u{212a}", false), ("a", true)]));
    assert_eq!(pieces(highlight("\u{212a}a", "k", false)), owned(&[("\u{212a}", true), ("a", false)]));
    assert_eq!(pieces(highlight("ΟΔΟΣ", "ς", false)), owned(&[("ΟΔΟ", false), ("Σ", true)]));
    assert_eq!(pieces(highlight("ẞx", "x", false)), owned(&[("ẞ", false), ("x", true)]));
}

#[test]
fn an_empty_query_marks_nothing() {
    assert!(highlight("abc", "", false).is_none());
    assert!(highlight("abc", "", true).is_none());
}

#[test]
fn spans_count_characters() {
    assert_eq!(
        highlight_spans("é-é-x", "-", &vec![1; 5]),
        vec![span(0, 1, false), span(1, 2, true), span(2, 3, false), span(3, 4, true), span(4, 5, false)]
    );
    assert_eq!(
        highlight_spans("i\u{307}x", "x", &vec![2, 1]),
        vec![span(0, 1, false), span(1, 2, true)]
    );
    assert_eq!(highlight_spans("i\u{307}", "\u{307}", &vec![2]), vec![span(0, 1, true)]);
    assert_eq!(highlight_spans("abab", "ab", &vec![4]), vec![span(0, 1, true)]);
    assert_eq!(highlight_spans("abcd", "bc", &vec![2, 2]), vec![span(0, 2, true)]);
    assert_eq!(highlight_spans("ab", "b", &vec![]), vec![]);
}

#[test]
fn pieces_make_up_the_text() {
    let texts = ["a-b-c", "päth/to/PÄTH", "none", "xx", "İxİ", "ẞtraße", "ΟΔΟΣ-Σ", ""];
    for text in texts {
        for query in ["-", "päth", "x", "İ", "ß", "σ", "e"] {
            for case_sensitive in [true, false] {
                let cut = highlight(text, query, case_sensitive).unwrap();
                let marked = cut.iter().any(|s| s.highlighted);
                assert_eq!(marked, Matcher::new(query, case_sensitive).matches(text));
                if case_sensitive {
                    assert!(cut.iter().all(|s| !s.highlighted || s.text == query));
                }
                let joined: String = cut.into_iter().map(|s| s.text).collect();
                assert_eq!(joined, text);
            }
        }
    }
}

#[test]
fn labels_are_marked_for_plain_queries_only() {
    assert_eq!(pieces(Some(mark_label("a.rs", "*.rs", false))), owned(&[("a.rs", false)]));
    assert_eq!(pieces(Some(mark_label("a.rs", "", false))), owned(&[("a.rs", false)]));
    assert_eq!(
        pieces(Some(mark_label("a.rs", ".rs", false))),
        owned(&[("a", false), (".rs", true)])
    );
    assert_eq!(
        pieces(Some(mark_label("İ/x", "X", false))),
        owned(&[("İ/", false), ("x", true)])
    );
}

#[test]
fn the_tree_is_restarted_when_it_is_out_of_date() {
    let mut app = App::new("d".to_string());
    assert_eq!(app.filters, Filters::default());
    assert!(app.show_lines && app.tab == Tab::Tree);
    let mut job = app.start_tree(true).unwrap();
    assert!(job.wants_listing());
    assert_eq!(app.tree.root_display, "d");
    assert!(app.dir_changed());
    app.open_search();
    assert!(app.tab == Tab::Search);
    assert!(!app.tree.dirty);
    assert!(!app.open_tree());
    app.open_search();
    app.dir = "e".to_string();
    assert!(!app.dir_changed());
    assert!(app.tree.dirty);
    assert!(app.open_tree());
    assert!(app.start_tree(false).is_none());
    assert!(!job.wants_listing());
    assert!(!app.tree.dirty);
    assert!(!app.open_tree());
}

#[test]
fn running_jobs_are_asked() {
    let mut app = App::new("d".to_string());
    assert_eq!(app.poll(), Polled { repaint: false, searching: false });
    let job = app.start_tree(true).unwrap();
    assert_eq!(app.poll(), Polled { repaint: true, searching: false });
    drop(job);
    app.search.query = "q".to_string();
    let search_job = app.search_changed().unwrap();
    assert_eq!(search_job.filters, app.filters);
    search_job.tx.send(result("q1")).unwrap();
    assert_eq!(app.poll(), Polled { repaint: true, searching: true });
    assert!(app.tree.done && !app.search.done);
    assert_eq!(app.search.results.len(), 1);
    drop(search_job);
    app.poll();
    assert!(app.search.done);
    assert_eq!(app.poll(), Polled { repaint: false, searching: false });
}

#[test]
fn both_views_follow_the_filters() {
    let mut app = App::new("d".to_string());
    let _tree = app.start_tree(true).unwrap();
    app.filters.hide_lock_files = true;
    let (restart, job) = app.filters_changed();
    assert!(restart && job.is_none());
    assert!(app.search_changed().is_none());
    app.open_search();
    app.search.query = "q".to_string();
    let first = app.search_changed().unwrap();
    first.tx.send(result("q")).unwrap();
    app.poll();
    assert_eq!(app.search.results.len(), 1);
    app.filters.hide_hidden = false;
    let (restart, job) = app.filters_changed();
    assert!(!restart && app.tree.dirty);
    assert!(stopped(&first));
    assert!(app.search.results.is_empty() && !app.search.done);
    assert_eq!(job.unwrap().filters, app.filters);
    assert!(app.open_tree());
}

#[test]
fn a_search_ends_when_it_is_asked_to_stop() {
    let mut state = SearchState::default();
    state.query = "a".to_string();
    let job = state.start(&Filters::default());
    assert!(!stopped(&job));
    let mut worker = job.worker();
    assert_eq!(worker.visit(false, Some("A"), Some(false)), Visit::Report { is_dir: false });
    assert_eq!(worker.visit(false, Some(".a"), Some(false)), Visit::Continue);
    assert_eq!(worker.visit(true, Some(".a"), Some(true)), Visit::Report { is_dir: true });
    assert_eq!(worker.visit(false, Some("b"), Some(false)), Visit::Continue);
    assert_eq!(worker.visit(false, None, None), Visit::Continue);
    state.clear();
    assert!(stopped(&job));
    assert_eq!(worker.visit(false, Some("A"), Some(false)), Visit::Quit);
    assert_eq!(worker.visit(true, Some("b"), None), Visit::Quit);
}
