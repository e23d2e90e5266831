use std::collections::HashMap;
use std::path::{Path, PathBuf};
use tree_print::channel::Reply;
use tree_print::filters::Filters;
use tree_print::line::{line_count, FileTask, TreeLine};
use tree_print::listing::{arrange, Entry};
use tree_print::tree::{TreeState, LINES_PER_ROUND};
use tree_print::walk::{Task, TreeWalk};

fn entry(dir: &str, name: &str, is_dir: bool) -> Entry {
    Entry::new(
        name.to_string(),
        name.as_bytes().to_vec(),
        Path::new(dir).join(name),
        is_dir,
    )
}

fn no_filters() -> Filters {
    Filters {
        hide_hidden: false,
        hide_git: false,
        hide_node_modules: false,
        hide_target: false,
        hide_build: false,
        hide_obj_files: false,
        hide_lock_files: false,
    }
}

fn line(text: &str, is_dir: bool, size: u64) -> TreeLine {
    TreeLine { text: text.to_string(), path: PathBuf::from("p"), is_dir, size }
}

/// A small disk: what each directory lists, and what each file holds.
fn walk_all(filters: Filters, show_lines: bool, cancel_after: usize) -> Vec<TreeLine> {
    let mut dirs: HashMap<PathBuf, Vec<(&str, bool)>> = HashMap::new();
    dirs.insert(
        PathBuf::from("r"),
        vec![("src", true), ("README.md", false), (".git", true), ("empty", true), ("Z", false)],
    );
    dirs.insert(PathBuf::from("r/src"), vec![("main.rs", false), ("b", true), ("a.o", false)]);
    dirs.insert(PathBuf::from("r/src/b"), vec![("x", false)]);
    dirs.insert(PathBuf::from("r/empty"), vec![]);
    let mut files: HashMap<PathBuf, Vec<u8>> = HashMap::new();
    files.insert(PathBuf::from("r/src/main.rs"), b"a\nb\n".to_vec());
    files.insert(PathBuf::from("r/src/b/x"), b"no newline".to_vec());
    files.insert(PathBuf::from("r/src/a.o"), vec![0, 10, 10]);
    files.insert(PathBuf::from("r/README.md"), b"1\n2\n3\n".to_vec());
    let list = |p: &Path| {
        dirs.get(p).map(|v| {
            v.iter().map(|(n, d)| entry(p.to_str().unwrap(), n, *d)).collect::<Vec<Entry>>()
        })
    };
    let mut walk = TreeWalk::new(filters, show_lines);
    let mut dir = PathBuf::from("r");
    let mut lines = Vec::new();
    loop {
        let cancelled = lines.len() >= cancel_after;
        if walk.wants_listing(cancelled) {
            walk.enter(list(&dir));
        }
        match walk.next(cancelled) {
            Task::Done => break,
            Task::Directory(l) => {
                dir = l.path.clone();
                lines.push(l);
            }
            Task::File(file) => {
                assert_eq!(file.count_lines, show_lines);
                let content = files.get(&file.path).cloned();
                let size = content.as_ref().map(|c| c.len() as u64);
                lines.push(file.finish(size, &content));
            }
        }
    }
    lines
}

#[test]
fn walk_shows_the_outline() {
    let text: String = walk_all(Filters::default(), true, 99).into_iter().map(|l| l.text).collect();
    assert_eq!(
        text,
        "├── README.md (3 lines)\n\
         ├── Z\n\
         ├── empty/\n\
         └── src/\n\
         \u{20}   ├── a.o\n\
         \u{20}   ├── b/\n\
         \u{20}   │   └── x (0 lines)\n\
         \u{20}   └── main.rs (2 lines)\n"
    );
}

#[test]
fn walk_without_filters_and_counts() {
    let lines = walk_all(no_filters(), false, 99);
    let text: String = lines.iter().map(|l| l.text.as_str()).collect();
    assert_eq!(
        text,
        "├── .git/\n\
         ├── README.md\n\
         ├── Z\n\
         ├── empty/\n\
         └── src/\n\
         \u{20}   ├── a.o\n\
         \u{20}   ├── b/\n\
         \u{20}   │   └── x\n\
         \u{20}   └── main.rs\n"
    );
    assert_eq!(lines[1].size, 6);
    assert_eq!(lines[2].size, 0);
    assert_eq!(lines[4].path, PathBuf::from("r/src"));
    assert!(lines[4].is_dir);
}

#[test]
fn a_cancelled_walk_has_no_task_left() {
    assert_eq!(walk_all(no_filters(), false, 3).len(), 3);
    assert_eq!(walk_all(no_filters(), false, 0).len(), 0);
}

#[test]
fn only_a_directory_that_was_shown_is_listed() {
    let mut walk = TreeWalk::new(no_filters(), false);
    assert!(walk.wants_listing(false));
    assert!(!walk.wants_listing(true));
    walk.enter(Some(vec![entry("r", "a", false), entry("r", "b", true)]));
    assert!(!walk.wants_listing(false));
    assert!(matches!(walk.next(false), Task::File(_)));
    assert!(!walk.wants_listing(false));
    assert!(matches!(walk.next(false), Task::Directory(_)));
    assert!(walk.wants_listing(false));
    assert!(!walk.wants_listing(true));
    assert!(matches!(walk.next(true), Task::Done));
    assert!(!walk.wants_listing(false));
}

#[test]
fn sizes_are_shown_beside_files() {
    assert!(line("a/\n", true, 7).size_column().is_none());
    assert_eq!(line("b\n", false, 1536).size_column().as_deref(), Some("   1.5 KB"));
    assert_eq!(line("c\n", false, 0).size_column().as_deref(), Some("     0 B "));
}

#[test]
fn every_line_is_shown_once_and_in_order() {
    for count in [0usize, 1, LINES_PER_ROUND - 1, LINES_PER_ROUND, LINES_PER_ROUND + 1] {
        let mut tree = TreeState::default();
        let job = tree.start("d", true, &Filters::default(), false).unwrap();
        let sent: Vec<String> = (0..count).map(|i| format!("{i}\n")).collect();
        for text in &sent {
            job.tx.send(line(text, false, 1)).unwrap();
        }
        drop(job);
        while !tree.done {
            tree.poll();
        }
        let shown: Vec<String> = tree.lines.iter().map(|l| l.text.clone()).collect();
        assert_eq!(shown, sent);
        assert!(tree.handle.is_none());
    }
}

#[test]
fn a_root_that_cannot_be_listed_shows_nothing() {
    let mut walk = TreeWalk::new(no_filters(), false);
    walk.enter(None);
    assert!(matches!(walk.next(false), Task::Done));
}

#[test]
fn entries_are_sorted_by_their_bytes_and_filtered() {
    let names = ["b", "a", "B", "ab", ".x", "é", "a0", ""];
    let entries: Vec<Entry> = names.iter().map(|n| entry("d", n, false)).collect();
    let mut shown: Vec<String> =
        arrange(entries, &Filters::default()).into_iter().map(|e| e.name).collect();
    shown.reverse();
    assert_eq!(shown, ["", "B", "a", "a0", "ab", "b", "é"]);
}

#[test]
fn many_entries_are_sorted() {
    let mut names: Vec<String> = (0..2000u32).map(|i| format!("f{}", (i * 7919) % 2003)).collect();
    let entries: Vec<Entry> = names.iter().map(|n| entry("d", n, false)).collect();
    let mut shown: Vec<String> = arrange(entries, &no_filters()).into_iter().map(|e| e.name).collect();
    shown.reverse();
    names.sort();
    assert_eq!(shown, names);
}

#[test]
fn entries_with_equal_names_keep_their_order() {
    let entries = vec![entry("x", "n", false), entry("y", "n", false), entry("z", "a", false)];
    let shown = arrange(entries, &no_filters());
    assert_eq!(shown[2].path, PathBuf::from("z/a"));
    assert_eq!(shown[1].path, PathBuf::from("x/n"));
    assert_eq!(shown[0].path, PathBuf::from("y/n"));
}

#[test]
fn lines_of_text_files_are_counted() {
    assert_eq!(line_count(b""), Some(0));
    assert_eq!(line_count(b"a\nb"), Some(1));
    assert_eq!(line_count(b"\n\n"), Some(2));
    assert_eq!(line_count(b"a\0\n"), None);
    let mut late = vec![b'x'; 512];
    late.extend_from_slice(b"\0\n");
    assert_eq!(line_count(&late), Some(1));
    let mut early = vec![b'x'; 511];
    early.extend_from_slice(b"\0\n");
    assert_eq!(line_count(&early), None);
}

#[test]
fn a_file_line_names_the_lines_only_when_asked() {
    let task = |count_lines| FileTask { stem: "s".to_string(), path: PathBuf::from("p"), count_lines };
    let content = Some(b"x\n".to_vec());
    assert_eq!(task(true).finish(Some(2), &content).text, "s (1 lines)\n");
    assert_eq!(task(false).finish(Some(2), &content).text, "s\n");
    assert_eq!(task(true).finish(None, &None).text, "s\n");
    assert_eq!(task(true).finish(None, &None).size, 0);
}

#[test]
fn totals_count_files_folders_and_bytes() {
    let mut tree = TreeState::default();
    assert!(tree.done && tree.dirty && tree.handle.is_none());
    tree.add_line(line("├── a/\n", true, 7));
    tree.add_line(line("└── b\n", false, 1000));
    tree.add_line(line("└── c\n", false, 536));
    assert_eq!((tree.files, tree.dirs, tree.total_bytes), (2, 1, 1536));
    assert_eq!(tree.files + tree.dirs, tree.lines.len());
    assert_eq!(tree.summary(), "2 files, 1 folders, 1.5 KB");
    assert_eq!(tree.to_copyable_text(), "\n├── a/\n└── b\n└── c\n");
    assert_eq!(tree.row_count(), 4);
    assert_eq!(tree.row_text(0), "");
    assert_eq!(tree.row_text(1), "├── a/");
    tree.add_line(line("x\n\n", false, u64::MAX));
    assert_eq!(tree.row_text(4), "x");
    assert_eq!(tree.total_bytes, 1535);
}

#[test]
fn a_started_tree_takes_over_the_lines_of_its_job() {
    let mut tree = TreeState::default();
    let job = tree.start("/some/dir", true, &Filters::default(), true).unwrap();
    assert!(!tree.done && !tree.dirty && tree.lines.is_empty());
    tree.poll();
    assert!(!tree.done && tree.lines.is_empty());
    job.tx.send(line("a/\n", true, 0)).unwrap();
    job.tx.send(line("b\n", false, 3)).unwrap();
    tree.poll();
    assert_eq!(tree.lines.len(), 2);
    assert_eq!(tree.to_copyable_text(), "/some/dir\na/\nb\n");
    assert!(!tree.done && tree.handle.is_some());
    job.tx.send(line("c\n", false, 4)).unwrap();
    drop(job);
    tree.poll();
    assert!(tree.done && tree.handle.is_none());
    assert_eq!((tree.files, tree.dirs, tree.total_bytes), (2, 1, 7));
    tree.poll();
    assert_eq!(tree.lines.len(), 3);
}

#[test]
fn a_round_is_limited() {
    let mut tree = TreeState::default();
    let job = tree.start("d", true, &Filters::default(), false).unwrap();
    for _ in 0..LINES_PER_ROUND + 1 {
        job.tx.send(line("x\n", false, 1)).unwrap();
    }
    tree.poll();
    assert_eq!(tree.lines.len(), 5000);
    tree.poll();
    assert_eq!(tree.lines.len(), 5001);
}

#[test]
fn a_new_start_stops_the_job_before() {
    let mut tree = TreeState::default();
    let mut first = tree.start("d", true, &Filters::default(), false).unwrap();
    first.tx.send(line("x\n", false, 1)).unwrap();
    tree.poll();
    assert!(first.wants_listing());
    let mut second = tree.start("e", true, &Filters::default(), false).unwrap();
    assert!(!first.wants_listing());
    assert!(second.wants_listing());
    assert!(first.tx.send(line("late\n", false, 1)).is_err());
    second.tx.send(line("y\n", false, 1)).unwrap();
    tree.poll();
    assert_eq!(tree.to_copyable_text(), "e\ny\n");
}

#[test]
fn what_is_no_directory_is_not_walked() {
    let mut tree = TreeState::default();
    let mut job = tree.start("d", true, &Filters::default(), false).unwrap();
    assert!(tree.start("nowhere", false, &Filters::default(), false).is_none());
    assert!(tree.done && !tree.dirty);
    assert_eq!(tree.root_display, "Not a valid directory");
    assert!(!job.wants_listing());
    assert!(tree.handle.is_some());
}

#[test]
fn replies_are_taken_in_one_by_one() {
    let mut tree = TreeState::default();
    let _job = tree.start("d", true, &Filters::default(), false);
    assert!(tree.on_reply(Reply::Item(line("x\n", false, 1))));
    assert!(!tree.on_reply(Reply::Empty));
    assert!(!tree.done);
    assert!(!tree.on_reply(Reply::Disconnected));
    assert!(tree.done && tree.handle.is_none());
    assert_eq!(tree.lines.len(), 1);
}

#[test]
fn a_job_ends_when_it_is_asked_to_stop() {
    let mut tree = TreeState::default();
    let mut job = tree.start("d", true, &no_filters(), false).unwrap();
    assert!(job.wants_listing());
    job.walk.enter(Some(vec![entry("d", "a", false), entry("d", "b", true), entry("d", "c", true)]));
    assert!(!job.wants_listing());
    assert!(matches!(job.next(), Task::File(_)));
    assert!(matches!(job.next(), Task::Directory(_)));
    assert!(job.wants_listing());
    let mut second = tree.start("e", true, &no_filters(), false).unwrap();
    assert!(!job.wants_listing() && second.wants_listing());
    assert!(matches!(job.next(), Task::Done));
    assert!(matches!(job.next(), Task::Done));
}

#[test]
fn a_job_shows_the_outline_or_its_beginning() {
    let list = |dir: &Path| match dir.to_str() {
        Some("d") => Some(vec![entry("d", "a", true), entry("d", "b", false)]),
        Some("d/a") => Some(vec![entry("d/a", "x", false), entry("d/a", "y", true)]),
        _ => None,
    };
    let outline = ["├── a/\n", "│   ├── x\n", "│   └── y/\n", "└── b\n"];
    for stop_after in 0..6usize {
        let mut tree = TreeState::default();
        let mut job = tree.start("d", true, &no_filters(), false).unwrap();
        let mut dir = PathBuf::from("d");
        let mut lines: Vec<String> = Vec::new();
        loop {
            if lines.len() == stop_after {
                tree.start("e", false, &no_filters(), false);
            }
            if job.wants_listing() {
                job.walk.enter(list(&dir));
            }
            match job.next() {
                Task::Done => break,
                Task::Directory(line) => {
                    dir = line.path.clone();
                    lines.push(line.text);
                }
                Task::File(file) => lines.push(file.finish(None, &None).text),
            }
        }
        assert_eq!(lines, outline[..stop_after.min(4)]);
    }
}
