use tree_print::filters::Filters;

fn none() -> Filters {
    Filters {
        hide_hidden: false,
        hide_git: false,
        hide_node_modules: false,
        hide_target: false,
        hide_build: false,
        hide_obj_files: false,
        hide_lock_files: false,
    }
}

#[test]
fn default_filters() {
    let f = Filters::default();
    assert!(f.should_skip(".git", true));
    assert!(f.should_skip(".bashrc", false));
    assert!(f.should_skip("node_modules", true));
    assert!(f.should_skip("target", true));
    assert!(!f.should_skip("build", true));
    assert!(!f.should_skip("a.o", false));
    assert!(!f.should_skip("Cargo.lock", false));
    assert!(!f.should_skip("src", true));
    assert!(!f.should_skip("", false));
}

#[test]
fn no_filter_hides_nothing() {
    for name in [".git", "node_modules", "target", "build", "a.o", "yarn.lock", "x", ".x"] {
        assert!(!none().should_skip(name, true));
        assert!(!none().should_skip(name, false));
    }
}

#[test]
fn directory_filters_leave_files_alone() {
    let f = Filters { hide_git: true, hide_node_modules: true, hide_target: true, hide_build: true, ..none() };
    for name in [".git", "node_modules", "target", "build", "dist", "out"] {
        assert!(f.should_skip(name, true));
        assert!(!f.should_skip(name, false));
    }
    assert!(!f.should_skip("outer", true));
}

#[test]
fn object_files_go_by_their_extension() {
    let f = Filters { hide_obj_files: true, ..none() };
    for ext in ["o", "obj", "pdb", "exe", "dll", "so", "dylib"] {
        assert!(f.should_skip(&format!("x.{ext}"), false));
        assert!(f.should_skip(&format!("x.y.{ext}"), false));
        assert!(!f.should_skip(&format!("x.{ext}"), true));
        assert!(!f.should_skip(&format!(".{ext}"), false));
        assert!(!f.should_skip(ext, false));
    }
    assert!(!f.should_skip("x.O", false));
    assert!(!f.should_skip("x.o.txt", false));
    assert!(!f.should_skip("..", false));
}

#[test]
fn lock_files_go_by_their_name() {
    let f = Filters { hide_lock_files: true, ..none() };
    for name in ["Cargo.lock", "package-lock.json", "yarn.lock", "pnpm-lock.yaml", "bun.lockb"] {
        assert!(f.should_skip(name, false));
        assert!(!f.should_skip(name, true));
    }
    assert!(!f.should_skip("poetry.lock", false));
}

#[test]
fn a_given_extension_decides() {
    let f = Filters { hide_obj_files: true, ..none() };
    assert!(f.skips_with_extension("a", false, &Some("so".to_string())));
    assert!(!f.skips_with_extension("a.so", false, &None));
    assert!(!f.skips_with_extension("a.so", false, &Some("txt".to_string())));
}

#[test]
fn more_filters_hide_more() {
    let few = Filters::default();
    let many = Filters { hide_build: true, hide_obj_files: true, hide_lock_files: true, ..few };
    for name in [".git", "node_modules", "target", "build", "a.o", "yarn.lock", "x"] {
        for is_dir in [true, false] {
            assert!(!few.should_skip(name, is_dir) || many.should_skip(name, is_dir));
        }
    }
}

#[test]
fn a_colon_is_part_of_a_name() {
    let f = Filters { hide_obj_files: true, ..none() };
    assert!(f.should_skip("10:30 build.so", false));
    assert!(f.should_skip("main.rs:x.o", false));
    assert!(!f.should_skip("main.o:x", false));
}
