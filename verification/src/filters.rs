//! Which directory entries the tree leaves out.
use crate::text::same_text;
use std::path::Path;
use vstd::prelude::*;

verus! {

/// The switches that hide entries.
#[derive(Clone, Copy, Debug, PartialEq, Eq, Structural)]
pub struct Filters {
    pub hide_hidden: bool,
    pub hide_git: bool,
    pub hide_node_modules: bool,
    pub hide_target: bool,
    pub hide_build: bool,
    pub hide_obj_files: bool,
    pub hide_lock_files: bool,
}

/// The place of the last dot in a name, or -1.
pub open spec fn last_dot(name: Seq<char>) -> int
    decreases name.len(),
{
    if name.len() == 0 {
        -1
    } else if name.last() == '.' {
        name.len() - 1
    } else {
        last_dot(name.drop_last())
    }
}

/// The extension of a file name: what follows its last dot. A dot in the first place starts
/// no extension, and `..` is no file name.
pub open spec fn extension(name: Seq<char>) -> Option<Seq<char>> {
    if name == ".."@ || last_dot(name) <= 0 {
        None
    } else {
        Some(name.skip(last_dot(name) + 1))
    }
}

/// Whether a name is a single path component on every system: it holds no separator, and no
/// colon in the second place, where it would end the name of a drive.
pub open spec fn plain_name(name: Seq<char>) -> bool {
    !name.contains('/') && !name.contains('\\') && !(name.len() > 1 && name[1] == ':')
}

/// The characters of an optional string.
pub open spec fn opt_view(s: Option<String>) -> Option<Seq<char>> {
    match s {
        Some(s) => Some(s@),
        None => None,
    }
}

/// Calls `Path::extension`. Of a plain file name it returns what follows the last dot, and
/// nothing where there is no dot, where the only dot is the first character, or where the
/// name is `..`. What it returns of a text with path separators or a drive prefix depends on
/// the system, and is left open here.
#[verifier::external_body]
pub(crate) fn path_extension(name: &str) -> (r: Option<String>)
    ensures
        plain_name(name@) ==> opt_view(r) == extension(name@),
{
    match Path::new(name).extension().and_then(|e| e.to_str()) {
        Some(e) => Some(e.to_string()),
        None => None,
    }
}

/// Whether files with this extension are object files or other build products.
pub open spec fn is_object_extension(e: Seq<char>) -> bool {
    e == "o"@ || e == "obj"@ || e == "pdb"@ || e == "exe"@ || e == "dll"@ || e == "so"@ || e
        == "dylib"@
}

/// Whether a file of this name is a lock file of a package manager.
pub open spec fn is_lock_file(name: Seq<char>) -> bool {
    name == "Cargo.lock"@ || name == "package-lock.json"@ || name == "yarn.lock"@ || name
        == "pnpm-lock.yaml"@ || name == "bun.lockb"@
}

/// Whether a directory of this name holds build output.
pub open spec fn is_build_dir(name: Seq<char>) -> bool {
    name == "build"@ || name == "dist"@ || name == "out"@
}

impl Filters {
    /// Whether an entry is hidden, given its name, its kind and its extension.
    pub open spec fn hides(self, name: Seq<char>, is_dir: bool, ext: Option<Seq<char>>) -> bool {
        ||| self.hide_hidden && name.len() > 0 && name[0] == '.'
        ||| is_dir && self.hide_git && name == ".git"@
        ||| is_dir && self.hide_node_modules && name == "node_modules"@
        ||| is_dir && self.hide_target && name == "target"@
        ||| is_dir && self.hide_build && is_build_dir(name)
        ||| !is_dir && self.hide_obj_files && (ext matches Some(e) && is_object_extension(e))
        ||| !is_dir && self.hide_lock_files && is_lock_file(name)
    }

    /// Decides whether an entry is left out, given its extension.
    pub fn skips_with_extension(&self, name: &str, is_dir: bool, ext: &Option<String>) -> (r: bool)
        ensures
            r == self.hides(name@, is_dir, opt_view(*ext)),
    {
        if self.hide_hidden && starts_with_dot(name) {
            return true;
        }
        if is_dir {
            if self.hide_git && same_text(name, ".git") {
                return true;
            }
            if self.hide_node_modules && same_text(name, "node_modules") {
                return true;
            }
            if self.hide_target && same_text(name, "target") {
                return true;
            }
            if self.hide_build && (same_text(name, "build") || same_text(name, "dist")
                || same_text(name, "out")) {
                return true;
            }
        } else {
            if self.hide_obj_files {
                if let Some(e) = ext {
                    if is_object(e.as_str()) {
                        return true;
                    }
                }
            }
            if self.hide_lock_files && is_lock(name) {
                return true;
            }
        }
        false
    }

    /// Decides whether an entry is left out of the tree. For a plain file name the result is
    /// fixed; for another text the extension is what the system's path rules make it.
    pub fn should_skip(&self, name: &str, is_dir: bool) -> (r: bool)
        ensures
            plain_name(name@) ==> r == self.hides(name@, is_dir, extension(name@)),
            exists|ext: Option<Seq<char>>| r == #[trigger] self.hides(name@, is_dir, ext),
    {
        let ext = path_extension(name);
        self.skips_with_extension(name, is_dir, &ext)
    }
}

impl Default for Filters {
    /// Hides dotfiles, `.git`, `node_modules` and `target`.
    fn default() -> (r: Self)
        ensures
            r == (Filters {
                hide_hidden: true,
                hide_git: true,
                hide_node_modules: true,
                hide_target: true,
                hide_build: false,
                hide_obj_files: false,
                hide_lock_files: false,
            }),
    {
        Filters {
            hide_hidden: true,
            hide_git: true,
            hide_node_modules: true,
            hide_target: true,
            hide_build: false,
            hide_obj_files: false,
            hide_lock_files: false,
        }
    }
}

/// Whether a name starts with a dot.
fn starts_with_dot(name: &str) -> (r: bool)
    ensures
        r == (name@.len() > 0 && name@[0] == '.'),
{
    let mut it = name.chars();
    match it.next() {
        Some(c) => c == '.',
        None => false,
    }
}

/// Tests an extension.
fn is_object(e: &str) -> (r: bool)
    ensures
        r == is_object_extension(e@),
{
    same_text(e, "o") || same_text(e, "obj") || same_text(e, "pdb") || same_text(e, "exe")
        || same_text(e, "dll") || same_text(e, "so") || same_text(e, "dylib")
}

/// Tests a file name.
fn is_lock(name: &str) -> (r: bool)
    ensures
        r == is_lock_file(name@),
{
    same_text(name, "Cargo.lock") || same_text(name, "package-lock.json") || same_text(
        name,
        "yarn.lock",
    ) || same_text(name, "pnpm-lock.yaml") || same_text(name, "bun.lockb")
}

/// With every switch off nothing is hidden.
pub proof fn law_no_filter_hides_nothing(name: Seq<char>, is_dir: bool, ext: Option<Seq<char>>)
    ensures
        !(Filters {
            hide_hidden: false,
            hide_git: false,
            hide_node_modules: false,
            hide_target: false,
            hide_build: false,
            hide_obj_files: false,
            hide_lock_files: false,
        }).hides(name, is_dir, ext),
{
}

/// A further switch never brings an entry back.
pub proof fn law_more_filters_hide_more(
    a: Filters,
    b: Filters,
    name: Seq<char>,
    is_dir: bool,
    ext: Option<Seq<char>>,
)
    requires
        a.hide_hidden ==> b.hide_hidden,
        a.hide_git ==> b.hide_git,
        a.hide_node_modules ==> b.hide_node_modules,
        a.hide_target ==> b.hide_target,
        a.hide_build ==> b.hide_build,
        a.hide_obj_files ==> b.hide_obj_files,
        a.hide_lock_files ==> b.hide_lock_files,
        a.hides(name, is_dir, ext),
    ensures
        b.hides(name, is_dir, ext),
{
}

/// Files that are hidden for their extension are those that end in a dot and that extension,
/// with something in front of the dot.
pub proof fn law_extension_is_the_ending(stem: Seq<char>, e: Seq<char>)
    requires
        stem.len() > 0,
        !e.contains('.'),
        stem + seq!['.'] + e != ".."@,
    ensures
        extension(stem + seq!['.'] + e) == Some(e),
{
    let name = stem + seq!['.'] + e;
    lemma_last_dot(stem, e);
    assert(name.skip(stem.len() as int + 1) =~= e);
}

/// The last dot stands in front of a text without dots.
proof fn lemma_last_dot(stem: Seq<char>, e: Seq<char>)
    requires
        !e.contains('.'),
    ensures
        last_dot(stem + seq!['.'] + e) == stem.len(),
    decreases e.len(),
{
    let name = stem + seq!['.'] + e;
    if e.len() > 0 {
        assert(name.last() == e.last());
        assert(e.contains(e.last()));
        let shorter = e.drop_last();
        assert forall|i: int| 0 <= i < shorter.len() implies shorter[i] != '.' by {
            assert(e.contains(e[i]));
        }
        lemma_last_dot(stem, shorter);
        assert(name.drop_last() =~= stem + seq!['.'] + shorter);
    } else {
        assert(name.last() == '.');
    }
}

/// All switches off.
pub open spec fn no_switch() -> Filters {
    Filters {
        hide_hidden: false,
        hide_git: false,
        hide_node_modules: false,
        hide_target: false,
        hide_build: false,
        hide_obj_files: false,
        hide_lock_files: false,
    }
}

/// Every switch hides what it hides alone, whatever the others are: an entry is hidden just if
/// one of the switches that are on hides it.
pub proof fn law_switches_add_up(f: Filters, name: Seq<char>, is_dir: bool, ext: Option<Seq<char>>)
    ensures
        f.hides(name, is_dir, ext) <==> {
            ||| f.hide_hidden && (Filters { hide_hidden: true, ..no_switch() }).hides(
                name,
                is_dir,
                ext,
            )
            ||| f.hide_git && (Filters { hide_git: true, ..no_switch() }).hides(name, is_dir, ext)
            ||| f.hide_node_modules && (Filters { hide_node_modules: true, ..no_switch() }).hides(
                name,
                is_dir,
                ext,
            )
            ||| f.hide_target && (Filters { hide_target: true, ..no_switch() }).hides(
                name,
                is_dir,
                ext,
            )
            ||| f.hide_build && (Filters { hide_build: true, ..no_switch() }).hides(
                name,
                is_dir,
                ext,
            )
            ||| f.hide_obj_files && (Filters { hide_obj_files: true, ..no_switch() }).hides(
                name,
                is_dir,
                ext,
            )
            ||| f.hide_lock_files && (Filters { hide_lock_files: true, ..no_switch() }).hides(
                name,
                is_dir,
                ext,
            )
        },
{
}

/// The first switch hides the files and directories whose name starts with a dot, and no other.
pub proof fn law_dotfiles(name: Seq<char>, is_dir: bool, ext: Option<Seq<char>>)
    ensures
        (Filters { hide_hidden: true, ..no_switch() }).hides(name, is_dir, ext) <==> name.len() > 0
            && name[0] == '.',
{
}

/// Three switches hide the directories of one name each, and no file.
pub proof fn law_directories_of_one_name(name: Seq<char>, is_dir: bool, ext: Option<Seq<char>>)
    ensures
        (Filters { hide_git: true, ..no_switch() }).hides(name, is_dir, ext) <==> is_dir && name
            == seq!['.', 'g', 'i', 't'],
        (Filters { hide_node_modules: true, ..no_switch() }).hides(name, is_dir, ext) <==> is_dir
            && name == seq!['n', 'o', 'd', 'e', '_', 'm', 'o', 'd', 'u', 'l', 'e', 's'],
        (Filters { hide_target: true, ..no_switch() }).hides(name, is_dir, ext) <==> is_dir && name
            == seq!['t', 'a', 'r', 'g', 'e', 't'],
{
    reveal_strlit(".git");
    reveal_strlit("node_modules");
    reveal_strlit("target");
    assert(".git"@ =~= seq!['.', 'g', 'i', 't']);
    assert("node_modules"@ =~= seq!['n', 'o', 'd', 'e', '_', 'm', 'o', 'd', 'u', 'l', 'e', 's']);
    assert("target"@ =~= seq!['t', 'a', 'r', 'g', 'e', 't']);
}

/// The switch for build output hides the directories `build`, `dist` and `out`, and nothing
/// else.
pub proof fn law_build_directories(name: Seq<char>, is_dir: bool, ext: Option<Seq<char>>)
    ensures
        (Filters { hide_build: true, ..no_switch() }).hides(name, is_dir, ext) <==> is_dir && (name
            == seq!['b', 'u', 'i', 'l', 'd'] || name == seq!['d', 'i', 's', 't'] || name
            == seq!['o', 'u', 't']),
{
    reveal_strlit("build");
    reveal_strlit("dist");
    reveal_strlit("out");
    assert("build"@ =~= seq!['b', 'u', 'i', 'l', 'd']);
    assert("dist"@ =~= seq!['d', 'i', 's', 't']);
    assert("out"@ =~= seq!['o', 'u', 't']);
}

/// The switch for object files hides the files with one of seven extensions, and nothing else:
/// a file with any other extension, or without one, is left.
pub proof fn law_object_files(name: Seq<char>, is_dir: bool, ext: Option<Seq<char>>)
    ensures
        (Filters { hide_obj_files: true, ..no_switch() }).hides(name, is_dir, ext) <==> {
            &&& !is_dir
            &&& ext matches Some(e) && (e == seq!['o'] || e == seq!['o', 'b', 'j'] || e
                == seq!['p', 'd', 'b'] || e == seq!['e', 'x', 'e'] || e == seq!['d', 'l', 'l'] || e
                == seq!['s', 'o'] || e == seq!['d', 'y', 'l', 'i', 'b'])
        },
{
    reveal_strlit("o");
    reveal_strlit("obj");
    reveal_strlit("pdb");
    reveal_strlit("exe");
    reveal_strlit("dll");
    reveal_strlit("so");
    reveal_strlit("dylib");
    assert("o"@ =~= seq!['o']);
    assert("obj"@ =~= seq!['o', 'b', 'j']);
    assert("pdb"@ =~= seq!['p', 'd', 'b']);
    assert("exe"@ =~= seq!['e', 'x', 'e']);
    assert("dll"@ =~= seq!['d', 'l', 'l']);
    assert("so"@ =~= seq!['s', 'o']);
    assert("dylib"@ =~= seq!['d', 'y', 'l', 'i', 'b']);
}

/// The switch for lock files hides the files of five names, and nothing else.
pub proof fn law_lock_files(name: Seq<char>, is_dir: bool, ext: Option<Seq<char>>)
    ensures
        (Filters { hide_lock_files: true, ..no_switch() }).hides(name, is_dir, ext) <==> {
            &&& !is_dir
            &&& {
                ||| name == seq!['C', 'a', 'r', 'g', 'o', '.', 'l', 'o', 'c', 'k']
                ||| name == seq![
                    'p',
                    'a',
                    'c',
                    'k',
                    'a',
                    'g',
                    'e',
                    '-',
                    'l',
                    'o',
                    'c',
                    'k',
                    '.',
                    'j',
                    's',
                    'o',
                    'n',
                ]
                ||| name == seq!['y', 'a', 'r', 'n', '.', 'l', 'o', 'c', 'k']
                ||| name == seq![
                    'p',
                    'n',
                    'p',
                    'm',
                    '-',
                    'l',
                    'o',
                    'c',
                    'k',
                    '.',
                    'y',
                    'a',
                    'm',
                    'l',
                ]
                ||| name == seq!['b', 'u', 'n', '.', 'l', 'o', 'c', 'k', 'b']
            }
        },
{
    reveal_strlit("Cargo.lock");
    reveal_strlit("package-lock.json");
    reveal_strlit("yarn.lock");
    reveal_strlit("pnpm-lock.yaml");
    reveal_strlit("bun.lockb");
    assert("Cargo.lock"@ =~= seq!['C', 'a', 'r', 'g', 'o', '.', 'l', 'o', 'c', 'k']);
    assert("package-lock.json"@ =~= seq![
        'p',
        'a',
        'c',
        'k',
        'a',
        'g',
        'e',
        '-',
        'l',
        'o',
        'c',
        'k',
        '.',
        'j',
        's',
        'o',
        'n',
    ]);
    assert("yarn.lock"@ =~= seq!['y', 'a', 'r', 'n', '.', 'l', 'o', 'c', 'k']);
    assert("pnpm-lock.yaml"@ =~= seq![
        'p',
        'n',
        'p',
        'm',
        '-',
        'l',
        'o',
        'c',
        'k',
        '.',
        'y',
        'a',
        'm',
        'l',
    ]);
    assert("bun.lockb"@ =~= seq!['b', 'u', 'n', '.', 'l', 'o', 'c', 'k', 'b']);
}

/// A name has an extension just if it is not `..` and has a dot behind its first character. It
/// holds no dot, and the name ends in a dot and it.
pub proof fn law_what_an_extension_is(name: Seq<char>)
    ensures
        extension(name) is None <==> name == seq!['.', '.'] || forall|i: int|
            1 <= i < name.len() ==> name[i] != '.',
        extension(name) matches Some(e) ==> {
            &&& !e.contains('.')
            &&& e.len() + 2 <= name.len()
            &&& name.skip(name.len() - e.len()) == e
            &&& name[name.len() - e.len() - 1] == '.'
        },
{
    reveal_strlit("..");
    assert(".."@ =~= seq!['.', '.']);
    lemma_last_dot_place(name);
    let k = last_dot(name);
    if let Some(e) = extension(name) {
        assert(e.len() == name.len() - k - 1);
        assert(name.skip(name.len() - e.len()) =~= e);
        assert forall|i: int| 0 <= i < e.len() implies e[i] != '.' by {
            assert(e[i] == name[k + 1 + i]);
        }
    }
}

/// The last dot is a dot, and none follows it.
proof fn lemma_last_dot_place(name: Seq<char>)
    ensures
        -1 <= last_dot(name) < name.len(),
        last_dot(name) >= 0 ==> name[last_dot(name)] == '.',
        forall|i: int| last_dot(name) < i < name.len() ==> name[i] != '.',
    decreases name.len(),
{
    if name.len() > 0 && name.last() != '.' {
        lemma_last_dot_place(name.drop_last());
        let k = last_dot(name.drop_last());
        assert forall|i: int| k < i < name.len() implies name[i] != '.' by {
            if i < name.len() - 1 {
                assert(name.drop_last()[i] == name[i]);
            }
        }
    }
}

/// A name is plain just if it holds neither kind of slash, and no colon behind its first
/// character; what an optional text holds is taken over as it stands.
pub proof fn law_plain_names(name: Seq<char>, text: Option<String>)
    ensures
        plain_name(name) <==> (forall|i: int|
            0 <= i < name.len() ==> name[i] != '/' && name[i] != '\\') && (name.len() >= 2
            ==> name[1] != ':'),
        text is None <==> opt_view(text) is None,
        text matches Some(s) ==> opt_view(text) == Some(s@),
{
}

} // verus!
