//! The lines of the tree.
use crate::number::{decimal, law_decimal_reads_back, push_decimal, read_decimal};
use crate::size::{format_size_padded, padded_size_text};
use std::path::PathBuf;
use vstd::prelude::*;

verus! {

/// A line of the tree: its text with the newline, and the entry that it stands for.
pub struct TreeLine {
    pub text: String,
    pub path: PathBuf,
    pub is_dir: bool,
    pub size: u64,
}

/// What a `TreeLine` holds.
pub struct LineView {
    pub text: Seq<char>,
    pub path: PathBuf,
    pub is_dir: bool,
    pub size: u64,
}

impl View for TreeLine {
    type V = LineView;

    open spec fn view(&self) -> LineView {
        LineView { text: self.text@, path: self.path, is_dir: self.is_dir, size: self.size }
    }
}

impl TreeLine {
    /// The size as it is shown beside a file; a directory has none.
    pub fn size_column(&self) -> (r: Option<String>)
        ensures
            r is None <==> self.is_dir,
            r matches Some(text) ==> text@ == padded_size_text(self.size as nat),
    {
        if self.is_dir {
            None
        } else {
            Some(format_size_padded(self.size))
        }
    }
}

/// The branch that leads to an entry.
pub open spec fn connector(last: bool) -> Seq<char> {
    if last {
        "└── "@
    } else {
        "├── "@
    }
}

/// What stands in front of the entries of a directory: the prefix of the directory itself,
/// and its branch drawn on, unless it is the last one.
pub open spec fn child_prefix(prefix: Seq<char>, last: bool) -> Seq<char> {
    prefix + if last {
        "    "@
    } else {
        "│   "@
    }
}

/// Prefix, branch and name of an entry.
pub open spec fn stem(prefix: Seq<char>, last: bool, name: Seq<char>) -> Seq<char> {
    prefix + connector(last) + name
}

/// The line of a directory.
pub open spec fn dir_line(prefix: Seq<char>, last: bool, name: Seq<char>, path: PathBuf) -> LineView {
    LineView { text: stem(prefix, last, name) + "/\n"@, path, is_dir: true, size: 0 }
}

/// The text of a file's line: the number of lines is named where it is known.
pub open spec fn file_text(stem: Seq<char>, lines: Option<nat>) -> Seq<char> {
    match lines {
        Some(n) => stem + " ("@ + decimal(n) + " lines)\n"@,
        None => stem + "\n"@,
    }
}

/// The newlines in a file.
pub open spec fn newlines(content: Seq<u8>) -> nat
    decreases content.len(),
{
    if content.len() == 0 {
        0
    } else {
        newlines(content.drop_last()) + if content.last() == 10 {
            1nat
        } else {
            0nat
        }
    }
}

/// Whether a file is binary: one of its first 512 bytes is zero.
pub open spec fn is_binary(content: Seq<u8>) -> bool {
    exists|i: int| 0 <= i < content.len() && i < 512 && content[i] == 0
}

/// The number of lines of a text file; a binary file has none.
pub open spec fn lines_in(content: Seq<u8>) -> Option<nat> {
    if is_binary(content) {
        None
    } else {
        Some(newlines(content))
    }
}

/// A whole number as a natural one.
pub open spec fn opt_nat(n: Option<usize>) -> Option<nat> {
    match n {
        Some(n) => Some(n as nat),
        None => None,
    }
}

/// Counts the lines of a text file; a binary file has no count.
pub fn line_count(content: &[u8]) -> (r: Option<usize>)
    ensures
        opt_nat(r) == lines_in(content@),
{
    let mut count: usize = 0;
    let mut i: usize = 0;
    while i < content.len()
        invariant
            i <= content.len(),
            count <= i,
            count == newlines(content@.take(i as int)),
            forall|j: int| 0 <= j < i && j < 512 ==> content@[j] != 0,
        decreases content.len() - i,
    {
        if i < 512 && content[i] == 0 {
            return None;
        }
        assert(content@.take(i + 1).drop_last() =~= content@.take(i as int));
        if content[i] == 10 {
            count += 1;
        }
        i += 1;
    }
    assert(content@.take(content.len() as int) =~= content@);
    Some(count)
}

/// Puts prefix, branch and name together.
pub(crate) fn make_stem(prefix: &str, last: bool, name: &str) -> (r: String)
    ensures
        r@ == stem(prefix@, last, name@),
{
    let mut out = prefix.to_owned();
    if last {
        out.append("└── ");
    } else {
        out.append("├── ");
    }
    out.append(name);
    out
}

/// Draws the prefix of a directory on for its entries.
pub(crate) fn make_child_prefix(prefix: &str, last: bool) -> (r: String)
    ensures
        r@ == child_prefix(prefix@, last),
{
    let mut out = prefix.to_owned();
    if last {
        out.append("    ");
    } else {
        out.append("│   ");
    }
    out
}

/// Makes the line of a directory.
pub(crate) fn make_dir_line(prefix: &str, last: bool, name: &str, path: PathBuf) -> (r: TreeLine)
    ensures
        r@ == dir_line(prefix@, last, name@, path),
{
    let mut text = make_stem(prefix, last, name);
    text.append("/\n");
    TreeLine { text, path, is_dir: true, size: 0 }
}

/// A file whose line is to be made: prefix, branch and name, the path, and whether its lines
/// are to be counted.
pub struct FileTask {
    pub stem: String,
    pub path: PathBuf,
    pub count_lines: bool,
}

/// What a `FileTask` holds.
pub struct FileTaskView {
    pub stem: Seq<char>,
    pub path: PathBuf,
    pub count_lines: bool,
}

impl View for FileTask {
    type V = FileTaskView;

    open spec fn view(&self) -> FileTaskView {
        FileTaskView { stem: self.stem@, path: self.path, count_lines: self.count_lines }
    }
}

impl FileTaskView {
    /// The line of the file: its size is zero where it is not known, and its lines are
    /// counted where that is asked for and the content could be read.
    pub open spec fn line(self, size: Option<u64>, content: Option<Seq<u8>>) -> LineView {
        let lines = if self.count_lines && content is Some {
            lines_in(content->0)
        } else {
            None
        };
        LineView {
            text: file_text(self.stem, lines),
            path: self.path,
            is_dir: false,
            size: match size {
                Some(n) => n,
                None => 0,
            },
        }
    }
}

/// The bytes of a file, where they could be read.
pub open spec fn opt_bytes(content: Option<Vec<u8>>) -> Option<Seq<u8>> {
    match content {
        Some(bytes) => Some(bytes@),
        None => None,
    }
}

impl FileTask {
    /// Makes the line of the file from its size and its content, as far as they are known.
    pub fn finish(self, size: Option<u64>, content: &Option<Vec<u8>>) -> (r: TreeLine)
        ensures
            r@ == self@.line(size, opt_bytes(*content)),
    {
        let mut text = self.stem;
        let mut lines: Option<usize> = None;
        if self.count_lines {
            if let Some(bytes) = content {
                lines = line_count(bytes.as_slice());
            }
        }
        match lines {
            Some(n) => {
                text.append(" (");
                push_decimal(&mut text, n as u64);
                text.append(" lines)\n");
            },
            None => {
                text.append("\n");
            },
        }
        let size = match size {
            Some(n) => n,
            None => 0,
        };
        TreeLine { text, path: self.path, is_dir: false, size }
    }
}

/// A directory on the way adds four characters to what stands in front of its entries, at
/// every depth: a bar and three spaces, or four spaces below the last entry.
pub proof fn law_each_level_indents_by_four(prefix: Seq<char>, last: bool)
    ensures
        ({
            let p = child_prefix(prefix, last);
            let n = prefix.len() as int;
            &&& p.len() == n + 4
            &&& p.take(n) == prefix
            &&& p[n] == (if last {
                ' '
            } else {
                '│'
            })
            &&& p[n + 1] == ' '
            &&& p[n + 2] == ' '
            &&& p[n + 3] == ' '
        }),
{
    reveal_strlit("    ");
    reveal_strlit("│   ");
    assert(child_prefix(prefix, last).take(prefix.len() as int) =~= prefix);
}

/// The name of an entry stands behind what stands in front of the directory's entries and a
/// branch of four characters, which is bent for the last entry.
pub proof fn law_name_stands_behind_the_branch(prefix: Seq<char>, last: bool, name: Seq<char>)
    ensures
        ({
            let s = stem(prefix, last, name);
            let n = prefix.len() as int;
            &&& s.len() == n + 4 + name.len()
            &&& s.take(n) == prefix
            &&& s[n] == (if last {
                '└'
            } else {
                '├'
            })
            &&& s[n + 1] == '─'
            &&& s[n + 2] == '─'
            &&& s[n + 3] == ' '
            &&& s.skip(n + 4) == name
        }),
{
    reveal_strlit("└── ");
    reveal_strlit("├── ");
    let s = stem(prefix, last, name);
    assert(s.take(prefix.len() as int) =~= prefix);
    assert(s.skip(prefix.len() as int + 4) =~= name);
}

/// The line of a directory has a slash and a newline behind the name, and no size.
pub proof fn law_directory_line(prefix: Seq<char>, last: bool, name: Seq<char>, path: PathBuf)
    ensures
        ({
            let line = dir_line(prefix, last, name, path);
            &&& line.text == stem(prefix, last, name) + seq!['/', '\n']
            &&& line.path == path
            &&& line.is_dir
            &&& line.size == 0
        }),
{
    reveal_strlit("/\n");
    assert(dir_line(prefix, last, name, path).text =~= stem(prefix, last, name) + seq!['/', '\n']);
}

/// The line of a file begins with prefix, branch and name. Where the lines are not counted, or
/// the content is not known or binary, nothing but the newline follows, and else the number of
/// lines between `" ("` and `" lines)"`. The size is the file's, or zero where it is not known.
pub proof fn law_file_line(task: FileTaskView, size: Option<u64>, content: Option<Seq<u8>>)
    ensures
        ({
            let line = task.line(size, content);
            let n = task.stem.len() as int;
            let rest = line.text.skip(n);
            let counted = task.count_lines && content is Some && lines_in(content->0) is Some;
            &&& line.text.take(n) == task.stem
            &&& !counted ==> rest == seq!['\n']
            &&& counted ==> {
                &&& rest.len() > 10
                &&& rest.take(2) == seq![' ', '(']
                &&& rest.skip(rest.len() - 8) == seq![
                    ' ',
                    'l',
                    'i',
                    'n',
                    'e',
                    's',
                    ')',
                    '\n',
                ]
                &&& read_decimal(rest.subrange(2, rest.len() - 8)) == lines_in(content->0)->0
            }
            &&& line.path == task.path
            &&& !line.is_dir
            &&& size is Some ==> line.size == size->0
            &&& size is None ==> line.size == 0
        }),
{
    reveal_strlit("\n");
    reveal_strlit(" (");
    reveal_strlit(" lines)\n");
    let text = task.line(size, content).text;
    let n = task.stem.len() as int;
    assert(text.take(n) =~= task.stem);
    let rest = text.skip(n);
    if task.count_lines && content is Some && lines_in(content->0) is Some {
        let count = lines_in(content->0)->0;
        law_decimal_reads_back(count);
        assert(rest =~= " ("@ + decimal(count) + " lines)\n"@);
        assert(rest.take(2) =~= seq![' ', '(']);
        assert(rest.skip(rest.len() - 8) =~= seq![' ', 'l', 'i', 'n', 'e', 's', ')', '\n']);
        assert(rest.subrange(2, rest.len() - 8) =~= decimal(count));
    } else {
        assert(rest =~= seq!['\n']);
    }
}

/// How the number of lines grows with a file, byte by byte: an empty file has none, a newline
/// adds one wherever it stands, and any other byte none; a zero makes the file binary as long
/// as fewer than 512 bytes stand before it, and what is binary stays so.
pub proof fn law_one_more_byte(content: Seq<u8>, byte: u8)
    ensures
        lines_in(Seq::<u8>::empty()) == Some(0nat),
        lines_in(content) is None ==> lines_in(content.push(byte)) is None,
        lines_in(content) matches Some(n) ==> lines_in(content.push(byte)) == (if byte == 0
            && content.len() < 512 {
            None
        } else if byte == 10 {
            Some(n + 1)
        } else {
            Some(n)
        }),
{
    let more = content.push(byte);
    assert(more.drop_last() =~= content);
    assert(more[content.len() as int] == byte);
    if is_binary(content) {
        let i = choose|i: int| 0 <= i < content.len() && i < 512 && content[i] == 0;
        assert(more[i] == 0);
    } else if is_binary(more) {
        let i = choose|i: int| 0 <= i < more.len() && i < 512 && more[i] == 0;
        if i < content.len() {
            assert(content[i] == 0);
        }
    }
}

/// The newlines of two stretches of bytes are those of the one and those of the other; a
/// newline is one, and no other byte is.
pub proof fn law_newlines_add_up(a: Seq<u8>, b: Seq<u8>, byte: u8)
    ensures
        newlines(a + b) == newlines(a) + newlines(b),
        newlines(seq![byte]) == (if byte == 10 {
            1nat
        } else {
            0nat
        }),
    decreases b.len(),
{
    assert(seq![byte].drop_last() =~= Seq::<u8>::empty());
    assert(newlines(seq![byte].drop_last()) == 0);
    if b.len() == 0 {
        assert(a + b =~= a);
    } else {
        law_newlines_add_up(a, b.drop_last(), byte);
        assert((a + b).drop_last() =~= a + b.drop_last());
        assert((a + b).last() == b.last());
    }
}

/// What a line, a file task and the results of counting and reading hold is taken over as it
/// stands.
pub proof fn law_views_leave_nothing_out(
    line: TreeLine,
    task: FileTask,
    count: Option<usize>,
    content: Option<Vec<u8>>,
)
    ensures
        line@.text == line.text@,
        line@.path == line.path,
        line@.is_dir == line.is_dir,
        line@.size == line.size,
        task@.stem == task.stem@,
        task@.path == task.path,
        task@.count_lines == task.count_lines,
        count is None <==> opt_nat(count) is None,
        count matches Some(n) ==> opt_nat(count) == Some(n as nat),
        content is None <==> opt_bytes(content) is None,
        content matches Some(bytes) ==> opt_bytes(content) == Some(bytes@),
{
}

} // verus!
