//! Text helpers: characters of a string, letter case, equality, substring search.
use vstd::prelude::*;
use vstd::utf8::is_ascii_chars;

verus! {

/// `String::push` appends one character to the end of the string.
pub assume_specification[ String::push ](s: &mut String, c: char)
    ensures
        final(s)@ == old(s)@.push(c),
;

/// What `str::to_lowercase` makes of a string: its Unicode lowercase, which takes no
/// account of the locale.
pub uninterp spec fn lowercase(s: Seq<char>) -> Seq<char>;

/// A character with the ASCII letters `A` to `Z` made `a` to `z`.
pub open spec fn ascii_lower_char(c: char) -> char {
    if 'A' <= c <= 'Z' {
        (c as u32 + 32) as char
    } else {
        c
    }
}

/// A text with the ASCII letters `A` to `Z` made `a` to `z`.
pub open spec fn ascii_lower(s: Seq<char>) -> Seq<char> {
    s.map_values(|c: char| ascii_lower_char(c))
}

/// A text with the ASCII letters `a` to `z` made `A` to `Z`.
pub open spec fn ascii_upper(s: Seq<char>) -> Seq<char> {
    s.map_values(
        |c: char|
            if 'a' <= c <= 'z' {
                (c as u32 - 32) as char
            } else {
                c
            },
    )
}

/// A text in lower case: of an ASCII text the letters `A` to `Z` become `a` to `z`, and of
/// any other text it is the Unicode lowercase.
pub open spec fn lower(s: Seq<char>) -> Seq<char> {
    if is_ascii_chars(s) {
        ascii_lower(s)
    } else {
        lowercase(s)
    }
}

/// Calls `str::to_lowercase`. The result is a function of the characters of `s`; of an ASCII
/// text, the letters `A` to `Z` become `a` to `z` and the rest stays. What it is of any other
/// text (the Unicode lowercase mapping) is left to the standard library, and so is how the
/// lowercase of a text comes of that of its characters.
#[verifier::external_body]
pub(crate) fn to_lower(s: &str) -> (r: String)
    ensures
        r@ == lowercase(s@),
        is_ascii_chars(s@) ==> r@ == ascii_lower(s@),
{
    s.to_lowercase()
}

/// `s` as it is compared: unchanged when case matters, else in lower case.
pub open spec fn folded(s: Seq<char>, case_sensitive: bool) -> Seq<char> {
    if case_sensitive {
        s
    } else {
        lower(s)
    }
}

/// Brings a string into the form in which it is compared.
pub fn fold(s: &str, case_sensitive: bool) -> (r: String)
    ensures
        r@ == folded(s@, case_sensitive),
{
    if case_sensitive {
        s.to_owned()
    } else {
        to_lower(s)
    }
}

/// The characters of a string.
pub fn chars_of(s: &str) -> (r: Vec<char>)
    ensures
        r@ == s@,
{
    let mut r: Vec<char> = Vec::new();
    for c in it: s.chars()
        invariant
            it.seq() == s@,
            r@ == s@.take(it.index() as int),
    {
        r.push(c);
    }
    assert(s@.take(s@.len() as int) == s@);
    r
}

/// Whether two strings hold the same characters.
pub fn same_text(a: &str, b: &str) -> (r: bool)
    ensures
        r == (a@ == b@),
{
    let x = chars_of(a);
    let y = chars_of(b);
    if x.len() != y.len() {
        return false;
    }
    let mut i: usize = 0;
    while i < x.len()
        invariant
            x@ == a@,
            y@ == b@,
            i <= x.len() == y.len(),
            forall|j: int| 0 <= j < i ==> x@[j] == y@[j],
        decreases x.len() - i,
    {
        if x[i] != y[i] {
            return false;
        }
        i += 1;
    }
    assert(x@ =~= y@);
    true
}

/// Whether `needle` stands in `hay` at position `at`.
pub open spec fn occurs_at(hay: Seq<char>, needle: Seq<char>, at: int) -> bool {
    &&& 0 <= at
    &&& at + needle.len() <= hay.len()
    &&& hay.subrange(at, at + needle.len()) == needle
}

/// Whether `needle` stands somewhere in `hay`.
pub open spec fn has_part(hay: Seq<char>, needle: Seq<char>) -> bool {
    exists|at: int| occurs_at(hay, needle, at)
}

/// Tests one position.
pub(crate) fn occurs_here(hay: &Vec<char>, needle: &Vec<char>, at: usize) -> (r: bool)
    requires
        at + needle.len() <= hay.len(),
    ensures
        r == occurs_at(hay@, needle@, at as int),
{
    let mut j: usize = 0;
    while j < needle.len()
        invariant
            j <= needle.len(),
            at + needle.len() <= hay.len(),
            forall|k: int| 0 <= k < j ==> hay@[at + k] == needle@[k],
        decreases needle.len() - j,
    {
        if hay[at + j] != needle[j] {
            assert(hay@.subrange(at as int, at + needle.len())[j as int] == hay@[at + j]);
            return false;
        }
        j += 1;
    }
    assert(hay@.subrange(at as int, at + needle.len()) =~= needle@);
    true
}

/// The first position at or after `from` where `needle` stands in `hay`.
pub fn find_from(hay: &Vec<char>, needle: &Vec<char>, from: usize) -> (r: Option<usize>)
    ensures
        match r {
            Some(at) => {
                &&& from <= at
                &&& occurs_at(hay@, needle@, at as int)
                &&& forall|k: int| from <= k < at ==> !occurs_at(hay@, needle@, k)
            },
            None => forall|k: int| from <= k ==> !occurs_at(hay@, needle@, k),
        },
{
    if needle.len() > hay.len() {
        return None;
    }
    let mut i: usize = from;
    while i <= hay.len() - needle.len()
        invariant
            needle.len() <= hay.len(),
            from <= i,
            forall|k: int| from <= k < i ==> !occurs_at(hay@, needle@, k),
        decreases hay.len() + 1 - i,
    {
        if occurs_here(hay, needle, i) {
            return Some(i);
        }
        if i == hay.len() - needle.len() {
            return None;
        }
        i += 1;
    }
    None
}

/// Whether `part` is a substring of `text`.
pub fn contains_text(text: &str, part: &str) -> (r: bool)
    ensures
        r == has_part(text@, part@),
{
    let hay = chars_of(text);
    let needle = chars_of(part);
    match find_from(&hay, &needle, 0) {
        Some(_) => true,
        None => {
            assert forall|at: int| !occurs_at(text@, part@, at) by {}
            false
        },
    }
}

/// Whether the character `c` occurs in a string.
pub fn contains_char(s: &str, c: char) -> (r: bool)
    ensures
        r == s@.contains(c),
{
    for d in it: s.chars()
        invariant
            it.seq() == s@,
            forall|j: int| 0 <= j < it.index() ==> s@[j] != c,
    {
        if d == c {
            return true;
        }
    }
    false
}

/// With regard to case a text is compared as it stands. Without, every letter `A` to `Z` of an
/// ASCII text is compared as the one 32 places on, and every other character as it stands; any
/// other text is compared by its Unicode lowercase.
pub proof fn law_folding(s: Seq<char>)
    ensures
        folded(s, true) == s,
        is_ascii_chars(s) ==> folded(s, false).len() == s.len(),
        is_ascii_chars(s) ==> forall|i: int|
            0 <= i < s.len() ==> (#[trigger] folded(s, false)[i]) as int == (if 65 <= s[i] as int
                <= 90 {
                s[i] as int + 32
            } else {
                s[i] as int
            }),
        !is_ascii_chars(s) ==> folded(s, false) == lowercase(s),
{
}

/// A text stands at a place of another one just if that one is made of as many characters as
/// the place says, the text, and a rest.
pub proof fn law_standing_at_a_place(hay: Seq<char>, needle: Seq<char>, at: int)
    ensures
        occurs_at(hay, needle, at) ==> hay == hay.take(at) + needle + hay.skip(
            at + needle.len(),
        ),
        forall|a: Seq<char>, b: Seq<char>|
            hay == #[trigger] (a + needle + b) ==> occurs_at(hay, needle, a.len() as int),
{
    if occurs_at(hay, needle, at) {
        assert(hay =~= hay.take(at) + needle + hay.skip(at + needle.len()));
    }
    assert forall|a: Seq<char>, b: Seq<char>| hay == #[trigger] (a + needle + b) implies occurs_at(
        hay,
        needle,
        a.len() as int,
    ) by {
        assert(hay.subrange(a.len() as int, a.len() as int + needle.len()) =~= needle);
    }
}

/// Whether a text is made of a beginning, a part and a rest.
pub open spec fn made_of(text: Seq<char>, start: Seq<char>, part: Seq<char>, rest: Seq<char>) -> bool {
    text == start + part + rest
}

/// A text holds another one as a part just if it is made of a beginning, that one and a rest.
pub proof fn law_parts(text: Seq<char>, part: Seq<char>)
    ensures
        has_part(text, part) <==> exists|start: Seq<char>, rest: Seq<char>|
            made_of(text, start, part, rest),
{
    if has_part(text, part) {
        let at = choose|at: int| occurs_at(text, part, at);
        law_standing_at_a_place(text, part, at);
        assert(made_of(text, text.take(at), part, text.skip(at + part.len())));
    }
    if exists|start: Seq<char>, rest: Seq<char>| made_of(text, start, part, rest) {
        let (start, rest) = choose|start: Seq<char>, rest: Seq<char>|
            made_of(text, start, part, rest);
        law_standing_at_a_place(text, part, 0);
        assert(text == start + part + rest);
        assert(occurs_at(text, part, start.len() as int));
    }
}

} // verus!
