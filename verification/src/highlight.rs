//! Marking the matches of a query in a text.
use crate::glob::{has_wildcard, is_glob};
use crate::text::{ascii_lower, chars_of, find_from, fold, folded, has_part, lower, occurs_at};
use vstd::prelude::*;
use vstd::utf8::is_ascii_chars;

verus! {

/// A stretch of a text, given by the characters where it starts and ends, and whether it is
/// marked.
#[derive(Clone, Copy, Debug, PartialEq, Eq, Structural)]
pub struct Span {
    pub start: usize,
    pub end: usize,
    pub highlighted: bool,
}

/// A piece of a text, and whether it is marked.
pub struct Segment {
    pub text: String,
    pub highlighted: bool,
}

/// The first place at or after `pos` where `needle` stands in `hay`.
pub open spec fn first_at(hay: Seq<char>, needle: Seq<char>, pos: int) -> Option<int>
    decreases hay.len() + 1 - pos,
{
    if pos + needle.len() > hay.len() {
        None
    } else if occurs_at(hay, needle, pos) {
        Some(pos)
    } else {
        first_at(hay, needle, pos + 1)
    }
}

/// `first_at` gives the first match.
proof fn lemma_first_at(hay: Seq<char>, needle: Seq<char>, pos: int)
    ensures
        match first_at(hay, needle, pos) {
            Some(at) => {
                &&& pos <= at
                &&& occurs_at(hay, needle, at)
                &&& forall|k: int| pos <= k < at ==> !occurs_at(hay, needle, k)
            },
            None => forall|k: int| pos <= k ==> !occurs_at(hay, needle, k),
        },
    decreases hay.len() + 1 - pos,
{
    if pos + needle.len() <= hay.len() && !occurs_at(hay, needle, pos) {
        lemma_first_at(hay, needle, pos + 1);
    }
}

/// The matches of `needle` from the place `from` of `hay` on, which do not overlap.
pub open spec fn matches_from(hay: Seq<char>, needle: Seq<char>, from: int) -> Seq<int>
    decreases hay.len() - from,
    when needle.len() > 0
    via matches_from_shrinks
{
    match first_at(hay, needle, from) {
        Some(at) => seq![at] + matches_from(hay, needle, at + needle.len()),
        None => Seq::empty(),
    }
}

#[via_fn]
proof fn matches_from_shrinks(hay: Seq<char>, needle: Seq<char>, from: int) {
    lemma_first_at(hay, needle, from);
}

/// Where the character `i` of a text starts in the folded text, given how many characters
/// each character of the text is folded into.
pub open spec fn place(widths: Seq<nat>, i: int) -> int
    decreases i,
{
    if i <= 0 {
        0
    } else {
        place(widths, i - 1) + widths[i - 1]
    }
}

/// Whether the character `i` of a text, once folded, lies at least in part between the places
/// `a` and `b` of the folded text.
pub open spec fn touches(widths: Seq<nat>, a: int, b: int, i: int) -> bool {
    place(widths, i) < b && a < place(widths, i + 1)
}

/// The first character at or after `i` that ends behind the place `a`.
pub open spec fn first_ending_behind(widths: Seq<nat>, a: int, i: int) -> int
    decreases widths.len() - i,
{
    if i < widths.len() && place(widths, i + 1) <= a {
        first_ending_behind(widths, a, i + 1)
    } else {
        i
    }
}

/// The first character at or after `i` that starts at or behind the place `b`.
pub open spec fn first_starting_from(widths: Seq<nat>, b: int, i: int) -> int
    decreases widths.len() - i,
{
    if i < widths.len() && place(widths, i) < b {
        first_starting_from(widths, b, i + 1)
    } else {
        i
    }
}

/// A stretch of characters, unless it is empty.
pub open spec fn stretch(start: int, end: int, highlighted: bool) -> Seq<(int, int, bool)> {
    if start < end {
        seq![(start, end, highlighted)]
    } else {
        Seq::empty()
    }
}

/// The stretches of a text from its character `pos` on, with the matches of `needle` from the
/// place `from` of the folded text on: for each match the characters that it touches are
/// marked, without those that a match before it has, and what lies between is not.
pub open spec fn spans_from(
    widths: Seq<nat>,
    hay: Seq<char>,
    needle: Seq<char>,
    pos: int,
    from: int,
) -> Seq<(int, int, bool)>
    decreases hay.len() - from,
    when needle.len() > 0
    via spans_from_shrinks
{
    match first_at(hay, needle, from) {
        Some(a) => {
            let b = a + needle.len();
            let start = first_ending_behind(widths, a, pos);
            let end = first_starting_from(widths, b, start);
            stretch(pos, start, false) + (stretch(start, end, true) + spans_from(
                widths,
                hay,
                needle,
                end,
                b,
            ))
        },
        None => stretch(pos, widths.len() as int, false),
    }
}

#[via_fn]
proof fn spans_from_shrinks(
    widths: Seq<nat>,
    hay: Seq<char>,
    needle: Seq<char>,
    pos: int,
    from: int,
) {
    lemma_first_at(hay, needle, from);
}

/// The stretches of a text, given how many characters each of its characters is folded into,
/// the folded text and the needle.
pub open spec fn spans_of(widths: Seq<nat>, hay: Seq<char>, needle: Seq<char>) -> Seq<
    (int, int, bool),
> {
    spans_from(widths, hay, needle, 0, 0)
}

/// Later characters start later.
proof fn lemma_places_grow(widths: Seq<nat>, i: int, j: int)
    requires
        0 <= i <= j <= widths.len(),
    ensures
        0 <= place(widths, i) <= place(widths, j),
    decreases j,
{
    if i < j {
        lemma_places_grow(widths, i, j - 1);
    } else if i > 0 {
        lemma_places_grow(widths, i - 1, j - 1);
    }
}

/// What `first_ending_behind` skips and where it stops.
proof fn lemma_first_ending_behind(widths: Seq<nat>, a: int, i: int)
    requires
        0 <= i <= widths.len(),
    ensures
        i <= first_ending_behind(widths, a, i) <= widths.len(),
        forall|k: int|
            i <= k < first_ending_behind(widths, a, i) ==> #[trigger] place(widths, k + 1) <= a,
        first_ending_behind(widths, a, i) < widths.len() ==> a < place(
            widths,
            first_ending_behind(widths, a, i) + 1,
        ),
    decreases widths.len() - i,
{
    if i < widths.len() && place(widths, i + 1) <= a {
        lemma_first_ending_behind(widths, a, i + 1);
    }
}

/// What `first_starting_from` skips and where it stops.
proof fn lemma_first_starting_from(widths: Seq<nat>, b: int, i: int)
    requires
        0 <= i <= widths.len(),
    ensures
        i <= first_starting_from(widths, b, i) <= widths.len(),
        forall|k: int|
            i <= k < first_starting_from(widths, b, i) ==> #[trigger] place(widths, k) < b,
        first_starting_from(widths, b, i) < widths.len() ==> b <= place(
            widths,
            first_starting_from(widths, b, i),
        ),
    decreases widths.len() - i,
{
    if i < widths.len() && place(widths, i) < b {
        lemma_first_starting_from(widths, b, i + 1);
    }
}

/// The widths as numbers without a limit.
pub open spec fn counts(widths: Seq<usize>) -> Seq<nat> {
    widths.map_values(|w: usize| w as nat)
}

/// How far a place can lie.
proof fn lemma_place_bound(widths: Seq<usize>, i: int)
    requires
        0 <= i <= widths.len(),
    ensures
        0 <= place(counts(widths), i) <= i * usize::MAX,
    decreases i,
{
    if i > 0 {
        lemma_place_bound(widths, i - 1);
        assert((i - 1) * usize::MAX + usize::MAX == i * usize::MAX) by (nonlinear_arith);
    }
}

/// A place that is one character on, computed without overflow.
fn next_place(widths: &Vec<usize>, i: usize, at: u128) -> (r: u128)
    requires
        i < widths.len(),
        at == place(counts(widths@), i as int),
    ensures
        r == place(counts(widths@), i + 1),
{
    proof {
        lemma_place_bound(widths@, i + 1);
        assert((i + 1) * usize::MAX <= u128::MAX) by (nonlinear_arith)
            requires
                i < usize::MAX,
                usize::MAX <= 0xffff_ffff_ffff_ffff,
        ;
    }
    at + widths[i] as u128
}

/// Goes on from a character to the first one that ends behind the place `a`; says where it
/// starts, too.
fn skip_before(widths: &Vec<usize>, a: usize, i: usize, at: u128) -> (r: (usize, u128))
    requires
        i <= widths.len(),
        at == place(counts(widths@), i as int),
    ensures
        i <= r.0 <= widths.len(),
        r.0 == first_ending_behind(counts(widths@), a as int, i as int),
        r.1 == place(counts(widths@), r.0 as int),
{
    let mut k: usize = i;
    let mut here: u128 = at;
    while k < widths.len()
        invariant
            i <= k <= widths.len(),
            here == place(counts(widths@), k as int),
            first_ending_behind(counts(widths@), a as int, k as int) == first_ending_behind(
                counts(widths@),
                a as int,
                i as int,
            ),
        decreases widths.len() - k,
    {
        let next = next_place(widths, k, here);
        if next > a as u128 {
            return (k, here);
        }
        here = next;
        k += 1;
    }
    (k, here)
}

/// Goes on from a character to the first one that starts at or behind the place `b`; says
/// where it starts, too.
fn skip_within(widths: &Vec<usize>, b: usize, i: usize, at: u128) -> (r: (usize, u128))
    requires
        i <= widths.len(),
        at == place(counts(widths@), i as int),
    ensures
        i <= r.0 <= widths.len(),
        r.0 == first_starting_from(counts(widths@), b as int, i as int),
        r.1 == place(counts(widths@), r.0 as int),
{
    let mut k: usize = i;
    let mut here: u128 = at;
    while k < widths.len() && here < b as u128
        invariant
            i <= k <= widths.len(),
            here == place(counts(widths@), k as int),
            first_starting_from(counts(widths@), b as int, k as int) == first_starting_from(
                counts(widths@),
                b as int,
                i as int,
            ),
        decreases widths.len() - k,
    {
        here = next_place(widths, k, here);
        k += 1;
    }
    (k, here)
}

/// What some stretches hold.
pub open spec fn span_views(spans: Seq<Span>) -> Seq<(int, int, bool)> {
    spans.map_values(|s: Span| (s.start as int, s.end as int, s.highlighted))
}

/// Adds a stretch, unless it is empty.
fn push_stretch(spans: &mut Vec<Span>, start: usize, end: usize, highlighted: bool)
    ensures
        span_views(final(spans)@) == span_views(old(spans)@) + stretch(
            start as int,
            end as int,
            highlighted,
        ),
{
    if start < end {
        spans.push(Span { start, end, highlighted });
    }
    assert(span_views(spans@) =~= span_views(old(spans)@) + stretch(
        start as int,
        end as int,
        highlighted,
    ));
}

/// Finds the stretches of a text: the matches of `needle` are looked for in the folded text
/// `haystack`, and `widths` says how many characters each character of the text was folded
/// into.
pub fn highlight_spans(haystack: &str, needle: &str, widths: &Vec<usize>) -> (r: Vec<Span>)
    requires
        needle@.len() > 0,
    ensures
        span_views(r@) == spans_of(counts(widths@), haystack@, needle@),
{
    let h = chars_of(haystack);
    let n = chars_of(needle);
    let ghost w = counts(widths@);
    let mut r: Vec<Span> = Vec::new();
    let mut pos: usize = 0;
    let mut at: u128 = 0;
    let mut from: usize = 0;
    assert(span_views(r@) + spans_from(w, h@, n@, 0, 0) =~= spans_of(w, h@, n@));
    loop
        invariant
            h@ == haystack@,
            n@ == needle@,
            w == counts(widths@),
            n.len() > 0,
            from <= h.len(),
            pos <= widths.len(),
            at == place(w, pos as int),
            span_views(r@) + spans_from(w, h@, n@, pos as int, from as int) == spans_of(
                w,
                h@,
                n@,
            ),
        decreases h.len() - from,
    {
        let ghost done = span_views(r@);
        let ghost left = spans_from(w, h@, n@, pos as int, from as int);
        proof {
            lemma_first_at(h@, n@, from as int);
        }
        match find_from(&h, &n, from) {
            Some(a) => {
                assert(first_at(h@, n@, from as int) == Some(a as int));
                let b: usize = a + n.len();
                let (start, start_at) = skip_before(widths, a, pos, at);
                let (end, end_at) = skip_within(widths, b, start, start_at);
                push_stretch(&mut r, pos, start, false);
                push_stretch(&mut r, start, end, true);
                assert(span_views(r@) + spans_from(w, h@, n@, end as int, b as int) =~= done
                    + left);
                pos = end;
                at = end_at;
                from = b;
            },
            None => {
                assert(first_at(h@, n@, from as int) is None);
                push_stretch(&mut r, pos, widths.len(), false);
                return r;
            },
        }
    }
}

/// Whether some stretches lie side by side, from one character to another.
pub open spec fn side_by_side(spans: Seq<(int, int, bool)>, from: int, to: int) -> bool
    decreases spans.len(),
{
    if spans.len() == 0 {
        from == to
    } else {
        spans[0].0 == from && from < spans[0].1 && side_by_side(spans.skip(1), spans[0].1, to)
    }
}

/// A stretch in front of stretches side by side.
proof fn lemma_stretch_in_front(
    start: int,
    end: int,
    highlighted: bool,
    rest: Seq<(int, int, bool)>,
    to: int,
)
    requires
        start <= end,
        side_by_side(rest, end, to),
    ensures
        side_by_side(stretch(start, end, highlighted) + rest, start, to),
{
    let all = stretch(start, end, highlighted) + rest;
    if start < end {
        assert(all.skip(1) =~= rest);
    } else {
        assert(all =~= rest);
    }
}

/// The stretches from a character on lie side by side.
proof fn lemma_side_by_side(
    widths: Seq<nat>,
    hay: Seq<char>,
    needle: Seq<char>,
    pos: int,
    from: int,
)
    requires
        needle.len() > 0,
        0 <= pos <= widths.len(),
    ensures
        side_by_side(spans_from(widths, hay, needle, pos, from), pos, widths.len() as int),
    decreases hay.len() - from,
{
    let len = widths.len() as int;
    lemma_first_at(hay, needle, from);
    match first_at(hay, needle, from) {
        Some(a) => {
            let b = a + needle.len();
            let start = first_ending_behind(widths, a, pos);
            lemma_first_ending_behind(widths, a, pos);
            let end = first_starting_from(widths, b, start);
            lemma_first_starting_from(widths, b, start);
            lemma_side_by_side(widths, hay, needle, end, b);
            let rest = spans_from(widths, hay, needle, end, b);
            lemma_stretch_in_front(start, end, true, rest, len);
            lemma_stretch_in_front(pos, start, false, stretch(start, end, true) + rest, len);
        },
        None => {
            let none = Seq::<(int, int, bool)>::empty();
            lemma_stretch_in_front(pos, len, false, none, len);
            assert(stretch(pos, len, false) + none =~= stretch(pos, len, false));
        },
    }
}

/// The stretches of a text lie side by side and make up the whole text.
pub proof fn law_spans_make_up_the_text(widths: Seq<nat>, hay: Seq<char>, needle: Seq<char>)
    requires
        needle.len() > 0,
    ensures
        side_by_side(spans_of(widths, hay, needle), 0, widths.len() as int),
{
    lemma_side_by_side(widths, hay, needle, 0, 0);
}

/// Whether one of the marked stretches holds a character.
pub open spec fn marks(spans: Seq<(int, int, bool)>, i: int) -> bool {
    exists|j: int| 0 <= j < spans.len() && (#[trigger] spans[j]).2 && spans[j].0 <= i < spans[j].1
}

/// Whether one of some matches of a needle of this length touches a character.
pub open spec fn touched(widths: Seq<nat>, found: Seq<int>, len: nat, i: int) -> bool {
    exists|m: int|
        0 <= m < found.len() && touches(widths, #[trigger] found[m], found[m] + len, i)
}

/// What is marked by a stretch and more stretches.
proof fn lemma_marks_in_front(
    start: int,
    end: int,
    highlighted: bool,
    rest: Seq<(int, int, bool)>,
    i: int,
)
    ensures
        marks(stretch(start, end, highlighted) + rest, i) <==> (highlighted && start <= i < end)
            || marks(rest, i),
{
    let front = stretch(start, end, highlighted);
    let all = front + rest;
    if marks(rest, i) {
        let j = choose|j: int|
            0 <= j < rest.len() && (#[trigger] rest[j]).2 && rest[j].0 <= i < rest[j].1;
        assert(all[front.len() + j] == rest[j]);
    }
    if highlighted && start <= i < end {
        assert(all[0] == (start, end, highlighted));
    }
    if marks(all, i) {
        let j = choose|j: int|
            0 <= j < all.len() && (#[trigger] all[j]).2 && all[j].0 <= i < all[j].1;
        if j >= front.len() {
            assert(all[j] == rest[j - front.len()]);
        }
    }
}

/// What is touched by a match and more matches.
proof fn lemma_touched_in_front(widths: Seq<nat>, a: int, rest: Seq<int>, len: nat, i: int)
    ensures
        touched(widths, seq![a] + rest, len, i) <==> touches(widths, a, a + len, i) || touched(
            widths,
            rest,
            len,
            i,
        ),
{
    let all = seq![a] + rest;
    if touches(widths, a, a + len, i) {
        assert(all[0] == a);
    }
    if touched(widths, rest, len, i) {
        let m = choose|m: int|
            0 <= m < rest.len() && touches(widths, #[trigger] rest[m], rest[m] + len, i);
        assert(all[m + 1] == rest[m]);
    }
    if touched(widths, all, len, i) {
        let m = choose|m: int|
            0 <= m < all.len() && touches(widths, #[trigger] all[m], all[m] + len, i);
        if m > 0 {
            assert(all[m] == rest[m - 1]);
        }
    }
}

/// Matches lie at or after the place from which they are looked for.
proof fn lemma_matches_from(hay: Seq<char>, needle: Seq<char>, from: int)
    requires
        needle.len() > 0,
    ensures
        forall|m: int|
            0 <= m < matches_from(hay, needle, from).len() ==> from <= #[trigger] matches_from(
                hay,
                needle,
                from,
            )[m],
    decreases hay.len() - from,
{
    lemma_first_at(hay, needle, from);
    if let Some(at) = first_at(hay, needle, from) {
        let next = at + needle.len();
        lemma_matches_from(hay, needle, next);
        let all = matches_from(hay, needle, from);
        assert forall|m: int| 0 <= m < all.len() implies from <= #[trigger] all[m] by {
            if m > 0 {
                assert(all[m] == matches_from(hay, needle, next)[m - 1]);
            }
        }
    }
}

/// What the stretches from a character on mark.
proof fn lemma_marked(
    widths: Seq<nat>,
    hay: Seq<char>,
    needle: Seq<char>,
    pos: int,
    from: int,
    i: int,
)
    requires
        needle.len() > 0,
        0 <= pos <= widths.len(),
        0 <= i < widths.len(),
    ensures
        marks(spans_from(widths, hay, needle, pos, from), i) <==> pos <= i && touched(
            widths,
            matches_from(hay, needle, from),
            needle.len(),
            i,
        ),
    decreases hay.len() - from,
{
    let len = widths.len() as int;
    let found = matches_from(hay, needle, from);
    lemma_first_at(hay, needle, from);
    match first_at(hay, needle, from) {
        Some(a) => {
            let b = a + needle.len();
            let start = first_ending_behind(widths, a, pos);
            lemma_first_ending_behind(widths, a, pos);
            let end = first_starting_from(widths, b, start);
            lemma_first_starting_from(widths, b, start);
            let rest = spans_from(widths, hay, needle, end, b);
            let later = matches_from(hay, needle, b);
            lemma_marked(widths, hay, needle, end, b, i);
            lemma_marks_in_front(start, end, true, rest, i);
            lemma_marks_in_front(pos, start, false, stretch(start, end, true) + rest, i);
            lemma_touched_in_front(widths, a, later, needle.len(), i);
            lemma_matches_from(hay, needle, b);
            if i < start {
                if pos <= i {
                    assert(place(widths, i + 1) <= a);
                    assert(!touched(widths, later, needle.len(), i));
                }
            } else if i < end {
                lemma_places_grow(widths, start + 1, i + 1);
                assert(place(widths, i) < b);
                assert(touches(widths, a, b, i));
            } else {
                lemma_places_grow(widths, end, i);
            }
        },
        None => {
            let none = Seq::<(int, int, bool)>::empty();
            lemma_marks_in_front(pos, len, false, none, i);
            assert(stretch(pos, len, false) + none =~= stretch(pos, len, false));
        },
    }
}

/// A character is marked just where a match touches it: what is marked is the least that holds
/// the matches.
pub proof fn law_marked_where_a_match_touches(
    widths: Seq<nat>,
    hay: Seq<char>,
    needle: Seq<char>,
    i: int,
)
    requires
        needle.len() > 0,
        0 <= i < widths.len(),
    ensures
        marks(spans_of(widths, hay, needle), i) <==> touched(
            widths,
            matches_from(hay, needle, 0),
            needle.len(),
            i,
        ),
{
    lemma_marked(widths, hay, needle, 0, 0, i);
}

/// No match is missed: wherever the needle stands in the folded text, the character that
/// its first character comes from is marked.
pub proof fn law_every_match_is_marked(
    widths: Seq<nat>,
    hay: Seq<char>,
    needle: Seq<char>,
    k: int,
    i: int,
)
    requires
        needle.len() > 0,
        occurs_at(hay, needle, k),
        0 <= i < widths.len(),
        place(widths, i) <= k < place(widths, i + 1),
    ensures
        marks(spans_of(widths, hay, needle), i),
{
    lemma_some_match_holds(widths, hay, needle, 0, k, i);
    lemma_marked(widths, hay, needle, 0, 0, i);
}

/// One of the matches from a place on holds the start of any match.
proof fn lemma_some_match_holds(
    widths: Seq<nat>,
    hay: Seq<char>,
    needle: Seq<char>,
    from: int,
    k: int,
    i: int,
)
    requires
        needle.len() > 0,
        occurs_at(hay, needle, k),
        from <= k,
        place(widths, i) <= k < place(widths, i + 1),
    ensures
        touched(widths, matches_from(hay, needle, from), needle.len(), i),
    decreases hay.len() - from,
{
    lemma_first_at(hay, needle, from);
    let a = first_at(hay, needle, from)->0;
    let b = a + needle.len();
    lemma_touched_in_front(widths, a, matches_from(hay, needle, b), needle.len(), i);
    if k < b {
        assert(touches(widths, a, b, i));
    } else {
        lemma_some_match_holds(widths, hay, needle, b, k, i);
    }
}

/// How many characters each character of a text is folded into.
pub open spec fn folded_widths(text: Seq<char>, case_sensitive: bool) -> Seq<nat> {
    text.map_values(|c: char| folded(seq![c], case_sensitive).len())
}

/// The stretches of a text, with the matches of a query marked that the folded text holds.
pub open spec fn highlights(text: Seq<char>, query: Seq<char>, case_sensitive: bool) -> Seq<
    (int, int, bool),
> {
    spans_of(
        folded_widths(text, case_sensitive),
        folded(text, case_sensitive),
        folded(query, case_sensitive),
    )
}

/// Whether pieces are what stretches cut out of a text, one by one.
pub open spec fn are_pieces(
    text: Seq<char>,
    spans: Seq<(int, int, bool)>,
    pieces: Seq<Segment>,
) -> bool {
    &&& pieces.len() == spans.len()
    &&& forall|i: int|
        0 <= i < spans.len() ==> {
            &&& (#[trigger] pieces[i]).text@ == text.subrange(spans[i].0, spans[i].1)
            &&& pieces[i].highlighted == spans[i].2
        }
}

/// The texts of some pieces, one after the other.
pub open spec fn joined_pieces(pieces: Seq<Segment>) -> Seq<char>
    decreases pieces.len(),
{
    if pieces.len() == 0 {
        Seq::empty()
    } else {
        pieces[0].text@ + joined_pieces(pieces.skip(1))
    }
}

/// Pieces of stretches side by side make up that part of the text.
proof fn lemma_pieces_make_up(
    text: Seq<char>,
    spans: Seq<(int, int, bool)>,
    pieces: Seq<Segment>,
    from: int,
)
    requires
        are_pieces(text, spans, pieces),
        side_by_side(spans, from, text.len() as int),
        0 <= from,
    ensures
        from <= text.len(),
        joined_pieces(pieces) == text.skip(from),
    decreases spans.len(),
{
    if spans.len() == 0 {
        assert(text.skip(from) =~= Seq::<char>::empty());
    } else {
        let next = spans[0].1;
        assert(pieces[0].text@ == text.subrange(from, next));
        assert forall|i: int| 0 <= i < spans.skip(1).len() implies {
            &&& (#[trigger] pieces.skip(1)[i]).text@ == text.subrange(
                spans.skip(1)[i].0,
                spans.skip(1)[i].1,
            )
            &&& pieces.skip(1)[i].highlighted == spans.skip(1)[i].2
        } by {
            assert(pieces.skip(1)[i] == pieces[i + 1]);
        }
        lemma_pieces_make_up(text, spans.skip(1), pieces.skip(1), next);
        assert(text.skip(from) =~= text.subrange(from, next) + text.skip(next));
    }
}

/// Stretches side by side lie within their limits.
proof fn lemma_within(spans: Seq<(int, int, bool)>, from: int, to: int)
    requires
        side_by_side(spans, from, to),
    ensures
        from <= to,
        forall|j: int|
            0 <= j < spans.len() ==> from <= (#[trigger] spans[j]).0 < spans[j].1 <= to,
    decreases spans.len(),
{
    if spans.len() > 0 {
        lemma_within(spans.skip(1), spans[0].1, to);
        assert forall|j: int| 0 <= j < spans.len() implies from <= (#[trigger] spans[j]).0
            < spans[j].1 <= to by {
            if j > 0 {
                assert(spans[j] == spans.skip(1)[j - 1]);
            }
        }
    }
}

/// Finds out how many characters each character of a text is folded into.
fn widths_of(text: &Vec<char>, case_sensitive: bool) -> (r: Vec<usize>)
    ensures
        counts(r@) == folded_widths(text@, case_sensitive),
{
    let mut r: Vec<usize> = Vec::new();
    let mut i: usize = 0;
    while i < text.len()
        invariant
            i <= text.len(),
            r.len() == i,
            forall|j: int|
                0 <= j < i ==> #[trigger] r@[j] == folded(seq![text@[j]], case_sensitive).len(),
        decreases text.len() - i,
    {
        let mut one = String::new();
        one.push(text[i]);
        assert(one@ =~= seq![text@[i as int]]);
        let alone = fold(one.as_str(), case_sensitive);
        r.push(chars_of(alone.as_str()).len());
        i += 1;
    }
    assert(counts(r@) =~= folded_widths(text@, case_sensitive));
    r
}

/// Cuts one stretch out of a text.
fn cut_one(text: &Vec<char>, span: Span) -> (r: Segment)
    requires
        span.start <= span.end <= text.len(),
    ensures
        r.text@ == text@.subrange(span.start as int, span.end as int),
        r.highlighted == span.highlighted,
{
    let mut out = String::new();
    let mut i: usize = span.start;
    while i < span.end
        invariant
            span.start <= i <= span.end <= text.len(),
            out@ == text@.subrange(span.start as int, i as int),
        decreases span.end - i,
    {
        out.push(text[i]);
        i += 1;
        assert(out@ =~= text@.subrange(span.start as int, i as int));
    }
    Segment { text: out, highlighted: span.highlighted }
}

/// Cuts a text into its stretches.
fn cut(text: &Vec<char>, spans: &Vec<Span>) -> (r: Vec<Segment>)
    requires
        side_by_side(span_views(spans@), 0, text.len() as int),
    ensures
        are_pieces(text@, span_views(spans@), r@),
        joined_pieces(r@) == text@,
{
    let ghost views = span_views(spans@);
    let mut pieces: Vec<Segment> = Vec::new();
    let mut k: usize = 0;
    while k < spans.len()
        invariant
            views == span_views(spans@),
            side_by_side(views, 0, text.len() as int),
            k <= spans.len(),
            pieces.len() == k,
            forall|i: int|
                0 <= i < k ==> {
                    &&& (#[trigger] pieces@[i]).text@ == text@.subrange(views[i].0, views[i].1)
                    &&& pieces@[i].highlighted == views[i].2
                },
        decreases spans.len() - k,
    {
        proof {
            lemma_within(views, 0, text.len() as int);
            assert(views[k as int].0 == spans@[k as int].start);
        }
        pieces.push(cut_one(text, spans[k]));
        k += 1;
    }
    proof {
        lemma_pieces_make_up(text@, views, pieces@, 0);
        assert(text@.skip(0) =~= text@);
    }
    pieces
}

/// Cuts a text into pieces and marks the matches of a query; nothing comes of an empty query,
/// whose matches have no end. The matches are looked for in the folded text, and marked in the
/// text's own characters.
pub fn highlight(text: &str, query: &str, case_sensitive: bool) -> (r: Option<Vec<Segment>>)
    ensures
        r is Some <==> folded(query@, case_sensitive).len() > 0,
        r matches Some(pieces) ==> {
            &&& are_pieces(text@, highlights(text@, query@, case_sensitive), pieces@)
            &&& joined_pieces(pieces@) == text@
        },
{
    let hay = fold(text, case_sensitive);
    let needle = fold(query, case_sensitive);
    if needle.as_str().is_empty() {
        return None;
    }
    let chars = chars_of(text);
    let widths = widths_of(&chars, case_sensitive);
    let spans = highlight_spans(hay.as_str(), needle.as_str(), &widths);
    proof {
        law_spans_make_up_the_text(counts(widths@), hay@, needle@);
    }
    Some(cut(&chars, &spans))
}

/// Cuts the label of a result into pieces: the matches of a plain query are marked, and with
/// wildcards, or without a query, the label stays in one piece.
pub fn mark_label(label: &str, query: &str, case_sensitive: bool) -> (r: Vec<Segment>)
    ensures
        joined_pieces(r@) == label@,
        if has_wildcard(query@) || folded(query@, case_sensitive).len() == 0 {
            r.len() == 1 && r@[0].text@ == label@ && !r@[0].highlighted
        } else {
            are_pieces(label@, highlights(label@, query@, case_sensitive), r@)
        },
{
    if !is_glob(query) {
        if let Some(pieces) = highlight(label, query, case_sensitive) {
            return pieces;
        }
    }
    let mut pieces: Vec<Segment> = Vec::new();
    pieces.push(Segment { text: label.to_owned(), highlighted: false });
    assert(pieces@.skip(1) =~= Seq::<Segment>::empty());
    assert(joined_pieces(pieces@.skip(1)) =~= Seq::<char>::empty());
    assert(joined_pieces(pieces@) =~= label@);
    pieces
}

/// Where every character is folded into one, each character keeps its place.
proof fn lemma_places_stay(widths: Seq<nat>, i: int)
    requires
        0 <= i <= widths.len(),
        forall|j: int| 0 <= j < widths.len() ==> #[trigger] widths[j] == 1,
    ensures
        place(widths, i) == i,
    decreases i,
{
    if i > 0 {
        lemma_places_stay(widths, i - 1);
    }
}

/// Where every character is folded into one, the marked stretches are the matches.
proof fn lemma_marked_are_matches(
    widths: Seq<nat>,
    hay: Seq<char>,
    needle: Seq<char>,
    from: int,
)
    requires
        needle.len() > 0,
        widths.len() == hay.len(),
        forall|j: int| 0 <= j < widths.len() ==> #[trigger] widths[j] == 1,
        0 <= from <= hay.len(),
    ensures
        forall|j: int|
            0 <= j < spans_from(widths, hay, needle, from, from).len() && (
            #[trigger] spans_from(widths, hay, needle, from, from)[j]).2 ==> ({
                let span = spans_from(widths, hay, needle, from, from)[j];
                &&& span.1 == span.0 + needle.len()
                &&& occurs_at(hay, needle, span.0)
            }),
    decreases hay.len() - from,
{
    let spans = spans_from(widths, hay, needle, from, from);
    lemma_first_at(hay, needle, from);
    match first_at(hay, needle, from) {
        Some(a) => {
            let b = a + needle.len();
            let start = first_ending_behind(widths, a, from);
            lemma_first_ending_behind(widths, a, from);
            let end = first_starting_from(widths, b, start);
            lemma_first_starting_from(widths, b, start);
            if start > from {
                assert(place(widths, (start - 1) + 1) <= a);
            }
            lemma_places_stay(widths, start);
            if start < widths.len() {
                lemma_places_stay(widths, start + 1);
            }
            assert(start == a);
            if end > start {
                assert(place(widths, end - 1) < b);
                lemma_places_stay(widths, end - 1);
            }
            lemma_places_stay(widths, end);
            assert(end == b);
            lemma_marked_are_matches(widths, hay, needle, b);
            let rest = spans_from(widths, hay, needle, b, b);
            let off = spans.len() - rest.len();
            assert forall|j: int| 0 <= j < spans.len() && (#[trigger] spans[j]).2 implies spans[j].1
                == spans[j].0 + needle.len() && occurs_at(hay, needle, spans[j].0) by {
                if j >= off {
                    assert(spans[j] == rest[j - off]);
                }
            }
        },
        None => {},
    }
}

/// Where case matters, and in an ASCII text, every character is folded into one.
proof fn lemma_folded_one_by_one(text: Seq<char>, case_sensitive: bool)
    requires
        case_sensitive || is_ascii_chars(text),
    ensures
        folded(text, case_sensitive).len() == text.len(),
        forall|j: int|
            0 <= j < text.len() ==> #[trigger] folded_widths(text, case_sensitive)[j] == 1,
{
    let widths = folded_widths(text, case_sensitive);
    assert forall|j: int| 0 <= j < text.len() implies #[trigger] widths[j] == 1 by {
        let one = seq![text[j]];
        if !case_sensitive {
            assert(is_ascii_chars(one));
        }
    }
}

/// Where case matters, and in an ASCII text, something is marked just if the text holds the
/// query.
pub proof fn law_marked_if_found(text: Seq<char>, query: Seq<char>, case_sensitive: bool)
    requires
        case_sensitive || is_ascii_chars(text),
        folded(query, case_sensitive).len() > 0,
    ensures
        (exists|i: int| 0 <= i < text.len() && marks(highlights(text, query, case_sensitive), i))
            <==> has_part(folded(text, case_sensitive), folded(query, case_sensitive)),
{
    let widths = folded_widths(text, case_sensitive);
    let hay = folded(text, case_sensitive);
    let needle = folded(query, case_sensitive);
    let spans = highlights(text, query, case_sensitive);
    lemma_folded_one_by_one(text, case_sensitive);
    if has_part(hay, needle) {
        let k = choose|k: int| occurs_at(hay, needle, k);
        lemma_places_stay(widths, k);
        lemma_places_stay(widths, k + 1);
        law_every_match_is_marked(widths, hay, needle, k, k);
        assert(marks(spans, k));
    }
    if exists|i: int| 0 <= i < text.len() && marks(spans, i) {
        let i = choose|i: int| 0 <= i < text.len() && marks(spans, i);
        let j = choose|j: int|
            0 <= j < spans.len() && (#[trigger] spans[j]).2 && spans[j].0 <= i < spans[j].1;
        lemma_marked_are_matches(widths, hay, needle, 0);
        assert(occurs_at(hay, needle, spans[j].0));
    }
}

/// Where case matters, and in an ASCII text, every marked stretch holds the query: what is
/// marked is equal to it but for the case that does not matter.
pub proof fn law_marked_text_is_the_query(text: Seq<char>, query: Seq<char>, case_sensitive: bool)
    requires
        case_sensitive || is_ascii_chars(text),
        folded(query, case_sensitive).len() > 0,
    ensures
        forall|j: int|
            0 <= j < highlights(text, query, case_sensitive).len() && (#[trigger] highlights(
                text,
                query,
                case_sensitive,
            )[j]).2 ==> ({
                let span = highlights(text, query, case_sensitive)[j];
                folded(text.subrange(span.0, span.1), case_sensitive) == folded(
                    query,
                    case_sensitive,
                )
            }),
{
    let widths = folded_widths(text, case_sensitive);
    let hay = folded(text, case_sensitive);
    let needle = folded(query, case_sensitive);
    lemma_folded_one_by_one(text, case_sensitive);
    lemma_marked_are_matches(widths, hay, needle, 0);
    let spans = highlights(text, query, case_sensitive);
    assert forall|j: int| 0 <= j < spans.len() && (#[trigger] spans[j]).2 implies folded(
        text.subrange(spans[j].0, spans[j].1),
        case_sensitive,
    ) == needle by {
        let part = text.subrange(spans[j].0, spans[j].1);
        assert(occurs_at(hay, needle, spans[j].0));
        if !case_sensitive {
            assert(is_ascii_chars(part));
            assert(ascii_lower(part) =~= hay.subrange(spans[j].0, spans[j].1));
            assert(lower(part) == ascii_lower(part));
        }
    }
}

/// The matches that are marked are the leftmost ones that do not overlap: each is a match, each
/// starts at or behind the end of the one before, and wherever the needle stands, the start is
/// held by one of them.
pub proof fn law_matches_are_the_leftmost(hay: Seq<char>, needle: Seq<char>, from: int)
    requires
        needle.len() > 0,
    ensures
        ({
            let found = matches_from(hay, needle, from);
            &&& forall|m: int|
                0 <= m < found.len() ==> from <= #[trigger] found[m] && occurs_at(
                    hay,
                    needle,
                    found[m],
                )
            &&& forall|m: int, n: int|
                0 <= m < n < found.len() ==> #[trigger] found[m] + needle.len()
                    <= #[trigger] found[n]
            &&& forall|k: int|
                from <= k && #[trigger] occurs_at(hay, needle, k) ==> held(found, needle.len(), k)
        }),
    decreases hay.len() - from,
{
    let found = matches_from(hay, needle, from);
    lemma_first_at(hay, needle, from);
    if let Some(at) = first_at(hay, needle, from) {
        let next = at + needle.len();
        let later = matches_from(hay, needle, next);
        law_matches_are_the_leftmost(hay, needle, next);
        assert(found[0] == at);
        assert forall|m: int| 0 <= m < found.len() implies from <= #[trigger] found[m] && occurs_at(
            hay,
            needle,
            found[m],
        ) by {
            if m > 0 {
                assert(found[m] == later[m - 1]);
            }
        }
        assert forall|m: int, n: int| 0 <= m < n < found.len() implies #[trigger] found[m]
            + needle.len() <= #[trigger] found[n] by {
            assert(found[n] == later[n - 1]);
            if m > 0 {
                assert(found[m] == later[m - 1]);
            }
        }
        assert forall|k: int| from <= k && #[trigger] occurs_at(hay, needle, k) implies held(
            found,
            needle.len(),
            k,
        ) by {
            if k < next {
                assert(found[0] <= k < found[0] + needle.len());
            } else {
                assert(held(later, needle.len(), k));
                let m = choose|m: int|
                    0 <= m < later.len() && #[trigger] later[m] <= k < later[m] + needle.len();
                assert(found[m + 1] == later[m]);
            }
        }
    }
}

/// Whether one of some matches of this length holds a place.
pub open spec fn held(found: Seq<int>, len: nat, k: int) -> bool {
    exists|m: int| 0 <= m < found.len() && #[trigger] found[m] <= k < found[m] + len
}

/// Where case matters, and in an ASCII text, no match is missed: wherever the query stands in
/// the text, the first of its characters is marked.
pub proof fn law_no_match_is_missed(
    text: Seq<char>,
    query: Seq<char>,
    case_sensitive: bool,
    k: int,
)
    requires
        case_sensitive || is_ascii_chars(text),
        folded(query, case_sensitive).len() > 0,
        occurs_at(folded(text, case_sensitive), folded(query, case_sensitive), k),
    ensures
        exists|j: int|
            0 <= j < highlights(text, query, case_sensitive).len() && (#[trigger] highlights(
                text,
                query,
                case_sensitive,
            )[j]).2 && highlights(text, query, case_sensitive)[j].0 <= k < highlights(
                text,
                query,
                case_sensitive,
            )[j].1,
{
    let widths = folded_widths(text, case_sensitive);
    lemma_folded_one_by_one(text, case_sensitive);
    lemma_places_stay(widths, k);
    lemma_places_stay(widths, k + 1);
    law_every_match_is_marked(
        widths,
        folded(text, case_sensitive),
        folded(query, case_sensitive),
        k,
        k,
    );
    assert(marks(highlights(text, query, case_sensitive), k));
}

/// The characters of a text follow each other in the folded text, each with as many characters
/// as it is folded into; and a match touches a character just if it shares one of these.
pub proof fn law_places(text: Seq<char>, case_sensitive: bool, i: int, a: int, b: int)
    requires
        0 <= i < text.len(),
    ensures
        ({
            let widths = folded_widths(text, case_sensitive);
            &&& widths.len() == text.len()
            &&& place(widths, 0) == 0
            &&& place(widths, i + 1) - place(widths, i) == folded(
                seq![text[i]],
                case_sensitive,
            ).len()
            &&& a < b && widths[i] > 0 ==> (touches(widths, a, b, i) <==> exists|p: int|
                #![trigger inside(a, b, p)]
                inside(a, b, p) && place(widths, i) <= p < place(widths, i + 1))
        }),
{
    let widths = folded_widths(text, case_sensitive);
    if a < b && widths[i] > 0 && touches(widths, a, b, i) {
        let p = if a < place(widths, i) {
            place(widths, i)
        } else {
            a
        };
        assert(inside(a, b, p));
    }
}

/// Whether a place lies from `a` up to `b`.
pub open spec fn inside(a: int, b: int, p: int) -> bool {
    a <= p < b
}

/// The pieces of a text are what its stretches hold, with the same marks and one for one, and
/// put together they are the text.
pub proof fn law_pieces(
    text: Seq<char>,
    spans: Seq<(int, int, bool)>,
    pieces: Seq<Segment>,
    piece: Segment,
    rest: Seq<Segment>,
)
    requires
        are_pieces(text, spans, pieces),
    ensures
        pieces.len() == spans.len(),
        forall|i: int|
            0 <= i < spans.len() ==> (#[trigger] pieces[i]).text@ == text.subrange(
                spans[i].0,
                spans[i].1,
            ) && pieces[i].highlighted == spans[i].2,
        joined_pieces(Seq::<Segment>::empty()).len() == 0,
        joined_pieces(seq![piece] + rest) == piece.text@ + joined_pieces(rest),
{
    assert((seq![piece] + rest).skip(1) =~= rest);
}

/// What stretches and widths hold is taken over as it stands.
pub proof fn law_stretch_views(spans: Seq<Span>, widths: Seq<usize>, i: int)
    ensures
        span_views(spans).len() == spans.len(),
        counts(widths).len() == widths.len(),
        0 <= i < spans.len() ==> span_views(spans)[i] == (
            spans[i].start as int,
            spans[i].end as int,
            spans[i].highlighted,
        ),
        0 <= i < widths.len() ==> counts(widths)[i] == widths[i],
{
}

/// In any text a character is marked just if one of the leftmost matches of the folded query
/// in the folded text touches it.
pub proof fn law_what_is_marked(text: Seq<char>, query: Seq<char>, case_sensitive: bool, i: int)
    requires
        folded(query, case_sensitive).len() > 0,
        0 <= i < text.len(),
    ensures
        (exists|j: int|
            0 <= j < highlights(text, query, case_sensitive).len() && (#[trigger] highlights(
                text,
                query,
                case_sensitive,
            )[j]).2 && highlights(text, query, case_sensitive)[j].0 <= i < highlights(
                text,
                query,
                case_sensitive,
            )[j].1) <==> exists|m: int|
            0 <= m < matches_from(
                folded(text, case_sensitive),
                folded(query, case_sensitive),
                0,
            ).len() && touches(
                folded_widths(text, case_sensitive),
                #[trigger] matches_from(
                    folded(text, case_sensitive),
                    folded(query, case_sensitive),
                    0,
                )[m],
                matches_from(
                    folded(text, case_sensitive),
                    folded(query, case_sensitive),
                    0,
                )[m] + folded(query, case_sensitive).len(),
                i,
            ),
        side_by_side(highlights(text, query, case_sensitive), 0, text.len() as int),
{
    let widths = folded_widths(text, case_sensitive);
    let hay = folded(text, case_sensitive);
    let needle = folded(query, case_sensitive);
    let found = matches_from(hay, needle, 0);
    law_marked_where_a_match_touches(widths, hay, needle, i);
    law_spans_make_up_the_text(widths, hay, needle);
    assert(marks(highlights(text, query, case_sensitive), i) <==> touched(
        widths,
        found,
        needle.len(),
        i,
    ));
}

/// Stretches that lie side by side begin and end where the whole does, each where the one
/// before it ends, and none is empty.
pub proof fn law_side_by_side(spans: Seq<(int, int, bool)>, from: int, to: int)
    requires
        side_by_side(spans, from, to),
    ensures
        spans.len() == 0 <==> from == to,
        spans.len() > 0 ==> spans[0].0 == from && spans.last().1 == to,
        forall|j: int| 0 <= j < spans.len() ==> (#[trigger] spans[j]).0 < spans[j].1,
        forall|j: int|
            0 <= j < spans.len() && j > 0 ==> (#[trigger] spans[j]).0 == spans[j - 1].1,
    decreases spans.len(),
{
    if spans.len() > 0 {
        let rest = spans.skip(1);
        law_side_by_side(rest, spans[0].1, to);
        lemma_within(spans, from, to);
        if rest.len() > 0 {
            assert(spans.last() == rest.last());
        }
        assert forall|j: int| 0 <= j < spans.len() && j > 0 implies (#[trigger] spans[j]).0
            == spans[j - 1].1 by {
            assert(spans[j] == rest[j - 1]);
            if j > 1 {
                assert(spans[j - 1] == rest[j - 2]);
            }
        }
    }
}

} // verus!
