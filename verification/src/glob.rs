//! Glob patterns: `*` stands for any characters, `?` for one character.
use crate::text::{chars_of, contains_char, has_part, occurs_at};
use vstd::prelude::*;

verus! {

/// Whether the pattern character `p`, which is no star, takes the character `c`.
pub open spec fn takes(p: char, c: char) -> bool {
    p == '?' || p == c
}

/// Whether a text matches a glob pattern: a `*` takes any run of characters, also none, a
/// `?` takes one character, and every other character takes itself.
pub open spec fn glob(p: Seq<char>, t: Seq<char>) -> bool
    decreases p.len(),
{
    if p.len() == 0 {
        t.len() == 0
    } else if p[0] == '*' {
        exists|k: int| 0 <= k <= t.len() && glob(p.skip(1), #[trigger] t.skip(k))
    } else {
        t.len() > 0 && takes(p[0], t[0]) && glob(p.skip(1), t.skip(1))
    }
}

/// Whether a query holds a wildcard.
pub open spec fn has_wildcard(q: Seq<char>) -> bool {
    q.contains('*') || q.contains('?')
}

/// Returns true if the query contains wildcard characters.
pub fn is_glob(query: &str) -> (r: bool)
    ensures
        r == has_wildcard(query@),
{
    contains_char(query, '*') || contains_char(query, '?')
}

/// A stretch of `n` pattern characters without a star takes `n` characters, one by one.
proof fn lemma_plain_stretch(p: Seq<char>, t: Seq<char>, n: int)
    requires
        0 <= n <= p.len(),
        forall|j: int| 0 <= j < n ==> p[j] != '*',
    ensures
        glob(p, t) <==> (n <= t.len() && (forall|j: int| 0 <= j < n ==> takes(p[j], t[j]))
            && glob(p.skip(n), t.skip(n))),
    decreases n,
{
    if n == 0 {
        assert(p.skip(0) =~= p);
        assert(t.skip(0) =~= t);
    } else {
        let p1 = p.skip(1);
        assert forall|j: int| 0 <= j < n - 1 implies p1[j] != '*' by {
            assert(p1[j] == p[j + 1]);
        }
        if t.len() > 0 {
            let t1 = t.skip(1);
            lemma_plain_stretch(p1, t1, n - 1);
            assert(p1.skip(n - 1) =~= p.skip(n));
            if n <= t.len() {
                assert(t1.skip(n - 1) =~= t.skip(n));
            }
            if takes(p[0], t[0]) && n <= t.len() && (forall|j: int|
                0 <= j < n - 1 ==> takes(p1[j], t1[j])) {
                assert forall|j: int| 0 <= j < n implies takes(p[j], t[j]) by {
                    if j > 0 {
                        assert(takes(p1[j - 1], t1[j - 1]));
                    }
                }
            }
            if n <= t.len() && (forall|j: int| 0 <= j < n ==> takes(p[j], t[j])) {
                assert forall|j: int| 0 <= j < n - 1 implies takes(p1[j], t1[j]) by {
                    assert(takes(p[j + 1], t[j + 1]));
                }
            }
        }
    }
}

/// A pattern matches the empty text exactly when it is made of stars.
proof fn lemma_empty_text(p: Seq<char>, t: Seq<char>)
    requires
        t.len() == 0,
    ensures
        glob(p, t) <==> (forall|j: int| 0 <= j < p.len() ==> p[j] == '*'),
    decreases p.len(),
{
    if p.len() > 0 {
        let p1 = p.skip(1);
        lemma_empty_text(p1, t);
        assert(t.skip(0) =~= t);
        if p[0] == '*' {
            assert(glob(p, t) <==> glob(p1, t.skip(0)));
        }
        if forall|j: int| 0 <= j < p1.len() ==> p1[j] == '*' {
            if p[0] == '*' {
                assert forall|j: int| 0 <= j < p.len() implies p[j] == '*' by {
                    if j > 0 {
                        assert(p1[j - 1] == '*');
                    }
                }
            }
        }
        if forall|j: int| 0 <= j < p.len() ==> p[j] == '*' {
            assert forall|j: int| 0 <= j < p1.len() implies p1[j] == '*' by {
                assert(p1[j] == p[j + 1]);
            }
        }
    }
}

/// Whether the pattern `p` matches `t` from some position at or after `from` on.
spec fn matches_later(p: Seq<char>, t: Seq<char>, from: int) -> bool {
    exists|k: int| from <= k <= t.len() && glob(p, #[trigger] t.skip(k))
}

/// A star at the head of a pattern lets the rest match at any later position.
proof fn lemma_star(p: Seq<char>, t: Seq<char>, pi: int, ti: int)
    requires
        0 <= pi < p.len(),
        p[pi] == '*',
        0 <= ti <= t.len(),
    ensures
        glob(p.skip(pi), t.skip(ti)) <==> matches_later(p.skip(pi + 1), t, ti),
{
    let ps = p.skip(pi);
    let ts = t.skip(ti);
    assert(ps[0] == '*');
    assert(ps.skip(1) =~= p.skip(pi + 1));
    if glob(ps, ts) {
        let k = choose|k: int| 0 <= k <= ts.len() && glob(ps.skip(1), #[trigger] ts.skip(k));
        assert(ts.skip(k) =~= t.skip(ti + k));
        assert(glob(p.skip(pi + 1), t.skip(ti + k)));
    }
    if matches_later(p.skip(pi + 1), t, ti) {
        let k = choose|k: int| ti <= k <= t.len() && glob(p.skip(pi + 1), #[trigger] t.skip(k));
        assert(ts.skip(k - ti) =~= t.skip(k));
        assert(glob(ps.skip(1), ts.skip(k - ti)));
    }
}

/// The stretch of `p` between the last star and `pi` has taken the characters of `t` from
/// `st` up to `ti`.
spec fn stretch_taken(p: Seq<char>, t: Seq<char>, sp: int, st: int, pi: int, ti: int) -> bool {
    &&& 0 <= sp < pi <= p.len()
    &&& 0 <= st <= ti <= t.len()
    &&& pi - (sp + 1) == ti - st
    &&& forall|j: int| sp < j < pi ==> p[j] != '*'
    &&& forall|j: int| 0 <= j < ti - st ==> #[trigger] takes(p[sp + 1 + j], t[st + j])
}

/// What the pattern behind the last star says of the text from `k` on, after its plain
/// stretch.
proof fn lemma_behind_star(p: Seq<char>, t: Seq<char>, sp: int, pi: int, k: int)
    requires
        0 <= sp < pi <= p.len(),
        0 <= k <= t.len(),
        forall|j: int| sp < j < pi ==> p[j] != '*',
    ensures
        glob(p.skip(sp + 1), t.skip(k)) <==> ({
            let n = pi - (sp + 1);
            &&& k + n <= t.len()
            &&& forall|j: int| 0 <= j < n ==> #[trigger] takes(p[sp + 1 + j], t[k + j])
            &&& glob(p.skip(pi), t.skip(k + n))
        }),
{
    let n = pi - (sp + 1);
    let ps = p.skip(sp + 1);
    let ts = t.skip(k);
    assert forall|j: int| 0 <= j < n implies ps[j] != '*' by {
        assert(ps[j] == p[sp + 1 + j]);
    }
    lemma_plain_stretch(ps, ts, n);
    assert(ps.skip(n) =~= p.skip(pi));
    if k + n <= t.len() {
        assert(ts.skip(n) =~= t.skip(k + n));
        if forall|j: int| 0 <= j < n ==> takes(ps[j], ts[j]) {
            assert forall|j: int| 0 <= j < n implies #[trigger] takes(p[sp + 1 + j], t[k + j]) by {
                assert(takes(ps[j], ts[j]));
            }
        }
        if forall|j: int| 0 <= j < n ==> #[trigger] takes(p[sp + 1 + j], t[k + j]) {
            assert forall|j: int| 0 <= j < n implies takes(ps[j], ts[j]) by {
                assert(takes(p[sp + 1 + j], t[k + j]));
            }
        }
    }
}

/// A further star after a taken stretch: nothing is lost by fixing the stretch where it
/// stands.
proof fn lemma_next_star(p: Seq<char>, t: Seq<char>, sp: int, st: int, pi: int, ti: int)
    requires
        stretch_taken(p, t, sp, st, pi, ti),
        pi < p.len(),
        p[pi] == '*',
    ensures
        matches_later(p.skip(sp + 1), t, st) <==> matches_later(p.skip(pi + 1), t, ti),
{
    let n = pi - (sp + 1);
    if matches_later(p.skip(sp + 1), t, st) {
        let k = choose|k: int| st <= k <= t.len() && glob(p.skip(sp + 1), #[trigger] t.skip(k));
        lemma_behind_star(p, t, sp, pi, k);
        lemma_star(p, t, pi, k + n);
        let m = choose|m: int|
            k + n <= m <= t.len() && glob(p.skip(pi + 1), #[trigger] t.skip(m));
        assert(glob(p.skip(pi + 1), t.skip(m)));
    }
    if matches_later(p.skip(pi + 1), t, ti) {
        lemma_star(p, t, pi, ti);
        lemma_behind_star(p, t, sp, pi, st);
        assert(glob(p.skip(sp + 1), t.skip(st)));
    }
}

/// A dead end behind a star: the stretch has to start one character later.
proof fn lemma_dead_end(p: Seq<char>, t: Seq<char>, sp: int, st: int, pi: int, ti: int)
    requires
        stretch_taken(p, t, sp, st, pi, ti),
        ti < t.len(),
        pi < p.len() ==> p[pi] != '*' && !takes(p[pi], t[ti]),
    ensures
        matches_later(p.skip(sp + 1), t, st) <==> matches_later(p.skip(sp + 1), t, st + 1),
{
    lemma_behind_star(p, t, sp, pi, st);
    assert(!glob(p.skip(pi), t.skip(ti))) by {
        let ps = p.skip(pi);
        let ts = t.skip(ti);
        assert(ts[0] == t[ti]);
        if pi < p.len() {
            assert(ps[0] == p[pi]);
        }
    }
    if matches_later(p.skip(sp + 1), t, st) {
        let k = choose|k: int| st <= k <= t.len() && glob(p.skip(sp + 1), #[trigger] t.skip(k));
        assert(k != st);
        assert(glob(p.skip(sp + 1), t.skip(k)));
    }
    if matches_later(p.skip(sp + 1), t, st + 1) {
        let k = choose|k: int| st + 1 <= k <= t.len() && glob(p.skip(sp + 1), #[trigger] t.skip(k));
        assert(glob(p.skip(sp + 1), t.skip(k)));
    }
}

/// At the end of the text only the stretch that has been taken can still match.
proof fn lemma_text_used_up(p: Seq<char>, t: Seq<char>, sp: int, st: int, pi: int)
    requires
        stretch_taken(p, t, sp, st, pi, t.len() as int),
    ensures
        matches_later(p.skip(sp + 1), t, st) <==> glob(p.skip(pi), t.skip(t.len() as int)),
{
    lemma_behind_star(p, t, sp, pi, st);
    if matches_later(p.skip(sp + 1), t, st) {
        let k = choose|k: int| st <= k <= t.len() && glob(p.skip(sp + 1), #[trigger] t.skip(k));
        lemma_behind_star(p, t, sp, pi, k);
        assert(k == st);
    }
    if glob(p.skip(pi), t.skip(t.len() as int)) {
        assert(glob(p.skip(sp + 1), t.skip(st)));
    }
}

/// Glob matching: `*` = any chars, `?` = one char.
pub fn glob_matches(pattern: &str, text: &str) -> (r: bool)
    ensures
        r == glob(pattern@, text@),
{
    let p = chars_of(pattern);
    let t = chars_of(text);
    let mut pi: usize = 0;
    let mut ti: usize = 0;
    let mut star: Option<(usize, usize)> = None;

    assert(p@.skip(0) =~= p@);
    assert(t@.skip(0) =~= t@);
    while ti < t.len()
        invariant
            p@ == pattern@,
            t@ == text@,
            pi <= p.len(),
            ti <= t.len(),
            match star {
                None => glob(p@, t@) == glob(p@.skip(pi as int), t@.skip(ti as int)),
                Some((sp, st)) => {
                    &&& stretch_taken(p@, t@, sp as int, st as int, pi as int, ti as int)
                    &&& glob(p@, t@) == matches_later(p@.skip(sp + 1), t@, st as int)
                },
            },
        decreases
                (match star {
                    None => t.len() + 1,
                    Some((_, st)) => t.len() - st,
                }),
                t.len() - ti,
                p.len() - pi,
    {
        let ghost ps = p@.skip(pi as int);
        let ghost ts = t@.skip(ti as int);
        proof {
            assert(ts[0] == t@[ti as int]);
            assert(ts.skip(1) =~= t@.skip(ti + 1));
            if pi < p.len() {
                assert(ps[0] == p@[pi as int]);
                assert(ps.skip(1) =~= p@.skip(pi + 1));
            }
        }
        if pi < p.len() && p[pi] == '*' {
            proof {
                lemma_star(p@, t@, pi as int, ti as int);
                if let Some((sp, st)) = star {
                    lemma_next_star(p@, t@, sp as int, st as int, pi as int, ti as int);
                }
            }
            star = Some((pi, ti));
            pi += 1;
        } else if pi < p.len() && (p[pi] == '?' || p[pi] == t[ti]) {
            pi += 1;
            ti += 1;
        } else if let Some((sp, st)) = star {
            proof {
                lemma_dead_end(p@, t@, sp as int, st as int, pi as int, ti as int);
            }
            star = Some((sp, st + 1));
            pi = sp + 1;
            ti = st + 1;
        } else {
            return false;
        }
    }
    proof {
        if let Some((sp, st)) = star {
            lemma_text_used_up(p@, t@, sp as int, st as int, pi as int);
        }
    }
    let ghost rest = p@.skip(pi as int);
    let ghost from = pi;
    proof {
        lemma_empty_text(rest, t@.skip(ti as int));
    }
    while pi < p.len() && p[pi] == '*'
        invariant
            from <= pi <= p.len(),
            rest == p@.skip(from as int),
            forall|j: int| 0 <= j < pi - from ==> rest[j] == '*',
        decreases p.len() - pi,
    {
        pi += 1;
    }
    assert(pi < p.len() ==> rest[pi - from] == p@[pi as int]);
    pi == p.len()
}

/// Without a wildcard a pattern matches itself and nothing else.
pub proof fn law_literal_pattern(p: Seq<char>, t: Seq<char>)
    requires
        !has_wildcard(p),
    ensures
        glob(p, t) <==> p == t,
{
    lemma_plain_stretch(p, t, p.len() as int);
    let n = p.len() as int;
    assert(p.skip(n).len() == 0);
    if glob(p, t) {
        assert forall|j: int| 0 <= j < n implies p[j] == t[j] by {
            assert(takes(p[j], t[j]));
        }
        assert(p =~= t);
    }
}

/// The pattern `*` matches every text.
pub proof fn law_star_matches_all(t: Seq<char>)
    ensures
        glob(seq!['*'], t),
{
    let p = seq!['*'];
    let n = t.len() as int;
    assert(p.skip(1).len() == 0);
    assert(glob(p.skip(1), t.skip(n)));
}

/// The pattern `?` matches the texts of one character.
pub proof fn law_question_mark_is_one_char(t: Seq<char>)
    ensures
        glob(seq!['?'], t) <==> t.len() == 1,
{
    let p = seq!['?'];
    assert(p.skip(1).len() == 0);
    if t.len() > 0 {
        assert(glob(p.skip(1), t.skip(1)) <==> t.skip(1).len() == 0);
    }
}

/// A plain text between two stars matches exactly the texts that contain it.
pub proof fn law_stars_around_are_contains(part: Seq<char>, t: Seq<char>)
    requires
        !has_wildcard(part),
    ensures
        glob(seq!['*'] + part + seq!['*'], t) <==> has_part(t, part),
{
    let p = seq!['*'] + part + seq!['*'];
    let n = part.len() as int;
    let tail = p.skip(1);
    assert(p[0] == '*');
    assert forall|j: int| 0 <= j < n implies tail[j] != '*' by {
        assert(tail[j] == part[j]);
    }
    assert(tail.skip(n) =~= seq!['*']);
    if glob(p, t) {
        let k = choose|k: int| 0 <= k <= t.len() && glob(tail, #[trigger] t.skip(k));
        lemma_plain_stretch(tail, t.skip(k), n);
        assert forall|j: int| 0 <= j < n implies t[k + j] == part[j] by {
            assert(takes(tail[j], t.skip(k)[j]));
            assert(tail[j] == part[j]);
        }
        assert(t.subrange(k, k + n) =~= part);
        assert(occurs_at(t, part, k));
    }
    if has_part(t, part) {
        let k = choose|k: int| occurs_at(t, part, k);
        let ts = t.skip(k);
        assert forall|j: int| 0 <= j < n implies takes(tail[j], ts[j]) by {
            assert(t.subrange(k, k + n)[j] == part[j]);
            assert(tail[j] == part[j]);
        }
        law_star_matches_all(ts.skip(n));
        lemma_plain_stretch(tail, ts, n);
        assert(glob(p.skip(1), t.skip(k)));
    }
}

/// A pattern of two parts matches a text just if the text can be cut in two, so that each part
/// matches its piece: the whole text is used up, from the first character to the last.
pub proof fn law_patterns_one_after_the_other(a: Seq<char>, b: Seq<char>, t: Seq<char>)
    ensures
        glob(a + b, t) <==> exists|k: int|
            0 <= k <= t.len() && glob(a, #[trigger] t.take(k)) && glob(b, t.skip(k)),
    decreases a.len(),
{
    let p = a + b;
    if a.len() == 0 {
        assert(p =~= b);
        assert(t.skip(0) =~= t);
        if glob(p, t) {
            assert(glob(a, t.take(0)) && glob(b, t.skip(0)));
        }
        if exists|k: int| 0 <= k <= t.len() && glob(a, #[trigger] t.take(k)) && glob(b, t.skip(k)) {
            let k = choose|k: int|
                0 <= k <= t.len() && glob(a, #[trigger] t.take(k)) && glob(b, t.skip(k));
            assert(t.take(k).len() == 0);
        }
    } else {
        let a1 = a.skip(1);
        assert(p.skip(1) =~= a1 + b);
        assert(p[0] == a[0]);
        if a[0] == '*' {
            if glob(p, t) {
                let j = choose|j: int| 0 <= j <= t.len() && glob(p.skip(1), #[trigger] t.skip(j));
                let ts = t.skip(j);
                law_patterns_one_after_the_other(a1, b, ts);
                let k = choose|k: int|
                    0 <= k <= ts.len() && glob(a1, #[trigger] ts.take(k)) && glob(b, ts.skip(k));
                let head = t.take(j + k);
                assert(head.skip(j) =~= ts.take(k));
                assert(ts.skip(k) =~= t.skip(j + k));
                assert(glob(a.skip(1), head.skip(j)));
                assert(glob(a, t.take(j + k)));
            }
            if exists|k: int|
                0 <= k <= t.len() && glob(a, #[trigger] t.take(k)) && glob(b, t.skip(k)) {
                let k = choose|k: int|
                    0 <= k <= t.len() && glob(a, #[trigger] t.take(k)) && glob(b, t.skip(k));
                let head = t.take(k);
                let j = choose|j: int|
                    0 <= j <= head.len() && glob(a.skip(1), #[trigger] head.skip(j));
                let ts = t.skip(j);
                assert(ts.take(k - j) =~= head.skip(j));
                assert(ts.skip(k - j) =~= t.skip(k));
                law_patterns_one_after_the_other(a1, b, ts);
                assert(glob(p.skip(1), t.skip(j)));
            }
        } else {
            if t.len() > 0 {
                let ts = t.skip(1);
                law_patterns_one_after_the_other(a1, b, ts);
                if glob(p, t) {
                    let k = choose|k: int|
                        0 <= k <= ts.len() && glob(a1, #[trigger] ts.take(k)) && glob(
                            b,
                            ts.skip(k),
                        );
                    let head = t.take(k + 1);
                    assert(head.skip(1) =~= ts.take(k));
                    assert(ts.skip(k) =~= t.skip(k + 1));
                    assert(glob(a, t.take(k + 1)));
                }
                if exists|k: int|
                    0 <= k <= t.len() && glob(a, #[trigger] t.take(k)) && glob(b, t.skip(k)) {
                    let k = choose|k: int|
                        0 <= k <= t.len() && glob(a, #[trigger] t.take(k)) && glob(b, t.skip(k));
                    let head = t.take(k);
                    assert(head.len() > 0);
                    assert(head.skip(1) =~= ts.take(k - 1));
                    assert(ts.skip(k - 1) =~= t.skip(k));
                    assert(glob(a1, ts.take(k - 1)));
                }
            }
        }
    }
}

/// What a pattern of no or one character matches: nothing but the empty text, any text, any
/// one character, or the character itself.
pub proof fn law_shortest_patterns(c: char, t: Seq<char>)
    ensures
        glob(Seq::<char>::empty(), t) <==> t.len() == 0,
        c == '*' ==> glob(seq![c], t),
        c == '?' ==> (glob(seq![c], t) <==> t.len() == 1),
        c != '*' && c != '?' ==> (glob(seq![c], t) <==> t.len() == 1 && t[0] == c),
{
    let p = seq![c];
    assert(p.skip(1) =~= Seq::<char>::empty());
    if c == '*' {
        assert(glob(p.skip(1), t.skip(t.len() as int)));
    } else if t.len() > 0 {
        assert(glob(p.skip(1), t.skip(1)) <==> t.skip(1).len() == 0);
    }
}

/// A query holds a wildcard just if one of its characters is a star or a question mark.
pub proof fn law_wildcards(q: Seq<char>)
    ensures
        has_wildcard(q) <==> exists|i: int| 0 <= i < q.len() && (q[i] == '*' || q[i] == '?'),
{
    if has_wildcard(q) {
        let c = if q.contains('*') {
            '*'
        } else {
            '?'
        };
        let i = choose|i: int| 0 <= i < q.len() && q[i] == c;
        assert(q[i] == '*' || q[i] == '?');
    }
}

} // verus!
