//! The entries of a directory, and the order in which the tree shows them.
use crate::filters::{extension, opt_view, path_extension, plain_name, Filters};
use std::path::PathBuf;
use vstd::prelude::*;

verus! {

/// A path of the standard library, which is carried along and not looked into.
#[verifier::external_type_specification]
#[verifier::external_body]
pub struct ExPathBuf(PathBuf);

/// An entry of a directory: its name as text, the extension of the name, the bytes of the
/// name by which entries are sorted, its path, and whether it is a directory.
pub struct Entry {
    pub name: String,
    pub ext: Option<String>,
    pub key: Vec<u8>,
    pub path: PathBuf,
    pub is_dir: bool,
}

/// What an `Entry` holds.
pub struct EntryView {
    pub name: Seq<char>,
    pub ext: Option<Seq<char>>,
    pub key: Seq<u8>,
    pub path: PathBuf,
    pub is_dir: bool,
}

impl View for Entry {
    type V = EntryView;

    open spec fn view(&self) -> EntryView {
        EntryView {
            name: self.name@,
            ext: opt_view(self.ext),
            key: self.key@,
            path: self.path,
            is_dir: self.is_dir,
        }
    }
}

impl Entry {
    /// An entry; its extension is taken from its name.
    pub fn new(name: String, key: Vec<u8>, path: PathBuf, is_dir: bool) -> (r: Self)
        ensures
            r@.name == name@,
            plain_name(name@) ==> r@.ext == extension(name@),
            r@.key == key@,
            r@.path == path,
            r@.is_dir == is_dir,
    {
        let ext = path_extension(name.as_str());
        Entry { name, ext, key, path, is_dir }
    }
}

/// What the entries of a directory hold.
pub open spec fn entry_views(entries: Seq<Entry>) -> Seq<EntryView> {
    entries.map_values(|e: Entry| e@)
}

/// Whether the filters leave an entry out.
pub open spec fn hidden(filters: Filters, e: EntryView) -> bool {
    filters.hides(e.name, e.is_dir, e.ext)
}

/// The order of byte strings: by the first byte in which they differ, and a beginning comes
/// before what it begins.
pub open spec fn key_before(a: Seq<u8>, b: Seq<u8>) -> bool
    decreases a.len(),
{
    if b.len() == 0 {
        false
    } else if a.len() == 0 {
        true
    } else if a[0] != b[0] {
        a[0] < b[0]
    } else {
        key_before(a.skip(1), b.skip(1))
    }
}

/// Whether the entry `i` comes before the entry `j`: by name, and as they were listed where
/// the names are equal.
pub open spec fn precedes(es: Seq<EntryView>, i: int, j: int) -> bool {
    key_before(es[i].key, es[j].key) || (es[i].key == es[j].key && i < j)
}

/// Whether `order` holds the places of the entries from `lo` up to `hi` that are not hidden,
/// each once and sorted.
pub open spec fn orders_range(
    es: Seq<EntryView>,
    filters: Filters,
    lo: int,
    hi: int,
    order: Seq<int>,
) -> bool {
    &&& forall|a: int|
        0 <= a < order.len() ==> lo <= #[trigger] order[a] < hi && !hidden(filters, es[order[a]])
    &&& forall|i: int| lo <= i < hi && !hidden(filters, #[trigger] es[i]) ==> order.contains(i)
    &&& forall|a: int, b: int|
        0 <= a < b < order.len() ==> #[trigger] precedes(es, order[a], order[b])
}

/// Whether `order` is the order in which a directory is shown: it holds the places of the
/// entries that are not hidden, each once and sorted.
pub open spec fn is_display_order(es: Seq<EntryView>, filters: Filters, order: Seq<int>) -> bool {
    orders_range(es, filters, 0, es.len() as int, order)
}

/// The order in which a directory is shown.
pub open spec fn display_order(es: Seq<EntryView>, filters: Filters) -> Seq<int> {
    choose|order: Seq<int>| is_display_order(es, filters, order)
}

/// The entries that a directory shows, in their order.
pub open spec fn shown(es: Seq<EntryView>, filters: Filters) -> Seq<EntryView> {
    display_order(es, filters).map_values(|i: int| es[i])
}

/// No byte string comes before itself.
proof fn lemma_not_before_itself(a: Seq<u8>)
    ensures
        !key_before(a, a),
    decreases a.len(),
{
    if a.len() > 0 {
        lemma_not_before_itself(a.skip(1));
    }
}

/// The order of byte strings is transitive.
proof fn lemma_before_transitive(a: Seq<u8>, b: Seq<u8>, c: Seq<u8>)
    requires
        key_before(a, b),
        key_before(b, c),
    ensures
        key_before(a, c),
    decreases a.len(),
{
    if a.len() > 0 && a[0] == b[0] && b[0] == c[0] {
        lemma_before_transitive(a.skip(1), b.skip(1), c.skip(1));
    }
}

/// Of two different byte strings one comes before the other.
proof fn lemma_before_total(a: Seq<u8>, b: Seq<u8>)
    ensures
        key_before(a, b) || a == b || key_before(b, a),
    decreases a.len(),
{
    if a.len() == 0 && b.len() == 0 {
        assert(a =~= b);
    } else if a.len() > 0 && b.len() > 0 && a[0] == b[0] {
        lemma_before_total(a.skip(1), b.skip(1));
        if a.skip(1) == b.skip(1) {
            assert(a.skip(1).len() == a.len() - 1 && b.skip(1).len() == b.len() - 1);
            assert forall|i: int| 0 <= i < a.len() implies a[i] == b[i] by {
                if i > 0 {
                    assert(a.skip(1)[i - 1] == b.skip(1)[i - 1]);
                }
            }
            assert(a =~= b);
        }
    }
}

/// No entry comes before itself.
proof fn lemma_not_preceding_itself(es: Seq<EntryView>, i: int)
    ensures
        !precedes(es, i, i),
{
    lemma_not_before_itself(es[i].key);
}

/// The order of entries is transitive.
proof fn lemma_precedes_transitive(es: Seq<EntryView>, i: int, j: int, k: int)
    requires
        precedes(es, i, j),
        precedes(es, j, k),
    ensures
        precedes(es, i, k),
{
    if key_before(es[i].key, es[j].key) && key_before(es[j].key, es[k].key) {
        lemma_before_transitive(es[i].key, es[j].key, es[k].key);
    }
}

/// Of two entries one comes before the other.
proof fn lemma_precedes_total(es: Seq<EntryView>, i: int, j: int)
    requires
        i != j,
    ensures
        precedes(es, i, j) || precedes(es, j, i),
{
    lemma_before_total(es[i].key, es[j].key);
}

/// There is only one display order.
pub proof fn law_display_order_unique(
    es: Seq<EntryView>,
    filters: Filters,
    o1: Seq<int>,
    o2: Seq<int>,
)
    requires
        is_display_order(es, filters, o1),
        is_display_order(es, filters, o2),
    ensures
        o1 == o2,
{
    lemma_same_up_to(es, filters, o1, o2, o1.len() as int);
    lemma_same_up_to(es, filters, o2, o1, o2.len() as int);
    assert(o1 =~= o2);
}

/// Two display orders agree up to any place.
proof fn lemma_same_up_to(
    es: Seq<EntryView>,
    filters: Filters,
    o1: Seq<int>,
    o2: Seq<int>,
    n: int,
)
    requires
        is_display_order(es, filters, o1),
        is_display_order(es, filters, o2),
        0 <= n <= o1.len(),
    ensures
        n <= o2.len(),
        forall|a: int| 0 <= a < n ==> o1[a] == o2[a],
    decreases n,
{
    if n > 0 {
        let a = n - 1;
        lemma_same_up_to(es, filters, o1, o2, a);
        let i = o1[a];
        assert(!hidden(filters, es[i]));
        assert(o2.contains(i));
        let b = choose|b: int| 0 <= b < o2.len() && o2[b] == i;
        lemma_not_preceding_itself(es, i);
        if b < a {
            assert(precedes(es, o1[b], o1[a]));
        }
        if b > a {
            let j = o2[a];
            assert(precedes(es, o2[a], o2[b]));
            assert(!hidden(filters, es[j]));
            assert(o1.contains(j));
            let c = choose|c: int| 0 <= c < o1.len() && o1[c] == j;
            if c < a {
                assert(o2[c] == j);
                assert(precedes(es, o2[c], o2[a]));
                lemma_not_preceding_itself(es, j);
            } else if c > a {
                assert(precedes(es, o1[a], o1[c]));
                lemma_precedes_transitive(es, i, j, i);
            }
        }
    }
}

/// Where the entry `n` goes into a sorted order.
proof fn lemma_place(es: Seq<EntryView>, o: Seq<int>, n: int) -> (p: int)
    requires
        forall|a: int| 0 <= a < o.len() ==> #[trigger] o[a] != n,
        forall|a: int, b: int| 0 <= a < b < o.len() ==> #[trigger] precedes(es, o[a], o[b]),
    ensures
        0 <= p <= o.len(),
        forall|a: int| 0 <= a < p ==> #[trigger] precedes(es, o[a], n),
        forall|a: int| p <= a < o.len() ==> #[trigger] precedes(es, n, o[a]),
    decreases o.len(),
{
    if o.len() == 0 {
        0
    } else {
        let last = o.last();
        lemma_precedes_total(es, last, n);
        if precedes(es, last, n) {
            assert forall|a: int| 0 <= a < o.len() implies #[trigger] precedes(es, o[a], n) by {
                if a < o.len() - 1 {
                    assert(precedes(es, o[a], o[o.len() - 1]));
                    lemma_precedes_transitive(es, o[a], last, n);
                }
            }
            o.len() as int
        } else {
            let shorter = o.drop_last();
            assert forall|a: int, b: int| 0 <= a < b < shorter.len() implies #[trigger] precedes(
                es,
                shorter[a],
                shorter[b],
            ) by {
                assert(precedes(es, o[a], o[b]));
            }
            let p = lemma_place(es, shorter, n);
            assert forall|a: int| 0 <= a < p implies #[trigger] precedes(es, o[a], n) by {
                assert(precedes(es, shorter[a], n));
            }
            assert forall|a: int| p <= a < o.len() implies #[trigger] precedes(es, n, o[a]) by {
                if a < o.len() - 1 {
                    assert(precedes(es, n, shorter[a]));
                }
            }
            p
        }
    }
}

/// The first `n` entries of a directory can be put in order.
proof fn lemma_order_exists(es: Seq<EntryView>, filters: Filters, n: int) -> (order: Seq<int>)
    requires
        0 <= n <= es.len(),
    ensures
        orders_range(es, filters, 0, n, order),
    decreases n,
{
    if n == 0 {
        Seq::<int>::empty()
    } else {
        let o = lemma_order_exists(es, filters, n - 1);
        if hidden(filters, es[n - 1]) {
            o
        } else {
            let p = lemma_place(es, o, n - 1);
            let r = o.take(p).push(n - 1) + o.skip(p);
            assert forall|i: int| 0 <= i < n && !hidden(filters, #[trigger] es[i]) implies r.contains(
                i,
            ) by {
                if i == n - 1 {
                    assert(r[p] == i);
                } else {
                    assert(o.contains(i));
                    let a = choose|a: int| 0 <= a < o.len() && o[a] == i;
                    if a < p {
                        assert(r[a] == i);
                    } else {
                        assert(r[a + 1] == i);
                    }
                }
            }
            assert forall|a: int, b: int| 0 <= a < b < r.len() implies #[trigger] precedes(
                es,
                r[a],
                r[b],
            ) by {
                if b < p {
                    assert(precedes(es, o[a], o[b]));
                } else if b == p {
                    assert(precedes(es, o[a], n - 1));
                } else if a < p {
                    assert(precedes(es, o[a], o[b - 1]));
                } else if a == p {
                    assert(precedes(es, n - 1, o[b - 1]));
                } else {
                    assert(precedes(es, o[a - 1], o[b - 1]));
                }
            }
            r
        }
    }
}

/// Every directory has its display order.
pub proof fn law_display_order_exists(es: Seq<EntryView>, filters: Filters)
    ensures
        is_display_order(es, filters, display_order(es, filters)),
{
    let order = lemma_order_exists(es, filters, es.len() as int);
    assert(is_display_order(es, filters, order));
}

/// Whether an entry is shown depends on the filters alone: an entry of the directory is
/// among the shown ones exactly when it is not hidden.
pub proof fn law_shown_are_the_visible(es: Seq<EntryView>, filters: Filters, e: EntryView)
    ensures
        shown(es, filters).contains(e) <==> es.contains(e) && !hidden(filters, e),
{
    law_display_order_exists(es, filters);
    let order = display_order(es, filters);
    if shown(es, filters).contains(e) {
        let a = choose|a: int| 0 <= a < order.len() && shown(es, filters)[a] == e;
        assert(0 <= order[a] < es.len());
        assert(es[order[a]] == e);
    }
    if es.contains(e) && !hidden(filters, e) {
        let i = choose|i: int| 0 <= i < es.len() && es[i] == e;
        assert(!hidden(filters, es[i]));
        assert(order.contains(i));
        let a = choose|a: int| 0 <= a < order.len() && order[a] == i;
        assert(shown(es, filters)[a] == e);
    }
}

/// Whether one byte string comes before another.
fn is_before(a: &Vec<u8>, b: &Vec<u8>) -> (r: bool)
    ensures
        r == key_before(a@, b@),
{
    let mut i: usize = 0;
    assert(a@.skip(0) =~= a@);
    assert(b@.skip(0) =~= b@);
    loop
        invariant
            i <= a.len(),
            i <= b.len(),
            key_before(a@, b@) == key_before(a@.skip(i as int), b@.skip(i as int)),
        decreases a.len() - i,
    {
        if i == b.len() {
            return false;
        }
        if i == a.len() {
            return true;
        }
        assert(a@.skip(i as int)[0] == a@[i as int]);
        assert(b@.skip(i as int)[0] == b@[i as int]);
        if a[i] != b[i] {
            return a[i] < b[i];
        }
        assert(a@.skip(i as int).skip(1) =~= a@.skip(i + 1));
        assert(b@.skip(i as int).skip(1) =~= b@.skip(i + 1));
        i += 1;
    }
}

/// The places in a list of machine integers.
spec fn ints(s: Seq<usize>) -> Seq<int> {
    s.map_values(|x: usize| x as int)
}

/// Merges the orders of two neighbouring ranges.
fn merge(
    entries: &Vec<Entry>,
    filters: &Filters,
    left: &Vec<usize>,
    right: &Vec<usize>,
    Ghost(lo): Ghost<int>,
    Ghost(mid): Ghost<int>,
    Ghost(hi): Ghost<int>,
) -> (r: Vec<usize>)
    requires
        0 <= lo <= mid <= hi <= entries.len(),
        orders_range(entry_views(entries@), *filters, lo, mid, ints(left@)),
        orders_range(entry_views(entries@), *filters, mid, hi, ints(right@)),
    ensures
        orders_range(entry_views(entries@), *filters, lo, hi, ints(r@)),
{
    let ghost es = entry_views(entries@);
    let ghost ls = ints(left@);
    let ghost rs = ints(right@);
    let mut r: Vec<usize> = Vec::new();
    let mut i: usize = 0;
    let mut j: usize = 0;
    while i < left.len() || j < right.len()
        invariant
            0 <= lo <= mid <= hi <= entries.len(),
            es == entry_views(entries@),
            ls == ints(left@),
            rs == ints(right@),
            orders_range(es, *filters, lo, mid, ls),
            orders_range(es, *filters, mid, hi, rs),
            i <= left.len(),
            j <= right.len(),
            forall|a: int|
                0 <= a < r.len() ==> lo <= #[trigger] ints(r@)[a] < hi && !hidden(
                    *filters,
                    es[ints(r@)[a]],
                ),
            forall|a: int| 0 <= a < i ==> ints(r@).contains(#[trigger] ls[a]),
            forall|b: int| 0 <= b < j ==> ints(r@).contains(#[trigger] rs[b]),
            forall|a: int, b: int|
                0 <= a < b < r.len() ==> #[trigger] precedes(es, ints(r@)[a], ints(r@)[b]),
            forall|a: int, b: int|
                0 <= a < r.len() && i <= b < left.len() ==> #[trigger] precedes(
                    es,
                    ints(r@)[a],
                    ls[b],
                ),
            forall|a: int, b: int|
                0 <= a < r.len() && j <= b < right.len() ==> #[trigger] precedes(
                    es,
                    ints(r@)[a],
                    rs[b],
                ),
        decreases left.len() - i + right.len() - j,
    {
        let take_right = if i == left.len() {
            true
        } else if j == right.len() {
            false
        } else {
            assert(lo <= ls[i as int] < mid);
            assert(mid <= rs[j as int] < hi);
            is_before(&entries[right[j]].key, &entries[left[i]].key)
        };
        let ghost before = ints(r@);
        let next: usize = if take_right {
            right[j]
        } else {
            left[i]
        };
        proof {
            if take_right {
                assert(mid <= rs[j as int] < hi);
                if i < left.len() {
                    assert(precedes(es, rs[j as int], ls[i as int]));
                    assert forall|b: int| i <= b < left.len() implies #[trigger] precedes(
                        es,
                        rs[j as int],
                        ls[b],
                    ) by {
                        if b > i {
                            assert(precedes(es, ls[i as int], ls[b]));
                            lemma_precedes_transitive(es, rs[j as int], ls[i as int], ls[b]);
                        }
                    }
                }
            } else {
                assert(lo <= ls[i as int] < mid);
                if j < right.len() {
                    lemma_before_total(es[ls[i as int]].key, es[rs[j as int]].key);
                    assert(precedes(es, ls[i as int], rs[j as int]));
                    assert forall|b: int| j <= b < right.len() implies #[trigger] precedes(
                        es,
                        ls[i as int],
                        rs[b],
                    ) by {
                        if b > j {
                            assert(precedes(es, rs[j as int], rs[b]));
                            lemma_precedes_transitive(es, ls[i as int], rs[j as int], rs[b]);
                        }
                    }
                }
            }
        }
        r.push(next);
        proof {
            assert(ints(r@) =~= before.push(next as int));
            assert forall|x: int| before.contains(x) implies ints(r@).contains(x) by {
                let a = choose|a: int| 0 <= a < before.len() && before[a] == x;
                assert(ints(r@)[a] == x);
            }
            assert(ints(r@)[before.len() as int] == next as int);
        }
        if take_right {
            j += 1;
        } else {
            i += 1;
        }
    }
    proof {
        assert forall|x: int| lo <= x < hi && !hidden(*filters, #[trigger] es[x]) implies ints(
            r@,
        ).contains(x) by {
            if x < mid {
                assert(ls.contains(x));
                let a = choose|a: int| 0 <= a < ls.len() && ls[a] == x;
                assert(ints(r@).contains(ls[a]));
            } else {
                assert(rs.contains(x));
                let b = choose|b: int| 0 <= b < rs.len() && rs[b] == x;
                assert(ints(r@).contains(rs[b]));
            }
        }
    }
    r
}

/// Puts the entries from `lo` up to `hi` that are not hidden in order.
fn order_range(entries: &Vec<Entry>, filters: &Filters, lo: usize, hi: usize) -> (r: Vec<usize>)
    requires
        lo <= hi <= entries.len(),
    ensures
        orders_range(entry_views(entries@), *filters, lo as int, hi as int, ints(r@)),
    decreases hi - lo,
{
    let mut r: Vec<usize> = Vec::new();
    if lo == hi {
        return r;
    }
    if hi - lo == 1 {
        let e = &entries[lo];
        assert(entry_views(entries@)[lo as int] == e@);
        if !filters.skips_with_extension(e.name.as_str(), e.is_dir, &e.ext) {
            r.push(lo);
            assert(ints(r@)[0] == lo);
        }
        return r;
    }
    let mid: usize = lo + (hi - lo) / 2;
    let left = order_range(entries, filters, lo, mid);
    let right = order_range(entries, filters, mid, hi);
    merge(
        entries,
        filters,
        &left,
        &right,
        Ghost(lo as int),
        Ghost(mid as int),
        Ghost(hi as int),
    )
}

/// Takes the shown entries out of a listing, last one first.
pub fn arrange(entries: Vec<Entry>, filters: &Filters) -> (r: Vec<Entry>)
    ensures
        entry_views(r@).reverse() == shown(entry_views(entries@), *filters),
{
    let ghost es = entry_views(entries@);
    let order = order_range(&entries, filters, 0, entries.len());
    let ghost os = ints(order@);
    proof {
        law_display_order_exists(es, *filters);
        law_display_order_unique(es, *filters, os, display_order(es, *filters));
    }
    let mut slots: Vec<Option<Entry>> = Vec::new();
    for e in it: entries
        invariant
            slots.len() == it.index(),
            it.seq() == entries@,
            forall|i: int| 0 <= i < slots.len() ==> slots@[i] == Some(entries@[i]),
    {
        slots.push(Some(e));
    }
    let mut r: Vec<Entry> = Vec::new();
    let mut k: usize = order.len();
    while k > 0
        invariant
            k <= order.len(),
            es == entry_views(entries@),
            os == ints(order@),
            is_display_order(es, *filters, os),
            slots.len() == entries.len(),
            r.len() == order.len() - k,
            forall|i: int|
                0 <= i < slots.len() && (forall|a: int| k <= a < os.len() ==> os[a] != i)
                    ==> #[trigger] slots@[i] == Some(entries@[i]),
            forall|a: int| k <= a < os.len() ==> #[trigger] r@[os.len() - 1 - a]@ == es[os[a]],
        decreases k,
    {
        k -= 1;
        let ghost old_r = r@;
        let i = order[k];
        proof {
            assert(os[k as int] == i);
            assert forall|a: int| k < a < os.len() implies os[a] != i by {
                assert(precedes(es, os[k as int], os[a]));
                lemma_not_preceding_itself(es, i as int);
            }
            assert(slots@[i as int] == Some(entries@[i as int]));
        }
        let mut slot: Option<Entry> = None;
        std::mem::swap(&mut slot, &mut slots[i]);
        match slot {
            Some(e) => r.push(e),
            None => {},
        }
        assert forall|a: int| k <= a < os.len() implies #[trigger] r@[os.len() - 1 - a]@
            == es[os[a]] by {
            if a > k {
                assert(old_r[os.len() - 1 - a]@ == es[os[a]]);
            }
        }
    }
    proof {
        let rev = entry_views(r@).reverse();
        assert forall|a: int| 0 <= a < os.len() implies rev[a] == shown(es, *filters)[a] by {
            assert(r@[os.len() - 1 - a]@ == es[os[a]]);
        }
        assert(rev =~= shown(es, *filters));
    }
    r
}

/// Whether a byte string is smaller than another one at the place `k`, up to which they are
/// equal: it ends there, or has the smaller byte.
pub open spec fn smaller_key_at(a: Seq<u8>, b: Seq<u8>, k: int) -> bool {
    &&& 0 <= k <= a.len()
    &&& k < b.len()
    &&& forall|i: int| 0 <= i < k ==> a[i] == b[i]
    &&& k < a.len() ==> a[k] < b[k]
}

/// Names are ordered by the first byte in which they differ, and a name comes before those
/// that it begins.
pub proof fn law_order_of_names(a: Seq<u8>, b: Seq<u8>)
    ensures
        key_before(a, b) <==> exists|k: int| smaller_key_at(a, b, k),
    decreases a.len(),
{
    if a.len() > 0 && b.len() > 0 && a[0] == b[0] {
        let (s, t) = (a.skip(1), b.skip(1));
        law_order_of_names(s, t);
        if key_before(a, b) {
            let k = choose|k: int| smaller_key_at(s, t, k);
            assert forall|i: int| 0 <= i < k + 1 implies a[i] == b[i] by {
                if i > 0 {
                    assert(s[i - 1] == t[i - 1]);
                }
            }
            if k < s.len() {
                assert(s[k] < t[k]);
            }
            assert(smaller_key_at(a, b, k + 1));
        }
        if exists|k: int| smaller_key_at(a, b, k) {
            let k = choose|k: int| smaller_key_at(a, b, k);
            assert(k > 0);
            assert(smaller_key_at(s, t, k - 1));
        }
    } else {
        if key_before(a, b) {
            assert(smaller_key_at(a, b, 0));
        }
        if exists|k: int| smaller_key_at(a, b, k) {
            let k = choose|k: int| smaller_key_at(a, b, k);
            if k > 0 {
                assert(a[0] == b[0]);
            }
        }
    }
}

/// A directory shows every entry that is not hidden once, and no other: its entries have
/// places in what is shown, later ones come behind earlier ones by name, and entries of one
/// name stay as they were listed.
pub proof fn law_what_a_directory_shows(es: Seq<EntryView>, filters: Filters)
    ensures
        ({
            let order = display_order(es, filters);
            let list = shown(es, filters);
            &&& list.len() == order.len()
            &&& forall|a: int|
                0 <= a < order.len() ==> {
                    &&& 0 <= #[trigger] order[a] < es.len()
                    &&& list[a] == es[order[a]]
                    &&& !filters.hides(list[a].name, list[a].is_dir, list[a].ext)
                }
            &&& forall|i: int|
                0 <= i < es.len() && !filters.hides(
                    (#[trigger] es[i]).name,
                    es[i].is_dir,
                    es[i].ext,
                ) ==> order.contains(i)
            &&& forall|a: int, b: int|
                0 <= a < b < order.len() ==> {
                    &&& #[trigger] order[a] != #[trigger] order[b]
                    &&& !key_before(list[b].key, list[a].key)
                    &&& list[a].key == list[b].key ==> order[a] < order[b]
                }
        }),
{
    law_display_order_exists(es, filters);
    let order = display_order(es, filters);
    let list = shown(es, filters);
    assert forall|a: int| 0 <= a < order.len() implies 0 <= #[trigger] order[a] < es.len() && list[a]
        == es[order[a]] && !filters.hides(list[a].name, list[a].is_dir, list[a].ext) by {
        assert(!hidden(filters, es[order[a]]));
    }
    assert forall|i: int|
        0 <= i < es.len() && !filters.hides(
            (#[trigger] es[i]).name,
            es[i].is_dir,
            es[i].ext,
        ) implies order.contains(i) by {
        assert(!hidden(filters, es[i]));
    }
    assert forall|a: int, b: int| 0 <= a < b < order.len() implies #[trigger] order[a]
        != #[trigger] order[b] && !key_before(list[b].key, list[a].key) && (list[a].key
        == list[b].key ==> order[a] < order[b]) by {
        let (i, j) = (order[a], order[b]);
        assert(precedes(es, order[a], order[b]));
        lemma_not_preceding_itself(es, i);
        lemma_not_before_itself(es[i].key);
        if key_before(es[j].key, es[i].key) && key_before(es[i].key, es[j].key) {
            lemma_before_transitive(es[i].key, es[j].key, es[i].key);
        }
    }
}

/// What the entries of a listing hold is taken over as it stands.
pub proof fn law_entry_views(entries: Seq<Entry>, i: int)
    requires
        0 <= i < entries.len(),
    ensures
        entry_views(entries).len() == entries.len(),
        entry_views(entries)[i].name == entries[i].name@,
        entry_views(entries)[i].ext == opt_view(entries[i].ext),
        entry_views(entries)[i].key == entries[i].key@,
        entry_views(entries)[i].path == entries[i].path,
        entry_views(entries)[i].is_dir == entries[i].is_dir,
{
}

} // verus!
