//! A bounded collection of the closest neighbours seen so far.
use vstd::prelude::*;
use crate::order::{
    Neighbor, nb_lt, nb_le, sorted, insert_sorted, insert_pos, lemma_insert_pos, lemma_insert_sorted, lemma_insert_sorted_sorted,
    lemma_sorted_drop_last, sorted_insert, neighbor_lt,
};
use crate::graph::rows_distinct;

verus! {

/// Offering `x` to the `k` closest so far (`s`, closest first): it joins
/// while fewer than `k` are kept, and otherwise replaces the farthest one
/// if it comes strictly before it.
pub open spec fn topk_push(s: Seq<Neighbor>, k: usize, x: Neighbor) -> Seq<Neighbor> {
    if s.len() < k {
        insert_sorted(s, x)
    } else if s.len() > 0 && nb_lt(x, s.last()) {
        insert_sorted(s.drop_last(), x)
    } else {
        s
    }
}

/// The `k` closest of `items`, offered in order to an empty collection.
pub open spec fn topk_all(items: Seq<Neighbor>, k: usize) -> Seq<Neighbor>
    decreases items.len(),
{
    if items.len() == 0 {
        seq![]
    } else {
        topk_push(topk_all(items.drop_last(), k), k, items.last())
    }
}

/// Everything offered stays unless `k` closer-or-equal ones are kept.
pub open spec fn topk_sound(s: Seq<Neighbor>, items: Seq<Neighbor>, k: usize) -> bool {
    &&& sorted(s)
    &&& s.len() <= k
    &&& s.len() <= items.len()
    &&& (s.len() < k ==> s.len() == items.len())
    &&& forall|i: int| 0 <= i < s.len() ==> items.contains(#[trigger] s[i])
    &&& forall|i: int|
        0 <= i < items.len() && !s.contains(#[trigger] items[i]) ==> s.len() == k && forall|j: int|
            0 <= j < s.len() ==> nb_le(#[trigger] s[j], items[i])
}

pub proof fn lemma_push_contains(prev: Seq<Neighbor>, x: Neighbor, y: Neighbor)
    requires
        prev.contains(y) || y == x,
    ensures
        prev.push(x).contains(y),
{
    if y == x {
        assert(prev.push(x)[prev.len() as int] == x);
    } else {
        let m = choose|m: int| 0 <= m < prev.len() && prev[m] == y;
        assert(prev.push(x)[m] == y);
    }
}

/// Offering one more item while fewer than `k` are kept.
#[verifier::spinoff_prover]
pub proof fn lemma_topk_grow(s: Seq<Neighbor>, prev: Seq<Neighbor>, k: usize, x: Neighbor)
    requires
        topk_sound(s, prev, k),
        s.len() < k,
    ensures
        topk_sound(topk_push(s, k, x), prev.push(x), k),
{
    let items = prev.push(x);
    let t = topk_push(s, k, x);
    lemma_insert_sorted_sorted(s, x);
    lemma_insert_sorted(s, x);
    assert forall|i: int| 0 <= i < t.len() implies items.contains(#[trigger] t[i]) by {
        if t[i] != x {
            let j = choose|j: int| 0 <= j < s.len() && t[i] == s[j];
            lemma_push_contains(prev, x, s[j]);
        } else {
            lemma_push_contains(prev, x, x);
        }
    }
    assert forall|i: int| 0 <= i < items.len() implies t.contains(#[trigger] items[i]) by {
        if i == prev.len() {
            lemma_insert_pos(s, x);
            s.insert_ensures(insert_pos(s, x) as int, x);
            assert(t[insert_pos(s, x) as int] == x);
        } else {
            assert(items[i] == prev[i]);
            if !s.contains(prev[i]) {
                assert(s.len() == k);
            }
            let j = choose|j: int| 0 <= j < s.len() && s[j] == prev[i];
            let q = choose|q: int| 0 <= q < t.len() && t[q] == s[j];
        }
    }
}

/// Offering one more item that replaces the farthest kept one.
#[verifier::spinoff_prover]
pub proof fn lemma_topk_replace(s: Seq<Neighbor>, prev: Seq<Neighbor>, k: usize, x: Neighbor)
    requires
        topk_sound(s, prev, k),
        s.len() >= k,
        s.len() > 0,
        nb_lt(x, s.last()),
    ensures
        topk_sound(topk_push(s, k, x), prev.push(x), k),
{
    let items = prev.push(x);
    let t = topk_push(s, k, x);
    let d = s.drop_last();
    lemma_sorted_drop_last(s);
    lemma_insert_sorted_sorted(d, x);
    lemma_insert_sorted(d, x);
    assert forall|i: int| 0 <= i < t.len() implies items.contains(#[trigger] t[i]) by {
        if t[i] != x {
            let j = choose|j: int| 0 <= j < d.len() && t[i] == d[j];
            assert(d[j] == s[j]);
            lemma_push_contains(prev, x, s[j]);
        } else {
            lemma_push_contains(prev, x, x);
        }
    }
    // every kept one comes no later than the dropped last element
    assert forall|j: int| 0 <= j < t.len() implies nb_le(#[trigger] t[j], s.last()) by {
        if t[j] != x {
            let m = choose|m: int| 0 <= m < d.len() && t[j] == d[m];
            assert(d[m] == s[m]);
            assert(nb_le(s[m], s[s.len() - 1]));
        }
    }
    assert forall|i: int| 0 <= i < items.len() && !t.contains(#[trigger] items[i]) implies t.len()
        == k && forall|j: int| 0 <= j < t.len() ==> nb_le(#[trigger] t[j], items[i]) by {
        let y = items[i];
        if i == prev.len() {
            lemma_insert_pos(d, x);
            d.insert_ensures(insert_pos(d, x) as int, x);
            assert(t[insert_pos(d, x) as int] == x);
            assert(false);
        } else {
            assert(y == prev[i]);
            if s.contains(y) {
                let m = choose|m: int| 0 <= m < s.len() && s[m] == y;
                if m < s.len() - 1 {
                    assert(d[m] == y);
                    let q = choose|q: int| 0 <= q < t.len() && t[q] == d[m];
                    assert(false);
                }
            } else {
                assert(nb_le(s[s.len() - 1], y));
            }
        }
    }
}

/// Offering one more item that is not kept.
#[verifier::spinoff_prover]
pub proof fn lemma_topk_keep(s: Seq<Neighbor>, prev: Seq<Neighbor>, k: usize, x: Neighbor)
    requires
        topk_sound(s, prev, k),
        s.len() >= k,
        !(s.len() > 0 && nb_lt(x, s.last())),
    ensures
        topk_sound(topk_push(s, k, x), prev.push(x), k),
{
    let items = prev.push(x);
    let t = topk_push(s, k, x);
    assert(t == s);
    assert forall|i: int| 0 <= i < t.len() implies items.contains(#[trigger] t[i]) by {
        lemma_push_contains(prev, x, s[i]);
    }
    assert forall|i: int| 0 <= i < items.len() && !t.contains(#[trigger] items[i]) implies t.len()
        == k && forall|j: int| 0 <= j < t.len() ==> nb_le(#[trigger] t[j], items[i]) by {
        if i == prev.len() {
            if s.len() > 0 {
                assert forall|j: int| 0 <= j < t.len() implies nb_le(#[trigger] t[j], items[i]) by {
                    assert(nb_le(s[j], s[s.len() - 1]));
                }
            }
        } else {
            assert(items[i] == prev[i]);
        }
    }
}

/// What the `k` closest of any offered items are: sorted, at most `k` of
/// them, all offered, all offered ones kept while fewer than `k` were
/// offered, and none left out that comes before a kept one.
pub proof fn lemma_topk_all(items: Seq<Neighbor>, k: usize)
    ensures
        topk_sound(topk_all(items, k), items, k),
    decreases items.len(),
{
    if items.len() > 0 {
        let prev = items.drop_last();
        let x = items.last();
        let s = topk_all(prev, k);
        lemma_topk_all(prev, k);
        assert(prev.push(x) =~= items);
        if s.len() < k {
            lemma_topk_grow(s, prev, k, x);
        } else if s.len() > 0 && nb_lt(x, s.last()) {
            lemma_topk_replace(s, prev, k, x);
        } else {
            lemma_topk_keep(s, prev, k, x);
        }
    }
}

/// Inserting a neighbour whose row is new keeps the rows distinct.
pub proof fn lemma_insert_distinct(s: Seq<Neighbor>, x: Neighbor)
    requires
        rows_distinct(s),
        forall|i: int| 0 <= i < s.len() ==> #[trigger] s[i].row != x.row,
    ensures
        rows_distinct(insert_sorted(s, x)),
{
    lemma_insert_pos(s, x);
    let p = insert_pos(s, x) as int;
    s.insert_ensures(p, x);
    let t = insert_sorted(s, x);
    assert forall|i: int, j: int| 0 <= i < j < t.len() implies #[trigger] t[i].row != #[trigger] t[j].row by {
        if i == p {
            assert(t[j] == s[j - 1]);
        } else if j == p {
            assert(t[i] == s[i]);
        } else if j < p {
            assert(t[i] == s[i] && t[j] == s[j]);
        } else if i < p {
            assert(t[i] == s[i] && t[j] == s[j - 1]);
        } else {
            assert(t[i] == s[i - 1] && t[j] == s[j - 1]);
        }
    }
}

/// The `k` closest of items with distinct rows have distinct rows.
pub proof fn lemma_topk_distinct(items: Seq<Neighbor>, k: usize)
    requires
        rows_distinct(items),
    ensures
        rows_distinct(topk_all(items, k)),
    decreases items.len(),
{
    if items.len() > 0 {
        let prev = items.drop_last();
        let x = items.last();
        assert forall|i: int, j: int| 0 <= i < j < prev.len() implies #[trigger] prev[i].row != #[trigger] prev[j].row by {
            assert(prev[i] == items[i] && prev[j] == items[j]);
        }
        lemma_topk_distinct(prev, k);
        lemma_topk_all(prev, k);
        let s = topk_all(prev, k);
        assert forall|i: int| 0 <= i < s.len() implies #[trigger] s[i].row != x.row by {
            let m = choose|m: int| 0 <= m < prev.len() && prev[m] == s[i];
            assert(items[m] == prev[m]);
            assert(items[items.len() - 1] == x);
        }
        if s.len() < k {
            lemma_insert_distinct(s, x);
        } else if s.len() > 0 && nb_lt(x, s.last()) {
            let d = s.drop_last();
            assert forall|i: int, j: int| 0 <= i < j < d.len() implies #[trigger] d[i].row != #[trigger] d[j].row by {
                assert(d[i] == s[i] && d[j] == s[j]);
            }
            assert forall|i: int| 0 <= i < d.len() implies #[trigger] d[i].row != x.row by {
                assert(d[i] == s[i]);
            }
            lemma_insert_distinct(d, x);
        }
    }
}

/// Offering more items never makes the `k` closest worse: when every item
/// of `a` is among those of `b`, the `k` closest of `b` are at least as
/// many as those of `a`, and each comes no later than the one in the same
/// place among the `k` closest of `a`.
pub proof fn lemma_topk_more(a: Seq<Neighbor>, b: Seq<Neighbor>, k: usize)
    requires
        rows_distinct(a),
        a.len() <= b.len(),
        forall|i: int| 0 <= i < a.len() ==> b.contains(#[trigger] a[i]),
    ensures
        topk_all(b, k).len() >= topk_all(a, k).len(),
        forall|i: int| 0 <= i < topk_all(a, k).len() ==> nb_le(#[trigger] topk_all(b, k)[i], topk_all(a, k)[i]),
{
    let s1 = topk_all(a, k);
    let s2 = topk_all(b, k);
    lemma_topk_all(a, k);
    lemma_topk_all(b, k);
    lemma_topk_distinct(a, k);
    assert forall|i: int| 0 <= i < s1.len() implies nb_le(#[trigger] s2[i], s1[i]) by {
        lemma_topk_place(a, b, k, i);
    }
}

/// One place of `lemma_topk_more`: otherwise the `i + 1` first of the `k`
/// closest of `a` would all sit before place `i` among those of `b`.
proof fn lemma_topk_place(a: Seq<Neighbor>, b: Seq<Neighbor>, k: usize, i: int)
    requires
        rows_distinct(a),
        a.len() <= b.len(),
        forall|x: int| 0 <= x < a.len() ==> b.contains(#[trigger] a[x]),
        0 <= i < topk_all(a, k).len(),
    ensures
        nb_le(topk_all(b, k)[i], topk_all(a, k)[i]),
{
    broadcast use vstd::seq_lib::seq_to_set_is_finite;
    let s1 = topk_all(a, k);
    let s2 = topk_all(b, k);
    lemma_topk_all(a, k);
    lemma_topk_all(b, k);
    lemma_topk_distinct(a, k);
    if !nb_le(s2[i], s1[i]) {
        let ra = s1.take(i + 1).map_values(|x: Neighbor| x.row as int);
        let rb = s2.take(i).map_values(|x: Neighbor| x.row as int);
        assert forall|t: int| 0 <= t <= i implies rb.to_set().contains(#[trigger] s1[t].row as int) by {
            let x = s1[t];
            if t < i {
                assert(nb_le(x, s1[i]));
            }
            let m = choose|m: int| 0 <= m < a.len() && a[m] == x;
            let mb = choose|mb: int| 0 <= mb < b.len() && b[mb] == a[m];
            if !s2.contains(b[mb]) {
                assert(nb_le(s2[i], b[mb]));
            }
            let q = choose|q: int| 0 <= q < s2.len() && s2[q] == x;
            if q >= i {
                if q > i {
                    assert(nb_le(s2[i], s2[q]));
                }
            }
            assert(rb[q] == x.row as int);
        }
        assert(ra.to_set().subset_of(rb.to_set())) by {
            assert forall|r: int| ra.to_set().contains(r) implies rb.to_set().contains(r) by {
                let t = choose|t: int| 0 <= t < ra.len() && ra[t] == r;
                assert(ra[t] == s1[t].row as int);
            }
        }
        assert(ra.no_duplicates()) by {
            assert forall|x: int, y: int| 0 <= x < ra.len() && 0 <= y < ra.len() && x != y implies ra[x] != ra[y] by {
                if x < y {
                    assert(s1[x].row != s1[y].row);
                } else {
                    assert(s1[y].row != s1[x].row);
                }
            }
        }
        ra.unique_seq_to_set();
        rb.lemma_cardinality_of_set();
        vstd::set_lib::lemma_len_subset(ra.to_set(), rb.to_set());
    }
}

/// Keeps the `k` closest neighbours offered to it.
pub struct TopK {
    k: usize,
    items: Vec<Neighbor>,
}

impl TopK {
    /// The neighbours kept, closest first.
    pub closed spec fn kept(&self) -> Seq<Neighbor> {
        self.items@
    }

    pub closed spec fn bound(&self) -> usize {
        self.k
    }

    pub fn new(k: usize) -> (t: Self)
        ensures
            t.kept() == Seq::<Neighbor>::empty(),
            t.bound() == k,
    {
        TopK { k, items: Vec::new() }
    }

    pub fn push(&mut self, x: Neighbor)
        ensures
            final(self).kept() == topk_push(old(self).kept(), old(self).bound(), x),
            final(self).bound() == old(self).bound(),
    {
        if self.items.len() < self.k {
            sorted_insert(&mut self.items, x);
        } else if self.items.len() > 0 && neighbor_lt(&x, &self.items[self.items.len() - 1]) {
            let ghost before = self.items@;
            self.items.pop();
            assert(self.items@ =~= before.drop_last());
            sorted_insert(&mut self.items, x);
        }
    }

    /// The neighbours kept, closest first.
    pub fn into_sorted(self) -> (v: Vec<Neighbor>)
        ensures
            v@ == self.kept(),
    {
        self.items
    }
}

} // verus!
