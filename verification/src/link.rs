//! Linking a new row into a bounded reciprocal graph without cutting any
//! row off from row 0.
use vstd::prelude::*;
use crate::order::{nb_le, nb_lt};
use crate::order::Neighbor;
use crate::graph::{closed_under, nb_of, has_row, reached_all};

verus! {

/// The graph is a bounded reciprocal proximity graph: every listed
/// neighbour is another row of the graph, listed once; no list holds more
/// than `m` rows; and every edge is listed at both of its ends.
pub open spec fn nsw_ok(adj: Seq<Seq<usize>>, m: nat) -> bool {
    &&& forall|u: int, j: int|
        0 <= u < adj.len() && 0 <= j < adj[u].len() ==> #[trigger] adj[u][j] < adj.len() && adj[u][j] != u
    &&& forall|u: int, i: int, j: int|
        0 <= u < adj.len() && 0 <= i < j < adj[u].len() ==> #[trigger] adj[u][i] != #[trigger] adj[u][j]
    &&& forall|u: int| 0 <= u < adj.len() ==> #[trigger] adj[u].len() <= m
    &&& forall|u: int, j: int|
        0 <= u < adj.len() && 0 <= j < adj[u].len() ==> adj[#[trigger] adj[u][j] as int].contains(u as usize)
}

/// Rows `0..k` are all reached from row 0: every set of rows that holds
/// row 0 and, with each row, every row it lists, holds them all.
pub open spec fn reaches_from_zero(adj: Seq<Seq<usize>>, k: nat) -> bool {
    forall|p: spec_fn(usize) -> bool|
        #[trigger] closed_under(adj, p) && p(0) ==> forall|u: usize| u < k ==> #[trigger] p(u)
}

/// The position, in list `l`, of the row that comes last in the order of
/// the keys `dp` (the row farthest from the list's owner).
pub open spec fn farthest(dp: Seq<u32>, l: Seq<usize>) -> int {
    choose|i: int| #[trigger] is_farthest(dp, l, i)
}

/// Position `i` of list `l` holds a row that comes last in the order of `dp`.
pub open spec fn is_farthest(dp: Seq<u32>, l: Seq<usize>, i: int) -> bool {
    &&& 0 <= i < l.len()
    &&& forall|t: int| 0 <= t < l.len() ==> nb_le(nb_of(dp, #[trigger] l[t]), nb_of(dp, l[i]))
}

/// Puts `row`, which has no neighbours yet, on the edge between `p` and the
/// neighbour `w` of `p` farthest from it: `p` and `w` list `row` in place
/// of each other, and `row` lists `p` and `w`.  `dp[x]` is the key of the
/// distance from row `x` to `p`.
pub open spec fn split_edge(a: Seq<Seq<usize>>, row: usize, p: usize, dp: Seq<u32>) -> Seq<Seq<usize>> {
    let i = farthest(dp, a[p as int]);
    let w = a[p as int][i];
    let j = choose|j: int| 0 <= j < a[w as int].len() && a[w as int][j] == p;
    a.update(p as int, a[p as int].update(i, row)).update(w as int, a[w as int].update(j, row)).update(
        row as int,
        seq![p, w],
    )
}

/// `a` with `row` and `s` listing each other.
pub open spec fn link(a: Seq<Seq<usize>>, row: usize, s: usize) -> Seq<Seq<usize>> {
    a.update(s as int, a[s as int].push(row)).update(row as int, a[row as int].push(s))
}

/// `row`, which has no neighbours yet, joins `p`: they list each other when
/// `p` has room; when `p` is full and a list may hold two rows, `row` is put
/// on the edge between `p` and its farthest neighbour; otherwise nothing
/// changes.
pub open spec fn attach(a: Seq<Seq<usize>>, row: usize, p: usize, dp: Seq<u32>, m: nat) -> Seq<Seq<usize>> {
    if a[p as int].len() < m {
        link(a, row, p)
    } else if m >= 2 {
        split_edge(a, row, p, dp)
    } else {
        a
    }
}

/// Links `row` with each row of `kept` in turn, both ways, when both lists
/// have room and they are not linked yet.
pub open spec fn link_if_room(adj: Seq<Seq<usize>>, row: usize, kept: Seq<usize>, m: nat) -> Seq<Seq<usize>>
    decreases kept.len(),
{
    if kept.len() == 0 {
        adj
    } else {
        let a = link_if_room(adj, row, kept.drop_last(), m);
        let s = kept.last();
        if a[s as int].len() < m && a[row as int].len() < m && !a[row as int].contains(s) {
            link(a, row, s)
        } else {
            a
        }
    }
}

/// Every list of `a` is kept, as a set, in `b`.
pub open spec fn lists_within(a: Seq<Seq<usize>>, b: Seq<Seq<usize>>) -> bool {
    &&& a.len() == b.len()
    &&& forall|u: int, j: int| 0 <= u < a.len() && 0 <= j < a[u].len() ==> b[u].contains(#[trigger] a[u][j])
}

/// A new row without neighbours leaves every earlier row reached.
pub proof fn lemma_reach_push(adj: Seq<Seq<usize>>)
    requires
        reaches_from_zero(adj, adj.len()),
    ensures
        reaches_from_zero(adj.push(seq![]), adj.len()),
{
    let b = adj.push(seq![]);
    assert forall|p: spec_fn(usize) -> bool| #[trigger] closed_under(b, p) && p(0) implies forall|u: usize|
        u < adj.len() ==> #[trigger] p(u) by {
        assert forall|r: int, j: int| 0 <= r < adj.len() && p(r as usize) && 0 <= j < adj[r].len() implies #[trigger] p(
            adj[r][j],
        ) by {
            assert(b[r] == adj[r]);
            assert(p(b[r][j]));
        }
        assert(closed_under(adj, p));
    }
}

/// Adding edges keeps every row reached.
pub proof fn lemma_reach_grow(a: Seq<Seq<usize>>, b: Seq<Seq<usize>>, k: nat)
    requires
        reaches_from_zero(a, k),
        lists_within(a, b),
    ensures
        reaches_from_zero(b, k),
{
    assert forall|p: spec_fn(usize) -> bool| #[trigger] closed_under(b, p) && p(0) implies forall|u: usize|
        u < k ==> #[trigger] p(u) by {
        assert forall|r: int, j: int| 0 <= r < a.len() && p(r as usize) && 0 <= j < a[r].len() implies #[trigger] p(
            a[r][j],
        ) by {
            let x = choose|x: int| 0 <= x < b[r].len() && b[r][x] == a[r][j];
            assert(p(b[r][x]));
        }
        assert(closed_under(a, p));
    }
}

/// Linking `row` with a reached row reaches `row` too.
pub proof fn lemma_reach_link(a: Seq<Seq<usize>>, b: Seq<Seq<usize>>, row: usize, s: usize)
    requires
        reaches_from_zero(a, row as nat),
        lists_within(a, b),
        row < b.len(),
        s < row,
        b[s as int].contains(row),
    ensures
        reaches_from_zero(b, (row + 1) as nat),
{
    lemma_reach_grow(a, b, row as nat);
    assert forall|p: spec_fn(usize) -> bool| #[trigger] closed_under(b, p) && p(0) implies forall|u: usize|
        u < row + 1 ==> #[trigger] p(u) by {
        assert(p(s));
        let x = choose|x: int| 0 <= x < b[s as int].len() && b[s as int][x] == row;
        assert(p(b[s as int][x]));
    }
}

/// Linking two rows keeps a bounded reciprocal graph so, when both have
/// room and are not linked yet.
pub proof fn lemma_link_ok(a: Seq<Seq<usize>>, row: usize, s: usize, m: nat)
    requires
        nsw_ok(a, m),
        row < a.len(),
        s < a.len(),
        s != row,
        a[s as int].len() < m,
        a[row as int].len() < m,
        !a[row as int].contains(s),
    ensures
        nsw_ok(link(a, row, s), m),
        lists_within(a, link(a, row, s)),
        link(a, row, s)[s as int].contains(row),
{
    let b = link(a, row, s);
    if a[s as int].contains(row) {
        let w = choose|w: int| 0 <= w < a[s as int].len() && a[s as int][w] == row;
        assert(a[a[s as int][w] as int].contains(s));
    }
    assert(b[s as int] == a[s as int].push(row));
    assert(b[row as int] == a[row as int].push(s));
    assert forall|u: int, j: int| 0 <= u < b.len() && 0 <= j < b[u].len() implies #[trigger] b[u][j] < b.len()
        && b[u][j] != u by {
        if j < a[u].len() {
            assert(b[u][j] == a[u][j]);
        }
    }
    assert forall|u: int, i: int, j: int| 0 <= u < b.len() && 0 <= i < j < b[u].len() implies #[trigger] b[u][i]
        != #[trigger] b[u][j] by {
        assert(b[u][i] == a[u][i]);
        if j < a[u].len() {
            assert(b[u][j] == a[u][j]);
        } else if u == row {
            assert(a[row as int].contains(a[row as int][i]));
        } else {
            assert(a[s as int].contains(a[s as int][i]));
        }
    }
    assert forall|u: int| 0 <= u < b.len() implies #[trigger] b[u].len() <= m by {}
    assert forall|u: int, j: int| 0 <= u < b.len() && 0 <= j < b[u].len() implies b[#[trigger] b[u][j] as int].contains(
        u as usize,
    ) by {
        let v = b[u][j] as int;
        if j < a[u].len() {
            assert(b[u][j] == a[u][j]);
            assert(a[v].contains(u as usize));
            let w = choose|w: int| 0 <= w < a[v].len() && a[v][w] == u as usize;
            assert(b[v][w] == u as usize);
        } else if u == row {
            assert(b[v][a[v].len() as int] == row);
        } else {
            assert(b[v][a[v].len() as int] == s);
        }
    }
    assert forall|u: int, j: int| 0 <= u < a.len() && 0 <= j < a[u].len() implies b[u].contains(#[trigger] a[u][j]) by {
        assert(b[u][j] == a[u][j]);
    }
    assert(b[s as int][a[s as int].len() as int] == row);
}

/// What putting `row` on an edge of `p` changes, list by list.
pub proof fn lemma_split_lists(a: Seq<Seq<usize>>, row: usize, p: usize, dp: Seq<u32>, m: nat)
    requires
        nsw_ok(a, m),
        row < a.len(),
        a[row as int].len() == 0,
        p < a.len(),
        p != row,
        is_farthest(dp, a[p as int], farthest(dp, a[p as int])),
    ensures
        ({
            let i = farthest(dp, a[p as int]);
            let w = a[p as int][i];
            let j = choose|j: int| 0 <= j < a[w as int].len() && a[w as int][j] == p;
            let b = split_edge(a, row, p, dp);
            &&& w != p && w != row && (w as int) < a.len()
            &&& 0 <= j < a[w as int].len() && a[w as int][j] == p
            &&& b.len() == a.len()
            &&& b[p as int] == a[p as int].update(i, row)
            &&& b[w as int] == a[w as int].update(j, row)
            &&& b[row as int] == seq![p, w]
            &&& forall|u: int| 0 <= u < a.len() && u != p && u != w && u != row ==> #[trigger] b[u] == a[u]
            &&& forall|u: int| 0 <= u < a.len() ==> !(#[trigger] a[u]).contains(row)
        }),
{
    let i = farthest(dp, a[p as int]);
    let w = a[p as int][i];
    assert forall|u: int| 0 <= u < a.len() implies !(#[trigger] a[u]).contains(row) by {
        if a[u].contains(row) {
            let x = choose|x: int| 0 <= x < a[u].len() && a[u][x] == row;
            assert(a[a[u][x] as int].contains(u as usize));
        }
    }
    assert(a[w as int].contains(p));
}

/// Putting `row` on the edge between `p` and its farthest neighbour keeps a
/// bounded reciprocal graph so, when lists may hold two rows.
pub proof fn lemma_split_ok(a: Seq<Seq<usize>>, row: usize, p: usize, dp: Seq<u32>, m: nat)
    requires
        nsw_ok(a, m),
        m >= 2,
        a.len() <= usize::MAX,
        row < a.len(),
        a[row as int].len() == 0,
        p < a.len(),
        p != row,
        is_farthest(dp, a[p as int], farthest(dp, a[p as int])),
    ensures
        nsw_ok(split_edge(a, row, p, dp), m),
{
    lemma_split_lists(a, row, p, dp, m);
    let i = farthest(dp, a[p as int]);
    let w = a[p as int][i];
    let j = choose|j: int| 0 <= j < a[w as int].len() && a[w as int][j] == p;
    let b = split_edge(a, row, p, dp);
    assert forall|u: int, t: int| 0 <= u < b.len() && 0 <= t < b[u].len() implies #[trigger] b[u][t] < b.len()
        && b[u][t] != u by {
        if u == row {
            assert(b[u][t] == p || b[u][t] == w);
        } else if u == p {
            if t != i {
                assert(b[u][t] == a[u][t]);
            }
        } else if u == w {
            if t != j {
                assert(b[u][t] == a[u][t]);
            }
        } else {
            assert(b[u][t] == a[u][t]);
        }
    }
    assert forall|u: int, x: int, y: int| 0 <= u < b.len() && 0 <= x < y < b[u].len() implies #[trigger] b[u][x]
        != #[trigger] b[u][y] by {
        if u == row {
        } else if u == p || u == w {
            let k = if u == p { i } else { j };
            if x == k {
                assert(b[u][y] == a[u][y]);
                assert(a[u].contains(a[u][y]));
            } else if y == k {
                assert(b[u][x] == a[u][x]);
                assert(a[u].contains(a[u][x]));
            } else {
                assert(b[u][x] == a[u][x] && b[u][y] == a[u][y]);
            }
        } else {
            assert(b[u][x] == a[u][x] && b[u][y] == a[u][y]);
        }
    }
    assert forall|u: int| 0 <= u < b.len() implies #[trigger] b[u].len() <= m by {
        if u != p && u != w && u != row {
            assert(b[u] == a[u]);
        }
    }
    assert forall|u: int, t: int| 0 <= u < b.len() && 0 <= t < b[u].len() implies b[#[trigger] b[u][t] as int].contains(
        u as usize,
    ) by {
        let v = b[u][t] as int;
        if u == row {
            if t == 0 {
                assert(b[p as int][i] == row);
            } else {
                assert(b[w as int][j] == row);
            }
        } else if (u == p && t == i) || (u == w && t == j) {
            assert(v == row);
            if u == p {
                assert(b[row as int][0] == p);
            } else {
                assert(b[row as int][1] == w);
            }
        } else {
            assert(b[u][t] == a[u][t]);
            assert(a[u].contains(a[u][t]));
            assert(v != row);
            assert(a[v].contains(u as usize));
            let x = choose|x: int| 0 <= x < a[v].len() && a[v][x] == u as usize;
            if u == p {
                assert(a[p as int][t] != a[p as int][i]);
                assert(v != w as int);
                assert(b[v] == a[v]);
            } else if u == w {
                assert(a[w as int][t] != a[w as int][j]);
                assert(v != p as int);
                assert(b[v] == a[v]);
            } else if v == p as int {
                assert(a[p as int][i] == w);
                assert(u != w as int);
                assert(a[v][x] == u as usize);
                assert(x != i);
                assert(b[v][x] == u as usize);
            } else if v == w as int {
                assert(a[w as int][j] == p);
                assert(u != p as int);
                assert(a[v][x] == u as usize);
                assert(x != j);
                assert(b[v][x] == u as usize);
            } else {
                assert(b[v] == a[v]);
            }
            assert(b[v][x] == u as usize);
        }
    }
}

/// Putting `row` on an edge of a reached row `p` leaves every row reached
/// and reaches `row`.
pub proof fn lemma_reach_split(a: Seq<Seq<usize>>, row: usize, p: usize, dp: Seq<u32>, m: nat)
    requires
        nsw_ok(a, m),
        reaches_from_zero(a, row as nat),
        row < a.len(),
        a[row as int].len() == 0,
        p < row,
        is_farthest(dp, a[p as int], farthest(dp, a[p as int])),
    ensures
        reaches_from_zero(split_edge(a, row, p, dp), (row + 1) as nat),
{
    lemma_split_lists(a, row, p, dp, m);
    let i = farthest(dp, a[p as int]);
    let w = a[p as int][i];
    let j = choose|j: int| 0 <= j < a[w as int].len() && a[w as int][j] == p;
    let b = split_edge(a, row, p, dp);
    assert forall|q: spec_fn(usize) -> bool| #[trigger] closed_under(b, q) && q(0) implies forall|u: usize|
        u < row + 1 ==> #[trigger] q(u) by {
        assert(b[p as int][i] == row);
        assert(b[row as int][0] == p);
        assert(b[row as int][1] == w);
        assert(b[w as int][j] == row);
        assert forall|r: int, t: int| 0 <= r < a.len() && q(r as usize) && 0 <= t < a[r].len() implies #[trigger] q(
            a[r][t],
        ) by {
            if r == p && t == i {
                assert(q(b[p as int][i]));
                assert(q(b[row as int][1]));
            } else if r == w && t == j {
                assert(q(b[w as int][j]));
                assert(q(b[row as int][0]));
            } else {
                assert(b[r][t] == a[r][t]);
                assert(q(b[r][t]));
            }
        }
        assert(closed_under(a, q));
        assert(q(p));
        assert(q(b[p as int][i]));
    }
}

/// Row 0 is reached from itself.
pub proof fn lemma_reach_first(adj: Seq<Seq<usize>>)
    ensures
        reaches_from_zero(adj, 1),
{
    assert forall|p: spec_fn(usize) -> bool| #[trigger] closed_under(adj, p) && p(0) implies forall|u: usize|
        u < 1 ==> #[trigger] p(u) by {
        assert forall|u: usize| u < 1 implies #[trigger] p(u) by {
            assert(u == 0);
        }
    }
}

/// In a graph whose rows are all reached from row 0, a search from row 0
/// that reached every row it could found every row.
pub proof fn lemma_reach_found(s: Seq<Neighbor>, adj: Seq<Seq<usize>>, n: usize)
    requires
        reaches_from_zero(adj, n as nat),
        adj.len() == n,
        n > 0,
        forall|u: int, j: int| 0 <= u < adj.len() && 0 <= j < adj[u].len() ==> #[trigger] adj[u][j] < n,
        reached_all(s, adj, seq![0usize], n),
    ensures
        forall|u: usize| u < n ==> #[trigger] has_row(s, u),
{
    let q = |u: usize| has_row(s, u);
    assert(seq![0usize][0] == 0usize);
    assert(q(0));
    assert forall|r: int, j: int| 0 <= r < adj.len() && q(r as usize) && 0 <= j < adj[r].len() implies #[trigger] q(
        adj[r][j],
    ) by {
        let i = choose|i: int| 0 <= i < s.len() && s[i].row == r as usize;
        assert(adj[s[i].row as int][j] < n);
    }
    assert(closed_under(adj, q));
    assert forall|u: usize| u < n implies #[trigger] has_row(s, u) by {
        assert(q(u));
    }
}

} // verus!
