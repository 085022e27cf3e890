//! Inserting rows into a proximity-graph layer, and the invariant that
//! every layer built this way keeps.
use vstd::prelude::*;
use crate::order::Neighbor;
use crate::graph::{
    lists_view, edges_within, keyed_rows, rows_distinct, layer_search, search_layer, pruned,
    prune_neighbors, key_sorted, nb_of, has_row, reached_all, lemma_distinct_rows_fill, lemma_rows_cover,
};

verus! {

/// A distance-key table as plain sequences: `t[a][b]` is the key of the
/// distance from row `a` to row `b`.
pub open spec fn table_view(t: Seq<Vec<u32>>) -> Seq<Seq<u32>> {
    t.map_values(|v: Vec<u32>| v@)
}

/// The table has a key for every pair of rows.
pub open spec fn square(t: Seq<Seq<u32>>) -> bool {
    forall|i: int| 0 <= i < t.len() ==> #[trigger] t[i].len() == t.len()
}

/// The keys of every row's distance to row `q`.
pub open spec fn column(t: Seq<Seq<u32>>, q: int) -> Seq<u32> {
    Seq::new(t.len(), |x: int| t[x][q])
}

pub open spec fn rows_of(s: Seq<Neighbor>) -> Seq<usize> {
    s.map_values(|c: Neighbor| c.row)
}

/// Every row in `cands` gets `row` appended to its list, in order.
pub open spec fn link_back(adj: Seq<Seq<usize>>, row: usize, cands: Seq<Neighbor>) -> Seq<
    Seq<usize>,
>
    decreases cands.len(),
{
    if cands.len() == 0 {
        adj
    } else {
        let a = link_back(adj, row, cands.drop_last());
        let c = cands.last().row as int;
        a.update(c, a[c].push(row))
    }
}

/// Inserting `row` into a layer: search the layer from `entry` among the
/// rows inserted before it, list what was found as `row`'s neighbours, add
/// `row` to each of their lists, and prune `row`'s own list to the `m`
/// closest.  `d[x]` is the key of the distance from row `x` to `row`.
pub open spec fn insert_into_layer(
    adj: Seq<Seq<usize>>,
    d: Seq<u32>,
    entry: usize,
    row: usize,
    ef: usize,
    m: usize,
) -> Seq<Seq<usize>> {
    let cands = layer_search(d, adj, seq![entry], ef, row);
    let a1 = adj.update(row as int, adj[row as int] + rows_of(cands));
    let a2 = link_back(a1, row, cands);
    a2.update(row as int, pruned(d, a2[row as int], m))
}

/// What every layer keeps once rows `0..k` have been inserted, with lists
/// pruned to `m`:
/// every listed neighbour is an inserted row other than the list's owner;
/// a neighbour inserted before the owner sits among the first `m` entries
/// of the owner's list, and lists the owner in turn; rows not yet inserted
/// have empty lists.
pub open spec fn layer_ok(adj: Seq<Seq<usize>>, k: nat, m: nat) -> bool {
    &&& k <= adj.len()
    &&& forall|u: int, j: int|
        0 <= u < adj.len() && 0 <= j < adj[u].len() ==> #[trigger] adj[u][j] < k && adj[u][j] != u
    &&& forall|u: int, j: int|
        0 <= u < adj.len() && 0 <= j < adj[u].len() && #[trigger] adj[u][j] < u ==> j < m
            && adj[adj[u][j] as int].contains(u as usize)
    &&& forall|u: int| k <= u < adj.len() ==> #[trigger] adj[u].len() == 0
    &&& forall|u: int, i: int, j: int|
        0 <= u < adj.len() && 0 <= i < j < adj[u].len() ==> #[trigger] adj[u][i] != #[trigger] adj[u][j]
}

/// Every row `u` with `0 < u < k` is linked, both ways, with some row
/// before it; so rows `0..k` all reach one another.
pub open spec fn anchored(adj: Seq<Seq<usize>>, k: nat) -> bool {
    forall|u: int| 0 < u < k ==> #[trigger] linked_earlier(adj, u)
}

/// Row `u` is linked, both ways, with some row before it.
pub open spec fn linked_earlier(adj: Seq<Seq<usize>>, u: int) -> bool {
    exists|p: usize| p < u && #[trigger] adj[u].contains(p) && adj[p as int].contains(u as usize)
}

/// A layer stays anchored when a row joins it linked both ways with an
/// earlier row, and the other lists at most gain that row.
pub proof fn lemma_anchored_insert(a: Seq<Seq<usize>>, b: Seq<Seq<usize>>, row: usize)
    requires
        anchored(a, row as nat),
        row < a.len(),
        a.len() == b.len(),
        forall|u: int| 0 <= u < b.len() && u != row ==> #[trigger] b[u] == a[u] || b[u] == a[u].push(row),
        linked_earlier(b, row as int),
    ensures
        anchored(b, (row + 1) as nat),
{
    let k = (row + 1) as nat;
    assert forall|u: int| 0 < u < k implies #[trigger] linked_earlier(b, u) by {
        if u != row {
            lemma_linked_earlier_grow(a, b, row, u);
        }
    }
}

/// A row linked both ways with an earlier row stays so when lists at most
/// gain the new row `row`.
pub proof fn lemma_linked_earlier_grow(a: Seq<Seq<usize>>, b: Seq<Seq<usize>>, row: usize, u: int)
    requires
        linked_earlier(a, u),
        0 <= u < row,
        row < a.len(),
        a.len() == b.len(),
        forall|x: int| 0 <= x < b.len() && x != row ==> #[trigger] b[x] == a[x] || b[x] == a[x].push(row),
    ensures
        linked_earlier(b, u),
{
    let q = choose|q: usize| q < u && #[trigger] a[u].contains(q) && a[q as int].contains(u as usize);
    let i = choose|i: int| 0 <= i < a[u].len() && a[u][i] == q;
    let k = choose|k: int| 0 <= k < a[q as int].len() && a[q as int][k] == u as usize;
    if b[u] != a[u] {
        assert(b[u] == a[u].push(row));
    }
    assert(b[u][i] == q);
    if b[q as int] != a[q as int] {
        assert(b[q as int] == a[q as int].push(row));
    }
    assert(b[q as int][k] == u as usize);
    assert(b[u].contains(q) && b[q as int].contains(u as usize));
}

/// The rows before `r` that list `r`.
pub open spec fn back_links(adj: Seq<Seq<usize>>, r: int) -> Set<int> {
    Set::new(|u: int| 0 <= u < r && adj[u].contains(r as usize))
}

/// Lists that at most gain a later row `row` keep which earlier rows list
/// each row before `row`.
pub proof fn lemma_back_links_keep(a: Seq<Seq<usize>>, b: Seq<Seq<usize>>, row: usize, r: int)
    requires
        0 <= r < row,
        row < a.len(),
        a.len() == b.len(),
        forall|u: int| 0 <= u < b.len() && u != row ==> #[trigger] b[u] == a[u] || b[u] == a[u].push(row),
    ensures
        back_links(b, r) == back_links(a, r),
{
    assert forall|u: int| #[trigger] back_links(b, r).contains(u) <==> back_links(a, r).contains(u) by {
        if 0 <= u < r {
            if b[u] != a[u] {
                assert(b[u] == a[u].push(row));
                if b[u].contains(r as usize) {
                    let x = choose|x: int| 0 <= x < b[u].len() && b[u][x] == r as usize;
                    if x < a[u].len() {
                        assert(a[u][x] == r as usize);
                    }
                }
                if a[u].contains(r as usize) {
                    let x = choose|x: int| 0 <= x < a[u].len() && a[u][x] == r as usize;
                    assert(b[u][x] == r as usize);
                }
            }
        }
    }
    assert(back_links(b, r) =~= back_links(a, r));
}

/// In an anchored layer a search from an earlier row keeping at most `ef`
/// rows finds `min(ef, row)` of the rows before `row`; when exactly those
/// come to list `row`, that many earlier rows list it.
pub proof fn lemma_back_links_count(
    a0: Seq<Seq<usize>>,
    a3: Seq<Seq<usize>>,
    cands: Seq<Neighbor>,
    entry: usize,
    row: usize,
    ef: usize,
)
    requires
        anchored(a0, row as nat),
        row <= a0.len(),
        entry < row,
        ef > 0,
        forall|i: int| 0 <= i < cands.len() ==> #[trigger] cands[i].row < row,
        rows_distinct(cands),
        cands.len() <= ef || cands.len() <= 1,
        cands.len() < ef ==> reached_all(cands, a0, seq![entry], row),
        forall|u: int| 0 <= u < row ==> (#[trigger] a3[u].contains(row) <==> has_row(cands, u as usize)),
    ensures
        back_links(a3, row as int).len() == if ef < row { ef as nat } else { row as nat },
{
    broadcast use vstd::seq_lib::seq_to_set_is_finite;
    lemma_distinct_rows_fill(cands, row as nat);
    if cands.len() < ef {
        lemma_anchored_reach(cands, a0, entry, row);
        lemma_rows_cover(cands, row as nat);
    }
    let r = cands.map_values(|x: Neighbor| x.row as int);
    assert(r.no_duplicates()) by {
        assert forall|x: int, y: int| 0 <= x < r.len() && 0 <= y < r.len() && x != y implies r[x] != r[y] by {
            if x < y {
                assert(cands[x].row != cands[y].row);
            } else {
                assert(cands[y].row != cands[x].row);
            }
        }
    }
    r.unique_seq_to_set();
    assert(back_links(a3, row as int) =~= r.to_set()) by {
        assert forall|u: int| back_links(a3, row as int).contains(u) implies r.to_set().contains(u) by {
            assert(a3[u].contains(row));
            let k = choose|k: int| 0 <= k < cands.len() && cands[k].row == u as usize;
            assert(r[k] == u);
        }
        assert forall|u: int| r.to_set().contains(u) implies back_links(a3, row as int).contains(u) by {
            let k = choose|k: int| 0 <= k < r.len() && r[k] == u;
            assert(cands[k].row < row);
            assert(has_row(cands, u as usize));
            assert(a3[u].contains(row));
        }
    }
}

/// How many earlier rows list a row just inserted into an anchored layer:
/// `min(ef, row)`, the rows a search keeping `ef` of them finds.
pub proof fn lemma_insert_back_links(
    a0: Seq<Seq<usize>>,
    a2: Seq<Seq<usize>>,
    a3: Seq<Seq<usize>>,
    cands: Seq<Neighbor>,
    entry: usize,
    row: usize,
    ef: usize,
    m: nat,
)
    requires
        anchored(a0, row as nat),
        layer_ok(a0, row as nat, m),
        row < a0.len(),
        a0.len() == a2.len(),
        a2.len() == a3.len(),
        entry < row,
        ef > 0,
        forall|i: int| 0 <= i < cands.len() ==> #[trigger] cands[i].row < row,
        rows_distinct(cands),
        cands.len() <= ef || cands.len() <= 1,
        cands.len() < ef ==> reached_all(cands, a0, seq![entry], row),
        forall|u: int|
            0 <= u < a2.len() && u != row ==> #[trigger] a2[u] == if exists|s: int|
                0 <= s < cands.len() && cands[s].row == u {
                a0[u].push(row)
            } else {
                a0[u]
            },
        forall|u: int| 0 <= u < a3.len() && u != row ==> #[trigger] a3[u] == a2[u],
    ensures
        back_links(a3, row as int).len() == if ef < row { ef as nat } else { row as nat },
{
    assert forall|u: int| 0 <= u < row implies (#[trigger] a3[u].contains(row) <==> has_row(cands, u as usize)) by {
        assert(a3[u] == a2[u]);
        if exists|s: int| 0 <= s < cands.len() && cands[s].row == u {
            assert(a3[u] == a0[u].push(row));
            assert(a3[u][a0[u].len() as int] == row);
        } else {
            assert(a3[u] == a0[u]);
            if a0[u].contains(row) {
                let x = choose|x: int| 0 <= x < a0[u].len() && a0[u][x] == row;
                assert(a0[u][x] < row);
            }
        }
    }
    lemma_back_links_count(a0, a3, cands, entry, row, ef);
}

/// In an anchored layer, a search that reached every row it could from a
/// row of the layer found every row of the layer.
pub proof fn lemma_anchored_reach(s: Seq<Neighbor>, adj: Seq<Seq<usize>>, e: usize, n: usize)
    requires
        anchored(adj, n as nat),
        n <= adj.len(),
        e < n,
        reached_all(s, adj, seq![e], n),
    ensures
        forall|u: usize| u < n ==> #[trigger] has_row(s, u),
{
    assert(seq![e][0] == e);
    lemma_reach_down(s, adj, e, n);
    assert forall|u: usize| u < n implies #[trigger] has_row(s, u) by {
        lemma_reach_up(s, adj, u, n);
    }
}

proof fn lemma_reach_down(s: Seq<Neighbor>, adj: Seq<Seq<usize>>, x: usize, n: usize)
    requires
        anchored(adj, n as nat),
        n <= adj.len(),
        x < n,
        has_row(s, x),
        forall|i: int, j: int|
            0 <= i < s.len() && 0 <= j < adj[s[i].row as int].len() && #[trigger] adj[s[i].row as int][j]
                < n ==> has_row(s, adj[s[i].row as int][j]),
    ensures
        has_row(s, 0),
    decreases x,
{
    if x > 0 {
        assert(linked_earlier(adj, x as int));
        let p = choose|p: usize| p < x && #[trigger] adj[x as int].contains(p) && adj[p as int].contains(x);
        let k = choose|k: int| 0 <= k < s.len() && s[k].row == x;
        let j = choose|j: int| 0 <= j < adj[x as int].len() && adj[x as int][j] == p;
        assert(adj[s[k].row as int][j] == p);
        lemma_reach_down(s, adj, p, n);
    }
}

proof fn lemma_reach_up(s: Seq<Neighbor>, adj: Seq<Seq<usize>>, u: usize, n: usize)
    requires
        anchored(adj, n as nat),
        n <= adj.len(),
        u < n,
        has_row(s, 0),
        forall|i: int, j: int|
            0 <= i < s.len() && 0 <= j < adj[s[i].row as int].len() && #[trigger] adj[s[i].row as int][j]
                < n ==> has_row(s, adj[s[i].row as int][j]),
    ensures
        has_row(s, u),
    decreases u,
{
    if u > 0 {
        assert(linked_earlier(adj, u as int));
        let p = choose|p: usize| p < u && #[trigger] adj[u as int].contains(p) && adj[p as int].contains(u);
        lemma_reach_up(s, adj, p, n);
        let k = choose|k: int| 0 <= k < s.len() && s[k].row == p;
        let j = choose|j: int| 0 <= j < adj[p as int].len() && adj[p as int][j] == u;
        assert(adj[s[k].row as int][j] == u);
    }
}

/// Every listed neighbour in a layer is a row of the layer.
pub proof fn lemma_layer_ok_all_edges(adj: Seq<Seq<usize>>, k: nat, m: nat)
    requires
        layer_ok(adj, k, m),
        adj.len() <= usize::MAX,
    ensures
        edges_within(adj, adj.len() as usize, adj.len()),
{
    assert forall|r: int, j: int| 0 <= r < adj.len() && 0 <= j < adj[r].len() implies #[trigger] adj[r][j]
        < adj.len() by {}
}

/// A layer where rows `0..k` were inserted also counts as one where rows
/// `0..k + 1` were, as long as row `k` has an empty list.
pub proof fn lemma_layer_ok_grow(adj: Seq<Seq<usize>>, k: nat, m: nat)
    requires
        layer_ok(adj, k, m),
        k < adj.len(),
    ensures
        layer_ok(adj, k + 1, m),
{
    assert(adj[k as int].len() == 0);
}

pub proof fn lemma_layer_ok_edges(adj: Seq<Seq<usize>>, k: nat, m: nat, n: nat)
    requires
        layer_ok(adj, k, m),
        k <= n,
    ensures
        edges_within(adj, k as usize, n),
{
    assert forall|r: int, j: int| 0 <= r < k && 0 <= j < adj[r].len() implies #[trigger] adj[r][j]
        < n by {}
}

/// Copies column `q` of a distance-key table.
pub fn column_of(table: &Vec<Vec<u32>>, q: usize) -> (d: Vec<u32>)
    requires
        square(table_view(table@)),
        q < table.len(),
    ensures
        d@ == column(table_view(table@), q as int),
{
    let ghost t = table_view(table@);
    let mut d: Vec<u32> = Vec::new();
    let mut x: usize = 0;
    while x < table.len()
        invariant
            x <= table.len(),
            t == table_view(table@),
            square(t),
            q < table.len(),
            d@ =~= column(t, q as int).take(x as int),
        decreases table.len() - x,
    {
        assert(t[x as int].len() == t.len());
        assert(table[x as int]@ == t[x as int]);
        d.push(table[x][q]);
        x = x + 1;
    }
    d
}

/// Copies row `q` of a distance-key table.
pub fn row_of(table: &Vec<Vec<u32>>, q: usize) -> (d: Vec<u32>)
    requires
        q < table.len(),
    ensures
        d@ == table_view(table@)[q as int],
{
    let src = &table[q];
    let mut d: Vec<u32> = Vec::new();
    let mut x: usize = 0;
    while x < src.len()
        invariant
            x <= src.len(),
            d@ =~= src@.take(x as int),
        decreases src.len() - x,
    {
        d.push(src[x]);
        x = x + 1;
    }
    assert(d@ =~= src@);
    d
}

/// Inserts `row` into a graph layer, as `insert_into_layer` describes.
#[verifier::spinoff_prover]
#[verifier::rlimit(50)]
pub fn insert_row(
    adj: &mut Vec<Vec<usize>>,
    d: &Vec<u32>,
    entry: usize,
    row: usize,
    ef: usize,
    m: usize,
)
    requires
        row < old(adj).len(),
        old(adj).len() <= d.len(),
        layer_ok(lists_view(old(adj)@), row as nat, m as nat),
    ensures
        lists_view(final(adj)@) == insert_into_layer(lists_view(old(adj)@), d@, entry, row, ef, m),
        layer_ok(lists_view(final(adj)@), (row + 1) as nat, m as nat),
        entry < row && m > 0 ==> linked_earlier(lists_view(final(adj)@), row as int),
        anchored(lists_view(old(adj)@), row as nat) && entry < row && ef > 0 ==> back_links(
            lists_view(final(adj)@),
            row as int,
        ).len() == if ef < row { ef as nat } else { row as nat },
        anchored(lists_view(old(adj)@), row as nat) && entry < row && m > 0 ==> anchored(
            lists_view(final(adj)@),
            (row + 1) as nat,
        ),
        final(adj).len() == old(adj).len(),
        ({
            let a = lists_view(old(adj)@);
            let b = lists_view(final(adj)@);
            let found = layer_search(d@, a, seq![entry], ef, row);
            &&& forall|u: int|
                0 <= u < b.len() && u != row ==> #[trigger] b[u] == a[u] || (b[u] == a[u].push(row)
                    && exists|s: int| 0 <= s < found.len() && found[s].row == u)
            &&& forall|j: int|
                0 <= j < b[row as int].len() ==> exists|s: int|
                    0 <= s < found.len() && found[s].row == #[trigger] b[row as int][j]
        }),
{
    let ghost a0 = lists_view(adj@);
    let n = adj.len();
    proof {
        lemma_layer_ok_edges(a0, row as nat, m as nat, d.len() as nat);
    }
    let mut entries: Vec<usize> = Vec::new();
    entries.push(entry);
    assert(entries@ =~= seq![entry]);
    let cands = search_layer(d, adj, &entries, ef, row);
    assert(seq![entry].no_duplicates());
    let ghost cr = rows_of(cands@);
    assert(a0[row as int].len() == 0);
    assert(a0.len() == n);
    assert(a0[row as int] =~= cr.take(0));
    assert(a0.update(row as int, cr.take(0)) =~= a0);
    // the rows found become the new row's list
    let mut i: usize = 0;
    while i < cands.len()
        invariant
            i <= cands.len(),
            n == adj.len(),
            row < n,
            cr == rows_of(cands@),
            a0.len() == n,
            a0[row as int].len() == 0,
            lists_view(adj@) == a0.update(row as int, cr.take(i as int)),
        decreases cands.len() - i,
    {
        let ghost before = adj@;
        adj[row].push(cands[i].row);
        proof {
            assert(cr.take(i + 1) =~= cr.take(i as int).push(cands[i as int].row));
            assert(lists_view(adj@) =~= lists_view(before).update(
                row as int,
                lists_view(before)[row as int].push(cands[i as int].row),
            ));
            assert(lists_view(adj@) =~= a0.update(row as int, cr.take(i + 1)));
        }
        i = i + 1;
    }
    let ghost a1 = lists_view(adj@);
    proof {
        assert(cr.take(cands.len() as int) =~= cr);
        assert(a0[row as int] + cr =~= cr);
        assert(a1 == a0.update(row as int, a0[row as int] + cr));
    }
    // the new row joins the list of every row found
    let mut t: usize = 0;
    while t < cands.len()
        invariant
            t <= cands.len(),
            n == adj.len(),
            row < n,
            n <= d.len(),
            cr == rows_of(cands@),
            keyed_rows(cands@, d@, row),
            rows_distinct(cands@),
            lists_view(adj@) == link_back(a1, row, cands@.take(t as int)),
            lists_view(adj@)[row as int] == cr,
            forall|u: int|
                0 <= u < n && u != row ==> #[trigger] lists_view(adj@)[u] == if exists|s: int|
                    0 <= s < t && cands@[s].row == u {
                    a0[u].push(row)
                } else {
                    a0[u]
                },
        decreases cands.len() - t,
    {
        let c = cands[t].row;
        let ghost before = lists_view(adj@);
        adj[c].push(row);
        proof {
            assert(cands@.take(t + 1).drop_last() =~= cands@.take(t as int));
            assert(lists_view(adj@) =~= before.update(c as int, before[c as int].push(row)));
            assert forall|u: int| 0 <= u < n && u != row implies #[trigger] lists_view(adj@)[u]
                == if exists|s: int| 0 <= s < t + 1 && cands@[s].row == u {
                a0[u].push(row)
            } else {
                a0[u]
            } by {
                if u == c {
                    if exists|s: int| 0 <= s < t && cands@[s].row == u {
                        let s = choose|s: int| 0 <= s < t && cands@[s].row == u;
                        assert(cands@[s].row != cands@[t as int].row);
                    }
                    assert(cands@[t as int].row == u);
                } else {
                    if exists|s: int| 0 <= s < t + 1 && cands@[s].row == u {
                        let s = choose|s: int| 0 <= s < t + 1 && cands@[s].row == u;
                        assert(s != t);
                    }
                }
            }
        }
        t = t + 1;
    }
    let ghost a2 = lists_view(adj@);
    proof {
        assert(cands@.take(cands.len() as int) =~= cands@);
        assert(forall|j: int| 0 <= j < cr.len() ==> #[trigger] cr[j] == cands@[j].row);
        assert forall|j: int| 0 <= j < adj[row as int].len() implies #[trigger] adj[row as int][j]
            < d.len() by {
            assert(adj[row as int]@ == cr);
            assert(cands@[j].row < row);
        }
    }
    prune_neighbors(d, &mut adj[row], m);
    proof {
        let a3 = lists_view(adj@);
        assert(a3 =~= a2.update(row as int, pruned(d@, a2[row as int], m)));
        // every pruned neighbour is a row found by the search
        assert forall|j: int| 0 <= j < a3[row as int].len() implies exists|s: int|
            0 <= s < cands.len() && cands@[s].row == #[trigger] a3[row as int][j] by {
            assert(a2[row as int].contains(a3[row as int][j]));
            let s = choose|s: int| 0 <= s < cr.len() && cr[s] == a3[row as int][j];
            assert(cr[s] == cands@[s].row);
        }
        assert forall|u: int, j: int| 0 <= u < a3.len() && 0 <= j < a3[u].len() implies #[trigger] a3[u][j]
            < row + 1 && a3[u][j] != u by {
            if u == row {
                let s = choose|s: int| 0 <= s < cands.len() && cands@[s].row == a3[row as int][j];
            } else if exists|s: int| 0 <= s < cands.len() && cands@[s].row == u {
                assert(a3[u] == a0[u].push(row));
                let s = choose|s: int| 0 <= s < cands.len() && cands@[s].row == u;
                if j < a0[u].len() {
                    assert(a3[u][j] == a0[u][j]);
                }
            } else {
                assert(a3[u] == a0[u]);
            }
        }
        assert forall|u: int, j: int|
            0 <= u < a3.len() && 0 <= j < a3[u].len() && #[trigger] a3[u][j] < u implies j < m
            && a3[a3[u][j] as int].contains(u as usize) by {
            let v = a3[u][j] as int;
            if u == row {
                let s = choose|s: int| 0 <= s < cands.len() && cands@[s].row == a3[row as int][j];
                assert(v != row);
                assert(exists|s: int| 0 <= s < t && cands@[s].row == v);
                assert(a3[v] == a0[v].push(row));
                assert(a3[v][a0[v].len() as int] == row);
            } else {
                let grown = exists|s: int| 0 <= s < cands.len() && cands@[s].row == u;
                if grown {
                    assert(a3[u] == a0[u].push(row));
                    let s = choose|s: int| 0 <= s < cands.len() && cands@[s].row == u;
                    assert(u < row);
                } else {
                    assert(a3[u] == a0[u]);
                }
                assert(j < a0[u].len());
                assert(a3[u][j] == a0[u][j]);
                assert(a0[v].contains(u as usize));
                let w = choose|w: int| 0 <= w < a0[v].len() && a0[v][w] == u as usize;
                assert(v != row);
                if exists|s: int| 0 <= s < cands.len() && cands@[s].row == v {
                    assert(a3[v] == a0[v].push(row));
                    assert(a3[v][w] == u as usize);
                } else {
                    assert(a3[v] == a0[v]);
                }
            }
        }
        assert forall|u: int| 0 <= u < a3.len() && u != row implies #[trigger] a3[u] == a0[u] || (a3[u]
            == a0[u].push(row) && exists|s: int| 0 <= s < cands.len() && cands@[s].row == u) by {
            if exists|s: int| 0 <= s < cands.len() && cands@[s].row == u {
                assert(a3[u] == a0[u].push(row));
            } else {
                assert(a3[u] == a0[u]);
            }
        }
        assert forall|u: int, i: int, j: int|
            0 <= u < a3.len() && 0 <= i < j < a3[u].len() implies #[trigger] a3[u][i] != #[trigger] a3[u][j] by {
            if u == row {
                assert(key_sorted(d@, a3[row as int]));
                assert(crate::order::nb_lt(nb_of(d@, a3[u][i]), nb_of(d@, a3[u][j])));
            } else if exists|s: int| 0 <= s < cands.len() && cands@[s].row == u {
                assert(a3[u] == a0[u].push(row));
                assert(a3[u][i] == a0[u][i]);
                if j < a0[u].len() {
                    assert(a3[u][j] == a0[u][j]);
                } else {
                    assert(a0[u][i] < row);
                }
            } else {
                assert(a3[u] == a0[u]);
            }
        }
        assert forall|u: int| row + 1 <= u < a3.len() implies #[trigger] a3[u].len() == 0 by {
            if exists|s: int| 0 <= s < cands.len() && cands@[s].row == u {
                let s = choose|s: int| 0 <= s < cands.len() && cands@[s].row == u;
            }
            assert(a3[u] == a0[u]);
        }
        assert(entry < row && m > 0 ==> linked_earlier(a3, row as int)) by {
        if entry < row && m > 0 {
            // the new row is linked both ways with the closest row found
            assert(entries@[0] < row);
            assert(cands.len() > 0);
            assert(a2[row as int].len() > 0);
            if !a3[row as int].contains(a2[row as int][0]) {
                assert(a3[row as int].len() == m);
            } else {
                let w = choose|w: int| 0 <= w < a3[row as int].len() && a3[row as int][w] == a2[row as int][0];
            }
            let p = a3[row as int][0];
            let s = choose|s: int| 0 <= s < cands.len() && cands@[s].row == p;
            assert(p < row);
            assert(a3[p as int] == a0[p as int].push(row));
            assert(a3[p as int][a0[p as int].len() as int] == row);
            assert(a3[row as int].contains(p));
        }
        }
        if anchored(a0, row as nat) && entry < row && m > 0 {
            lemma_anchored_insert(a0, a3, row);
        }
        if anchored(a0, row as nat) && entry < row && ef > 0 {
            assert(seq![entry][0] == entry);
            lemma_insert_back_links(a0, a2, a3, cands@, entry, row, ef, m as nat);
        }
    }
}

} // verus!
