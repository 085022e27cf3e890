//! Navigable small-world graph index.
use vstd::prelude::*;
use crate::types::{Metric, VectorError};
use crate::order::Neighbor;
use crate::dataset::Dataset;
use crate::order::{sorted, nb_le, neighbor_lt};
use crate::graph::{
    lists_view, layer_search, search_layer, keyed_rows, edges_within, pruned, prune_neighbors, nb_of,
    rows_distinct, copy_lists, exact_nearest, lemma_distinct_rows_fill, lemma_all_rows_ranked,
};
use crate::layer::{table_view, square, column, column_of, rows_of};
use crate::link::{
    nsw_ok, reaches_from_zero, link_if_room, attach, link, split_edge, farthest, is_farthest, lemma_link_ok,
    lemma_split_ok, lemma_split_lists, lemma_reach_link, lemma_reach_split, lemma_reach_grow, lemma_reach_push,
    lemma_reach_first, lemma_reach_found,
};

verus! {

/// Build and search parameters of an NSW index.
#[derive(Clone, Copy, Debug)]
pub struct NswConfig {
    pub max_connections: usize,
    pub ef_construction: usize,
    pub ef_search: usize,
}

impl Default for NswConfig {
    fn default() -> (c: Self)
        ensures
            c.max_connections == 12,
            c.ef_construction == 48,
            c.ef_search == 32,
    {
        NswConfig { max_connections: 12, ef_construction: 48, ef_search: 32 }
    }
}

/// What checking an NSW configuration gives.
pub open spec fn nsw_config_check(c: NswConfig) -> Result<(), VectorError> {
    if c.max_connections == 0 {
        Err(VectorError::InvalidConfig("max_connections must be greater than 0"))
    } else if c.ef_construction < c.max_connections {
        Err(VectorError::InvalidConfig("ef_construction must be greater than max_connections"))
    } else if c.ef_search == 0 {
        Err(VectorError::InvalidConfig("ef_search must be greater than 0"))
    } else {
        Ok(())
    }
}

/// Rejects a zero `max_connections`, an `ef_construction` below
/// `max_connections`, and a zero `ef_search`, in that order.
pub fn validate_config(config: &NswConfig) -> (r: Result<(), VectorError>)
    ensures
        r == nsw_config_check(*config),
{
    if config.max_connections == 0 {
        return Err(VectorError::InvalidConfig("max_connections must be greater than 0"));
    }
    if config.ef_construction < config.max_connections {
        return Err(
            VectorError::InvalidConfig("ef_construction must be greater than max_connections"),
        );
    }
    if config.ef_search == 0 {
        return Err(VectorError::InvalidConfig("ef_search must be greater than 0"));
    }
    Ok(())
}

/// Row `row` joins the graph: it gets an empty list; from the second row on,
/// a search from row 0 among the rows before it finds candidates and the
/// `max_connections` closest are kept.  The closest kept row `p` takes `row`
/// in: they list each other when `p` has room, and when `p` is full (and
/// lists may hold two rows) `row` is put on the edge between `p` and the
/// neighbour of `p` farthest from it.  Then `row` is linked with each other
/// kept row while both lists have room.  `t[x][y]` is the key of the
/// distance from row `x` to row `y`.
pub open spec fn nsw_insert(adj: Seq<Seq<usize>>, t: Seq<Seq<u32>>, c: NswConfig, row: usize) -> Seq<
    Seq<usize>,
> {
    let a1 = adj.push(seq![]);
    if row == 0 {
        a1
    } else {
        let d = column(t, row as int);
        let found = layer_search(d, a1, seq![0usize], c.ef_construction, row);
        let kept = pruned(d, rows_of(found), c.max_connections);
        if kept.len() == 0 {
            a1
        } else {
            let p = kept[0];
            link_if_room(
                attach(a1, row, p, column(t, p as int), c.max_connections as nat),
                row,
                kept.drop_first(),
                c.max_connections as nat,
            )
        }
    }
}

/// The graph after inserting rows `0..k` in order.
pub open spec fn nsw_graph(t: Seq<Seq<u32>>, c: NswConfig, k: nat) -> Seq<Seq<usize>>
    decreases k,
{
    if k == 0 {
        seq![]
    } else {
        nsw_insert(nsw_graph(t, c, (k - 1) as nat), t, c, (k - 1) as usize)
    }
}

/// Whether list `l` holds row `s`.
fn lists_row(l: &Vec<usize>, s: usize) -> (r: bool)
    ensures
        r == l@.contains(s),
{
    let mut j: usize = 0;
    while j < l.len()
        invariant
            j <= l.len(),
            forall|x: int| 0 <= x < j ==> l@[x] != s,
        decreases l.len() - j,
    {
        if l[j] == s {
            return true;
        }
        j = j + 1;
    }
    false
}

/// The position of row `v` in a list that holds it.
fn position_of(l: &Vec<usize>, v: usize) -> (j: usize)
    requires
        l@.contains(v),
    ensures
        j < l.len(),
        l@[j as int] == v,
{
    let mut j: usize = 0;
    while j < l.len()
        invariant
            j <= l.len(),
            l@.contains(v),
            forall|x: int| 0 <= x < j ==> l@[x] != v,
        decreases l.len() - j,
    {
        if l[j] == v {
            return j;
        }
        j = j + 1;
    }
    j
}

/// The position in `l` of the row farthest by the keys `dp`.
fn farthest_index(dp: &Vec<u32>, l: &Vec<usize>) -> (i: usize)
    requires
        l.len() > 0,
        forall|j: int| 0 <= j < l.len() ==> #[trigger] l@[j] < dp.len(),
    ensures
        is_farthest(dp@, l@, i as int),
{
    let mut i: usize = 0;
    let mut j: usize = 1;
    while j < l.len()
        invariant
            1 <= j <= l.len(),
            i < j,
            forall|x: int| 0 <= x < l.len() ==> #[trigger] l@[x] < dp.len(),
            forall|t: int| 0 <= t < j ==> nb_le(nb_of(dp@, #[trigger] l@[t]), nb_of(dp@, l@[i as int])),
        decreases l.len() - j,
    {
        let a = Neighbor { row: l[i], distance: dp[l[i]] };
        let b = Neighbor { row: l[j], distance: dp[l[j]] };
        if neighbor_lt(&a, &b) {
            i = j;
        }
        j = j + 1;
    }
    i
}

/// Inserts `row`, the last row of the graph, as `nsw_insert` describes.
/// `d[x]` is the key of the distance from row `x` to `row`; `table[x][y]`
/// that from row `x` to row `y`.
fn link_row(adj: &mut Vec<Vec<usize>>, table: &Vec<Vec<u32>>, d: &Vec<u32>, row: usize, ef: usize, m: usize)
    requires
        row + 1 == old(adj).len(),
        old(adj).len() <= table.len(),
        square(table_view(table@)),
        d@ == column(table_view(table@), row as int),
        old(adj)[row as int]@.len() == 0,
        nsw_ok(lists_view(old(adj)@), m as nat),
    ensures
        ({
            let a = lists_view(old(adj)@);
            let found = layer_search(d@, a, seq![0usize], ef, row);
            let kept = pruned(d@, rows_of(found), m);
            lists_view(final(adj)@) == if kept.len() == 0 {
                a
            } else {
                link_if_room(
                    attach(a, row, kept[0], column(table_view(table@), kept[0] as int), m as nat),
                    row,
                    kept.drop_first(),
                    m as nat,
                )
            }
        }),
        nsw_ok(lists_view(final(adj)@), m as nat),
        m >= 2 && row > 0 && reaches_from_zero(lists_view(old(adj)@), row as nat) ==> reaches_from_zero(
            lists_view(final(adj)@),
            (row + 1) as nat,
        ),
        final(adj).len() == old(adj).len(),
{
    let ghost a0 = lists_view(adj@);
    let ghost t = table_view(table@);
    let n = adj.len();
    proof {
        assert(edges_within(a0, row, d.len() as nat)) by {
            assert forall|r: int, j: int| 0 <= r < row && 0 <= j < a0[r].len() implies #[trigger] a0[r][j]
                < d.len() by {}
        }
        assert forall|u: int| 0 <= u < n implies !(#[trigger] a0[u]).contains(row) by {
            if a0[u].contains(row) {
                let x = choose|x: int| 0 <= x < a0[u].len() && a0[u][x] == row;
                assert(a0[a0[u][x] as int].contains(u as usize));
            }
        }
    }
    let mut entries: Vec<usize> = Vec::new();
    entries.push(0);
    assert(entries@ =~= seq![0usize]);
    let found = search_layer(d, adj, &entries, ef, row);
    let mut kept: Vec<usize> = Vec::new();
    let mut i: usize = 0;
    while i < found.len()
        invariant
            i <= found.len(),
            keyed_rows(found@, d@, row),
            row < n,
            n <= d.len(),
            kept@ =~= rows_of(found@).take(i as int),
        decreases found.len() - i,
    {
        kept.push(found[i].row);
        i = i + 1;
    }
    assert(kept@ =~= rows_of(found@));
    assert forall|j: int| 0 <= j < kept.len() implies #[trigger] kept[j] < d.len() by {
        assert(kept@[j] == found@[j].row);
    }
    let ghost all = kept@;
    prune_neighbors(d, &mut kept, m);
    let ghost ks = kept@;
    proof {
        assert forall|j: int| 0 <= j < ks.len() implies #[trigger] ks[j] < row by {
            let x = choose|x: int| 0 <= x < all.len() && all[x] == ks[j];
            assert(all[x] == found@[x].row);
        }
        if row > 0 && m > 0 {
            // the search finds row 0, so something is kept
            assert(entries@[0] < row);
            assert(all.len() > 0);
            if !ks.contains(all[0]) {
                assert(ks.len() == m);
            } else {
                let w = choose|w: int| 0 <= w < ks.len() && ks[w] == all[0];
            }
        }
    }
    if kept.len() == 0 {
        return;
    }
    let p = kept[0];
    let ghost dp_s = column(t, p as int);
    let ghost a1 = lists_view(adj@);
    proof {
        assert(a1 == a0);
    }
    if adj[p].len() < m {
        proof {
            lemma_link_ok(a0, row, p, m as nat);
        }
        adj[p].push(row);
        adj[row].push(p);
        proof {
            assert(lists_view(adj@) =~= link(a0, row, p));
            if m >= 2 && reaches_from_zero(a0, row as nat) {
                lemma_reach_link(a0, lists_view(adj@), row, p);
            }
        }
    } else if m >= 2 {
        let dp = column_of(table, p);
        proof {
            assert forall|j: int| 0 <= j < adj[p as int]@.len() implies #[trigger] adj[p as int]@[j] < dp.len() by {
                assert(a0[p as int][j] < n);
            }
        }
        let i = farthest_index(&dp, &adj[p]);
        proof {
            let f = farthest(dp@, a0[p as int]);
            assert(is_farthest(dp@, a0[p as int], f));
            let l = a0[p as int];
            assert(nb_le(nb_of(dp@, l[f]), nb_of(dp@, l[i as int])));
            assert(nb_le(nb_of(dp@, l[i as int]), nb_of(dp@, l[f])));
            if f != i as int {
                assert(l[f] != l[i as int]);
            }
            lemma_split_lists(a0, row, p, dp@, m as nat);
        }
        let w = adj[p][i];
        let j = position_of(&adj[w], p);
        proof {
            let jc = choose|jx: int| 0 <= jx < a0[w as int].len() && a0[w as int][jx] == p;
            if jc != j as int {
                assert(a0[w as int][jc] == a0[w as int][j as int]);
            }
        }
        adj[p].set(i, row);
        adj[w].set(j, row);
        adj[row].push(p);
        adj[row].push(w);
        proof {
            assert(lists_view(adj@)[row as int] =~= seq![p, w]);
            assert(lists_view(adj@) =~= split_edge(a0, row, p, dp@));
            lemma_split_ok(a0, row, p, dp@, m as nat);
            if reaches_from_zero(a0, row as nat) {
                lemma_reach_split(a0, row, p, dp@, m as nat);
            }
        }
    }
    let ghost a2 = lists_view(adj@);
    proof {
        assert(a2 == attach(a0, row, p, dp_s, m as nat));
        assert(ks.drop_first().take(0) =~= Seq::<usize>::empty());
    }
    let mut t: usize = 1;
    while t < kept.len()
        invariant
            1 <= t <= kept.len(),
            kept@ == ks,
            n == adj.len(),
            row + 1 == n,
            forall|j: int| 0 <= j < ks.len() ==> #[trigger] ks[j] < row,
            lists_view(adj@) == link_if_room(a2, row, ks.drop_first().take(t - 1), m as nat),
            nsw_ok(lists_view(adj@), m as nat),
            m >= 2 && reaches_from_zero(a0, row as nat) ==> reaches_from_zero(lists_view(adj@), (row + 1) as nat),
        decreases ks.len() - t,
    {
        let s = kept[t];
        let ghost a = lists_view(adj@);
        proof {
            let q = ks.drop_first();
            assert(q.take(t as int).drop_last() =~= q.take(t - 1));
            assert(q.take(t as int).last() == s);
        }
        let linked = lists_row(&adj[row], s);
        if adj[s].len() < m && adj[row].len() < m && !linked {
            proof {
                lemma_link_ok(a, row, s, m as nat);
            }
            adj[s].push(row);
            adj[row].push(s);
            proof {
                assert(lists_view(adj@) =~= link(a, row, s));
                if m >= 2 && reaches_from_zero(a0, row as nat) {
                    lemma_reach_grow(a, lists_view(adj@), (row + 1) as nat);
                }
            }
        }
        t = t + 1;
    }
    proof {
        assert(ks.drop_first().take(ks.len() - 1) =~= ks.drop_first());
    }
}

/// The first `k` elements of `s`, or all of them when there are fewer.
pub open spec fn first_k<A>(s: Seq<A>, k: usize) -> Seq<A> {
    if k < s.len() {
        s.take(k as int)
    } else {
        s
    }
}

/// A navigable small-world graph over the rows of a dataset.
#[derive(Debug)]
pub struct NswIndex<T> {
    dataset: Dataset<T>,
    metric: Metric,
    config: NswConfig,
    adjacency: Vec<Vec<usize>>,
    entry_point: usize,
}

impl<T> NswIndex<T> {
    #[verifier::type_invariant]
    spec fn well_formed(&self) -> bool {
        &&& self.adjacency.len() == self.dataset.rows().len()
        &&& self.adjacency.len() > 0
        &&& nsw_ok(lists_view(self.adjacency@), self.config.max_connections as nat)
        &&& self.config.max_connections >= 2 ==> reaches_from_zero(lists_view(self.adjacency@), self.adjacency.len() as nat)
    }

    /// The neighbour lists.
    pub closed spec fn graph(&self) -> Seq<Seq<usize>> {
        lists_view(self.adjacency@)
    }

    pub closed spec fn data(&self) -> Dataset<T> {
        self.dataset
    }

    pub closed spec fn spec_metric(&self) -> Metric {
        self.metric
    }

    pub closed spec fn spec_config(&self) -> NswConfig {
        self.config
    }

    /// Builds the graph by inserting the rows in order.
    ///
    /// `distances[a][b]` is the key of the distance from row `a` to row `b`.
    /// Fails exactly when the configuration is rejected.  The graph keeps
    /// `nsw_ok`: bounded by `max_connections` and reciprocal; when lists may
    /// hold two rows, every row is reached from row 0.
    pub fn try_new(dataset: Dataset<T>, metric: Metric, config: NswConfig, distances: &Vec<Vec<u32>>) -> (r:
        Result<Self, VectorError>)
        requires
            distances.len() == dataset.rows().len(),
            square(table_view(distances@)),
        ensures
            r is Err <==> nsw_config_check(config) is Err,
            r matches Err(e) ==> nsw_config_check(config) == Err::<(), VectorError>(e),
            r matches Ok(ix) ==> {
                &&& ix.graph() == nsw_graph(table_view(distances@), config, dataset.rows().len())
                &&& ix.graph().len() == dataset.rows().len()
                &&& nsw_ok(ix.graph(), config.max_connections as nat)
                &&& config.max_connections >= 2 ==> reaches_from_zero(ix.graph(), dataset.rows().len())
                &&& ix.data() == dataset
                &&& ix.spec_metric() == metric
                &&& ix.spec_config() == config
            },
    {
        match validate_config(&config) {
            Ok(()) => {},
            Err(e) => {
                return Err(e);
            },
        }
        let ghost t = table_view(distances@);
        let n = dataset.len();
        let mut adjacency: Vec<Vec<usize>> = Vec::new();
        let mut row: usize = 0;
        while row < n
            invariant
                row <= n,
                n == dataset.rows().len(),
                n == distances.len(),
                t == table_view(distances@),
                square(t),
                adjacency.len() == row,
                lists_view(adjacency@) == nsw_graph(t, config, row as nat),
                nsw_ok(lists_view(adjacency@), config.max_connections as nat),
                config.max_connections >= 2 ==> reaches_from_zero(lists_view(adjacency@), row as nat),
            decreases n - row,
        {
            let ghost before = lists_view(adjacency@);
            adjacency.push(Vec::new());
            assert(lists_view(adjacency@) =~= before.push(seq![]));
            proof {
                if config.max_connections >= 2 {
                    lemma_reach_push(before);
                }
            }
            if row > 0 {
                let d = column_of(distances, row);
                link_row(&mut adjacency, distances, &d, row, config.ef_construction, config.max_connections);
            } else {
                proof {
                    lemma_reach_first(lists_view(adjacency@));
                }
            }
            row = row + 1;
        }
        Ok(NswIndex { dataset, metric, config, adjacency, entry_point: 0 })
    }

    /// The neighbour lists, one per row.
    pub fn adjacency(&self) -> (a: &[Vec<usize>])
        ensures
            lists_view(a@) == self.graph(),
    {
        self.adjacency.as_slice()
    }

    /// Searches the graph from row 0 with `max(ef_search, k)` results kept,
    /// and gives the `k` closest found, closest first.  `dist[r]` is the
    /// distance key of row `r` to the query.  When lists may hold two rows
    /// every row is reached from row 0, so with `max(ef_search, k)` at least
    /// the number of rows the search is exact.
    pub fn search_with_ef(&self, dist: &Vec<u32>, k: usize, ef_search: usize) -> (r: Result<
        Vec<Neighbor>,
        VectorError,
    >)
        requires
            dist.len() == self.data().rows().len(),
        ensures
            r matches Ok(v) && v@ == first_k(
                layer_search(
                    dist@,
                    self.graph(),
                    seq![0usize],
                    if ef_search > k {
                        ef_search
                    } else {
                        k
                    },
                    dist.len() as usize,
                ),
                k,
            ),
            r matches Ok(v) ==> sorted(v@) && keyed_rows(v@, dist@, dist.len() as usize) && v.len()
                <= k,
            r matches Ok(v) ==> rows_distinct(v@),
            self.spec_config().max_connections >= 2 && (if ef_search > k {
                ef_search
            } else {
                k
            }) >= dist.len() ==> (r matches Ok(v) && v@ == exact_nearest(dist@, k)),
    {
        proof {
            use_type_invariant(self);
            assert(edges_within(self.graph(), self.adjacency.len(), dist.len() as nat)) by {
                assert forall|r: int, j: int| 0 <= r < self.adjacency.len() && 0 <= j < self.graph()[r].len() implies #[trigger] self.graph()[r][j]
                    < dist.len() by {}
            }
        }
        let mut entries: Vec<usize> = Vec::new();
        entries.push(0);
        assert(entries@ =~= seq![0usize]);
        assert(entries@.no_duplicates());
        let ef = if ef_search > k {
            ef_search
        } else {
            k
        };
        let n = self.adjacency.len();
        let mut result = search_layer(dist, &self.adjacency, &entries, ef, n);
        let ghost full = result@;
        result.truncate(k);
        proof {
            assert forall|i: int, j: int| 0 <= i < j < result@.len() implies nb_le(
                #[trigger] result@[i],
                #[trigger] result@[j],
            ) by {
                assert(result@[i] == full[i] && result@[j] == full[j]);
            }
            assert forall|i: int| 0 <= i < result@.len() implies #[trigger] result@[i].row < dist.len()
                && result@[i].distance == dist@[result@[i].row as int] by {
                assert(result@[i] == full[i]);
            }
            assert forall|i: int, j: int| 0 <= i < j < result@.len() implies #[trigger] result@[i].row
                != #[trigger] result@[j].row by {
                assert(result@[i] == full[i] && result@[j] == full[j]);
            }
            if self.config.max_connections >= 2 && ef >= n {
                // every row is reached from row 0, so a search that stopped
                // short of `ef` found them all
                let g = self.graph();
                lemma_distinct_rows_fill(full, n as nat);
                if full.len() < ef {
                    assert forall|u: int, j: int| 0 <= u < g.len() && 0 <= j < g[u].len() implies #[trigger] g[u][j] < n by {}
                    lemma_reach_found(full, g, n);
                }
                lemma_all_rows_ranked(full, dist@);
                let rk = full.map_values(|x: Neighbor| x.row);
                assert(result@ =~= exact_nearest(dist@, k)) by {
                    assert forall|i: int| 0 <= i < result@.len() implies result@[i] == exact_nearest(dist@, k)[i] by {
                        assert(result@[i] == full[i]);
                        assert(full[i] == nb_of(dist@, rk[i]));
                    }
                }
            }
        }
        Ok(result)
    }

    /// `search_with_ef` with the configured `ef_search`.
    pub fn search(&self, dist: &Vec<u32>, k: usize) -> (r: Result<Vec<Neighbor>, VectorError>)
        requires
            dist.len() == self.data().rows().len(),
        ensures
            r matches Ok(v) && v@ == first_k(
                layer_search(
                    dist@,
                    self.graph(),
                    seq![0usize],
                    if self.spec_config().ef_search > k {
                        self.spec_config().ef_search
                    } else {
                        k
                    },
                    dist.len() as usize,
                ),
                k,
            ),
            self.spec_config().max_connections >= 2 && (if self.spec_config().ef_search > k {
                self.spec_config().ef_search
            } else {
                k
            }) >= dist.len() ==> (r matches Ok(v) && v@ == exact_nearest(dist@, k)),
    {
        self.search_with_ef(dist, k, self.config.ef_search)
    }

    pub fn kind(&self) -> (s: &'static str)
        ensures
            s@ == "nsw"@,
    {
        "nsw"
    }

    pub fn dataset(&self) -> (d: &Dataset<T>)
        ensures
            *d == self.data(),
    {
        &self.dataset
    }

    pub fn metric(&self) -> (m: Metric)
        ensures
            m == self.spec_metric(),
    {
        self.metric
    }
}

impl<T: Clone> Clone for NswIndex<T> {
    /// The same graph, metric and configuration, over a clone of the dataset.
    fn clone(&self) -> (c: Self)
        ensures
            c.graph() == self.graph(),
            c.spec_metric() == self.spec_metric(),
            c.spec_config() == self.spec_config(),
            c.data().rows().len() == self.data().rows().len(),
            c.data().dim() == self.data().dim(),
            forall|j: int|
                0 <= j < self.data().rows().len() ==> cloned::<Vec<T>>(self.data().rows()[j], #[trigger] c.data().rows()[j]),
    {
        proof {
            use_type_invariant(self);
        }
        let dataset = self.dataset.clone();
        let adjacency = copy_lists(&self.adjacency);
        assert(dataset.rows().len() == self.dataset.rows().len());
        assert(adjacency@.len() == lists_view(adjacency@).len());
        NswIndex { dataset, metric: self.metric, config: self.config, adjacency, entry_point: self.entry_point }
    }
}

} // verus!
