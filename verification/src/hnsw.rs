//! Hierarchical navigable small-world index.
use vstd::prelude::*;
use crate::types::{Metric, VectorError};
use crate::order::{Neighbor, sorted, nb_le, nb_lt};
use crate::nsw::first_k;
use crate::dataset::Dataset;
use crate::rng::{DeterministicRng, advance, heads};
use crate::graph::{lists_view, greedy_descent, best_of, closed_under, lemma_layer_search_closed, lemma_greedy_closed, nb_of, greedy_search, layer_search, search_layer, keyed_rows, rows_distinct, copy_list, copy_lists, exact_nearest, lemma_distinct_rows_fill, lemma_all_rows_ranked};
use crate::layer::{
    table_view, square, column, insert_into_layer, layer_ok, column_of, row_of, insert_row,
    lemma_layer_ok_edges, lemma_layer_ok_all_edges, lemma_layer_ok_grow, anchored, lemma_anchored_reach, linked_earlier,
    lemma_linked_earlier_grow, back_links, lemma_back_links_keep,
};

verus! {

/// Build and search parameters of an HNSW index.
#[derive(Clone, Copy, Debug)]
pub struct HnswConfig {
    pub max_connections: usize,
    pub ef_construction: usize,
    pub ef_search: usize,
    pub max_level: usize,
    pub seed: u64,
}

impl Default for HnswConfig {
    fn default() -> (c: Self)
        ensures
            c.max_connections == 12,
            c.ef_construction == 64,
            c.ef_search == 40,
            c.max_level == 16,
            c.seed == 0x5eed,
    {
        HnswConfig {
            max_connections: 12,
            ef_construction: 64,
            ef_search: 40,
            max_level: 16,
            seed: 0x5eed,
        }
    }
}

/// What checking an HNSW configuration gives.
pub open spec fn hnsw_config_check(c: HnswConfig) -> Result<(), VectorError> {
    if c.max_connections == 0 {
        Err(VectorError::InvalidConfig("HNSW max_connections must be greater than zero"))
    } else if c.ef_construction == 0 {
        Err(VectorError::InvalidConfig("HNSW ef_construction must be greater than zero"))
    } else if c.ef_search == 0 {
        Err(VectorError::InvalidConfig("HNSW ef_search must be greater than zero"))
    } else if c.max_level == 0 {
        Err(VectorError::InvalidConfig("HNSW max_level must be greater than zero"))
    } else {
        Ok(())
    }
}

/// Rejects a zero `max_connections`, `ef_construction`, `ef_search` or
/// `max_level`, in that order.
pub fn validate_config(config: &HnswConfig) -> (r: Result<(), VectorError>)
    ensures
        r == hnsw_config_check(*config),
{
    if config.max_connections == 0 {
        return Err(VectorError::InvalidConfig("HNSW max_connections must be greater than zero"));
    }
    if config.ef_construction == 0 {
        return Err(VectorError::InvalidConfig("HNSW ef_construction must be greater than zero"));
    }
    if config.ef_search == 0 {
        return Err(VectorError::InvalidConfig("HNSW ef_search must be greater than zero"));
    }
    if config.max_level == 0 {
        return Err(VectorError::InvalidConfig("HNSW max_level must be greater than zero"));
    }
    Ok(())
}

/// The level drawn from generator state `state`, starting at `level`: one
/// level up for each head, stopping at the first tail or at `max`; with the
/// generator's state afterwards.
pub open spec fn level_draw(state: u64, level: nat, max: nat) -> (nat, u64)
    decreases max - level,
{
    if level >= max {
        (level, state)
    } else if heads(state) {
        level_draw(advance(state), level + 1, max)
    } else {
        (level, advance(state))
    }
}

pub proof fn lemma_level_draw_bound(state: u64, level: nat, max: nat)
    requires
        level <= max,
    ensures
        level_draw(state, level, max).0 <= max,
        level_draw(state, level, max).0 >= level,
    decreases max - level,
{
    if level < max && heads(state) {
        lemma_level_draw_bound(advance(state), level + 1, max);
    }
}

/// Draws a level: flips coins while below `max_level`, going one level up
/// per head and stopping at the first tail.
pub fn sample_level(rng: &mut DeterministicRng, max_level: usize) -> (level: usize)
    ensures
        (level as nat, final(rng)@) == level_draw(old(rng)@, 0, max_level as nat),
        level <= max_level,
{
    proof {
        lemma_level_draw_bound(old(rng)@, 0, max_level as nat);
    }
    let mut level: usize = 0;
    while level < max_level
        invariant
            level <= max_level,
            level_draw(old(rng)@, 0, max_level as nat) == level_draw(
                rng@,
                level as nat,
                max_level as nat,
            ),
        decreases max_level - level,
    {
        if rng.coin_flip() {
            level = level + 1;
        } else {
            return level;
        }
    }
    level
}

/// The levels of `n` rows drawn one after another from `state`, with the
/// generator's state afterwards.
pub open spec fn draw_levels(state: u64, max: nat, n: nat) -> (Seq<usize>, u64)
    decreases n,
{
    if n == 0 {
        (seq![], state)
    } else {
        let (ls, s) = draw_levels(state, max, (n - 1) as nat);
        let (l, s2) = level_draw(s, 0, max);
        (ls.push(l as usize), s2)
    }
}

/// The highest level in `s`, or 0 when `s` is empty.
pub open spec fn highest(s: Seq<usize>) -> nat
    decreases s.len(),
{
    if s.len() == 0 {
        0
    } else {
        let h = highest(s.drop_last());
        if s.last() > h {
            s.last() as nat
        } else {
            h
        }
    }
}

pub proof fn lemma_highest(s: Seq<usize>)
    ensures
        forall|i: int| 0 <= i < s.len() ==> #[trigger] s[i] <= highest(s),
        s.len() > 0 ==> exists|i: int| 0 <= i < s.len() && s[i] == highest(s),
    decreases s.len(),
{
    if s.len() > 0 {
        lemma_highest(s.drop_last());
        assert forall|i: int| 0 <= i < s.len() implies #[trigger] s[i] <= highest(s) by {
            if i < s.len() - 1 {
                assert(s[i] == s.drop_last()[i]);
            }
        }
        if s.last() > highest(s.drop_last()) {
            assert(s[s.len() - 1] == highest(s));
        } else if s.len() > 1 {
            let i = choose|i: int| 0 <= i < s.drop_last().len() && s.drop_last()[i] == highest(s.drop_last());
            assert(s[i] == s.drop_last()[i]);
        } else {
            assert(s[0] == highest(s));
        }
    }
}

/// Layers as plain sequences.
pub open spec fn layers_view(l: Seq<Vec<Vec<usize>>>) -> Seq<Seq<Seq<usize>>> {
    l.map_values(|x: Vec<Vec<usize>>| lists_view(x@))
}

/// The state of an HNSW build: its layers, the highest level reached so
/// far, and the row that first reached it.
pub struct HnswBuild {
    pub layers: Seq<Seq<Seq<usize>>>,
    pub top: usize,
    pub entry: usize,
}

/// The row a descent through the layers above level 0 reaches: greedy
/// descent in each layer from `level` down to 1, each starting where the
/// previous one stopped.  `q[x]` is the key of the distance from the new
/// row to row `x`.
pub open spec fn descend(
    layers: Seq<Seq<Seq<usize>>>,
    q: Seq<u32>,
    row: usize,
    level: nat,
    nearest: usize,
) -> usize
    decreases level,
{
    if level == 0 {
        nearest
    } else {
        descend(layers, q, row, (level - 1) as nat, greedy_descent(q, layers[level as int], nearest, row))
    }
}

/// `max(ef_construction, max_connections)`: the results kept when a row is
/// inserted into a layer above 0.
pub open spec fn upper_ef(c: HnswConfig) -> usize {
    if c.ef_construction > c.max_connections {
        c.ef_construction
    } else {
        c.max_connections
    }
}

/// Inserting `row`, whose level is `level`, into the layers from `cl` down
/// to 0.  In each layer above 0 a greedy descent first moves `nearest`; the
/// row is inserted into every layer at or below its level, by a search from
/// `nearest`.  `q[x]` is the key of the distance from the row to row `x`,
/// `col[x]` that of the distance from row `x` to the row.
pub open spec fn place(
    layers: Seq<Seq<Seq<usize>>>,
    q: Seq<u32>,
    col: Seq<u32>,
    c: HnswConfig,
    row: usize,
    level: nat,
    cl: nat,
    nearest: usize,
) -> Seq<Seq<Seq<usize>>>
    decreases cl,
{
    if cl == 0 {
        layers.update(
            0,
            insert_into_layer(layers[0], col, nearest, row, c.ef_construction, c.max_connections),
        )
    } else {
        let nx = greedy_descent(q, layers[cl as int], nearest, row);
        let l2 = if cl <= level {
            layers.update(
                cl as int,
                insert_into_layer(layers[cl as int], col, nx, row, upper_ef(c), c.max_connections),
            )
        } else {
            layers
        };
        place(l2, q, col, c, row, level, (cl - 1) as nat, nx)
    }
}

/// Row `row` joins the index.  From the second row on, it descends from the
/// entry point through the layers from the top level down, and is inserted
/// into every layer up to its own level.  A row whose level is above the top
/// level then becomes the entry point.
pub open spec fn hnsw_insert(
    st: HnswBuild,
    t: Seq<Seq<u32>>,
    c: HnswConfig,
    levels: Seq<usize>,
    row: usize,
) -> HnswBuild {
    let level = levels[row as int];
    let raised = level > st.top;
    HnswBuild {
        layers: if row == 0 {
            st.layers
        } else {
            place(
                st.layers,
                t[row as int],
                column(t, row as int),
                c,
                row,
                level as nat,
                st.top as nat,
                st.entry,
            )
        },
        top: if raised {
            level
        } else {
            st.top
        },
        entry: if raised {
            row
        } else {
            st.entry
        },
    }
}

/// Layer `l` holds only rows whose level is at least `l`: every other row
/// has an empty list, and no list names one.
pub open spec fn members_ok(adj: Seq<Seq<usize>>, levels: Seq<usize>, l: nat) -> bool {
    &&& forall|u: int| 0 <= u < adj.len() && levels[u] < l ==> #[trigger] adj[u].len() == 0
    &&& forall|u: int, j: int|
        0 <= u < adj.len() && 0 <= j < adj[u].len() ==> levels[#[trigger] adj[u][j] as int] >= l
}

/// The rows of level at least `l`.
pub open spec fn at_level(levels: Seq<usize>, l: nat) -> spec_fn(usize) -> bool {
    |x: usize| levels[x as int] >= l
}

/// Inserting a row of level at least `l` into layer `l`, from a row of level
/// at least `l`, keeps the layer to rows of level at least `l`.
pub proof fn lemma_insert_members(
    a: Seq<Seq<usize>>,
    b: Seq<Seq<usize>>,
    d: Seq<u32>,
    entry: usize,
    row: usize,
    ef: usize,
    levels: Seq<usize>,
    l: nat,
)
    requires
        members_ok(a, levels, l),
        row < a.len(),
        a.len() == b.len(),
        levels[row as int] >= l,
        levels[entry as int] >= l,
        ({
            let found = layer_search(d, a, seq![entry], ef, row);
            &&& forall|u: int|
                0 <= u < b.len() && u != row ==> #[trigger] b[u] == a[u] || (b[u] == a[u].push(row)
                    && exists|s: int| 0 <= s < found.len() && found[s].row == u)
            &&& forall|j: int|
                0 <= j < b[row as int].len() ==> exists|s: int|
                    0 <= s < found.len() && found[s].row == #[trigger] b[row as int][j]
        }),
    ensures
        members_ok(b, levels, l),
{
    let p = at_level(levels, l);
    assert(closed_under(a, p)) by {
        assert forall|r: int, j: int| 0 <= r < a.len() && p(r as usize) && 0 <= j < a[r].len() implies #[trigger] p(
            a[r][j],
        ) by {
            assert(levels[a[r][j] as int] >= l);
        }
    }
    assert(p(entry));
    assert(forall|j: int| 0 <= j < seq![entry].len() && #[trigger] seq![entry][j] < row ==> p(seq![entry][j]));
    lemma_layer_search_closed(d, a, seq![entry], ef, row, p);
    let found = layer_search(d, a, seq![entry], ef, row);
    assert forall|u: int| 0 <= u < b.len() && levels[u] < l implies #[trigger] b[u].len() == 0 by {
        if u != row {
            if b[u] != a[u] {
                let s = choose|s: int| 0 <= s < found.len() && found[s].row == u;
                assert(p(found[s].row));
            }
        }
    }
    assert forall|u: int, j: int| 0 <= u < b.len() && 0 <= j < b[u].len() implies levels[#[trigger] b[u][j] as int]
        >= l by {
        if u == row {
            let s = choose|s: int| 0 <= s < found.len() && found[s].row == b[row as int][j];
            assert(p(found[s].row));
        } else if b[u] != a[u] {
            if j < a[u].len() {
                assert(b[u][j] == a[u][j]);
            } else {
                assert(b[u][j] == row);
            }
        }
    }
}

/// A greedy descent in layer `l` from a row of level at least `l` ends at a
/// row of level at least `l`.
pub proof fn lemma_descent_members(
    q: Seq<u32>,
    adj: Seq<Seq<usize>>,
    nearest: usize,
    allowed: usize,
    levels: Seq<usize>,
    l: nat,
    k: nat,
    m: nat,
)
    requires
        members_ok(adj, levels, l),
        layer_ok(adj, k, m),
        adj.len() <= usize::MAX,
        nearest < adj.len(),
        levels[nearest as int] >= l,
    ensures
        levels[greedy_descent(q, adj, nearest, allowed) as int] >= l,
{
    let p = at_level(levels, l);
    assert(closed_under(adj, p)) by {
        assert forall|r: int, j: int| 0 <= r < adj.len() && p(r as usize) && 0 <= j < adj[r].len() implies #[trigger] p(
            adj[r][j],
        ) by {
            assert(levels[adj[r][j] as int] >= l);
        }
    }
    lemma_layer_ok_all_edges(adj, k, m);
    lemma_greedy_closed(q, adj, allowed, nb_of(q, nearest), q.len() + 1, p);
}

/// Some row before `u` has level at least `l`.
pub open spec fn has_earlier_member(levels: Seq<usize>, l: nat, u: int) -> bool {
    exists|w: int| 0 <= w < u && levels[w] >= l
}

/// In layer `l`, every row below `k` whose level reaches `l`, but for the
/// first such row, is linked both ways with an earlier row.
pub open spec fn members_anchored(adj: Seq<Seq<usize>>, levels: Seq<usize>, l: nat, k: nat) -> bool {
    forall|u: int|
        0 <= u < k && levels[u] >= l && has_earlier_member(levels, l, u) ==> #[trigger] linked_earlier(adj, u)
}

/// Inserting `row` into layer `l`, linked both ways with an earlier row,
/// while the other lists at most gain `row`, keeps the layer's rows anchored.
pub proof fn lemma_members_insert(
    a: Seq<Seq<usize>>,
    b: Seq<Seq<usize>>,
    levels: Seq<usize>,
    l: nat,
    row: usize,
)
    requires
        members_anchored(a, levels, l, row as nat),
        row < a.len(),
        a.len() == b.len(),
        forall|u: int| 0 <= u < b.len() && u != row ==> #[trigger] b[u] == a[u] || b[u] == a[u].push(row),
        linked_earlier(b, row as int),
    ensures
        members_anchored(b, levels, l, (row + 1) as nat),
{
    assert forall|u: int|
        0 <= u < row + 1 && levels[u] >= l && has_earlier_member(levels, l, u) implies #[trigger] linked_earlier(
        b,
        u,
    ) by {
        if u != row {
            lemma_linked_earlier_grow(a, b, row, u);
        }
    }
}

/// A row that is not inserted into layer `l` (its level is below `l`, or no
/// earlier row reaches `l`) leaves the layer's rows anchored.
pub proof fn lemma_members_skip(adj: Seq<Seq<usize>>, levels: Seq<usize>, l: nat, row: nat)
    requires
        members_anchored(adj, levels, l, row),
        levels[row as int] < l || !has_earlier_member(levels, l, row as int),
    ensures
        members_anchored(adj, levels, l, row + 1),
{
}

/// Once layer `l` holds two rows, every row whose level reaches `l` has a
/// neighbour in it.
pub proof fn lemma_members_linked(adj: Seq<Seq<usize>>, levels: Seq<usize>, l: nat, a: int, b: int)
    requires
        members_anchored(adj, levels, l, adj.len()),
        members_ok(adj, levels, l),
        0 <= a < b < adj.len(),
        levels[a] >= l,
        levels[b] >= l,
    ensures
        forall|u: int| 0 <= u < adj.len() && levels[u] >= l ==> #[trigger] adj[u].len() > 0,
{
    assert forall|u: int| 0 <= u < adj.len() && levels[u] >= l implies #[trigger] adj[u].len() > 0 by {
        if has_earlier_member(levels, l, u) {
            assert(linked_earlier(adj, u));
            let p = choose|p: usize| p < u && #[trigger] adj[u].contains(p) && adj[p as int].contains(u as usize);
        } else {
            let v = if u < a { a } else { b };
            assert(u <= a) by {
                if u > a {
                    assert(has_earlier_member(levels, l, u));
                }
            }
            lemma_first_member_linked(adj, levels, l, u, v);
        }
    }
}

/// The first row of layer `l` is listed by the earlier neighbour of any
/// later row of the layer, or by one further down.
proof fn lemma_first_member_linked(adj: Seq<Seq<usize>>, levels: Seq<usize>, l: nat, u: int, v: int)
    requires
        members_anchored(adj, levels, l, adj.len()),
        members_ok(adj, levels, l),
        0 <= u < v < adj.len(),
        levels[u] >= l,
        levels[v] >= l,
        !has_earlier_member(levels, l, u),
    ensures
        adj[u].len() > 0,
    decreases v,
{
    assert(has_earlier_member(levels, l, v));
    assert(linked_earlier(adj, v));
    let p = choose|p: usize| p < v && #[trigger] adj[v].contains(p) && adj[p as int].contains(v as usize);
    let j = choose|j: int| 0 <= j < adj[v].len() && adj[v][j] == p;
    assert(levels[adj[v][j] as int] >= l);
    if (p as int) < u {
        assert(has_earlier_member(levels, l, u));
    } else if p as int == u {
        assert(adj[u].contains(v as usize));
    } else {
        lemma_first_member_linked(adj, levels, l, u, p as int);
    }
}

/// `count` layers, each with an empty list for each of `n` rows.
pub open spec fn empty_layers(count: nat, n: nat) -> Seq<Seq<Seq<usize>>> {
    Seq::new(count, |l: int| Seq::new(n, |u: int| Seq::<usize>::empty()))
}

/// The build state after inserting rows `0..k`.
pub open spec fn hnsw_build(t: Seq<Seq<u32>>, c: HnswConfig, levels: Seq<usize>, k: nat) -> HnswBuild
    decreases k,
{
    if k == 0 {
        HnswBuild { layers: empty_layers(highest(levels) + 1, t.len()), top: 0, entry: 0 }
    } else {
        hnsw_insert(hnsw_build(t, c, levels, (k - 1) as nat), t, c, levels, (k - 1) as usize)
    }
}

/// Row `r` has no neighbour in `adj` that comes strictly before it in the
/// order of the keys `dist`: a greedy walk in `adj` stops at `r`.
pub open spec fn local_min(adj: Seq<Seq<usize>>, dist: Seq<u32>, r: usize) -> bool {
    forall|j: int|
        0 <= j < adj[r as int].len() && #[trigger] adj[r as int][j] < dist.len() ==> !nb_lt(
            nb_of(dist, adj[r as int][j]),
            nb_of(dist, r),
        )
}

/// `chain` is a descent through the layers: for each layer `l >= 1` the walk
/// that entered layer `l` at `chain[l]` left it at `chain[l - 1]`, a local
/// minimum of layer `l` no farther than `chain[l]`.
pub open spec fn descent_chain(layers: Seq<Seq<Seq<usize>>>, dist: Seq<u32>, chain: Seq<usize>) -> bool {
    forall|l: int|
        1 <= l < chain.len() ==> #[trigger] local_min(layers[l], dist, chain[l - 1]) && chain[l - 1] < dist.len()
            && nb_le(nb_of(dist, chain[l - 1]), nb_of(dist, chain[l]))
}

/// Along a descent, each row is no farther than any row before it.
pub proof fn lemma_chain_le(layers: Seq<Seq<Seq<usize>>>, dist: Seq<u32>, chain: Seq<usize>, a: int, b: int)
    requires
        descent_chain(layers, dist, chain),
        0 <= a <= b < chain.len(),
    ensures
        nb_le(nb_of(dist, chain[a]), nb_of(dist, chain[b])),
    decreases b - a,
{
    if a < b {
        lemma_chain_le(layers, dist, chain, a, b - 1);
        assert(local_min(layers[b], dist, chain[b - 1]));
    }
}

/// A descent leaves the top entry point, for a strictly closer row, as soon
/// as some upper layer lists a row strictly closer to the query than it.
pub proof fn lemma_descent_moves(layers: Seq<Seq<Seq<usize>>>, dist: Seq<u32>, chain: Seq<usize>, l: int, j: int)
    requires
        descent_chain(layers, dist, chain),
        1 <= l < chain.len(),
        0 <= j < layers[l][chain[chain.len() - 1] as int].len(),
        layers[l][chain[chain.len() - 1] as int][j] < dist.len(),
        nb_lt(
            nb_of(dist, layers[l][chain[chain.len() - 1] as int][j]),
            nb_of(dist, chain[chain.len() - 1]),
        ),
    ensures
        nb_lt(nb_of(dist, chain[0]), nb_of(dist, chain[chain.len() - 1])),
        chain[0] != chain[chain.len() - 1],
{
    let top = chain.len() - 1;
    lemma_chain_le(layers, dist, chain, 0, top);
    lemma_chain_le(layers, dist, chain, 0, l - 1);
    lemma_chain_le(layers, dist, chain, l - 1, top);
    assert(local_min(layers[l], dist, chain[l - 1]));
    if !nb_lt(nb_of(dist, chain[0]), nb_of(dist, chain[top])) {
        assert(chain[0] == chain[top]);
        assert(chain[l - 1] == chain[top]);
        assert(!nb_lt(nb_of(dist, layers[l][chain[l - 1] as int][j]), nb_of(dist, chain[l - 1])));
    }
}

/// A hierarchical navigable small-world index over the rows of a dataset.
#[derive(Debug)]
pub struct HnswIndex<T> {
    dataset: Dataset<T>,
    metric: Metric,
    config: HnswConfig,
    levels: Vec<usize>,
    layers: Vec<Vec<Vec<usize>>>,
    entry_point: usize,
    top_level: usize,
}

/// A layer with an empty list for each of `n` rows.
fn empty_layer(n: usize) -> (layer: Vec<Vec<usize>>)
    ensures
        lists_view(layer@) == Seq::new(n as nat, |u: int| Seq::<usize>::empty()),
{
    let mut layer: Vec<Vec<usize>> = Vec::new();
    while layer.len() < n
        invariant
            layer.len() <= n,
            lists_view(layer@) =~= Seq::new(layer.len() as nat, |u: int| Seq::<usize>::empty()),
        decreases n - layer.len(),
    {
        let ghost before = lists_view(layer@);
        layer.push(Vec::new());
        assert(lists_view(layer@) =~= before.push(Seq::<usize>::empty()));
    }
    layer
}

impl<T> HnswIndex<T> {
    #[verifier::type_invariant]
    spec fn well_formed(&self) -> bool {
        let n = self.dataset.rows().len();
        let lv = layers_view(self.layers@);
        &&& self.top_level < self.layers.len()
        &&& self.entry_point < n
        &&& forall|k: int| 0 <= k < self.layers.len() ==> #[trigger] lv[k].len() == n
        &&& forall|k: int| 0 <= k < self.layers.len() ==> layer_ok(#[trigger] lv[k], n, self.config.max_connections as nat)
        &&& anchored(lv[0], n)
    }

    pub closed spec fn data(&self) -> Dataset<T> {
        self.dataset
    }

    pub closed spec fn spec_metric(&self) -> Metric {
        self.metric
    }

    pub closed spec fn spec_config(&self) -> HnswConfig {
        self.config
    }

    pub closed spec fn spec_levels(&self) -> Seq<usize> {
        self.levels@
    }

    pub closed spec fn spec_layers(&self) -> Seq<Seq<Seq<usize>>> {
        layers_view(self.layers@)
    }

    pub closed spec fn spec_top_level(&self) -> usize {
        self.top_level
    }

    pub closed spec fn spec_entry_point(&self) -> usize {
        self.entry_point
    }

    /// Builds the index.
    ///
    /// Each row draws a level from a generator seeded with `config.seed`;
    /// then the rows are inserted in order, as `hnsw_build` describes.
    /// `distances[a][b]` is the key of the distance from row `a` to row
    /// `b`.  Fails exactly when the configuration is rejected.  Every layer
    /// keeps `layer_ok`; a layer above 0 holds exactly the rows whose level
    /// reaches it, each but the first linked both ways with an earlier one;
    /// layer 0 links every row so; the entry point is a row on the top
    /// level, and no row is above it.
    pub fn try_new(dataset: Dataset<T>, metric: Metric, config: HnswConfig, distances: &Vec<Vec<u32>>) -> (r:
        Result<Self, VectorError>)
        requires
            distances.len() == dataset.rows().len(),
            square(table_view(distances@)),
        ensures
            r is Err <==> hnsw_config_check(config) is Err,
            r matches Err(e) ==> hnsw_config_check(config) == Err::<(), VectorError>(e),
            r matches Ok(ix) ==> {
                let n = dataset.rows().len();
                let levels = draw_levels(config.seed, config.max_level as nat, n).0;
                let b = hnsw_build(table_view(distances@), config, levels, n);
                &&& ix.spec_levels() == levels
                &&& ix.spec_layers() == b.layers
                &&& ix.spec_top_level() == b.top
                &&& ix.spec_entry_point() == b.entry
                &&& ix.data() == dataset
                &&& ix.spec_metric() == metric
                &&& ix.spec_config() == config
                &&& ix.spec_layers().len() == highest(levels) + 1
                &&& forall|l: int| 0 <= l < ix.spec_layers().len() ==> #[trigger] ix.spec_layers()[l].len() == n
                &&& forall|l: int| 0 <= l < ix.spec_layers().len() ==> layer_ok(#[trigger] ix.spec_layers()[l], n, config.max_connections as nat)
                &&& forall|l: int| 1 <= l < ix.spec_layers().len() ==> members_ok(#[trigger] ix.spec_layers()[l], levels, l as nat)
                &&& anchored(ix.spec_layers()[0], n)
                &&& forall|r: int|
                    0 < r < n ==> #[trigger] back_links(ix.spec_layers()[0], r).len() == if config.ef_construction < r {
                        config.ef_construction as nat
                    } else {
                        r as nat
                    }
                &&& forall|l: int| 1 <= l < ix.spec_layers().len() ==> members_anchored(#[trigger] ix.spec_layers()[l], levels, l as nat, n)
                &&& forall|i: int| 0 <= i < n ==> #[trigger] levels[i] <= ix.spec_top_level()
                &&& ix.spec_top_level() <= config.max_level
                &&& ix.spec_entry_point() < n
                &&& levels[ix.spec_entry_point() as int] == ix.spec_top_level()
            },
    {
        match validate_config(&config) {
            Ok(()) => {},
            Err(e) => {
                return Err(e);
            },
        }
        let ghost t = table_view(distances@);
        let n = dataset.len();
        let mut rng = DeterministicRng::new(config.seed);
        let mut levels: Vec<usize> = Vec::new();
        let mut level_max: usize = 0;
        let mut i: usize = 0;
        while i < n
            invariant
                i <= n,
                (levels@, rng@) == draw_levels(config.seed, config.max_level as nat, i as nat),
                levels.len() == i,
                level_max == highest(levels@),
                forall|j: int| 0 <= j < levels.len() ==> #[trigger] levels@[j] <= config.max_level,
            decreases n - i,
        {
            let ghost before = levels@;
            let level = sample_level(&mut rng, config.max_level);
            levels.push(level);
            proof {
                assert(levels@.drop_last() =~= before);
            }
            if level_max < level {
                level_max = level;
            }
            i = i + 1;
        }
        let ghost lv = levels@;
        proof {
            lemma_highest(lv);
        }
        let mut layers: Vec<Vec<Vec<usize>>> = Vec::new();
        let mut l: usize = 0;
        loop
            invariant_except_break
                l <= level_max,
                layers_view(layers@) =~= empty_layers(l as nat, n as nat),
            ensures
                layers_view(layers@) =~= empty_layers((level_max + 1) as nat, n as nat),
            decreases level_max - l,
        {
            let layer = empty_layer(n);
            let ghost before = layers_view(layers@);
            layers.push(layer);
            assert(layers_view(layers@) =~= before.push(Seq::new(n as nat, |u: int| Seq::<usize>::empty())));
            if l == level_max {
                assert(layers_view(layers@) =~= empty_layers((l + 1) as nat, n as nat));
                break;
            }
            l = l + 1;
        }
        let mut top_level: usize = 0;
        let mut entry_point: usize = 0;
        let mut row: usize = 0;
        let ghost m = config.max_connections as nat;
        let up_ef = if config.ef_construction > config.max_connections {
            config.ef_construction
        } else {
            config.max_connections
        };
        while row < n
            invariant
                row <= n,
                n == dataset.rows().len(),
                n == distances.len(),
                t == table_view(distances@),
                square(t),
                lv == levels@,
                lv.len() == n,
                m == config.max_connections,
                up_ef == upper_ef(config),
                level_max == highest(lv),
                forall|j: int| 0 <= j < n ==> #[trigger] lv[j] <= level_max,
                forall|j: int| 0 <= j < n ==> #[trigger] lv[j] <= config.max_level,
                layers.len() == level_max + 1,
                ({
                    let b = hnsw_build(t, config, lv, row as nat);
                    &&& layers_view(layers@) == b.layers
                    &&& top_level == b.top
                    &&& entry_point == b.entry
                }),
                forall|k: int| 0 <= k < layers.len() ==> #[trigger] layers_view(layers@)[k].len() == n,
                forall|k: int| 0 <= k < layers.len() ==> layer_ok(#[trigger] layers_view(layers@)[k], row as nat, m),
                forall|k: int| 1 <= k < layers.len() ==> members_ok(#[trigger] layers_view(layers@)[k], lv, k as nat),
                top_level <= level_max,
                entry_point < n,
                row > 0 ==> entry_point < row && lv[entry_point as int] == top_level,
                forall|j: int| 0 <= j < row ==> #[trigger] lv[j] <= top_level,
                config.max_connections > 0,
                config.ef_construction > 0,
                anchored(layers_view(layers@)[0], row as nat),
                forall|k: int| 1 <= k < layers.len() ==> members_anchored(#[trigger] layers_view(layers@)[k], lv, k as nat, row as nat),
                forall|r: int|
                    0 < r < row ==> #[trigger] back_links(layers_view(layers@)[0], r).len() == if config.ef_construction < r {
                        config.ef_construction as nat
                    } else {
                        r as nat
                    },
            decreases n - row,
        {
            let ghost lv0 = layers_view(layers@);
            let level = levels[row];
            if row > 0 {
                let q = row_of(distances, row);
                let d = column_of(distances, row);
                proof {
                    assert(q@ == t[row as int]);
                }
                let mut nearest = entry_point;
                let mut cl = top_level;
                while cl > 0
                    invariant
                        0 < row < n,
                        cl <= top_level,
                        top_level <= level_max,
                        level == lv[row as int],
                        lv == levels@,
                        lv.len() == n,
                        m == config.max_connections,
                        up_ef == upper_ef(config),
                        layers.len() == level_max + 1,
                        q.len() == n,
                        d.len() == n,
                        place(lv0, q@, d@, config, row, level as nat, top_level as nat, entry_point)
                            == place(layers_view(layers@), q@, d@, config, row, level as nat, cl as nat, nearest),
                        nearest < row,
                        lv[nearest as int] >= cl,
                        anchored(layers_view(layers@)[0], row as nat),
                        config.max_connections > 0,
                        config.ef_construction > 0,
                        forall|r: int|
                            0 < r < row ==> #[trigger] back_links(layers_view(layers@)[0], r).len() == if config.ef_construction < r {
                                config.ef_construction as nat
                            } else {
                                r as nat
                            },
                        forall|k: int| 1 <= k < layers.len() ==> members_anchored(
                            #[trigger] layers_view(layers@)[k],
                            lv,
                            k as nat,
                            if cl < k && k <= level && k <= top_level { (row + 1) as nat } else { row as nat },
                        ),
                        forall|k: int| 0 <= k < layers.len() ==> #[trigger] layers_view(layers@)[k].len() == n,
                        forall|k: int| 0 <= k < layers.len() ==> layer_ok(
                            #[trigger] layers_view(layers@)[k],
                            if cl < k && k <= level && k <= top_level { (row + 1) as nat } else { row as nat },
                            m,
                        ),
                        forall|k: int| 1 <= k < layers.len() ==> members_ok(#[trigger] layers_view(layers@)[k], lv, k as nat),
                    decreases cl,
                {
                    let ghost cur = layers_view(layers@);
                    proof {
                        assert(layer_ok(cur[cl as int], row as nat, m));
                        assert(members_ok(cur[cl as int], lv, cl as nat));
                        lemma_layer_ok_all_edges(cur[cl as int], row as nat, m);
                        lemma_descent_members(q@, cur[cl as int], nearest, row, lv, cl as nat, row as nat, m);
                        assert(layers[cl as int]@.len() == n);
                        assert(lists_view(layers[cl as int]@) == cur[cl as int]);
                    }
                    nearest = greedy_search(&q, &layers[cl], nearest, row);
                    if cl <= level {
                        let ghost before = layers_view(layers@);
                        insert_row(&mut layers[cl], &d, nearest, row, up_ef, config.max_connections);
                        proof {
                            let after = layers_view(layers@);
                            assert(after =~= before.update(cl as int, lists_view(layers[cl as int]@)));
                            assert(after[0] == before[0]);
                            lemma_insert_members(before[cl as int], after[cl as int], d@, nearest, row, up_ef, lv, cl as nat);
                            lemma_members_insert(before[cl as int], after[cl as int], lv, cl as nat, row);
                        }
                    }
                    cl = cl - 1;
                }
                let ghost before = layers_view(layers@);
                proof {
                    assert(layer_ok(before[0], row as nat, m));
                    assert(layers[0]@.len() == n);
                }
                insert_row(&mut layers[0], &d, nearest, row, config.ef_construction, config.max_connections);
                proof {
                    let after = layers_view(layers@);
                    assert(after =~= before.update(0, lists_view(layers[0]@)));
                    assert forall|k: int| 0 <= k < layers.len() implies layer_ok(#[trigger] layers_view(layers@)[k], (row + 1) as nat, m) by {
                        if k > 0 && !(k <= level && k <= top_level) {
                            lemma_layer_ok_grow(before[k], row as nat, m);
                        }
                    }
                    assert forall|r: int| 0 < r < row + 1 implies #[trigger] back_links(layers_view(layers@)[0], r).len()
                        == if config.ef_construction < r {
                        config.ef_construction as nat
                    } else {
                        r as nat
                    } by {
                        if r < row {
                            lemma_back_links_keep(before[0], after[0], row, r);
                        }
                    }
                    assert forall|k: int| 1 <= k < layers.len() implies members_anchored(#[trigger] layers_view(layers@)[k], lv, k as nat, (row + 1) as nat) by {
                        assert(layers_view(layers@)[k] == before[k]);
                        if !(k <= level && k <= top_level) {
                            if k > top_level && has_earlier_member(lv, k as nat, row as int) {
                                let w = choose|w: int| 0 <= w < row && lv[w] >= k;
                                assert(lv[w] <= top_level);
                            }
                            lemma_members_skip(before[k], lv, k as nat, row as nat);
                        }
                    }
                }
            } else {
                proof {
                    assert forall|k: int| 0 <= k < layers.len() implies layer_ok(#[trigger] layers_view(layers@)[k], (row + 1) as nat, m) by {
                        lemma_layer_ok_grow(lv0[k], row as nat, m);
                    }
                    assert(anchored(layers_view(layers@)[0], (row + 1) as nat));
                    assert forall|k: int| 1 <= k < layers.len() implies members_anchored(#[trigger] layers_view(layers@)[k], lv, k as nat, (row + 1) as nat) by {
                        lemma_members_skip(lv0[k], lv, k as nat, row as nat);
                    }
                }
            }
            if level > top_level {
                top_level = level;
                entry_point = row;
            }
            proof {
                assert forall|j: int| 0 <= j < row + 1 implies #[trigger] lv[j] <= top_level by {}
            }
            row = row + 1;
        }
        proof {
            assert(n > 0);
        }
        Ok(HnswIndex { dataset, metric, config, levels, layers, entry_point, top_level })
    }

    /// The level drawn for each row.
    pub fn levels(&self) -> (l: &[usize])
        ensures
            l@ == self.spec_levels(),
    {
        self.levels.as_slice()
    }

    pub fn top_level(&self) -> (t: usize)
        ensures
            t == self.spec_top_level(),
    {
        self.top_level
    }

    /// Searches the index: greedy descent from the entry point through the
    /// layers from the top level down to 1, then a search of layer 0 from
    /// where the descent stopped with `max(ef_search, k)` results kept; gives
    /// the `k` closest found, closest first.  `dist[r]` is the distance key of
    /// row `r` to the query.  Layer 0 links every row, so with
    /// `max(ef_search, k)` at least the number of rows the search is exact.
    pub fn search_with_ef(&self, dist: &Vec<u32>, k: usize, ef_search: usize) -> (r: Result<
        Vec<Neighbor>,
        VectorError,
    >)
        requires
            dist.len() == self.data().rows().len(),
        ensures
            r matches Ok(v) && v@ == first_k(
                layer_search(
                    dist@,
                    self.spec_layers()[0],
                    seq![
                        descend(
                            self.spec_layers(),
                            dist@,
                            dist.len() as usize,
                            self.spec_top_level() as nat,
                            self.spec_entry_point(),
                        ),
                    ],
                    if ef_search > k {
                        ef_search
                    } else {
                        k
                    },
                    dist.len() as usize,
                ),
                k,
            ),
            r matches Ok(v) ==> sorted(v@) && keyed_rows(v@, dist@, dist.len() as usize) && v.len()
                <= k,
            r matches Ok(v) ==> rows_distinct(v@),
            (if ef_search > k {
                ef_search
            } else {
                k
            }) >= dist.len() ==> (r matches Ok(v) && v@ == exact_nearest(dist@, k)),
            exists|chain: Seq<usize>|
                {
                    &&& chain.len() == self.spec_top_level() + 1
                    &&& chain[self.spec_top_level() as int] == self.spec_entry_point()
                    &&& #[trigger] descent_chain(self.spec_layers(), dist@, chain)
                    &&& r matches Ok(v) && v@ == first_k(
                        layer_search(
                            dist@,
                            self.spec_layers()[0],
                            seq![chain[0]],
                            if ef_search > k {
                                ef_search
                            } else {
                                k
                            },
                            dist.len() as usize,
                        ),
                        k,
                    )
                },
    {
        proof {
            use_type_invariant(self);
        }
        let n = dist.len();
        let ghost lv0 = layers_view(self.layers@);
        let mut nearest = self.entry_point;
        let mut cl = self.top_level;
        let ghost mut chain: Seq<usize> = Seq::new((self.top_level + 1) as nat, |i: int| self.entry_point);
        while cl > 0
            invariant
                chain.len() == self.top_level + 1,
                chain[self.top_level as int] == self.entry_point,
                chain[cl as int] == nearest,
                forall|l: int|
                    cl < l <= self.top_level ==> #[trigger] local_min(lv0[l], dist@, chain[l - 1]) && chain[l - 1] < n
                        && nb_le(nb_of(dist@, chain[l - 1]), nb_of(dist@, chain[l])),
                cl <= self.top_level,
                n == dist.len(),
                self.top_level < self.layers.len(),
                lv0 == layers_view(self.layers@),
                forall|k: int| 0 <= k < self.layers.len() ==> #[trigger] lv0[k].len() == n,
                forall|k: int| 0 <= k < self.layers.len() ==> layer_ok(#[trigger] lv0[k], n as nat, self.config.max_connections as nat),
                nearest < n,
                descend(lv0, dist@, n, self.top_level as nat, self.entry_point) == descend(
                    lv0,
                    dist@,
                    n,
                    cl as nat,
                    nearest,
                ),
            decreases cl,
        {
            assert(self.layers[cl as int]@.len() == lv0[cl as int].len());
            proof {
                lemma_layer_ok_all_edges(lv0[cl as int], n as nat, self.config.max_connections as nat);
            }
            let ghost before = nearest;
            nearest = greedy_search(dist, &self.layers[cl], nearest, n);
            proof {
                let c0 = chain;
                chain = chain.update(cl - 1, nearest);
                assert(lists_view(self.layers[cl as int]@) == lv0[cl as int]);
                assert forall|l: int|
                    cl - 1 < l <= self.top_level implies #[trigger] local_min(lv0[l], dist@, chain[l - 1]) && chain[l - 1] < n
                        && nb_le(nb_of(dist@, chain[l - 1]), nb_of(dist@, chain[l])) by {
                    if l == cl {
                        assert(chain[l - 1] == nearest);
                        assert(chain[l] == before);
                        assert(nearest < n);
                        assert(nb_le(nb_of(dist@, nearest), nb_of(dist@, before)));
                        assert(lv0[l][nearest as int] == self.layers[cl as int][nearest as int]@);
                        assert forall|j: int|
                            0 <= j < lv0[l][nearest as int].len() && #[trigger] lv0[l][nearest as int][j] < dist.len()
                                implies !nb_lt(nb_of(dist@, lv0[l][nearest as int][j]), nb_of(dist@, nearest)) by {
                            assert(lv0[l][nearest as int][j] == self.layers[cl as int][nearest as int][j]);
                        }
                    } else {
                        assert(chain[l - 1] == c0[l - 1]);
                        assert(chain[l] == c0[l]);
                        assert(local_min(lv0[l], dist@, c0[l - 1]));
                    }
                }
            }
            cl = cl - 1;
        }
        proof {
            use_type_invariant(self);
            assert(lv0[0] == lists_view(self.layers[0]@));
            assert(lv0[0].len() == n);
            assert(self.layers[0]@.len() == n);
            lemma_layer_ok_edges(lv0[0], n as nat, self.config.max_connections as nat, n as nat);
        }
        let mut entries: Vec<usize> = Vec::new();
        entries.push(nearest);
        assert(entries@ =~= seq![nearest]);
        assert(entries@.no_duplicates());
        let ef = if ef_search > k {
            ef_search
        } else {
            k
        };
        let mut result = search_layer(dist, &self.layers[0], &entries, ef, n);
        let ghost full = result@;
        result.truncate(k);
        proof {
            assert forall|i: int, j: int| 0 <= i < j < result@.len() implies nb_le(
                #[trigger] result@[i],
                #[trigger] result@[j],
            ) by {
                assert(result@[i] == full[i] && result@[j] == full[j]);
            }
            assert forall|i: int| 0 <= i < result@.len() implies #[trigger] result@[i].row < dist.len()
                && result@[i].distance == dist@[result@[i].row as int] by {
                assert(result@[i] == full[i]);
            }
            assert forall|i: int, j: int| 0 <= i < j < result@.len() implies #[trigger] result@[i].row
                != #[trigger] result@[j].row by {
                assert(result@[i] == full[i] && result@[j] == full[j]);
            }
            if ef >= n {
                // every row is found: the layer is anchored, so a search that
                // stopped short of `ef` reached them all
                lemma_distinct_rows_fill(full, n as nat);
                if full.len() < ef {
                    lemma_anchored_reach(full, lv0[0], nearest, n);
                }
                lemma_all_rows_ranked(full, dist@);
                let all = Seq::new(dist@.len(), |i: int| i as usize);
                let rk = full.map_values(|x: Neighbor| x.row);
                assert(result@ =~= exact_nearest(dist@, k)) by {
                    assert forall|i: int| 0 <= i < result@.len() implies result@[i] == exact_nearest(dist@, k)[i] by {
                        assert(result@[i] == full[i]);
                        assert(full[i] == nb_of(dist@, rk[i]));
                    }
                }
            }
        }
        proof {
            assert(chain[0] == nearest);
            assert(self.spec_layers() == lv0);
            assert forall|l: int| 1 <= l < chain.len() implies #[trigger] local_min(lv0[l], dist@, chain[l - 1])
                && chain[l - 1] < dist.len() && nb_le(nb_of(dist@, chain[l - 1]), nb_of(dist@, chain[l])) by {}
            assert(descent_chain(self.spec_layers(), dist@, chain));
        }
        Ok(result)
    }

    /// `search_with_ef` with the configured `ef_search`.
    pub fn search(&self, dist: &Vec<u32>, k: usize) -> (r: Result<Vec<Neighbor>, VectorError>)
        requires
            dist.len() == self.data().rows().len(),
        ensures
            r matches Ok(v) && v@ == first_k(
                layer_search(
                    dist@,
                    self.spec_layers()[0],
                    seq![
                        descend(
                            self.spec_layers(),
                            dist@,
                            dist.len() as usize,
                            self.spec_top_level() as nat,
                            self.spec_entry_point(),
                        ),
                    ],
                    if self.spec_config().ef_search > k {
                        self.spec_config().ef_search
                    } else {
                        k
                    },
                    dist.len() as usize,
                ),
                k,
            ),
            (if self.spec_config().ef_search > k {
                self.spec_config().ef_search
            } else {
                k
            }) >= dist.len() ==> (r matches Ok(v) && v@ == exact_nearest(dist@, k)),
            exists|chain: Seq<usize>|
                {
                    &&& chain.len() == self.spec_top_level() + 1
                    &&& chain[self.spec_top_level() as int] == self.spec_entry_point()
                    &&& #[trigger] descent_chain(self.spec_layers(), dist@, chain)
                    &&& r matches Ok(v) && v@ == first_k(
                        layer_search(
                            dist@,
                            self.spec_layers()[0],
                            seq![chain[0]],
                            if self.spec_config().ef_search > k {
                                self.spec_config().ef_search
                            } else {
                                k
                            },
                            dist.len() as usize,
                        ),
                        k,
                    )
                },
    {
        self.search_with_ef(dist, k, self.config.ef_search)
    }

    /// The neighbour lists of layer `level`, if the index has that layer.
    pub fn layer(&self, level: usize) -> (l: Option<&[Vec<usize>]>)
        ensures
            level < self.spec_layers().len() <==> l is Some,
            l matches Some(s) ==> lists_view(s@) == self.spec_layers()[level as int],
    {
        if level < self.layers.len() {
            Some(self.layers[level].as_slice())
        } else {
            None
        }
    }

    pub fn kind(&self) -> (s: &'static str)
        ensures
            s@ == "hnsw"@,
    {
        "hnsw"
    }

    pub fn dataset(&self) -> (d: &Dataset<T>)
        ensures
            *d == self.data(),
    {
        &self.dataset
    }

    pub fn metric(&self) -> (m: Metric)
        ensures
            m == self.spec_metric(),
    {
        self.metric
    }
}

/// A copy of the layers.
fn copy_layers(l: &Vec<Vec<Vec<usize>>>) -> (c: Vec<Vec<Vec<usize>>>)
    ensures
        layers_view(c@) == layers_view(l@),
{
    let mut c: Vec<Vec<Vec<usize>>> = Vec::new();
    let mut i: usize = 0;
    while i < l.len()
        invariant
            i <= l.len(),
            layers_view(c@) =~= layers_view(l@).take(i as int),
        decreases l.len() - i,
    {
        let ghost before = layers_view(c@);
        c.push(copy_lists(&l[i]));
        assert(layers_view(c@) =~= before.push(lists_view(l[i as int]@)));
        i = i + 1;
    }
    c
}

impl<T: Clone> Clone for HnswIndex<T> {
    /// The same levels, layers, entry point, metric and configuration, over
    /// a clone of the dataset.
    fn clone(&self) -> (c: Self)
        ensures
            c.spec_layers() == self.spec_layers(),
            c.spec_levels() == self.spec_levels(),
            c.spec_top_level() == self.spec_top_level(),
            c.spec_entry_point() == self.spec_entry_point(),
            c.spec_metric() == self.spec_metric(),
            c.spec_config() == self.spec_config(),
            c.data().rows().len() == self.data().rows().len(),
            c.data().dim() == self.data().dim(),
            forall|j: int|
                0 <= j < self.data().rows().len() ==> cloned::<Vec<T>>(self.data().rows()[j], #[trigger] c.data().rows()[j]),
    {
        proof {
            use_type_invariant(self);
        }
        let dataset = self.dataset.clone();
        let layers = copy_layers(&self.layers);
        let levels = copy_list(&self.levels);
        assert(layers@.len() == layers_view(layers@).len());
        assert(self.layers@.len() == layers_view(self.layers@).len());
        HnswIndex {
            dataset,
            metric: self.metric,
            config: self.config,
            levels,
            layers,
            entry_point: self.entry_point,
            top_level: self.top_level,
        }
    }
}

} // verus!
