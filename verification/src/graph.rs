//! Graph traversal shared by the graph indexes: best-first layer search,
//! greedy descent, and neighbour pruning.
use vstd::prelude::*;
use vstd::set_lib::{set_int_range, lemma_int_range, lemma_len_subset};
use crate::order::{
    Neighbor, nb_lt, nb_le, sorted, insert_pos, insert_sorted, lemma_insert_pos, lemma_insert_sorted,
    lemma_insert_sorted_sorted, lemma_sorted_drop_last, lemma_sorted_drop_first, sorted_insert,
    neighbor_lt,
};

verus! {

/// The neighbour lists of a graph as plain sequences.
pub open spec fn lists_view(a: Seq<Vec<usize>>) -> Seq<Seq<usize>> {
    a.map_values(|v: Vec<usize>| v@)
}

/// A copy of a list of rows.
pub fn copy_list(v: &Vec<usize>) -> (c: Vec<usize>)
    ensures
        c@ == v@,
{
    let mut c: Vec<usize> = Vec::new();
    let mut j: usize = 0;
    while j < v.len()
        invariant
            j <= v.len(),
            c@ =~= v@.take(j as int),
        decreases v.len() - j,
    {
        c.push(v[j]);
        j = j + 1;
    }
    c
}

/// A copy of a graph's neighbour lists.
pub fn copy_lists(a: &Vec<Vec<usize>>) -> (c: Vec<Vec<usize>>)
    ensures
        lists_view(c@) == lists_view(a@),
{
    let mut c: Vec<Vec<usize>> = Vec::new();
    let mut i: usize = 0;
    while i < a.len()
        invariant
            i <= a.len(),
            lists_view(c@) =~= lists_view(a@).take(i as int),
        decreases a.len() - i,
    {
        let ghost before = lists_view(c@);
        c.push(copy_list(&a[i]));
        assert(lists_view(c@) =~= before.push(a[i as int]@));
        i = i + 1;
    }
    c
}

/// Every neighbour listed for a row below `rows` is a row of the dataset.
pub open spec fn edges_within(adj: Seq<Seq<usize>>, rows: usize, n: nat) -> bool {
    forall|r: int, j: int| 0 <= r < rows && 0 <= j < adj[r].len() ==> #[trigger] adj[r][j] < n
}

/// Row `r` together with its distance key taken from `dist`.
pub open spec fn nb_of(dist: Seq<u32>, r: usize) -> Neighbor {
    Neighbor { row: r, distance: dist[r as int] }
}

pub open spec fn rows_distinct(s: Seq<Neighbor>) -> bool {
    forall|i: int, j: int| 0 <= i < j < s.len() ==> #[trigger] s[i].row != #[trigger] s[j].row
}

/// Every element of `s` is a row below `allowed` carrying its own key.
pub open spec fn keyed_rows(s: Seq<Neighbor>, dist: Seq<u32>, allowed: usize) -> bool {
    forall|i: int| 0 <= i < s.len() ==> #[trigger] s[i].row < allowed && s[i].distance == dist[s[i].row as int]
}

pub open spec fn count_false(s: Seq<bool>) -> nat
    decreases s.len(),
{
    if s.len() == 0 {
        0
    } else {
        count_false(s.drop_last()) + if s.last() { 0nat } else { 1nat }
    }
}

pub proof fn lemma_count_false_le(s: Seq<bool>)
    ensures
        count_false(s) <= s.len(),
    decreases s.len(),
{
    if s.len() > 0 {
        lemma_count_false_le(s.drop_last());
    }
}

pub proof fn lemma_count_false_update(s: Seq<bool>, i: int)
    requires
        0 <= i < s.len(),
        !s[i],
    ensures
        count_false(s.update(i, true)) + 1 == count_false(s),
    decreases s.len(),
{
    let t = s.update(i, true);
    if i == s.len() - 1 {
        assert(t.drop_last() =~= s.drop_last());
    } else {
        assert(t.drop_last() =~= s.drop_last().update(i, true));
        lemma_count_false_update(s.drop_last(), i);
    }
}

/// The state of a layer search: the frontier still to expand (closest
/// first), the best rows found so far (closest first), and which rows have
/// been reached.
pub struct LayerState {
    pub candidates: Seq<Neighbor>,
    pub results: Seq<Neighbor>,
    pub visited: Seq<bool>,
}

pub open spec fn layer_state(
    candidates: Seq<Neighbor>,
    results: Seq<Neighbor>,
    visited: Seq<bool>,
) -> LayerState {
    LayerState { candidates, results, visited }
}

/// An entry point enters both the frontier and the results, unless it lies
/// outside the rows the search may use.
pub open spec fn seed_entry(st: LayerState, dist: Seq<u32>, allowed: usize, e: usize) -> LayerState {
    if e >= allowed {
        st
    } else {
        layer_state(
            insert_sorted(st.candidates, nb_of(dist, e)),
            insert_sorted(st.results, nb_of(dist, e)),
            st.visited.update(e as int, true),
        )
    }
}

pub open spec fn seed_entries(
    st: LayerState,
    dist: Seq<u32>,
    allowed: usize,
    entries: Seq<usize>,
) -> LayerState
    decreases entries.len(),
{
    if entries.len() == 0 {
        st
    } else {
        seed_entry(seed_entries(st, dist, allowed, entries.drop_last()), dist, allowed, entries.last())
    }
}

/// Reaching row `r` from the row being expanded.  A row already reached, or
/// outside the allowed rows, is skipped.  A new row joins the results while
/// they hold fewer than `cap` rows; once they hold exactly `cap`, a strictly
/// closer row replaces the farthest one, and a row exactly as far as the
/// farthest one only joins the frontier.
pub open spec fn visit_neighbor(
    st: LayerState,
    dist: Seq<u32>,
    allowed: usize,
    cap: usize,
    r: usize,
) -> LayerState {
    if st.visited[r as int] || r >= allowed {
        st
    } else {
        let nb = nb_of(dist, r);
        let visited = st.visited.update(r as int, true);
        if st.results.len() < cap {
            layer_state(insert_sorted(st.candidates, nb), insert_sorted(st.results, nb), visited)
        } else if st.results.len() == cap && nb.distance < st.results.last().distance {
            layer_state(
                insert_sorted(st.candidates, nb),
                insert_sorted(st.results.drop_last(), nb),
                visited,
            )
        } else if st.results.len() == cap && nb.distance == st.results.last().distance {
            layer_state(insert_sorted(st.candidates, nb), st.results, visited)
        } else {
            layer_state(st.candidates, st.results, visited)
        }
    }
}

pub open spec fn visit_neighbors(
    st: LayerState,
    dist: Seq<u32>,
    allowed: usize,
    cap: usize,
    nbrs: Seq<usize>,
) -> LayerState
    decreases nbrs.len(),
{
    if nbrs.len() == 0 {
        st
    } else {
        visit_neighbor(
            visit_neighbors(st, dist, allowed, cap, nbrs.drop_last()),
            dist,
            allowed,
            cap,
            nbrs.last(),
        )
    }
}

/// Expands the closest frontier row while it is not farther than the
/// farthest result; gives the results when the frontier is empty or that
/// test fails.  `fuel` only bounds the recursion: `layer_search` supplies
/// more than the search can use.
pub open spec fn expand(
    st: LayerState,
    dist: Seq<u32>,
    adj: Seq<Seq<usize>>,
    allowed: usize,
    cap: usize,
    fuel: nat,
) -> Seq<Neighbor>
    decreases fuel,
{
    if fuel == 0 || st.candidates.len() == 0 {
        st.results
    } else {
        let c = st.candidates[0];
        if c.distance > st.results.last().distance {
            st.results
        } else {
            let rest = layer_state(st.candidates.drop_first(), st.results, st.visited);
            expand(
                visit_neighbors(rest, dist, allowed, cap, adj[c.row as int]),
                dist,
                adj,
                allowed,
                cap,
                (fuel - 1) as nat,
            )
        }
    }
}

pub open spec fn initial_layer_state(n: nat) -> LayerState {
    layer_state(seq![], seq![], Seq::new(n, |i: int| false))
}

/// The rows a best-first search of graph `adj` finds, closest first, when
/// `dist` gives each row's distance key to the query, the search starts from
/// `entries`, keeps at most `ef` results, and may use rows below `allowed`.
pub open spec fn layer_search(
    dist: Seq<u32>,
    adj: Seq<Seq<usize>>,
    entries: Seq<usize>,
    ef: usize,
    allowed: usize,
) -> Seq<Neighbor> {
    expand(
        seed_entries(initial_layer_state(dist.len()), dist, allowed, entries),
        dist,
        adj,
        allowed,
        ef,
        entries.len() + dist.len() + 1,
    )
}

/// Every element of `s` is a row marked reached in `v`.
pub open spec fn rows_reached(s: Seq<Neighbor>, v: Seq<bool>) -> bool {
    forall|i: int| 0 <= i < s.len() ==> #[trigger] s[i].row < v.len() && v[s[i].row as int]
}

/// The facts every state of a layer search keeps.
pub open spec fn layer_state_ok(
    st: LayerState,
    dist: Seq<u32>,
    allowed: usize,
    distinct: bool,
) -> bool {
    &&& st.visited.len() == dist.len()
    &&& sorted(st.candidates)
    &&& sorted(st.results)
    &&& keyed_rows(st.candidates, dist, allowed)
    &&& keyed_rows(st.results, dist, allowed)
    &&& rows_reached(st.results, st.visited)
    &&& distinct ==> rows_distinct(st.results)
}

pub proof fn lemma_insert_keyed(s: Seq<Neighbor>, x: Neighbor, dist: Seq<u32>, allowed: usize)
    requires
        keyed_rows(s, dist, allowed),
        x.row < allowed,
        x.distance == dist[x.row as int],
    ensures
        keyed_rows(insert_sorted(s, x), dist, allowed),
{
    lemma_insert_pos(s, x);
    let p = insert_pos(s, x) as int;
    s.insert_ensures(p, x);
    let t = insert_sorted(s, x);
    assert forall|i: int| 0 <= i < t.len() implies #[trigger] t[i].row < allowed && t[i].distance
        == dist[t[i].row as int] by {
        if i < p {
            assert(t[i] == s[i]);
        } else if i > p {
            assert(t[i] == s[i - 1]);
        }
    }
}

/// What a sequence of found rows keeps under insertion of a newly reached row.
pub proof fn lemma_found_insert(
    s: Seq<Neighbor>,
    x: Neighbor,
    dist: Seq<u32>,
    allowed: usize,
    v: Seq<bool>,
)
    requires
        sorted(s),
        keyed_rows(s, dist, allowed),
        rows_reached(s, v),
        x.row < allowed,
        x.distance == dist[x.row as int],
        x.row < v.len(),
        v[x.row as int],
    ensures
        sorted(insert_sorted(s, x)),
        keyed_rows(insert_sorted(s, x), dist, allowed),
        rows_reached(insert_sorted(s, x), v),
        insert_sorted(s, x).len() == s.len() + 1,
        (rows_distinct(s) && forall|i: int| 0 <= i < s.len() ==> #[trigger] s[i].row != x.row)
            ==> rows_distinct(insert_sorted(s, x)),
{
    lemma_insert_sorted_sorted(s, x);
    lemma_insert_pos(s, x);
    let p = insert_pos(s, x) as int;
    s.insert_ensures(p, x);
    let t = insert_sorted(s, x);
    assert forall|i: int| 0 <= i < t.len() implies #[trigger] t[i].row < allowed && t[i].distance
        == dist[t[i].row as int] && t[i].row < v.len() && v[t[i].row as int] by {
        if i < p {
            assert(t[i] == s[i]);
        } else if i > p {
            assert(t[i] == s[i - 1]);
        }
    }
    if rows_distinct(s) && forall|i: int| 0 <= i < s.len() ==> #[trigger] s[i].row != x.row {
        assert forall|i: int, j: int| 0 <= i < j < t.len() implies #[trigger] t[i].row
            != #[trigger] t[j].row by {
            let a = if i < p { i } else { i - 1 };
            let b = if j < p { j } else { j - 1 };
            if i == p {
                assert(t[j] == s[b]);
            } else if j == p {
                assert(t[i] == s[a]);
            } else {
                assert(t[i] == s[a] && t[j] == s[b]);
            }
        }
    }
}

/// Dropping the last element keeps what a sequence of found rows keeps.
pub proof fn lemma_found_drop_last(s: Seq<Neighbor>, dist: Seq<u32>, allowed: usize, v: Seq<bool>)
    requires
        s.len() > 0,
        sorted(s),
        keyed_rows(s, dist, allowed),
        rows_reached(s, v),
    ensures
        sorted(s.drop_last()),
        keyed_rows(s.drop_last(), dist, allowed),
        rows_reached(s.drop_last(), v),
        rows_distinct(s) ==> rows_distinct(s.drop_last()),
        forall|i: int| 0 <= i < s.drop_last().len() ==> #[trigger] s.drop_last()[i] == s[i],
{
    lemma_sorted_drop_last(s);
}

pub proof fn lemma_rows_reached_update(s: Seq<Neighbor>, v: Seq<bool>, r: int)
    requires
        rows_reached(s, v),
        0 <= r < v.len(),
    ensures
        rows_reached(s, v.update(r, true)),
{
    assert forall|i: int| 0 <= i < s.len() implies #[trigger] s[i].row < v.update(r, true).len()
        && v.update(r, true)[s[i].row as int] by {
        assert(s[i].row < v.len() && v[s[i].row as int]);
    }
}

/// One reached row keeps a search state good, and adds nothing to the count
/// of unreached rows plus the frontier's length.
pub proof fn lemma_visit_neighbor(
    st: LayerState,
    dist: Seq<u32>,
    allowed: usize,
    cap: usize,
    r: usize,
    distinct: bool,
)
    requires
        layer_state_ok(st, dist, allowed, distinct),
        r < dist.len(),
        st.results.len() > 0,
    ensures
        layer_state_ok(visit_neighbor(st, dist, allowed, cap, r), dist, allowed, distinct),
        count_false(visit_neighbor(st, dist, allowed, cap, r).visited) + visit_neighbor(
            st,
            dist,
            allowed,
            cap,
            r,
        ).candidates.len() <= count_false(st.visited) + st.candidates.len(),
        visit_neighbor(st, dist, allowed, cap, r).results.len() >= st.results.len(),
        st.results.len() < cap ==> visit_neighbor(st, dist, allowed, cap, r).results.len() <= cap,
        st.results.len() >= cap ==> visit_neighbor(st, dist, allowed, cap, r).results.len()
            == st.results.len(),
{
    if !(st.visited[r as int] || r >= allowed) {
        let nb = nb_of(dist, r);
        let v = st.visited.update(r as int, true);
        lemma_count_false_update(st.visited, r as int);
        lemma_rows_reached_update(st.results, st.visited, r as int);
        assert forall|i: int| 0 <= i < st.results.len() implies #[trigger] st.results[i].row
            != nb.row by {
            assert(st.visited[st.results[i].row as int]);
        }
        lemma_insert_sorted_sorted(st.candidates, nb);
        lemma_insert_keyed(st.candidates, nb, dist, allowed);
        lemma_insert_sorted(st.candidates, nb);
        if st.results.len() < cap {
            lemma_found_insert(st.results, nb, dist, allowed, v);
        } else if st.results.len() == cap && nb.distance < st.results.last().distance {
            let d = st.results.drop_last();
            lemma_found_drop_last(st.results, dist, allowed, v);
            lemma_found_insert(d, nb, dist, allowed, v);
        }
    }
}

/// An entry point keeps a search state good.
pub proof fn lemma_seed_entry(st: LayerState, dist: Seq<u32>, allowed: usize, e: usize, distinct: bool)
    requires
        layer_state_ok(st, dist, allowed, distinct),
        e < allowed,
        allowed <= dist.len(),
        distinct ==> !st.visited[e as int],
    ensures
        layer_state_ok(seed_entry(st, dist, allowed, e), dist, allowed, distinct),
        seed_entry(st, dist, allowed, e).candidates.len() == st.candidates.len() + 1,
        seed_entry(st, dist, allowed, e).results.len() == st.results.len() + 1,
{
    let nb = nb_of(dist, e);
    let v = st.visited.update(e as int, true);
    lemma_rows_reached_update(st.results, st.visited, e as int);
    if distinct {
        assert forall|i: int| 0 <= i < st.results.len() implies #[trigger] st.results[i].row
            != nb.row by {
            assert(st.visited[st.results[i].row as int]);
        }
    }
    lemma_insert_sorted_sorted(st.candidates, nb);
    lemma_insert_keyed(st.candidates, nb, dist, allowed);
    lemma_insert_sorted(st.candidates, nb);
    lemma_found_insert(st.results, nb, dist, allowed, v);
}

/// Every row satisfying `p` lists only rows satisfying `p`.
pub open spec fn closed_under(adj: Seq<Seq<usize>>, p: spec_fn(usize) -> bool) -> bool {
    forall|r: int, j: int|
        0 <= r < adj.len() && p(r as usize) && 0 <= j < adj[r].len() ==> #[trigger] p(adj[r][j])
}

/// Every row of `s` satisfies `p`.
pub open spec fn all_rows_satisfy(s: Seq<Neighbor>, p: spec_fn(usize) -> bool) -> bool {
    forall|i: int| 0 <= i < s.len() ==> #[trigger] p(s[i].row)
}

pub open spec fn state_satisfies(st: LayerState, p: spec_fn(usize) -> bool) -> bool {
    all_rows_satisfy(st.candidates, p) && all_rows_satisfy(st.results, p)
}

pub proof fn lemma_insert_satisfies(s: Seq<Neighbor>, x: Neighbor, p: spec_fn(usize) -> bool)
    requires
        all_rows_satisfy(s, p),
        p(x.row),
    ensures
        all_rows_satisfy(insert_sorted(s, x), p),
{
    lemma_insert_sorted(s, x);
    assert forall|i: int| 0 <= i < insert_sorted(s, x).len() implies #[trigger] p(insert_sorted(s, x)[i].row) by {
        if insert_sorted(s, x)[i] != x {
            let j = choose|j: int| 0 <= j < s.len() && insert_sorted(s, x)[i] == s[j];
        }
    }
}

pub proof fn lemma_visit_satisfies(
    st: LayerState,
    dist: Seq<u32>,
    allowed: usize,
    cap: usize,
    r: usize,
    p: spec_fn(usize) -> bool,
)
    requires
        state_satisfies(st, p),
        st.results.len() > 0,
        p(r),
    ensures
        state_satisfies(visit_neighbor(st, dist, allowed, cap, r), p),
        visit_neighbor(st, dist, allowed, cap, r).results.len() >= st.results.len(),
{
    lemma_insert_sorted(st.results, nb_of(dist, r));
    lemma_insert_sorted(st.results.drop_last(), nb_of(dist, r));
    let nb = nb_of(dist, r);
    lemma_insert_satisfies(st.candidates, nb, p);
    lemma_insert_satisfies(st.results, nb, p);
    if st.results.len() > 0 {
        let d = st.results.drop_last();
        assert(all_rows_satisfy(d, p)) by {
            assert forall|i: int| 0 <= i < d.len() implies #[trigger] p(d[i].row) by {
                assert(d[i] == st.results[i]);
            }
        }
        lemma_insert_satisfies(d, nb, p);
    }
}

pub proof fn lemma_visits_satisfy(
    st: LayerState,
    dist: Seq<u32>,
    allowed: usize,
    cap: usize,
    nbrs: Seq<usize>,
    p: spec_fn(usize) -> bool,
)
    requires
        state_satisfies(st, p),
        st.results.len() > 0,
        forall|j: int| 0 <= j < nbrs.len() ==> #[trigger] p(nbrs[j]),
    ensures
        state_satisfies(visit_neighbors(st, dist, allowed, cap, nbrs), p),
        visit_neighbors(st, dist, allowed, cap, nbrs).results.len() >= st.results.len(),
    decreases nbrs.len(),
{
    if nbrs.len() > 0 {
        let d = nbrs.drop_last();
        assert forall|j: int| 0 <= j < d.len() implies #[trigger] p(d[j]) by {
            assert(d[j] == nbrs[j]);
        }
        lemma_visits_satisfy(st, dist, allowed, cap, d, p);
        assert(p(nbrs[nbrs.len() - 1]));
        lemma_visit_satisfies(visit_neighbors(st, dist, allowed, cap, d), dist, allowed, cap, nbrs.last(), p);
    }
}

pub proof fn lemma_expand_satisfies(
    st: LayerState,
    dist: Seq<u32>,
    adj: Seq<Seq<usize>>,
    allowed: usize,
    cap: usize,
    fuel: nat,
    p: spec_fn(usize) -> bool,
)
    requires
        state_satisfies(st, p),
        closed_under(adj, p),
        keyed_rows(st.candidates, dist, allowed),
        allowed <= adj.len(),
        st.candidates.len() > 0 ==> st.results.len() > 0,
    ensures
        all_rows_satisfy(expand(st, dist, adj, allowed, cap, fuel), p),
    decreases fuel,
{
    if fuel > 0 && st.candidates.len() > 0 {
        let c = st.candidates[0];
        if c.distance <= st.results.last().distance {
            let rest = layer_state(st.candidates.drop_first(), st.results, st.visited);
            assert(all_rows_satisfy(rest.candidates, p)) by {
                assert forall|i: int| 0 <= i < rest.candidates.len() implies #[trigger] p(rest.candidates[i].row) by {
                    assert(rest.candidates[i] == st.candidates[i + 1]);
                }
            }
            assert(p(c.row));
            let nbrs = adj[c.row as int];
            assert forall|j: int| 0 <= j < nbrs.len() implies #[trigger] p(nbrs[j]) by {
                assert(p(adj[c.row as int][j]));
            }
            lemma_visits_satisfy(rest, dist, allowed, cap, nbrs, p);
            let nxt = visit_neighbors(rest, dist, allowed, cap, nbrs);
            lemma_visits_keyed(rest, dist, allowed, cap, nbrs);
            lemma_expand_satisfies(nxt, dist, adj, allowed, cap, (fuel - 1) as nat, p);
        }
    }
}

/// The frontier only ever holds allowed rows carrying their own key.
pub proof fn lemma_visits_keyed(
    st: LayerState,
    dist: Seq<u32>,
    allowed: usize,
    cap: usize,
    nbrs: Seq<usize>,
)
    requires
        keyed_rows(st.candidates, dist, allowed),
    ensures
        keyed_rows(visit_neighbors(st, dist, allowed, cap, nbrs).candidates, dist, allowed),
    decreases nbrs.len(),
{
    if nbrs.len() > 0 {
        lemma_visits_keyed(st, dist, allowed, cap, nbrs.drop_last());
        let pre = visit_neighbors(st, dist, allowed, cap, nbrs.drop_last());
        let r = nbrs.last();
        if !(pre.visited[r as int] || r >= allowed) {
            lemma_insert_keyed(pre.candidates, nb_of(dist, r), dist, allowed);
        }
    }
}

pub proof fn lemma_seeds_satisfy(
    st: LayerState,
    dist: Seq<u32>,
    allowed: usize,
    entries: Seq<usize>,
    p: spec_fn(usize) -> bool,
)
    requires
        state_satisfies(st, p),
        keyed_rows(st.candidates, dist, allowed),
        st.candidates.len() == st.results.len(),
        forall|j: int| 0 <= j < entries.len() && #[trigger] entries[j] < allowed ==> p(entries[j]),
    ensures
        state_satisfies(seed_entries(st, dist, allowed, entries), p),
        seed_entries(st, dist, allowed, entries).candidates.len() == seed_entries(st, dist, allowed, entries).results.len(),
        keyed_rows(seed_entries(st, dist, allowed, entries).candidates, dist, allowed),
    decreases entries.len(),
{
    if entries.len() > 0 {
        let d = entries.drop_last();
        assert forall|j: int| 0 <= j < d.len() && #[trigger] d[j] < allowed implies p(d[j]) by {
            assert(d[j] == entries[j]);
        }
        lemma_seeds_satisfy(st, dist, allowed, d, p);
        let pre = seed_entries(st, dist, allowed, d);
        let e = entries.last();
        if e < allowed {
            assert(entries[entries.len() - 1] == e);
            lemma_insert_satisfies(pre.candidates, nb_of(dist, e), p);
            lemma_insert_satisfies(pre.results, nb_of(dist, e), p);
            lemma_insert_keyed(pre.candidates, nb_of(dist, e), dist, allowed);
            lemma_insert_sorted(pre.candidates, nb_of(dist, e));
            lemma_insert_sorted(pre.results, nb_of(dist, e));
        }
    }
}

/// A layer search started from rows with property `p`, in a graph whose
/// rows with `p` only list rows with `p`, finds only rows with `p`.
pub proof fn lemma_layer_search_closed(
    dist: Seq<u32>,
    adj: Seq<Seq<usize>>,
    entries: Seq<usize>,
    ef: usize,
    allowed: usize,
    p: spec_fn(usize) -> bool,
)
    requires
        closed_under(adj, p),
        allowed <= adj.len(),
        forall|j: int| 0 <= j < entries.len() && #[trigger] entries[j] < allowed ==> p(entries[j]),
    ensures
        all_rows_satisfy(layer_search(dist, adj, entries, ef, allowed), p),
{
    let init = initial_layer_state(dist.len());
    lemma_seeds_satisfy(init, dist, allowed, entries, p);
    lemma_expand_satisfies(
        seed_entries(init, dist, allowed, entries),
        dist,
        adj,
        allowed,
        ef,
        entries.len() + dist.len() + 1,
        p,
    );
}

/// The closest result comes no later than any allowed entry point among
/// the first `upto`.
pub open spec fn first_beats(
    res: Seq<Neighbor>,
    dist: Seq<u32>,
    entries: Seq<usize>,
    upto: int,
    allowed: usize,
) -> bool {
    forall|k: int|
        0 <= k < upto && #[trigger] entries[k] < allowed ==> res.len() > 0 && nb_le(
            res[0],
            nb_of(dist, entries[k]),
        )
}

pub proof fn lemma_insert_first(s: Seq<Neighbor>, x: Neighbor)
    ensures
        insert_sorted(s, x).len() > 0,
        nb_le(insert_sorted(s, x)[0], x),
        s.len() > 0 ==> nb_le(insert_sorted(s, x)[0], s[0]),
{
    lemma_insert_pos(s, x);
    let p = insert_pos(s, x) as int;
    s.insert_ensures(p, x);
    if p > 0 {
        assert(insert_sorted(s, x)[0] == s[0]);
    }
}

/// Reaching a row never makes the closest result farther.
pub proof fn lemma_visit_first(st: LayerState, dist: Seq<u32>, allowed: usize, cap: usize, r: usize)
    requires
        st.results.len() > 0,
        sorted(st.results),
    ensures
        visit_neighbor(st, dist, allowed, cap, r).results.len() > 0,
        nb_le(visit_neighbor(st, dist, allowed, cap, r).results[0], st.results[0]),
{
    let nb = nb_of(dist, r);
    lemma_insert_first(st.results, nb);
    let d = st.results.drop_last();
    lemma_insert_first(d, nb);
    if d.len() > 0 {
        assert(d[0] == st.results[0]);
    } else {
        assert(st.results.last() == st.results[0]);
    }
}

/// Some element of `s` is row `r`.
pub open spec fn has_row(s: Seq<Neighbor>, r: usize) -> bool {
    exists|k: int| 0 <= k < s.len() && s[k].row == r
}

/// The rows of `s` include every entry point below `allowed` and, with
/// each row, every neighbour of it below `allowed`: a search that found `s`
/// reached every row it could reach.
pub open spec fn reached_all(
    s: Seq<Neighbor>,
    adj: Seq<Seq<usize>>,
    entries: Seq<usize>,
    allowed: usize,
) -> bool {
    &&& forall|j: int| 0 <= j < entries.len() && #[trigger] entries[j] < allowed ==> has_row(s, entries[j])
    &&& forall|i: int, j: int|
        0 <= i < s.len() && 0 <= j < adj[s[i].row as int].len() && #[trigger] adj[s[i].row as int][j]
            < allowed ==> has_row(s, adj[s[i].row as int][j])
}

/// While fewer than `cap` results are kept, a search state has lost
/// nothing: every reached row is a result, every frontier row is a result,
/// and every result off the frontier has had each neighbour below `allowed`
/// reached; but for row `open`, of whose neighbours only the first `done`
/// have been handled.
pub open spec fn nothing_lost(
    st: LayerState,
    adj: Seq<Seq<usize>>,
    allowed: usize,
    cap: usize,
    open: int,
    done: int,
) -> bool {
    st.results.len() < cap ==> {
        &&& forall|r: int| 0 <= r < st.visited.len() && #[trigger] st.visited[r] ==> has_row(st.results, r as usize)
        &&& forall|i: int| 0 <= i < st.candidates.len() ==> has_row(st.results, #[trigger] st.candidates[i].row)
        &&& forall|i: int, j: int|
            0 <= i < st.results.len() && !has_row(st.candidates, st.results[i].row) && st.results[i].row != open
                && 0 <= j < adj[st.results[i].row as int].len() && #[trigger] adj[st.results[i].row as int][j]
                < allowed ==> st.visited[adj[st.results[i].row as int][j] as int]
        &&& 0 <= open ==> forall|j: int|
            0 <= j < done && #[trigger] adj[open][j] < allowed ==> st.visited[adj[open][j] as int]
    }
}

pub proof fn lemma_has_row_insert(s: Seq<Neighbor>, x: Neighbor, r: usize)
    ensures
        has_row(insert_sorted(s, x), r) <==> (has_row(s, r) || x.row == r),
{
    lemma_insert_sorted(s, x);
    lemma_insert_pos(s, x);
    let p = insert_pos(s, x) as int;
    let t = insert_sorted(s, x);
    if has_row(s, r) {
        let k = choose|k: int| 0 <= k < s.len() && s[k].row == r;
        if k < p {
            assert(t[k] == s[k]);
        } else {
            assert(t[k + 1] == s[k]);
        }
    }
    if x.row == r {
        assert(t[p] == x);
    }
    if has_row(t, r) {
        let k = choose|k: int| 0 <= k < t.len() && t[k].row == r;
        if k < p {
            assert(t[k] == s[k]);
        } else if k > p {
            assert(t[k] == s[k - 1]);
        }
    }
}

/// Reaching a neighbour keeps a search state from losing anything.
pub proof fn lemma_visit_nothing_lost(
    st: LayerState,
    dist: Seq<u32>,
    adj: Seq<Seq<usize>>,
    allowed: usize,
    cap: usize,
    open: int,
    done: int,
)
    requires
        nothing_lost(st, adj, allowed, cap, open, done),
        0 <= open < adj.len(),
        0 <= done < adj[open].len(),
        adj[open][done] < dist.len(),
        st.visited.len() == dist.len(),
        allowed <= dist.len(),
    ensures
        nothing_lost(visit_neighbor(st, dist, allowed, cap, adj[open][done]), adj, allowed, cap, open, done + 1),
{
    let r = adj[open][done];
    let nx = visit_neighbor(st, dist, allowed, cap, r);
    if !(st.visited[r as int] || r >= allowed) && st.results.len() >= cap {
        lemma_insert_sorted(st.results, nb_of(dist, r));
        if st.results.len() > 0 {
            lemma_insert_sorted(st.results.drop_last(), nb_of(dist, r));
        }
        assert(nx.results.len() >= cap);
    }
    if nx.results.len() < cap {
        if st.visited[r as int] || r >= allowed {
            assert(nx == st);
        } else {
            let nb = nb_of(dist, r);
            assert(st.results.len() < cap);
            assert(nx.visited == st.visited.update(r as int, true));
            assert(nx.results == insert_sorted(st.results, nb));
            assert(nx.candidates == insert_sorted(st.candidates, nb));
            assert forall|x: int| 0 <= x < nx.visited.len() && #[trigger] nx.visited[x] implies has_row(
                nx.results,
                x as usize,
            ) by {
                lemma_has_row_insert(st.results, nb, x as usize);
            }
            assert forall|i: int| 0 <= i < nx.candidates.len() implies has_row(
                nx.results,
                #[trigger] nx.candidates[i].row,
            ) by {
                lemma_has_row_insert(st.results, nb, nx.candidates[i].row);
                lemma_has_row_insert(st.candidates, nb, nx.candidates[i].row);
                assert(has_row(nx.candidates, nx.candidates[i].row));
                if nx.candidates[i].row != r {
                    let k = choose|k: int| 0 <= k < st.candidates.len() && st.candidates[k].row
                        == nx.candidates[i].row;
                    assert(has_row(st.results, st.candidates[k].row));
                }
            }
            assert forall|i: int, j: int|
                0 <= i < nx.results.len() && !has_row(nx.candidates, nx.results[i].row) && nx.results[i].row
                    != open && 0 <= j < adj[nx.results[i].row as int].len() && #[trigger] adj[nx.results[i].row as int][j]
                    < allowed implies nx.visited[adj[nx.results[i].row as int][j] as int] by {
                let y = nx.results[i].row;
                lemma_has_row_insert(st.results, nb, y);
                lemma_has_row_insert(st.candidates, nb, y);
                assert(has_row(nx.results, y));
                assert(y != r);
                let k = choose|k: int| 0 <= k < st.results.len() && st.results[k].row == y;
                assert(!has_row(st.candidates, st.results[k].row));
                assert(adj[st.results[k].row as int][j] == adj[y as int][j]);
                assert(st.visited[adj[y as int][j] as int]);
            }
            assert forall|j: int| 0 <= j < done + 1 && #[trigger] adj[open][j] < allowed implies nx.visited[adj[open][j] as int] by {
                if j < done {
                    assert(st.visited[adj[open][j] as int]);
                }
            }
        }
    }
}

/// Taking the first frontier row off the frontier opens it.
pub proof fn lemma_pop_nothing_lost(st: LayerState, adj: Seq<Seq<usize>>, allowed: usize, cap: usize)
    requires
        nothing_lost(st, adj, allowed, cap, -1, 0),
        st.candidates.len() > 0,
    ensures
        nothing_lost(
            layer_state(st.candidates.drop_first(), st.results, st.visited),
            adj,
            allowed,
            cap,
            st.candidates[0].row as int,
            0,
        ),
{
    let c = st.candidates[0];
    let rest = layer_state(st.candidates.drop_first(), st.results, st.visited);
    if st.results.len() < cap {
        assert forall|i: int| 0 <= i < rest.candidates.len() implies has_row(
            rest.results,
            #[trigger] rest.candidates[i].row,
        ) by {
            assert(rest.candidates[i] == st.candidates[i + 1]);
        }
        assert forall|i: int, j: int|
            0 <= i < rest.results.len() && !has_row(rest.candidates, rest.results[i].row) && rest.results[i].row
                != c.row && 0 <= j < adj[rest.results[i].row as int].len() && #[trigger] adj[rest.results[i].row as int][j]
                < allowed implies rest.visited[adj[rest.results[i].row as int][j] as int] by {
            let y = rest.results[i].row;
            if has_row(st.candidates, y) {
                let k = choose|k: int| 0 <= k < st.candidates.len() && st.candidates[k].row == y;
                assert(k != 0);
                assert(rest.candidates[k - 1] == st.candidates[k]);
            }
        }
    }
}

/// Once every neighbour of the open row has been handled, no row is open.
pub proof fn lemma_close_nothing_lost(st: LayerState, adj: Seq<Seq<usize>>, allowed: usize, cap: usize, open: int)
    requires
        0 <= open < adj.len(),
        nothing_lost(st, adj, allowed, cap, open, adj[open].len() as int),
    ensures
        nothing_lost(st, adj, allowed, cap, -1, 0),
{
}

/// A search state that lost nothing, whose frontier is empty and which has
/// reached every entry point, has found every row it could.
pub proof fn lemma_nothing_lost_done(
    st: LayerState,
    adj: Seq<Seq<usize>>,
    entries: Seq<usize>,
    allowed: usize,
    cap: usize,
)
    requires
        nothing_lost(st, adj, allowed, cap, -1, 0),
        st.candidates.len() == 0,
        st.results.len() < cap,
        allowed <= st.visited.len(),
        forall|j: int| 0 <= j < entries.len() && #[trigger] entries[j] < allowed ==> st.visited[entries[j] as int],
    ensures
        reached_all(st.results, adj, entries, allowed),
{
    assert forall|j: int| 0 <= j < entries.len() && #[trigger] entries[j] < allowed implies has_row(st.results, entries[j]) by {
        assert(st.visited[entries[j] as int]);
    }
    assert forall|i: int, j: int|
        0 <= i < st.results.len() && 0 <= j < adj[st.results[i].row as int].len() && #[trigger] adj[st.results[i].row as int][j]
            < allowed implies has_row(st.results, adj[st.results[i].row as int][j]) by {
        let y = adj[st.results[i].row as int][j];
        assert(st.visited[y as int]);
    }
}

/// Every frontier row lies below `bound`.
pub open spec fn frontier_below(st: LayerState, bound: usize) -> bool {
    forall|i: int| 0 <= i < st.candidates.len() ==> #[trigger] st.candidates[i].row < bound
}

/// Seeding the search with a limit above the dataset's rows is seeding it
/// with the dataset's size as the limit, when every entry point below the
/// limit is a row.
pub proof fn lemma_seed_bound(
    st: LayerState,
    dist: Seq<u32>,
    allowed: usize,
    bound: usize,
    entries: Seq<usize>,
)
    requires
        bound == if allowed < dist.len() { allowed } else { dist.len() as usize },
        forall|j: int| 0 <= j < entries.len() && #[trigger] entries[j] < allowed ==> entries[j] < dist.len(),
        frontier_below(st, bound),
    ensures
        seed_entries(st, dist, allowed, entries) == seed_entries(st, dist, bound, entries),
        frontier_below(seed_entries(st, dist, bound, entries), bound),
    decreases entries.len(),
{
    if entries.len() > 0 {
        let d = entries.drop_last();
        assert forall|j: int| 0 <= j < d.len() && #[trigger] d[j] < allowed implies d[j] < dist.len() by {
            assert(d[j] == entries[j]);
        }
        lemma_seed_bound(st, dist, allowed, bound, d);
        let e = entries.last();
        assert(entries[entries.len() - 1] == e);
        let s1 = seed_entries(st, dist, bound, d);
        if e < bound {
            let nb = nb_of(dist, e);
            lemma_insert_sorted(s1.candidates, nb);
        }
    }
}

/// Reaching a row of the dataset goes the same way under either limit.
pub proof fn lemma_visits_bound(
    st: LayerState,
    dist: Seq<u32>,
    allowed: usize,
    bound: usize,
    cap: usize,
    nbrs: Seq<usize>,
)
    requires
        bound == if allowed < dist.len() { allowed } else { dist.len() as usize },
        forall|j: int| 0 <= j < nbrs.len() ==> #[trigger] nbrs[j] < dist.len(),
        frontier_below(st, bound),
    ensures
        visit_neighbors(st, dist, allowed, cap, nbrs) == visit_neighbors(st, dist, bound, cap, nbrs),
        frontier_below(visit_neighbors(st, dist, bound, cap, nbrs), bound),
    decreases nbrs.len(),
{
    if nbrs.len() > 0 {
        let d = nbrs.drop_last();
        assert forall|j: int| 0 <= j < d.len() implies #[trigger] d[j] < dist.len() by {
            assert(d[j] == nbrs[j]);
        }
        lemma_visits_bound(st, dist, allowed, bound, cap, d);
        let r = nbrs.last();
        assert(nbrs[nbrs.len() - 1] == r);
        lemma_visit_bound(visit_neighbors(st, dist, bound, cap, d), dist, allowed, bound, cap, r);
    }
}

pub proof fn lemma_visit_bound(st: LayerState, dist: Seq<u32>, allowed: usize, bound: usize, cap: usize, r: usize)
    requires
        bound == if allowed < dist.len() { allowed } else { dist.len() as usize },
        r < dist.len(),
        frontier_below(st, bound),
    ensures
        visit_neighbor(st, dist, allowed, cap, r) == visit_neighbor(st, dist, bound, cap, r),
        frontier_below(visit_neighbor(st, dist, bound, cap, r), bound),
{
    assert((r >= allowed) == (r >= bound));
    if !(st.visited[r as int] || r >= bound) {
        let nb = nb_of(dist, r);
        lemma_insert_sorted(st.candidates, nb);
        let c2 = insert_sorted(st.candidates, nb);
        assert forall|i: int| 0 <= i < c2.len() implies #[trigger] c2[i].row < bound by {
            if c2[i] != nb {
                let j = choose|j: int| 0 <= j < st.candidates.len() && c2[i] == st.candidates[j];
            }
        }
    }
}

/// Expanding the frontier goes the same way under either limit, when every
/// neighbour listed for a row below the dataset's size is a row.
pub proof fn lemma_expand_bound(
    st: LayerState,
    dist: Seq<u32>,
    adj: Seq<Seq<usize>>,
    allowed: usize,
    bound: usize,
    cap: usize,
    fuel: nat,
)
    requires
        bound == if allowed < dist.len() { allowed } else { dist.len() as usize },
        edges_within(adj, bound, dist.len()),
        frontier_below(st, bound),
    ensures
        expand(st, dist, adj, allowed, cap, fuel) == expand(st, dist, adj, bound, cap, fuel),
    decreases fuel,
{
    if fuel > 0 && st.candidates.len() > 0 {
        let c = st.candidates[0];
        if !(c.distance > st.results.last().distance) {
            let rest = layer_state(st.candidates.drop_first(), st.results, st.visited);
            assert(frontier_below(rest, bound)) by {
                assert forall|i: int| 0 <= i < rest.candidates.len() implies #[trigger] rest.candidates[i].row < bound by {
                    assert(rest.candidates[i] == st.candidates[i + 1]);
                }
            }
            let nbrs = adj[c.row as int];
            assert forall|j: int| 0 <= j < nbrs.len() implies #[trigger] nbrs[j] < dist.len() by {
                assert(adj[c.row as int][j] < dist.len());
            }
            lemma_visits_bound(rest, dist, allowed, bound, cap, nbrs);
            lemma_expand_bound(visit_neighbors(rest, dist, bound, cap, nbrs), dist, adj, allowed, bound, cap, (fuel - 1) as nat);
        }
    }
}

/// A layer search with a limit above the dataset's rows is the search with
/// the dataset's size as the limit.
pub proof fn lemma_layer_search_bound(
    dist: Seq<u32>,
    adj: Seq<Seq<usize>>,
    entries: Seq<usize>,
    ef: usize,
    allowed: usize,
    bound: usize,
)
    requires
        bound == if allowed < dist.len() { allowed } else { dist.len() as usize },
        edges_within(adj, bound, dist.len()),
        forall|j: int| 0 <= j < entries.len() && #[trigger] entries[j] < allowed ==> entries[j] < dist.len(),
    ensures
        layer_search(dist, adj, entries, ef, allowed) == layer_search(dist, adj, entries, ef, bound),
{
    let init = initial_layer_state(dist.len());
    lemma_seed_bound(init, dist, allowed, bound, entries);
    lemma_expand_bound(
        seed_entries(init, dist, bound, entries),
        dist,
        adj,
        allowed,
        bound,
        ef,
        entries.len() + dist.len() + 1,
    );
}

/// Best-first search of one graph layer.
///
/// `dist[r]` is the distance key of row `r` to the query; `adjacency[r]`
/// lists the neighbours of row `r`.  The search starts from `entry_points`,
/// keeps at most `ef` results (entry points themselves are always kept), and
/// ignores every row at or above `allowed_rows`.  The result lists the rows
/// found, closest first.
pub fn search_layer(
    dist: &Vec<u32>,
    adjacency: &Vec<Vec<usize>>,
    entry_points: &Vec<usize>,
    ef: usize,
    allowed_rows: usize,
) -> (result: Vec<Neighbor>)
    requires
        forall|j: int|
            0 <= j < entry_points.len() && #[trigger] entry_points[j] < allowed_rows ==> entry_points[j]
                < dist.len(),
        (if allowed_rows < dist.len() { allowed_rows } else { dist.len() }) <= adjacency.len(),
        edges_within(
            lists_view(adjacency@),
            if allowed_rows < dist.len() { allowed_rows } else { dist.len() },
            dist.len() as nat,
        ),
    ensures
        result@ == layer_search(dist@, lists_view(adjacency@), entry_points@, ef, allowed_rows),
        sorted(result@),
        keyed_rows(result@, dist@, allowed_rows),
        result.len() <= ef || result.len() <= entry_points.len(),
        entry_points@.no_duplicates() ==> rows_distinct(result@),
        (exists|j: int| 0 <= j < entry_points.len() && #[trigger] entry_points[j] < allowed_rows)
            ==> result.len() > 0,
        first_beats(result@, dist@, entry_points@, entry_points.len() as int, allowed_rows),
        result.len() < ef ==> reached_all(result@, lists_view(adjacency@), entry_points@, allowed_rows),
{
    let bound = if allowed_rows < dist.len() {
        allowed_rows
    } else {
        dist.len()
    };
    let ghost adj = lists_view(adjacency@);
    proof {
        lemma_layer_search_bound(dist@, adj, entry_points@, ef, allowed_rows, bound);
    }
    let result = search_below(dist, adjacency, entry_points, ef, bound);
    proof {
        assert forall|i: int| 0 <= i < result@.len() implies #[trigger] result@[i].row < allowed_rows
            && result@[i].distance == dist@[result@[i].row as int] by {}
        if exists|j: int| 0 <= j < entry_points.len() && #[trigger] entry_points[j] < allowed_rows {
            let j = choose|j: int| 0 <= j < entry_points.len() && #[trigger] entry_points[j] < allowed_rows;
            assert(entry_points[j] < bound);
        }
        assert forall|k: int|
            0 <= k < entry_points.len() && #[trigger] entry_points@[k] < allowed_rows implies result@.len() > 0
                && nb_le(result@[0], nb_of(dist@, entry_points@[k])) by {
            assert(entry_points@[k] < bound);
        }
        if result.len() < ef {
            let s = result@;
            assert forall|j: int| 0 <= j < entry_points@.len() && #[trigger] entry_points@[j] < allowed_rows implies has_row(
                s,
                entry_points@[j],
            ) by {
                assert(entry_points@[j] < bound);
            }
            assert forall|i: int, j: int|
                0 <= i < s.len() && 0 <= j < adj[s[i].row as int].len() && #[trigger] adj[s[i].row as int][j]
                    < allowed_rows implies has_row(s, adj[s[i].row as int][j]) by {
                assert(adj[s[i].row as int][j] < dist.len());
            }
        }
    }
    result
}

/// Best-first search of one graph layer, among rows below `allowed_rows`,
/// a limit within the dataset and the graph.
fn search_below(
    dist: &Vec<u32>,
    adjacency: &Vec<Vec<usize>>,
    entry_points: &Vec<usize>,
    ef: usize,
    allowed_rows: usize,
) -> (result: Vec<Neighbor>)
    requires
        allowed_rows <= dist.len(),
        allowed_rows <= adjacency.len(),
        edges_within(lists_view(adjacency@), allowed_rows, dist.len() as nat),
    ensures
        result@ == layer_search(dist@, lists_view(adjacency@), entry_points@, ef, allowed_rows),
        sorted(result@),
        keyed_rows(result@, dist@, allowed_rows),
        result.len() <= ef || result.len() <= entry_points.len(),
        entry_points@.no_duplicates() ==> rows_distinct(result@),
        (exists|j: int| 0 <= j < entry_points.len() && #[trigger] entry_points[j] < allowed_rows)
            ==> result.len() > 0,
        first_beats(result@, dist@, entry_points@, entry_points.len() as int, allowed_rows),
        result.len() < ef ==> reached_all(result@, lists_view(adjacency@), entry_points@, allowed_rows),
{
    let ghost adj = lists_view(adjacency@);
    let ghost distinct = entry_points@.no_duplicates();
    let n = dist.len();
    let mut visited: Vec<bool> = Vec::new();
    while visited.len() < n
        invariant
            visited.len() <= n,
            n == dist.len(),
            visited@ =~= Seq::new(visited.len() as nat, |i: int| false),
        decreases n - visited.len(),
    {
        visited.push(false);
    }
    let mut candidates: Vec<Neighbor> = Vec::new();
    let mut results: Vec<Neighbor> = Vec::new();
    let ghost init = layer_state(candidates@, results@, visited@);
    assert(init == initial_layer_state(dist@.len()));
    proof {
        lemma_count_false_le(visited@);
    }
    let mut j: usize = 0;
    while j < entry_points.len()
        invariant
            j <= entry_points.len(),
            n == dist.len(),
            allowed_rows <= n,
            layer_state(candidates@, results@, visited@) == seed_entries(
                init,
                dist@,
                allowed_rows,
                entry_points@.take(j as int),
            ),
            layer_state_ok(layer_state(candidates@, results@, visited@), dist@, allowed_rows, distinct),
            distinct == entry_points@.no_duplicates(),
            forall|r: int|
                0 <= r < n && #[trigger] visited@[r] ==> exists|k: int|
                    0 <= k < j && entry_points@[k] == r,
            count_false(visited@) <= n,
            candidates.len() <= j,
            results.len() <= j,
            candidates.len() == results.len(),
            (exists|k: int| 0 <= k < j && #[trigger] entry_points@[k] < allowed_rows) ==> results.len() > 0,
            first_beats(results@, dist@, entry_points@, j as int, allowed_rows),
            candidates@ == results@,
            forall|r: int| 0 <= r < n && #[trigger] visited@[r] ==> has_row(results@, r as usize),
            forall|k: int| 0 <= k < j && #[trigger] entry_points@[k] < allowed_rows ==> visited@[entry_points@[k] as int],
        decreases entry_points.len() - j,
    {
        let e = entry_points[j];
        let ghost before = layer_state(candidates@, results@, visited@);
        proof {
            assert(entry_points@.take(j + 1).drop_last() =~= entry_points@.take(j as int));
        }
        if e < allowed_rows {
            let nb = Neighbor { row: e, distance: dist[e] };
            proof {
                if distinct && visited@[e as int] {
                    let k = choose|k: int| 0 <= k < j && entry_points@[k] == e;
                    assert(entry_points@[k] == entry_points@[j as int]);
                }
                lemma_seed_entry(before, dist@, allowed_rows, e, distinct);
                lemma_insert_first(results@, nb);
            }
            sorted_insert(&mut candidates, nb);
            sorted_insert(&mut results, nb);
            let ghost old_visited = visited@;
            visited.set(e, true);
            proof {
                assert forall|r: int| 0 <= r < n && #[trigger] visited@[r] implies exists|k: int|
                    0 <= k < j + 1 && entry_points@[k] == r by {
                    if r != e {
                        assert(old_visited[r]);
                    } else {
                        assert(entry_points@[j as int] == r);
                    }
                }
                lemma_count_false_le(visited@);
                assert forall|r: int| 0 <= r < n && #[trigger] visited@[r] implies has_row(results@, r as usize) by {
                    lemma_has_row_insert(before.results, nb, r as usize);
                    if r != e {
                        assert(old_visited[r]);
                    }
                }
                assert forall|k: int| 0 <= k < j + 1 && #[trigger] entry_points@[k] < allowed_rows implies visited@[entry_points@[k] as int] by {
                    if k < j {
                        assert(old_visited[entry_points@[k] as int]);
                    }
                }
            }
        } else {
            proof {
                assert forall|r: int| 0 <= r < n && #[trigger] visited@[r] implies exists|k: int|
                    0 <= k < j + 1 && entry_points@[k] == r by {
                    let k = choose|k: int| 0 <= k < j && entry_points@[k] == r;
                }
                assert forall|k: int| 0 <= k < j + 1 && #[trigger] entry_points@[k] < allowed_rows implies visited@[entry_points@[k] as int] by {
                    if k == j {
                        assert(entry_points@[k] == e);
                    }
                }
            }
        }
        j = j + 1;
    }
    proof {
        assert(entry_points@.take(entry_points.len() as int) =~= entry_points@);
        lemma_count_false_le(visited@);
        let st = layer_state(candidates@, results@, visited@);
        assert forall|i: int| 0 <= i < st.candidates.len() implies has_row(st.results, #[trigger] st.candidates[i].row) by {
            assert(st.results[i] == st.candidates[i]);
        }
        assert forall|i: int| 0 <= i < st.results.len() implies has_row(st.candidates, #[trigger] st.results[i].row) by {
            assert(st.results[i] == st.candidates[i]);
        }
        assert(nothing_lost(st, adj, allowed_rows, ef, -1, 0));
    }
    let ghost mut fuel: nat = (entry_points.len() + n + 1) as nat;
    loop
        invariant
            n == dist.len(),
            allowed_rows <= n,
            allowed_rows <= adjacency.len(),
            adj == lists_view(adjacency@),
            edges_within(adj, allowed_rows, n as nat),
            layer_search(dist@, adj, entry_points@, ef, allowed_rows) == expand(
                layer_state(candidates@, results@, visited@),
                dist@,
                adj,
                allowed_rows,
                ef,
                fuel,
            ),
            layer_state_ok(layer_state(candidates@, results@, visited@), dist@, allowed_rows, distinct),
            distinct == entry_points@.no_duplicates(),
            count_false(visited@) + candidates.len() < fuel,
            candidates.len() > 0 ==> results.len() > 0,
            results.len() <= ef || results.len() <= entry_points.len(),
            (exists|k: int| 0 <= k < entry_points.len() && #[trigger] entry_points@[k] < allowed_rows)
                ==> results.len() > 0,
            first_beats(results@, dist@, entry_points@, entry_points.len() as int, allowed_rows),
            nothing_lost(layer_state(candidates@, results@, visited@), adj, allowed_rows, ef, -1, 0),
            forall|k: int| 0 <= k < entry_points.len() && #[trigger] entry_points@[k] < allowed_rows ==> visited@[entry_points@[k] as int],
        ensures
            results.len() < ef ==> reached_all(results@, adj, entry_points@, allowed_rows),
            layer_search(dist@, adj, entry_points@, ef, allowed_rows) == results@,
            layer_state_ok(layer_state(candidates@, results@, visited@), dist@, allowed_rows, distinct),
            results.len() <= ef || results.len() <= entry_points.len(),
            (exists|k: int| 0 <= k < entry_points.len() && #[trigger] entry_points@[k] < allowed_rows)
                ==> results.len() > 0,
            first_beats(results@, dist@, entry_points@, entry_points.len() as int, allowed_rows),
        decreases count_false(visited@) + candidates.len(),
    {
        if candidates.len() == 0 {
            proof {
                if results.len() < ef {
                    lemma_nothing_lost_done(layer_state(candidates@, results@, visited@), adj, entry_points@, allowed_rows, ef);
                }
            }
            break;
        }
        let c = candidates[0];
        let worst = results[results.len() - 1].distance;
        if c.distance > worst {
            proof {
                if results.len() < ef {
                    assert(has_row(results@, candidates@[0].row));
                    let k = choose|k: int| 0 <= k < results@.len() && results@[k].row == c.row;
                    if k < results.len() - 1 {
                        assert(nb_le(results@[k], results@[results.len() - 1]));
                    }
                }
            }
            break;
        }
        let ghost st0 = layer_state(candidates@, results@, visited@);
        proof {
            lemma_sorted_drop_first(candidates@);
            assert forall|i: int| 0 <= i < candidates@.drop_first().len() implies #[trigger] candidates@.drop_first()[i].row < allowed_rows
                && candidates@.drop_first()[i].distance == dist@[candidates@.drop_first()[i].row as int] by {
                assert(candidates@.drop_first()[i] == candidates@[i + 1]);
            }
        }
        candidates.remove(0);
        let ghost rest = layer_state(candidates@, results@, visited@);
        assert(candidates@ =~= st0.candidates.drop_first());
        proof {
            lemma_pop_nothing_lost(st0, adj, allowed_rows, ef);
        }
        let nbrs = &adjacency[c.row];
        assert(nbrs@ == adj[c.row as int]);
        let mut t: usize = 0;
        while t < nbrs.len()
            invariant
                t <= nbrs.len(),
                n == dist.len(),
                allowed_rows <= n,
                c.row < allowed_rows,
                allowed_rows <= adjacency.len(),
                adj == lists_view(adjacency@),
                nbrs@ == adj[c.row as int],
                edges_within(adj, allowed_rows, n as nat),
                layer_state(candidates@, results@, visited@) == visit_neighbors(
                    rest,
                    dist@,
                    allowed_rows,
                    ef,
                    nbrs@.take(t as int),
                ),
                layer_state_ok(layer_state(candidates@, results@, visited@), dist@, allowed_rows, distinct),
                count_false(visited@) + candidates.len() <= count_false(rest.visited)
                    + rest.candidates.len(),
                results.len() > 0,
                results.len() <= ef || results.len() <= entry_points.len(),
                results.len() >= rest.results.len(),
                first_beats(results@, dist@, entry_points@, entry_points.len() as int, allowed_rows),
                nothing_lost(layer_state(candidates@, results@, visited@), adj, allowed_rows, ef, c.row as int, t as int),
                forall|k: int| 0 <= k < entry_points.len() && #[trigger] entry_points@[k] < allowed_rows ==> visited@[entry_points@[k] as int],
            decreases nbrs.len() - t,
        {
            let r = nbrs[t];
            let ghost st = layer_state(candidates@, results@, visited@);
            proof {
                assert(nbrs@.take(t + 1).drop_last() =~= nbrs@.take(t as int));
                assert(adj[c.row as int][t as int] < n);
                lemma_visit_neighbor(st, dist@, allowed_rows, ef, r, distinct);
                lemma_visit_first(st, dist@, allowed_rows, ef, r);
                lemma_visit_nothing_lost(st, dist@, adj, allowed_rows, ef, c.row as int, t as int);
            }
            if visited[r] || r >= allowed_rows {
            } else {
                visited.set(r, true);
                let nb = Neighbor { row: r, distance: dist[r] };
                if results.len() < ef {
                    sorted_insert(&mut candidates, nb);
                    sorted_insert(&mut results, nb);
                } else if results.len() == ef {
                    let last = results[results.len() - 1].distance;
                    if nb.distance < last {
                        sorted_insert(&mut candidates, nb);
                        results.pop();
                        assert(results@ =~= st.results.drop_last());
                        sorted_insert(&mut results, nb);
                    } else if nb.distance == last {
                        sorted_insert(&mut candidates, nb);
                    }
                }
                assert(layer_state(candidates@, results@, visited@) == visit_neighbor(
                    st,
                    dist@,
                    allowed_rows,
                    ef,
                    r,
                ));
            }
            t = t + 1;
        }
        proof {
            assert(nbrs@.take(nbrs.len() as int) =~= nbrs@);
            fuel = (fuel - 1) as nat;
            lemma_close_nothing_lost(layer_state(candidates@, results@, visited@), adj, allowed_rows, ef, c.row as int);
        }
    }
    results
}


/// The neighbour among `nbrs` below `allowed` that comes first in the order;
/// of equal ones the earliest in `nbrs`.
pub open spec fn best_of(dist: Seq<u32>, nbrs: Seq<usize>, allowed: usize) -> Option<Neighbor>
    decreases nbrs.len(),
{
    if nbrs.len() == 0 {
        None
    } else {
        let m = best_of(dist, nbrs.drop_last(), allowed);
        let x = nbrs.last();
        if x >= allowed {
            m
        } else {
            match m {
                None => Some(nb_of(dist, x)),
                Some(a) => if nb_lt(nb_of(dist, x), a) {
                    Some(nb_of(dist, x))
                } else {
                    Some(a)
                },
            }
        }
    }
}

pub proof fn lemma_best_of(dist: Seq<u32>, nbrs: Seq<usize>, allowed: usize)
    ensures
        best_of(dist, nbrs, allowed) is None ==> forall|j: int|
            0 <= j < nbrs.len() ==> #[trigger] nbrs[j] >= allowed,
        best_of(dist, nbrs, allowed) matches Some(b) ==> {
            &&& b.row < allowed
            &&& nbrs.contains(b.row)
            &&& b == nb_of(dist, b.row)
            &&& forall|j: int|
                0 <= j < nbrs.len() && #[trigger] nbrs[j] < allowed ==> nb_le(b, nb_of(dist, nbrs[j]))
        },
    decreases nbrs.len(),
{
    if nbrs.len() > 0 {
        let d = nbrs.drop_last();
        lemma_best_of(dist, d, allowed);
        let last = nbrs.len() - 1;
        if best_of(dist, nbrs, allowed) is None {
            assert forall|j: int| 0 <= j < nbrs.len() implies #[trigger] nbrs[j] >= allowed by {
                if j < last {
                    assert(nbrs[j] == d[j]);
                }
            }
        }
        if best_of(dist, nbrs, allowed) is Some {
            let b = best_of(dist, nbrs, allowed)->0;
            if best_of(dist, d, allowed) is Some && b == best_of(dist, d, allowed)->0 {
                let j = choose|j: int| 0 <= j < d.len() && d[j] == b.row;
                assert(nbrs[j] == b.row);
            } else {
                assert(nbrs[last] == b.row);
            }
            assert forall|j: int| 0 <= j < nbrs.len() && #[trigger] nbrs[j] < allowed implies nb_le(
                b,
                nb_of(dist, nbrs[j]),
            ) by {
                if j < last {
                    assert(nbrs[j] == d[j]);
                }
            }
        }
    }
}

/// Moves from `cur` to its best neighbour for as long as that neighbour comes
/// strictly before it; gives the row where it stops.  `fuel` only bounds the
/// recursion: `greedy_descent` supplies more than a walk can use.
pub open spec fn greedy_walk(
    dist: Seq<u32>,
    adj: Seq<Seq<usize>>,
    allowed: usize,
    cur: Neighbor,
    fuel: nat,
) -> usize
    decreases fuel,
{
    if fuel == 0 {
        cur.row
    } else {
        match best_of(dist, adj[cur.row as int], allowed) {
            Some(nx) => if nb_lt(nx, cur) {
                greedy_walk(dist, adj, allowed, nx, (fuel - 1) as nat)
            } else {
                cur.row
            },
            None => cur.row,
        }
    }
}

/// The row a greedy walk from `entry` ends at.
pub open spec fn greedy_descent(
    dist: Seq<u32>,
    adj: Seq<Seq<usize>>,
    entry: usize,
    allowed: usize,
) -> usize {
    greedy_walk(dist, adj, allowed, nb_of(dist, entry), dist.len() + 1)
}

/// The rows of the dataset that come strictly before `cur`.
pub open spec fn rows_before(dist: Seq<u32>, cur: Neighbor) -> Set<int> {
    Set::new(|r: int| 0 <= r < dist.len() && nb_lt(nb_of(dist, r as usize), cur))
}

pub proof fn lemma_rows_before(dist: Seq<u32>, cur: Neighbor, nx: Neighbor)
    requires
        nx.row < dist.len(),
        nx == nb_of(dist, nx.row),
        nb_lt(nx, cur),
    ensures
        rows_before(dist, nx).finite(),
        rows_before(dist, cur).finite(),
        rows_before(dist, cur).len() <= dist.len(),
        rows_before(dist, nx).len() < rows_before(dist, cur).len(),
{
    lemma_int_range(0, dist.len() as int);
    let all = set_int_range(0, dist.len() as int);
    lemma_len_subset(rows_before(dist, cur), all);
    let smaller = rows_before(dist, cur).remove(nx.row as int);
    lemma_len_subset(smaller, all);
    lemma_len_subset(rows_before(dist, nx), smaller);
}

pub proof fn lemma_rows_before_bound(dist: Seq<u32>, cur: Neighbor)
    ensures
        rows_before(dist, cur).finite(),
        rows_before(dist, cur).len() <= dist.len(),
{
    lemma_int_range(0, dist.len() as int);
    lemma_len_subset(rows_before(dist, cur), set_int_range(0, dist.len() as int));
}

/// The neighbour of `row` below `allowed` that comes first in the order.
fn best_neighbor(dist: &Vec<u32>, nbrs: &Vec<usize>, allowed: usize) -> (best: Option<Neighbor>)
    requires
        forall|j: int| 0 <= j < nbrs.len() ==> #[trigger] nbrs[j] < dist.len(),
    ensures
        best == best_of(dist@, nbrs@, allowed),
{
    let mut best: Option<Neighbor> = None;
    let mut i: usize = 0;
    while i < nbrs.len()
        invariant
            i <= nbrs.len(),
            forall|j: int| 0 <= j < nbrs.len() ==> #[trigger] nbrs[j] < dist.len(),
            best == best_of(dist@, nbrs@.take(i as int), allowed),
        decreases nbrs.len() - i,
    {
        let x = nbrs[i];
        proof {
            assert(nbrs@.take(i + 1).drop_last() =~= nbrs@.take(i as int));
        }
        if x < allowed {
            let cand = Neighbor { row: x, distance: dist[x] };
            match best {
                None => {
                    best = Some(cand);
                },
                Some(b) => {
                    if neighbor_lt(&cand, &b) {
                        best = Some(cand);
                    }
                },
            }
        }
        i = i + 1;
    }
    assert(nbrs@.take(nbrs.len() as int) =~= nbrs@);
    best
}

/// Greedy descent through one graph layer.
///
/// Starting at `entry`, moves to the closest neighbour below `allowed_rows`
/// for as long as that neighbour is strictly closer to the query (ties
/// broken by row id), and gives the row where it stops.  `dist[r]` is the
/// distance key of row `r` to the query.
pub fn greedy_search(
    dist: &Vec<u32>,
    adjacency: &Vec<Vec<usize>>,
    entry: usize,
    allowed_rows: usize,
) -> (row: usize)
    requires
        entry < dist.len(),
        entry < adjacency.len(),
        edges_within(lists_view(adjacency@), adjacency.len(), adjacency.len() as nat),
        edges_within(lists_view(adjacency@), adjacency.len(), dist.len() as nat),
    ensures
        row == greedy_descent(dist@, lists_view(adjacency@), entry, allowed_rows),
        row == entry || row < allowed_rows,
        nb_le(nb_of(dist@, row), nb_of(dist@, entry)),
        forall|j: int|
            0 <= j < adjacency[row as int].len() && #[trigger] adjacency[row as int][j] < allowed_rows
                ==> !nb_lt(nb_of(dist@, adjacency[row as int][j]), nb_of(dist@, row)),
{
    let ghost adj = lists_view(adjacency@);
    let mut current = Neighbor { row: entry, distance: dist[entry] };
    let ghost mut fuel: nat = (dist.len() + 1) as nat;
    proof {
        lemma_rows_before_bound(dist@, current);
    }
    loop
        invariant
            adj == lists_view(adjacency@),
            edges_within(adj, adjacency.len(), adjacency.len() as nat),
            edges_within(adj, adjacency.len(), dist.len() as nat),
            entry < dist.len(),
            entry < adjacency.len(),
            current.row < adjacency.len(),
            current.row == entry || current.row < allowed_rows,
            current == nb_of(dist@, current.row),
            nb_le(current, nb_of(dist@, entry)),
            greedy_descent(dist@, adj, entry, allowed_rows) == greedy_walk(
                dist@,
                adj,
                allowed_rows,
                current,
                fuel,
            ),
            rows_before(dist@, current).finite(),
            rows_before(dist@, current).len() < fuel,
        decreases rows_before(dist@, current).len(),
    {
        let nbrs = &adjacency[current.row];
        assert(nbrs@ == adj[current.row as int]);
        assert(forall|j: int| 0 <= j < nbrs.len() ==> #[trigger] nbrs[j] == adj[current.row as int][j]);
        let next = best_neighbor(dist, nbrs, allowed_rows);
        proof {
            lemma_best_of(dist@, nbrs@, allowed_rows);
        }
        match next {
            Some(nx) => {
                if neighbor_lt(&nx, &current) {
                    proof {
                        lemma_rows_before(dist@, current, nx);
                        fuel = (fuel - 1) as nat;
                    }
                    current = nx;
                } else {
                    return current.row;
                }
            },
            None => {
                return current.row;
            },
        }
    }
}

/// A greedy walk from a row with property `p`, in a graph whose rows with
/// `p` only list rows with `p`, ends at a row with `p`.
pub proof fn lemma_greedy_closed(
    dist: Seq<u32>,
    adj: Seq<Seq<usize>>,
    allowed: usize,
    cur: Neighbor,
    fuel: nat,
    p: spec_fn(usize) -> bool,
)
    requires
        closed_under(adj, p),
        edges_within(adj, adj.len() as usize, adj.len()),
        adj.len() <= usize::MAX,
        p(cur.row),
        cur.row < adj.len(),
    ensures
        p(greedy_walk(dist, adj, allowed, cur, fuel)),
    decreases fuel,
{
    if fuel > 0 {
        let nbrs = adj[cur.row as int];
        lemma_best_of(dist, nbrs, allowed);
        if let Some(nx) = best_of(dist, nbrs, allowed) {
            if nb_lt(nx, cur) {
                let j = choose|j: int| 0 <= j < nbrs.len() && nbrs[j] == nx.row;
                assert(p(adj[cur.row as int][j]));
                assert(adj[cur.row as int][j] < adj.len());
                lemma_greedy_closed(dist, adj, allowed, nx, (fuel - 1) as nat, p);
            }
        }
    }
}

/// Key order of rows by their distance to a fixed row.
pub open spec fn key_sorted(dist: Seq<u32>, s: Seq<usize>) -> bool {
    forall|i: int, j: int|
        0 <= i < j < s.len() ==> nb_lt(nb_of(dist, #[trigger] s[i]), nb_of(dist, #[trigger] s[j]))
}

/// The rows of `rows`, each once, closest first.
pub open spec fn ranked(dist: Seq<u32>, rows: Set<usize>) -> Seq<usize> {
    choose|s: Seq<usize>| s.to_set() == rows && key_sorted(dist, s)
}

/// The at most `max` closest distinct rows of `rows`, closest first.
pub open spec fn pruned(dist: Seq<u32>, rows: Seq<usize>, max: usize) -> Seq<usize> {
    let r = ranked(dist, rows.to_set());
    if max < r.len() {
        r.take(max as int)
    } else {
        r
    }
}

/// The `k` rows closest to the query, closest first and ties by row, each
/// with its key: what a search of every row would give.
pub open spec fn exact_nearest(dist: Seq<u32>, k: usize) -> Seq<Neighbor> {
    pruned(dist, Seq::new(dist.len(), |i: int| i as usize), k).map_values(|r: usize| nb_of(dist, r))
}

/// Distinct rows below `n` number at most `n`; when there are `n` of them,
/// every row below `n` is among them.
pub proof fn lemma_distinct_rows_fill(s: Seq<Neighbor>, n: nat)
    requires
        rows_distinct(s),
        forall|i: int| 0 <= i < s.len() ==> #[trigger] s[i].row < n,
    ensures
        s.len() <= n,
        s.len() == n ==> forall|u: usize| u < n ==> #[trigger] has_row(s, u),
{
    broadcast use vstd::seq_lib::seq_to_set_is_finite;
    let r = s.map_values(|x: Neighbor| x.row as int);
    assert(r.no_duplicates()) by {
        assert forall|i: int, j: int| 0 <= i < r.len() && 0 <= j < r.len() && i != j implies r[i] != r[j] by {
            if i < j {
                assert(s[i].row != s[j].row);
            } else {
                assert(s[j].row != s[i].row);
            }
        }
    }
    r.unique_seq_to_set();
    lemma_int_range(0, n as int);
    let all = set_int_range(0, n as int);
    assert(r.to_set().subset_of(all)) by {
        assert forall|x: int| r.to_set().contains(x) implies all.contains(x) by {
            let k = choose|k: int| 0 <= k < r.len() && r[k] == x;
            assert(s[k].row < n);
        }
    }
    lemma_len_subset(r.to_set(), all);
    if s.len() == n {
        vstd::set_lib::lemma_subset_equality(r.to_set(), all);
        assert forall|u: usize| u < n implies #[trigger] has_row(s, u) by {
            assert(all.contains(u as int));
            assert(r.to_set().contains(u as int));
            let k = choose|k: int| 0 <= k < r.len() && r[k] == u as int;
            assert(s[k].row == u);
        }
    }
}

/// A sequence that holds every row below `n` has at least `n` elements.
pub proof fn lemma_rows_cover(s: Seq<Neighbor>, n: nat)
    requires
        n <= usize::MAX,
        forall|u: usize| u < n ==> #[trigger] has_row(s, u),
    ensures
        s.len() >= n,
{
    broadcast use vstd::seq_lib::seq_to_set_is_finite;
    let r = s.map_values(|x: Neighbor| x.row as int);
    lemma_int_range(0, n as int);
    let all = set_int_range(0, n as int);
    assert(all.subset_of(r.to_set())) by {
        assert forall|x: int| all.contains(x) implies r.to_set().contains(x) by {
            assert(has_row(s, x as usize));
            let k = choose|k: int| 0 <= k < s.len() && s[k].row == x as usize;
            assert(r[k] == x);
        }
    }
    r.lemma_cardinality_of_set();
    lemma_len_subset(all, r.to_set());
}

/// A sorted search result with distinct rows, each with its key, that holds
/// every row of the dataset lists them all, closest first.
pub proof fn lemma_all_rows_ranked(s: Seq<Neighbor>, dist: Seq<u32>)
    requires
        sorted(s),
        rows_distinct(s),
        keyed_rows(s, dist, dist.len() as usize),
        dist.len() <= usize::MAX,
        forall|u: usize| u < dist.len() ==> #[trigger] has_row(s, u),
    ensures
        s.map_values(|x: Neighbor| x.row) == ranked(dist, Seq::new(dist.len(), |i: int| i as usize).to_set()),
        s == s.map_values(|x: Neighbor| x.row).map_values(|r: usize| nb_of(dist, r)),
{
    let r = s.map_values(|x: Neighbor| x.row);
    let all = Seq::new(dist.len(), |i: int| i as usize);
    assert(key_sorted(dist, r)) by {
        assert forall|i: int, j: int| 0 <= i < j < r.len() implies nb_lt(nb_of(dist, #[trigger] r[i]), nb_of(dist, #[trigger] r[j])) by {
            assert(nb_le(s[i], s[j]));
            assert(s[i].row != s[j].row);
            assert(s[i] == nb_of(dist, r[i]));
            assert(s[j] == nb_of(dist, r[j]));
        }
    }
    assert(r.to_set() =~= all.to_set()) by {
        assert forall|x: usize| r.to_set().contains(x) implies all.to_set().contains(x) by {
            let k = choose|k: int| 0 <= k < r.len() && r[k] == x;
            assert(all[x as int] == x);
        }
        assert forall|x: usize| all.to_set().contains(x) implies r.to_set().contains(x) by {
            let i = choose|i: int| 0 <= i < all.len() && all[i] == x;
            assert(has_row(s, x));
            let k = choose|k: int| 0 <= k < s.len() && s[k].row == x;
            assert(r[k] == x);
        }
    }
    lemma_key_sorted_unique(dist, r, ranked(dist, all.to_set()));
    assert(s =~= r.map_values(|q: usize| nb_of(dist, q)));
}

/// How many rows at the front of `s` come before row `x` in key order.
pub open spec fn key_pos(d: Seq<u32>, s: Seq<usize>, x: usize) -> nat
    decreases s.len(),
{
    if s.len() == 0 {
        0
    } else if nb_lt(nb_of(d, s[0]), nb_of(d, x)) {
        1 + key_pos(d, s.drop_first(), x)
    } else {
        0
    }
}

pub proof fn lemma_key_pos(d: Seq<u32>, s: Seq<usize>, x: usize)
    ensures
        key_pos(d, s, x) <= s.len(),
        forall|j: int| 0 <= j < key_pos(d, s, x) ==> nb_lt(nb_of(d, #[trigger] s[j]), nb_of(d, x)),
        key_pos(d, s, x) < s.len() ==> !nb_lt(nb_of(d, s[key_pos(d, s, x) as int]), nb_of(d, x)),
    decreases s.len(),
{
    if s.len() > 0 && nb_lt(nb_of(d, s[0]), nb_of(d, x)) {
        lemma_key_pos(d, s.drop_first(), x);
        assert forall|j: int| 0 <= j < key_pos(d, s, x) implies nb_lt(nb_of(d, #[trigger] s[j]), nb_of(d, x)) by {
            if j > 0 {
                assert(s[j] == s.drop_first()[j - 1]);
            }
        }
    }
}

/// A key-sorted list of the rows of `s` plus row `x`.
pub proof fn lemma_key_insert(d: Seq<u32>, s: Seq<usize>, x: usize) -> (t: Seq<usize>)
    requires
        key_sorted(d, s),
    ensures
        key_sorted(d, t),
        t.to_set() == s.to_set().insert(x),
{
    lemma_key_pos(d, s, x);
    let p = key_pos(d, s, x) as int;
    if p < s.len() && s[p] == x {
        assert(s.to_set() =~= s.to_set().insert(x));
        s
    } else {
        let t = s.insert(p, x);
        s.insert_ensures(p, x);
        assert forall|a: int, b: int| 0 <= a < b < t.len() implies nb_lt(nb_of(d, #[trigger] t[a]), nb_of(d, #[trigger] t[b])) by {
            if b < p {
                assert(t[a] == s[a] && t[b] == s[b]);
            } else if b == p {
                assert(t[a] == s[a]);
            } else if a < p {
                assert(t[a] == s[a] && t[b] == s[b - 1]);
                if b - 1 > p {
                    assert(nb_lt(nb_of(d, s[p]), nb_of(d, s[b - 1])));
                }
            } else if a == p {
                assert(t[b] == s[b - 1]);
                assert(s[p] != x);
                if b - 1 > p {
                    assert(nb_lt(nb_of(d, s[p]), nb_of(d, s[b - 1])));
                }
            } else {
                assert(t[a] == s[a - 1] && t[b] == s[b - 1]);
            }
        }
        assert(t.to_set() =~= s.to_set().insert(x)) by {
            assert forall|y: usize| t.to_set().contains(y) implies s.to_set().insert(x).contains(y) by {
                let k = choose|k: int| 0 <= k < t.len() && t[k] == y;
                if k < p {
                    assert(t[k] == s[k]);
                } else if k > p {
                    assert(t[k] == s[k - 1]);
                }
            }
            assert forall|y: usize| s.to_set().insert(x).contains(y) implies t.to_set().contains(y) by {
                if y == x {
                    assert(t[p] == x);
                } else {
                    let k = choose|k: int| 0 <= k < s.len() && s[k] == y;
                    if k < p {
                        assert(t[k] == s[k]);
                    } else {
                        assert(t[k + 1] == s[k]);
                    }
                }
            }
        }
        t
    }
}

/// A key-sorted list of the rows of `s`.
pub proof fn lemma_key_sorted_of(d: Seq<u32>, s: Seq<usize>) -> (w: Seq<usize>)
    ensures
        key_sorted(d, w),
        w.to_set() == s.to_set(),
    decreases s.len(),
{
    if s.len() == 0 {
        assert(s.to_set() =~= Seq::<usize>::empty().to_set());
        Seq::<usize>::empty()
    } else {
        let w0 = lemma_key_sorted_of(d, s.drop_last());
        let x = s.last();
        assert(s.to_set() =~= s.drop_last().to_set().insert(x)) by {
            assert forall|y: usize| s.to_set().contains(y) implies s.drop_last().to_set().insert(x).contains(y) by {
                let k = choose|k: int| 0 <= k < s.len() && s[k] == y;
                if k < s.len() - 1 {
                    assert(s.drop_last()[k] == y);
                }
            }
            assert forall|y: usize| s.drop_last().to_set().insert(x).contains(y) implies s.to_set().contains(y) by {
                if y == x {
                    assert(s[s.len() - 1] == x);
                } else {
                    let k = choose|k: int| 0 <= k < s.drop_last().len() && s.drop_last()[k] == y;
                    assert(s[k] == y);
                }
            }
        }
        lemma_key_insert(d, w0, x)
    }
}

/// `ranked` lists the rows of `s`, each once, closest first.
pub proof fn lemma_ranked(d: Seq<u32>, s: Seq<usize>)
    ensures
        key_sorted(d, ranked(d, s.to_set())),
        ranked(d, s.to_set()).to_set() == s.to_set(),
{
    let w = lemma_key_sorted_of(d, s);
    assert(w.to_set() == s.to_set() && key_sorted(d, w));
}

/// Two key-sorted sequences with the same rows are the same sequence.
#[verifier::spinoff_prover]
#[verifier::rlimit(40)]
pub proof fn lemma_key_sorted_unique(dist: Seq<u32>, a: Seq<usize>, b: Seq<usize>)
    requires
        key_sorted(dist, a),
        key_sorted(dist, b),
        a.to_set() == b.to_set(),
    ensures
        a == b,
    decreases a.len(),
{
    if a.len() == 0 {
        if b.len() > 0 {
            assert(b.to_set().contains(b[0]));
        }
        assert(a =~= b);
    } else {
        assert(a.to_set().contains(a[0]));
        assert(b.len() > 0);
        assert(b.to_set().contains(b[0]));
        let j = choose|j: int| 0 <= j < b.len() && b[j] == a[0];
        let k = choose|k: int| 0 <= k < a.len() && a[k] == b[0];
        if k != 0 {
            assert(nb_lt(nb_of(dist, a[0]), nb_of(dist, a[k])));
            if j != 0 {
                assert(nb_lt(nb_of(dist, b[0]), nb_of(dist, b[j])));
            }
            assert(false);
        }
        let a1 = a.drop_first();
        let b1 = b.drop_first();
        assert(key_sorted(dist, a1)) by {
            assert forall|i: int, l: int| 0 <= i < l < a1.len() implies nb_lt(
                nb_of(dist, #[trigger] a1[i]),
                nb_of(dist, #[trigger] a1[l]),
            ) by {
                assert(a1[i] == a[i + 1] && a1[l] == a[l + 1]);
            }
        }
        assert(key_sorted(dist, b1)) by {
            assert forall|i: int, l: int| 0 <= i < l < b1.len() implies nb_lt(
                nb_of(dist, #[trigger] b1[i]),
                nb_of(dist, #[trigger] b1[l]),
            ) by {
                assert(b1[i] == b[i + 1] && b1[l] == b[l + 1]);
            }
        }
        assert(a1.to_set() =~= b1.to_set()) by {
            assert forall|y: usize| a1.to_set().contains(y) implies b1.to_set().contains(y) by {
                let i = choose|i: int| 0 <= i < a1.len() && a1[i] == y;
                assert(a[i + 1] == y);
                assert(a.to_set().contains(y));
                let l = choose|l: int| 0 <= l < b.len() && b[l] == y;
                if l == 0 {
                    assert(nb_lt(nb_of(dist, a[0]), nb_of(dist, a[i + 1])));
                }
                assert(b1[l - 1] == y);
            }
            assert forall|y: usize| b1.to_set().contains(y) implies a1.to_set().contains(y) by {
                let i = choose|i: int| 0 <= i < b1.len() && b1[i] == y;
                assert(b[i + 1] == y);
                assert(b.to_set().contains(y));
                let l = choose|l: int| 0 <= l < a.len() && a[l] == y;
                if l == 0 {
                    assert(nb_lt(nb_of(dist, b[0]), nb_of(dist, b[i + 1])));
                }
                assert(a1[l - 1] == y);
            }
        }
        lemma_key_sorted_unique(dist, a1, b1);
        assert(a =~= b) by {
            assert forall|i: int| 0 <= i < a.len() implies a[i] == b[i] by {
                if i > 0 {
                    assert(a[i] == a1[i - 1] && b[i] == b1[i - 1]);
                }
            }
        }
    }
}

/// Whether row `r` comes strictly before `x`.
fn row_before(dist: &Vec<u32>, r: usize, x: &Neighbor) -> (b: bool)
    requires
        r < dist.len(),
    ensures
        b == nb_lt(nb_of(dist@, r), *x),
{
    let rn = Neighbor { row: r, distance: dist[r] };
    neighbor_lt(&rn, x)
}

/// Adds `x` to a key-sorted vector of distinct rows, unless it is there.
fn insert_ranked(dist: &Vec<u32>, out: &mut Vec<usize>, x: usize)
    requires
        x < dist.len(),
        forall|i: int| 0 <= i < old(out).len() ==> #[trigger] old(out)[i] < dist.len(),
        key_sorted(dist@, old(out)@),
    ensures
        key_sorted(dist@, final(out)@),
        final(out)@.to_set() == old(out)@.to_set().insert(x),
        forall|i: int| 0 <= i < final(out).len() ==> #[trigger] final(out)[i] < dist.len(),
{
    let ghost d = dist@;
    let xn = Neighbor { row: x, distance: dist[x] };
    let mut i: usize = 0;
    while i < out.len() && row_before(dist, out[i], &xn)
        invariant
            i <= out.len(),
            out@ == old(out)@,
            xn == nb_of(d, x),
            d == dist@,
            forall|k: int| 0 <= k < out.len() ==> #[trigger] out[k] < dist.len(),
            forall|k: int| 0 <= k < i ==> nb_lt(nb_of(d, #[trigger] out@[k]), xn),
        decreases out.len() - i,
    {
        i = i + 1;
    }
    if i < out.len() && out[i] == x {
        assert(out@.to_set() =~= out@.to_set().insert(x));
        return;
    }
    let ghost s = out@;
    out.insert(i, x);
    proof {
        s.insert_ensures(i as int, x);
        let t = out@;
        assert forall|a: int, b: int| 0 <= a < b < t.len() implies nb_lt(
            nb_of(d, #[trigger] t[a]),
            nb_of(d, #[trigger] t[b]),
        ) by {
            let p = i as int;
            if b < p {
                assert(t[a] == s[a] && t[b] == s[b]);
            } else if b == p {
                assert(t[a] == s[a]);
            } else if a < p {
                assert(t[a] == s[a] && t[b] == s[b - 1]);
                assert(nb_le(nb_of(d, s[p]), nb_of(d, s[b - 1])));
            } else if a == p {
                assert(t[b] == s[b - 1]);
                assert(!nb_lt(nb_of(d, s[p]), xn));
                assert(s[p] != x);
                if b - 1 > p {
                    assert(nb_lt(nb_of(d, s[p]), nb_of(d, s[b - 1])));
                }
            } else {
                assert(t[a] == s[a - 1] && t[b] == s[b - 1]);
            }
        }
        assert(t.to_set() =~= s.to_set().insert(x)) by {
            assert forall|y: usize| t.to_set().contains(y) implies s.to_set().insert(x).contains(y) by {
                let k = choose|k: int| 0 <= k < t.len() && t[k] == y;
                if k < i {
                    assert(t[k] == s[k]);
                } else if k > i {
                    assert(t[k] == s[k - 1]);
                }
            }
            assert forall|y: usize| s.to_set().insert(x).contains(y) implies t.to_set().contains(y) by {
                if y == x {
                    assert(t[i as int] == x);
                } else {
                    let k = choose|k: int| 0 <= k < s.len() && s[k] == y;
                    if k < i {
                        assert(t[k] == s[k]);
                    } else {
                        assert(t[k + 1] == s[k]);
                    }
                }
            }
        }
        assert forall|k: int| 0 <= k < t.len() implies #[trigger] t[k] < dist.len() by {
            if k < i {
                assert(t[k] == s[k]);
            } else if k > i {
                assert(t[k] == s[k - 1]);
            }
        }
    }
}

/// Keeps the `max_connections` closest distinct rows of `neighbors`, closest
/// first.  `dist[r]` is the distance key of row `r` to the row that owns the
/// list; ties are broken by row id.
pub fn prune_neighbors(dist: &Vec<u32>, neighbors: &mut Vec<usize>, max_connections: usize)
    requires
        forall|i: int| 0 <= i < old(neighbors).len() ==> #[trigger] old(neighbors)[i] < dist.len(),
    ensures
        final(neighbors)@ == pruned(dist@, old(neighbors)@, max_connections),
        key_sorted(dist@, final(neighbors)@),
        final(neighbors).len() <= max_connections,
        forall|i: int|
            0 <= i < final(neighbors).len() ==> old(neighbors)@.contains(#[trigger] final(neighbors)[i]),
        forall|i: int|
            0 <= i < old(neighbors).len() && !final(neighbors)@.contains(#[trigger] old(neighbors)[i])
                ==> final(neighbors).len() == max_connections && forall|j: int|
                0 <= j < final(neighbors).len() ==> nb_lt(
                    nb_of(dist@, #[trigger] final(neighbors)[j]),
                    nb_of(dist@, old(neighbors)[i]),
                ),
{
    let ghost input = neighbors@;
    let mut out: Vec<usize> = Vec::new();
    let mut i: usize = 0;
    while i < neighbors.len()
        invariant
            i <= neighbors.len(),
            neighbors@ == input,
            forall|k: int| 0 <= k < neighbors.len() ==> #[trigger] neighbors[k] < dist.len(),
            forall|k: int| 0 <= k < out.len() ==> #[trigger] out[k] < dist.len(),
            key_sorted(dist@, out@),
            out@.to_set() == input.take(i as int).to_set(),
        decreases neighbors.len() - i,
    {
        let x = neighbors[i];
        insert_ranked(dist, &mut out, x);
        proof {
            assert(input.take(i + 1).to_set() =~= input.take(i as int).to_set().insert(x)) by {
                assert(input.take(i + 1) =~= input.take(i as int).push(x));
                assert forall|y: usize| input.take(i + 1).to_set().contains(y) implies input.take(
                    i as int,
                ).to_set().insert(x).contains(y) by {
                    let k = choose|k: int| 0 <= k < input.take(i + 1).len() && #[trigger] input.take(i + 1)[k] == y;
                    if k < i {
                        assert(input.take(i as int)[k] == y);
                    }
                }
                assert forall|y: usize| input.take(i as int).to_set().insert(x).contains(y) implies input.take(
                    i + 1,
                ).to_set().contains(y) by {
                    if y == x {
                        assert(input.take(i + 1)[i as int] == y);
                    } else {
                        let k = choose|k: int| 0 <= k < input.take(i as int).len() && #[trigger] input.take(i as int)[k] == y;
                        assert(input.take(i + 1)[k] == y);
                    }
                }
            }
        }
        i = i + 1;
    }
    proof {
        assert(input.take(input.len() as int) =~= input);
        lemma_key_sorted_unique(dist@, out@, ranked(dist@, input.to_set()));
    }
    let ghost full = out@;
    out.truncate(max_connections);
    proof {
        let r = out@;
        assert forall|a: int, b: int| 0 <= a < b < r.len() implies nb_lt(
            nb_of(dist@, #[trigger] r[a]),
            nb_of(dist@, #[trigger] r[b]),
        ) by {
            assert(r[a] == full[a] && r[b] == full[b]);
        }
        assert forall|k: int| 0 <= k < r.len() implies input.contains(#[trigger] r[k]) by {
            assert(r[k] == full[k]);
            assert(full.to_set().contains(full[k]));
        }
        assert forall|k: int| 0 <= k < input.len() && !r.contains(#[trigger] input[k]) implies r.len()
            == max_connections && forall|j: int|
            0 <= j < r.len() ==> nb_lt(nb_of(dist@, #[trigger] r[j]), nb_of(dist@, input[k])) by {
            assert(input.to_set().contains(input[k]));
            let m = choose|m: int| 0 <= m < full.len() && full[m] == input[k];
            if max_connections >= full.len() {
                assert(r[m] == input[k]);
            } else {
                if m < max_connections {
                    assert(r[m] == input[k]);
                }
                assert forall|j: int| 0 <= j < r.len() implies nb_lt(
                    nb_of(dist@, #[trigger] r[j]),
                    nb_of(dist@, input[k]),
                ) by {
                    assert(r[j] == full[j]);
                }
            }
        }
    }
    *neighbors = out;
}

} // verus!
