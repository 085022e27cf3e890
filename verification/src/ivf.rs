//! Inverted-file index with flat lists (IVF-Flat): rows are partitioned by
//! their nearest centroid, and a search scans the lists of the centroids
//! nearest the query.
use vstd::prelude::*;
use crate::types::{Metric, VectorError};
use crate::order::Neighbor;
use crate::dataset::Dataset;
use crate::rng::{DeterministicRng, advance, draw};
use crate::graph::{lists_view, pruned, prune_neighbors, nb_of, keyed_rows, copy_lists, rows_distinct, key_sorted, ranked, lemma_ranked};
use crate::order::nb_le;
use crate::topk::{TopK, topk_all, topk_push, topk_sound, lemma_topk_all, lemma_topk_distinct, lemma_topk_more};

verus! {

/// Build and search parameters of an IVF-Flat index.
#[derive(Clone, Copy, Debug)]
pub struct IvfFlatConfig {
    pub partitions: usize,
    pub probes: usize,
    pub iterations: usize,
    pub seed: u64,
}

impl Default for IvfFlatConfig {
    fn default() -> (c: Self)
        ensures
            c.partitions == 16,
            c.probes == 4,
            c.iterations == 12,
            c.seed == 0x5eed,
    {
        IvfFlatConfig { partitions: 16, probes: 4, iterations: 12, seed: 0x5eed }
    }
}

/// What checking an IVF configuration against a dataset of `rows` rows gives.
pub open spec fn ivf_config_check(c: IvfFlatConfig, rows: nat) -> Result<(), VectorError> {
    if c.partitions == 0 || c.partitions > rows {
        Err(
            VectorError::InvalidConfig(
                "partitions must be greater than 0 and less than or equal to dataset length",
            ),
        )
    } else if c.probes == 0 || c.probes > c.partitions {
        Err(
            VectorError::InvalidConfig(
                "probes must be greater than 0 and less than or equal to partitions",
            ),
        )
    } else if c.iterations == 0 {
        Err(VectorError::InvalidConfig("iterations must be greater than 0"))
    } else if c.seed == 0 {
        Err(VectorError::InvalidConfig("seed must be greater than 0"))
    } else {
        Ok(())
    }
}

/// Rejects, in this order: no partitions or more partitions than rows; no
/// probes or more probes than partitions; no iterations; a zero seed.
pub fn check_config(config: &IvfFlatConfig, rows: usize) -> (r: Result<(), VectorError>)
    ensures
        r == ivf_config_check(*config, rows as nat),
{
    if config.partitions == 0 || config.partitions > rows {
        return Err(
            VectorError::InvalidConfig(
                "partitions must be greater than 0 and less than or equal to dataset length",
            ),
        );
    }
    if config.probes == 0 || config.probes > config.partitions {
        return Err(
            VectorError::InvalidConfig(
                "probes must be greater than 0 and less than or equal to partitions",
            ),
        );
    }
    if config.iterations == 0 {
        return Err(VectorError::InvalidConfig("iterations must be greater than 0"));
    }
    if config.seed == 0 {
        return Err(VectorError::InvalidConfig("seed must be greater than 0"));
    }
    Ok(())
}

/// One step of the shuffle: position `end` swaps with a position drawn
/// below `end + 1`.
pub open spec fn shuffle_step(s: Seq<usize>, state: u64, end: nat) -> Seq<usize> {
    let j = draw(state) as int % (end + 1) as int;
    s.update(end as int, s[j]).update(j, s[end as int])
}

/// The shuffle of `s` for positions `end` down to 1, drawing from `state`.
pub open spec fn shuffle(s: Seq<usize>, state: u64, end: nat) -> Seq<usize>
    decreases end,
{
    if end == 0 {
        s
    } else {
        shuffle(shuffle_step(s, state, end), advance(state), (end - 1) as nat)
    }
}

/// The rows `0..n` in the order a shuffle seeded with `seed` leaves them.
pub open spec fn seeded_order_of(n: nat, seed: u64) -> Seq<usize> {
    if n == 0 {
        seq![]
    } else {
        shuffle(Seq::new(n, |i: int| i as usize), seed, (n - 1) as nat)
    }
}

/// `s` holds every row below `n` exactly once.
pub open spec fn is_permutation(s: Seq<usize>, n: nat) -> bool {
    &&& s.len() == n
    &&& s.no_duplicates()
    &&& forall|i: int| 0 <= i < s.len() ==> #[trigger] s[i] < n
}

pub proof fn lemma_swap_permutation(s: Seq<usize>, n: nat, a: int, b: int)
    requires
        is_permutation(s, n),
        0 <= a < n,
        0 <= b < n,
    ensures
        is_permutation(s.update(a, s[b]).update(b, s[a]), n),
{
    let t = s.update(a, s[b]).update(b, s[a]);
    assert forall|i: int, j: int| 0 <= i < t.len() && 0 <= j < t.len() && i != j implies t[i]
        != t[j] by {
        let si = if i == b { a } else if i == a { b } else { i };
        let sj = if j == b { a } else if j == a { b } else { j };
        assert(t[i] == s[si] && t[j] == s[sj]);
    }
}

/// The rows in the order of a shuffle seeded with `seed`: for each position
/// from the last down to 1, a generator draw picks a position at or before
/// it to swap with.  Every row appears exactly once.
pub fn seeded_order(n: usize, seed: u64) -> (order: Vec<usize>)
    ensures
        order@ == seeded_order_of(n as nat, seed),
        is_permutation(order@, n as nat),
{
    let mut order: Vec<usize> = Vec::new();
    while order.len() < n
        invariant
            order.len() <= n,
            order@ =~= Seq::new(order.len() as nat, |i: int| i as usize),
        decreases n - order.len(),
    {
        let i = order.len();
        order.push(i);
    }
    if n == 0 {
        return order;
    }
    let ghost init = order@;
    assert(is_permutation(init, n as nat)) by {
        assert forall|i: int, j: int| 0 <= i < init.len() && 0 <= j < init.len() && i != j implies init[i]
            != init[j] by {}
    }
    let mut rng = DeterministicRng::new(seed);
    let mut end: usize = n - 1;
    while end > 0
        invariant
            end < n,
            order.len() == n,
            is_permutation(order@, n as nat),
            seeded_order_of(n as nat, seed) == shuffle(order@, rng@, end as nat),
        decreases end,
    {
        let ghost state = rng@;
        let ghost before = order@;
        let selected = rng.index(end + 1);
        let a = order[end];
        let b = order[selected];
        proof {
            lemma_swap_permutation(order@, n as nat, end as int, selected as int);
        }
        order.set(end, b);
        order.set(selected, a);
        assert(order@ =~= shuffle_step(before, state, end as nat));
        end = end - 1;
    }
    order
}

/// The first `count` rows of a seeded shuffle of the `rows` rows: the rows
/// whose vectors start out as the centroids.
pub fn centroid_seeds(rows: usize, config: &IvfFlatConfig) -> (seeds: Vec<usize>)
    requires
        config.partitions <= rows,
    ensures
        seeds@ == seeded_order_of(rows as nat, config.seed).take(config.partitions as int),
        seeds.len() == config.partitions,
        seeds@.no_duplicates(),
        forall|i: int| 0 <= i < seeds.len() ==> #[trigger] seeds@[i] < rows,
{
    let mut order = seeded_order(rows, config.seed);
    let ghost full = order@;
    order.truncate(config.partitions);
    proof {
        assert forall|i: int, j: int| 0 <= i < order.len() && 0 <= j < order.len() && i != j implies order@[i]
            != order@[j] by {
            assert(order@[i] == full[i] && order@[j] == full[j]);
        }
        assert forall|i: int| 0 <= i < order.len() implies #[trigger] order@[i] < rows by {
            assert(order@[i] == full[i]);
        }
    }
    order
}

/// The key of the largest finite distance.  A row's nearest centroid is
/// searched among keys strictly below it.
pub const UNREACHED: u32 = 0xFF7F_FFFF;

/// The smallest key in `ds` below `UNREACHED` and its first index; when there
/// is none, `UNREACHED` and index 0.
pub open spec fn nearest_of(ds: Seq<u32>) -> (u32, usize)
    decreases ds.len(),
{
    if ds.len() == 0 {
        (UNREACHED, 0usize)
    } else {
        let (b, i) = nearest_of(ds.drop_last());
        if ds.last() < b {
            (ds.last(), (ds.len() - 1) as usize)
        } else {
            (b, i)
        }
    }
}

pub proof fn lemma_nearest_of(ds: Seq<u32>)
    requires
        ds.len() <= usize::MAX,
    ensures
        ds.len() > 0 ==> nearest_of(ds).1 < ds.len(),
        nearest_of(ds).0 <= UNREACHED,
        forall|j: int| 0 <= j < ds.len() ==> #[trigger] ds[j] >= nearest_of(ds).0,
        forall|j: int| 0 <= j < nearest_of(ds).1 ==> #[trigger] ds[j] > nearest_of(ds).0,
        nearest_of(ds).0 < UNREACHED ==> ds[nearest_of(ds).1 as int] == nearest_of(ds).0,
        nearest_of(ds).0 == UNREACHED ==> nearest_of(ds).1 == 0,
    decreases ds.len(),
{
    if ds.len() > 0 {
        let d = ds.drop_last();
        lemma_nearest_of(d);
        assert forall|j: int| 0 <= j < d.len() implies #[trigger] ds[j] == d[j] by {}
        if nearest_of(d).0 < UNREACHED {
            assert(d.len() > 0);
            assert(ds[nearest_of(d).1 as int] == d[nearest_of(d).1 as int]);
        }
    }
}

/// Index of the centroid nearest a row, from the row's keys to each centroid.
pub fn nearest_centroid(ds: &Vec<u32>) -> (c: usize)
    ensures
        c == nearest_of(ds@).1,
{
    let mut best: u32 = UNREACHED;
    let mut index: usize = 0;
    let mut i: usize = 0;
    while i < ds.len()
        invariant
            i <= ds.len(),
            (best, index) == nearest_of(ds@.take(i as int)),
        decreases ds.len() - i,
    {
        proof {
            assert(ds@.take(i + 1).drop_last() =~= ds@.take(i as int));
        }
        if ds[i] < best {
            best = ds[i];
            index = i;
        }
        i = i + 1;
    }
    assert(ds@.take(ds.len() as int) =~= ds@);
    index
}

/// The lists after assigning rows `0..k` in order, each to the list of its
/// nearest centroid.  `dists[r][c]` is the key of the distance from row `r`
/// to centroid `c`.
pub open spec fn assign_fold(dists: Seq<Seq<u32>>, p: nat, k: nat) -> Seq<Seq<usize>>
    decreases k,
{
    if k == 0 {
        Seq::new(p, |c: int| Seq::<usize>::empty())
    } else {
        let a = assign_fold(dists, p, (k - 1) as nat);
        let c = nearest_of(dists[k - 1]).1 as int;
        a.update(c, a[c].push((k - 1) as usize))
    }
}

/// The lists split the rows `0..n` by nearest centroid: each list holds, in
/// increasing order, exactly the rows whose nearest centroid it belongs to.
pub open spec fn partitioned(lists: Seq<Seq<usize>>, dists: Seq<Seq<u32>>, n: nat) -> bool {
    &&& forall|c: int, j: int|
        0 <= c < lists.len() && 0 <= j < lists[c].len() ==> #[trigger] lists[c][j] < n
            && nearest_of(dists[lists[c][j] as int]).1 == c
    &&& forall|c: int, i: int, j: int|
        0 <= c < lists.len() && 0 <= i < j < lists[c].len() ==> #[trigger] lists[c][i]
            < #[trigger] lists[c][j]
    &&& forall|r: int| 0 <= r < n ==> lists[nearest_of(#[trigger] dists[r]).1 as int].contains(r as usize)
}

/// Row `r` appears in some list.
pub open spec fn listed(lists: Seq<Seq<usize>>, r: int) -> bool {
    exists|c: int| 0 <= c < lists.len() && #[trigger] lists[c].contains(r as usize)
}

/// Each row below `n` appears in exactly one list, once.
pub open spec fn each_row_once(lists: Seq<Seq<usize>>, n: nat) -> bool {
    &&& forall|c: int, j: int| 0 <= c < lists.len() && 0 <= j < lists[c].len() ==> #[trigger] lists[c][j] < n
    &&& forall|r: int| 0 <= r < n ==> #[trigger] listed(lists, r)
    &&& forall|c1: int, i: int, c2: int, j: int|
        0 <= c1 < lists.len() && 0 <= c2 < lists.len() && 0 <= i < lists[c1].len() && 0 <= j < lists[c2].len()
            && (c1 != c2 || i != j) ==> #[trigger] lists[c1][i] != #[trigger] lists[c2][j]
}

/// Lists that split the rows by nearest centroid hold every row exactly once.
pub proof fn lemma_partitioned_once(lists: Seq<Seq<usize>>, dists: Seq<Seq<u32>>, n: nat)
    requires
        partitioned(lists, dists, n),
        lists.len() > 0,
        n <= dists.len(),
        forall|r: int| 0 <= r < n ==> #[trigger] dists[r].len() == lists.len(),
        lists.len() <= usize::MAX,
    ensures
        each_row_once(lists, n),
{
    assert forall|r: int| 0 <= r < n implies #[trigger] listed(lists, r) by {
        lemma_nearest_of(dists[r]);
        let c = nearest_of(dists[r]).1 as int;
        assert(lists[c].contains(r as usize));
    }
    assert forall|c1: int, i: int, c2: int, j: int|
        0 <= c1 < lists.len() && 0 <= c2 < lists.len() && 0 <= i < lists[c1].len() && 0 <= j < lists[c2].len()
            && (c1 != c2 || i != j) implies #[trigger] lists[c1][i] != #[trigger] lists[c2][j] by {
        if c1 == c2 {
            if i < j {
                assert(lists[c1][i] < lists[c1][j]);
            } else {
                assert(lists[c1][j] < lists[c1][i]);
            }
        } else {
            assert(nearest_of(dists[lists[c1][i] as int]).1 == c1);
            assert(nearest_of(dists[lists[c2][j] as int]).1 == c2);
        }
    }
}

/// Splits the rows by nearest centroid.  `dists[r][c]` is the key of the
/// distance from row `r` to centroid `c`.
pub fn assign_rows(dists: &Vec<Vec<u32>>, partitions: usize) -> (lists: Vec<Vec<usize>>)
    requires
        partitions > 0,
        forall|r: int| 0 <= r < dists.len() ==> #[trigger] dists[r].len() == partitions,
    ensures
        lists_view(lists@) == assign_fold(
            dists@.map_values(|v: Vec<u32>| v@),
            partitions as nat,
            dists.len() as nat,
        ),
        lists.len() == partitions,
        partitioned(lists_view(lists@), dists@.map_values(|v: Vec<u32>| v@), dists.len() as nat),
        each_row_once(lists_view(lists@), dists.len() as nat),
{
    let ghost t = dists@.map_values(|v: Vec<u32>| v@);
    let mut lists: Vec<Vec<usize>> = Vec::new();
    while lists.len() < partitions
        invariant
            lists.len() <= partitions,
            lists_view(lists@) =~= Seq::new(lists.len() as nat, |c: int| Seq::<usize>::empty()),
        decreases partitions - lists.len(),
    {
        let ghost before = lists_view(lists@);
        lists.push(Vec::new());
        assert(lists_view(lists@) =~= before.push(Seq::<usize>::empty()));
    }
    let mut row: usize = 0;
    while row < dists.len()
        invariant
            row <= dists.len(),
            t == dists@.map_values(|v: Vec<u32>| v@),
            partitions > 0,
            forall|r: int| 0 <= r < dists.len() ==> #[trigger] dists[r].len() == partitions,
            lists.len() == partitions,
            lists_view(lists@) == assign_fold(t, partitions as nat, row as nat),
            partitioned(lists_view(lists@), t, row as nat),
        decreases dists.len() - row,
    {
        let ghost a = lists_view(lists@);
        let c = nearest_centroid(&dists[row]);
        proof {
            assert(dists[row as int].len() == partitions);
            assert(t[row as int] == dists[row as int]@);
            lemma_nearest_of(t[row as int]);
        }
        let ghost old_lists = lists@;
        lists[c].push(row);
        proof {
            let b = lists_view(lists@);
            assert(lists@[c as int]@ == a[c as int].push(row));
            assert forall|x: int| 0 <= x < b.len() && x != c implies b[x] == a[x] by {
                assert(lists@[x] == old_lists[x]);
            }
            assert(b =~= a.update(c as int, a[c as int].push(row)));
            assert forall|x: int, j: int| 0 <= x < b.len() && 0 <= j < b[x].len() implies #[trigger] b[x][j]
                < row + 1 && nearest_of(t[b[x][j] as int]).1 == x by {
                if x == c && j == a[x].len() {
                } else {
                    assert(b[x][j] == a[x][j]);
                }
            }
            assert forall|x: int, i: int, j: int| 0 <= x < b.len() && 0 <= i < j < b[x].len() implies #[trigger] b[x][i]
                < #[trigger] b[x][j] by {
                assert(b[x][i] == a[x][i]);
                if x == c && j == a[x].len() {
                    assert(a[x][i] < row);
                } else {
                    assert(b[x][j] == a[x][j]);
                }
            }
            assert forall|r: int| 0 <= r < row + 1 implies b[nearest_of(#[trigger] t[r]).1 as int].contains(
                r as usize,
            ) by {
                if r == row {
                    assert(b[c as int][a[c as int].len() as int] == row);
                } else {
                    let x = nearest_of(t[r]).1 as int;
                    assert(dists[r].len() == partitions);
                    assert(t[r] == dists[r]@);
                    lemma_nearest_of(t[r]);
                    assert(a[nearest_of(t[r]).1 as int].contains(r as usize));
                    assert(a[x].contains(r as usize));
                    let j = choose|j: int| 0 <= j < a[x].len() && a[x][j] == r as usize;
                    assert(b[x][j] == r as usize);
                }
            }
        }
        row = row + 1;
    }
    proof {
        assert forall|r: int| 0 <= r < dists.len() implies #[trigger] t[r].len() == lists_view(lists@).len() by {
            assert(dists[r].len() == partitions);
            assert(t[r] == dists[r]@);
        }
        lemma_partitioned_once(lists_view(lists@), t, dists.len() as nat);
    }
    lists
}

/// Whether two sets of lists are equal, list by list and entry by entry.
pub fn same_lists(a: &Vec<Vec<usize>>, b: &Vec<Vec<usize>>) -> (same: bool)
    ensures
        same == (lists_view(a@) == lists_view(b@)),
{
    if a.len() != b.len() {
        assert(lists_view(a@).len() != lists_view(b@).len());
        return false;
    }
    let mut c: usize = 0;
    while c < a.len()
        invariant
            c <= a.len(),
            a.len() == b.len(),
            forall|x: int| 0 <= x < c ==> #[trigger] a@[x]@ == b@[x]@,
        decreases a.len() - c,
    {
        let x = &a[c];
        let y = &b[c];
        if x.len() != y.len() {
            assert(lists_view(a@)[c as int] != lists_view(b@)[c as int]);
            return false;
        }
        let mut j: usize = 0;
        while j < x.len()
            invariant
                j <= x.len(),
                c < a.len(),
                a.len() == b.len(),
                x == a@[c as int],
                y == b@[c as int],
                x.len() == y.len(),
                forall|i: int| 0 <= i < j ==> #[trigger] x@[i] == y@[i],
            decreases x.len() - j,
        {
            if x[j] != y[j] {
                assert(lists_view(a@)[c as int] == x@);
                assert(lists_view(b@)[c as int] == y@);
                assert(lists_view(a@)[c as int][j as int] != lists_view(b@)[c as int][j as int]);
                return false;
            }
            j = j + 1;
        }
        assert(x@ =~= y@);
        c = c + 1;
    }
    assert(lists_view(a@) =~= lists_view(b@));
    true
}

/// One training round: the rows assigned to their nearest centroids, or
/// `None` when that assignment equals `lists`, the previous one.
pub fn refine(lists: &Vec<Vec<usize>>, dists: &Vec<Vec<u32>>, partitions: usize) -> (next: Option<
    Vec<Vec<usize>>,
>)
    requires
        partitions > 0,
        forall|r: int| 0 <= r < dists.len() ==> #[trigger] dists[r].len() == partitions,
    ensures
        next is None <==> lists_view(lists@) == assign_fold(
            dists@.map_values(|v: Vec<u32>| v@),
            partitions as nat,
            dists.len() as nat,
        ),
        next matches Some(v) ==> lists_view(v@) == assign_fold(
            dists@.map_values(|v: Vec<u32>| v@),
            partitions as nat,
            dists.len() as nat,
        ) && v.len() == partitions && partitioned(
            lists_view(v@),
            dists@.map_values(|v: Vec<u32>| v@),
            dists.len() as nat,
        ) && each_row_once(lists_view(v@), dists.len() as nat),
        next is None ==> each_row_once(lists_view(lists@), dists.len() as nat),
{
    let fresh = assign_rows(dists, partitions);
    if same_lists(&fresh, lists) {
        None
    } else {
        Some(fresh)
    }
}

/// A training round under a budget: after `done` of `iterations` rounds,
/// `None` when the budget is spent, and otherwise what `refine` gives:
/// the new assignment, or `None` when it repeats `lists`.
pub fn train_round(
    lists: &Vec<Vec<usize>>,
    dists: &Vec<Vec<u32>>,
    partitions: usize,
    done: usize,
    iterations: usize,
) -> (next: Option<Vec<Vec<usize>>>)
    requires
        partitions > 0,
        forall|r: int| 0 <= r < dists.len() ==> #[trigger] dists[r].len() == partitions,
    ensures
        done >= iterations ==> next is None,
        done < iterations ==> (next is None <==> lists_view(lists@) == assign_fold(
            dists@.map_values(|v: Vec<u32>| v@),
            partitions as nat,
            dists.len() as nat,
        )),
        next matches Some(v) ==> lists_view(v@) == assign_fold(
            dists@.map_values(|v: Vec<u32>| v@),
            partitions as nat,
            dists.len() as nat,
        ) && v.len() == partitions && each_row_once(lists_view(v@), dists.len() as nat),
{
    if done >= iterations {
        return None;
    }
    refine(lists, dists, partitions)
}

/// The neighbours scanned by a search: the rows of the lists named in
/// `order`, list after list, each with its key from `d`.
pub open spec fn probe_items(lists: Seq<Seq<usize>>, order: Seq<usize>, d: Seq<u32>) -> Seq<Neighbor>
    decreases order.len(),
{
    if order.len() == 0 {
        seq![]
    } else {
        probe_items(lists, order.drop_last(), d) + lists[order.last() as int].map_values(
            |r: usize| nb_of(d, r),
        )
    }
}

/// The rows `0..p` as a sequence.
pub open spec fn all_rows(p: nat) -> Seq<usize> {
    Seq::new(p, |i: int| i as usize)
}

/// An IVF-Flat index: centroids, and the list of rows nearest each.
#[derive(Debug)]
pub struct IvfFlatIndex<T> {
    dataset: Dataset<T>,
    metric: Metric,
    config: IvfFlatConfig,
    centroids: Vec<Vec<T>>,
    lists: Vec<Vec<usize>>,
}

impl<T> IvfFlatIndex<T> {
    #[verifier::type_invariant]
    spec fn well_formed(&self) -> bool {
        &&& self.lists.len() == self.config.partitions
        &&& self.centroids.len() == self.config.partitions
        &&& each_row_once(lists_view(self.lists@), self.dataset.rows().len())
        &&& forall|c: int| 0 <= c < self.centroids.len() ==> #[trigger] self.centroids@[c].len() == self.dataset.dim()
    }

    pub closed spec fn data(&self) -> Dataset<T> {
        self.dataset
    }

    pub closed spec fn spec_metric(&self) -> Metric {
        self.metric
    }

    pub closed spec fn spec_config(&self) -> IvfFlatConfig {
        self.config
    }

    pub closed spec fn spec_centroids(&self) -> Seq<Vec<T>> {
        self.centroids@
    }

    pub closed spec fn spec_lists(&self) -> Seq<Seq<usize>> {
        lists_view(self.lists@)
    }

    /// Puts a trained index together: one centroid and one list per
    /// partition, every centroid as long as the dataset's rows, every row of
    /// the dataset in exactly one list.
    pub fn from_parts(
        dataset: Dataset<T>,
        metric: Metric,
        config: IvfFlatConfig,
        centroids: Vec<Vec<T>>,
        lists: Vec<Vec<usize>>,
    ) -> (ix: Self)
        requires
            lists.len() == config.partitions,
            centroids.len() == config.partitions,
            each_row_once(lists_view(lists@), dataset.rows().len()),
            forall|c: int| 0 <= c < centroids.len() ==> #[trigger] centroids@[c].len() == dataset.dim(),
        ensures
            ix.data() == dataset,
            ix.spec_metric() == metric,
            ix.spec_config() == config,
            ix.spec_centroids() == centroids@,
            ix.spec_lists() == lists_view(lists@),
            each_row_once(ix.spec_lists(), ix.data().rows().len()),
    {
        IvfFlatIndex { dataset, metric, config, centroids, lists }
    }

    pub fn centroids(&self) -> (c: &[Vec<T>])
        ensures
            c@ == self.spec_centroids(),
            c@.len() == self.spec_config().partitions,
            forall|j: int| 0 <= j < c@.len() ==> #[trigger] c@[j].len() == self.data().dim(),
    {
        proof {
            use_type_invariant(self);
        }
        self.centroids.as_slice()
    }

    /// The number of rows in each list.
    pub fn list_sizes(&self) -> (sizes: Vec<usize>)
        ensures
            sizes@ == Seq::new(self.spec_lists().len(), |c: int| self.spec_lists()[c].len() as usize),
            sizes.len() == self.spec_config().partitions,
            each_row_once(self.spec_lists(), self.data().rows().len()),
    {
        proof {
            use_type_invariant(self);
        }
        let mut sizes: Vec<usize> = Vec::new();
        let mut c: usize = 0;
        while c < self.lists.len()
            invariant
                c <= self.lists.len(),
                sizes@ =~= Seq::new(c as nat, |x: int| self.spec_lists()[x].len() as usize),
            decreases self.lists.len() - c,
        {
            sizes.push(self.lists[c].len());
            c = c + 1;
        }
        sizes
    }

    /// Searches the lists of the `probes` centroids nearest the query and
    /// keeps the `k` closest rows found, closest first.
    ///
    /// `centroid_dist[c]` is the key of the query's distance to centroid
    /// `c`, `row_dist[r]` that of its distance to row `r`.  Centroids are
    /// ranked by key, ties by index.  Fails when `probes` is zero or not
    /// below the number of partitions.
    pub fn search_with_probes(
        &self,
        centroid_dist: &Vec<u32>,
        row_dist: &Vec<u32>,
        k: usize,
        probes: usize,
    ) -> (r: Result<Vec<Neighbor>, VectorError>)
        requires
            centroid_dist.len() == self.spec_config().partitions,
            row_dist.len() == self.data().rows().len(),
        ensures
            (probes == 0 || probes >= self.spec_config().partitions) ==> r == Err::<
                Vec<Neighbor>,
                VectorError,
            >(VectorError::InvalidConfig("probes must be greater than 0 and less than partitions")),
            !(probes == 0 || probes >= self.spec_config().partitions) ==> r is Ok,
            r matches Ok(v) ==> {
                let order = pruned(
                    centroid_dist@,
                    all_rows(self.spec_config().partitions as nat),
                    probes,
                );
                let items = probe_items(self.spec_lists(), order, row_dist@);
                &&& v@ == topk_all(items, k)
                &&& topk_sound(v@, items, k)
                &&& keyed_rows(v@, row_dist@, row_dist.len() as usize)
                &&& rows_distinct(v@)
            },
    {
        proof {
            use_type_invariant(self);
        }
        if probes == 0 || probes >= self.config.partitions {
            return Err(
                VectorError::InvalidConfig("probes must be greater than 0 and less than partitions"),
            );
        }
        let p = self.config.partitions;
        let mut order: Vec<usize> = Vec::new();
        while order.len() < p
            invariant
                order.len() <= p,
                order@ =~= all_rows(order.len() as nat),
            decreases p - order.len(),
        {
            let c = order.len();
            order.push(c);
        }
        prune_neighbors(centroid_dist, &mut order, probes);
        let ghost lists = self.spec_lists();
        let ghost d = row_dist@;
        proof {
            assert forall|c: int, j: int|
                0 <= c < self.lists.len() && 0 <= j < self.lists[c].len() implies #[trigger] self.lists[c][j]
                < row_dist.len() by {
                assert(lists[c][j] == self.lists[c][j]);
            }
        }
        let mut top = TopK::new(k);
        let mut i: usize = 0;
        while i < order.len()
            invariant
                i <= order.len(),
                lists == lists_view(self.lists@),
                d == row_dist@,
                row_dist.len() == self.data().rows().len(),
                self.lists.len() == p,
                forall|x: int| 0 <= x < order.len() ==> #[trigger] order@[x] < p,
                forall|c: int, j: int|
                    0 <= c < self.lists.len() && 0 <= j < self.lists[c].len() ==> #[trigger] self.lists[c][j]
                        < row_dist.len(),
                top.bound() == k,
                top.kept() == topk_all(probe_items(lists, order@.take(i as int), d), k),
            decreases order.len() - i,
        {
            let list = &self.lists[order[i]];
            let ghost base = probe_items(lists, order@.take(i as int), d);
            let mut j: usize = 0;
            while j < list.len()
                invariant
                    j <= list.len(),
                    list@ == lists[order@[i as int] as int],
                    d == row_dist@,
                    forall|x: int| 0 <= x < list.len() ==> #[trigger] list@[x] < row_dist.len(),
                    top.bound() == k,
                    top.kept() == topk_all(
                        base + list@.take(j as int).map_values(|r: usize| nb_of(d, r)),
                        k,
                    ),
                decreases list.len() - j,
            {
                let row = list[j];
                let nb = Neighbor { row, distance: row_dist[row] };
                proof {
                    let s0 = base + list@.take(j as int).map_values(|r: usize| nb_of(d, r));
                    let s1 = base + list@.take(j + 1).map_values(|r: usize| nb_of(d, r));
                    assert(s1 =~= s0.push(nb));
                    assert(s1.drop_last() =~= s0);
                }
                top.push(nb);
                j = j + 1;
            }
            proof {
                assert(order@.take(i + 1).drop_last() =~= order@.take(i as int));
                assert(list@.take(list.len() as int) =~= list@);
                assert(forall|x: int| 0 <= x < list.len() ==> #[trigger] list@[x] == self.lists[order@[i as int] as int][x]);
            }
            i = i + 1;
        }
        proof {
            assert(order@.take(order.len() as int) =~= order@);
        }
        let v = top.into_sorted();
        proof {
            let items = probe_items(lists, order@, d);
            lemma_topk_all(items, k);
            lemma_probe_items_keyed(lists, order@, d, p as nat);
            assert(order@.no_duplicates()) by {
                assert forall|x: int, y: int| 0 <= x < order@.len() && 0 <= y < order@.len() && x != y implies order@[x]
                    != order@[y] by {
                    if x < y {
                        assert(crate::order::nb_lt(nb_of(centroid_dist@, order@[x]), nb_of(centroid_dist@, order@[y])));
                    } else {
                        assert(crate::order::nb_lt(nb_of(centroid_dist@, order@[y]), nb_of(centroid_dist@, order@[x])));
                    }
                }
            }
            lemma_probe_items_distinct(lists, order@, d, self.data().rows().len());
            lemma_topk_distinct(items, k);
            assert forall|x: int| 0 <= x < v@.len() implies #[trigger] v@[x].row < row_dist.len()
                && v@[x].distance == row_dist@[v@[x].row as int] by {
                let m = choose|m: int| 0 <= m < items.len() && items[m] == v@[x];
            }
        }
        Ok(v)
    }

    /// `search_with_probes` with the configured `probes`.
    pub fn search(&self, centroid_dist: &Vec<u32>, row_dist: &Vec<u32>, k: usize) -> (r: Result<
        Vec<Neighbor>,
        VectorError,
    >)
        requires
            centroid_dist.len() == self.spec_config().partitions,
            row_dist.len() == self.data().rows().len(),
        ensures
            (self.spec_config().probes == 0 || self.spec_config().probes >= self.spec_config().partitions)
                ==> r == Err::<Vec<Neighbor>, VectorError>(
                VectorError::InvalidConfig("probes must be greater than 0 and less than partitions"),
            ),
            !(self.spec_config().probes == 0 || self.spec_config().probes
                >= self.spec_config().partitions) ==> (r matches Ok(v) && v@ == topk_all(
                probe_items(
                    self.spec_lists(),
                    pruned(
                        centroid_dist@,
                        all_rows(self.spec_config().partitions as nat),
                        self.spec_config().probes,
                    ),
                    row_dist@,
                ),
                k,
            )),
    {
        let r = self.search_with_probes(centroid_dist, row_dist, k, self.config.probes);
        r
    }

    pub fn kind(&self) -> (s: &'static str)
        ensures
            s@ == "ivf_flat"@,
    {
        "ivf_flat"
    }

    pub fn dataset(&self) -> (d: &Dataset<T>)
        ensures
            *d == self.data(),
    {
        &self.dataset
    }

    pub fn metric(&self) -> (m: Metric)
        ensures
            m == self.spec_metric(),
    {
        self.metric
    }
}

/// Row `r` sits in one of the lists named in `order`.
pub open spec fn in_lists(lists: Seq<Seq<usize>>, order: Seq<usize>, r: usize) -> bool {
    exists|t: int, i: int| 0 <= t < order.len() && 0 <= i < lists[order[t] as int].len() && lists[order[t] as int][i] == r
}

/// Scanning distinct lists, of lists that hold each row once, meets each
/// row at most once.
pub proof fn lemma_probe_items_distinct(lists: Seq<Seq<usize>>, order: Seq<usize>, d: Seq<u32>, n: nat)
    requires
        each_row_once(lists, n),
        order.no_duplicates(),
        forall|x: int| 0 <= x < order.len() ==> #[trigger] order[x] < lists.len(),
    ensures
        rows_distinct(probe_items(lists, order, d)),
        forall|m: int| 0 <= m < probe_items(lists, order, d).len() ==> in_lists(lists, order, #[trigger] probe_items(lists, order, d)[m].row),
    decreases order.len(),
{
    if order.len() > 0 {
        let o = order.drop_last();
        assert forall|x: int| 0 <= x < o.len() implies #[trigger] o[x] < lists.len() by {
            assert(o[x] == order[x]);
        }
        assert(o.no_duplicates()) by {
            assert forall|x: int, y: int| 0 <= x < o.len() && 0 <= y < o.len() && x != y implies o[x] != o[y] by {
                assert(o[x] == order[x] && o[y] == order[y]);
            }
        }
        lemma_probe_items_distinct(lists, o, d, n);
        let a = probe_items(lists, o, d);
        let c = order.last() as int;
        assert(order[order.len() - 1] == order.last());
        let b = lists[c].map_values(|r: usize| nb_of(d, r));
        let s = probe_items(lists, order, d);
        assert(s == a + b);
        assert forall|m: int| 0 <= m < s.len() implies in_lists(lists, order, #[trigger] s[m].row) by {
            if m < a.len() {
                assert(s[m] == a[m]);
                let (t, i) = choose|t: int, i: int| 0 <= t < o.len() && 0 <= i < lists[o[t] as int].len() && lists[o[t] as int][i] == a[m].row;
                assert(o[t] == order[t]);
            } else {
                assert(s[m] == b[m - a.len()]);
                assert(lists[order[order.len() - 1] as int][m - a.len()] == s[m].row);
            }
        }
        assert forall|i: int, j: int| 0 <= i < j < s.len() implies #[trigger] s[i].row != #[trigger] s[j].row by {
            if j < a.len() {
                assert(s[i] == a[i] && s[j] == a[j]);
            } else if i >= a.len() {
                assert(s[i] == b[i - a.len()] && s[j] == b[j - a.len()]);
                assert(lists[c][i - a.len()] != lists[c][j - a.len()]);
            } else {
                assert(s[i] == a[i] && s[j] == b[j - a.len()]);
                let (t, x) = choose|t: int, x: int| 0 <= t < o.len() && 0 <= x < lists[o[t] as int].len() && lists[o[t] as int][x] == a[i].row;
                assert(o[t] == order[t]);
                assert(order[t] != order[order.len() - 1]);
                assert(lists[o[t] as int][x] != lists[c][j - a.len()]);
            }
        }
    }
}

/// Scanning the lists named in a prefix of `order` meets a prefix of what
/// scanning all of them meets.
pub proof fn lemma_probe_prefix(lists: Seq<Seq<usize>>, order: Seq<usize>, m: int, d: Seq<u32>)
    requires
        0 <= m <= order.len(),
    ensures
        probe_items(lists, order.take(m), d).len() <= probe_items(lists, order, d).len(),
        forall|i: int|
            0 <= i < probe_items(lists, order.take(m), d).len() ==> #[trigger] probe_items(lists, order, d)[i]
                == probe_items(lists, order.take(m), d)[i],
    decreases order.len(),
{
    if m == order.len() {
        assert(order.take(m) =~= order);
    } else {
        let o = order.drop_last();
        assert(o.take(m) =~= order.take(m));
        lemma_probe_prefix(lists, o, m, d);
        let a = probe_items(lists, o, d);
        let s = probe_items(lists, order, d);
        assert(s == a + lists[order.last() as int].map_values(|r: usize| nb_of(d, r)));
        assert forall|i: int| 0 <= i < probe_items(lists, order.take(m), d).len() implies #[trigger] s[i]
            == probe_items(lists, order.take(m), d)[i] by {
            assert(s[i] == a[i]);
        }
    }
}

/// Probing more lists never makes a search worse: with `p1 <= p2` probes
/// the search keeps at least as many rows, and its `i`-th row comes no
/// later (so is no farther) than with `p1`.
pub proof fn lemma_more_probes(
    lists: Seq<Seq<usize>>,
    n: nat,
    centroid_dist: Seq<u32>,
    row_dist: Seq<u32>,
    p1: usize,
    p2: usize,
    k: usize,
)
    requires
        each_row_once(lists, n),
        centroid_dist.len() == lists.len(),
        p1 <= p2,
    ensures
        ({
            let all = all_rows(lists.len());
            let s1 = topk_all(probe_items(lists, pruned(centroid_dist, all, p1), row_dist), k);
            let s2 = topk_all(probe_items(lists, pruned(centroid_dist, all, p2), row_dist), k);
            &&& s2.len() >= s1.len()
            &&& forall|i: int| 0 <= i < s1.len() ==> nb_le(#[trigger] s2[i], s1[i])
        }),
{
    let all = all_rows(lists.len());
    lemma_ranked(centroid_dist, all);
    let r = ranked(centroid_dist, all.to_set());
    let o1 = pruned(centroid_dist, all, p1);
    let o2 = pruned(centroid_dist, all, p2);
    assert(o1 =~= o2.take(o1.len() as int));
    assert forall|x: int| 0 <= x < o1.len() implies #[trigger] o1[x] < lists.len() by {
        assert(o1[x] == r[x]);
        assert(all.to_set().contains(r[x]));
        let y = choose|y: int| 0 <= y < all.len() && all[y] == r[x];
    }
    assert(o1.no_duplicates()) by {
        assert forall|x: int, y: int| 0 <= x < o1.len() && 0 <= y < o1.len() && x != y implies o1[x] != o1[y] by {
            assert(o1[x] == r[x] && o1[y] == r[y]);
            if x < y {
                assert(crate::order::nb_lt(nb_of(centroid_dist, r[x]), nb_of(centroid_dist, r[y])));
            } else {
                assert(crate::order::nb_lt(nb_of(centroid_dist, r[y]), nb_of(centroid_dist, r[x])));
            }
        }
    }
    lemma_probe_items_distinct(lists, o1, row_dist, n);
    lemma_probe_prefix(lists, o2, o1.len() as int, row_dist);
    let a = probe_items(lists, o1, row_dist);
    let b = probe_items(lists, o2, row_dist);
    assert forall|i: int| 0 <= i < a.len() implies b.contains(#[trigger] a[i]) by {
        assert(b[i] == a[i]);
    }
    lemma_topk_more(a, b, k);
}

/// Every scanned neighbour is a listed row carrying its own key.
pub proof fn lemma_probe_items_keyed(lists: Seq<Seq<usize>>, order: Seq<usize>, d: Seq<u32>, p: nat)
    requires
        forall|x: int| 0 <= x < order.len() ==> #[trigger] order[x] < p,
        p <= lists.len(),
        d.len() <= usize::MAX,
        forall|c: int, j: int| 0 <= c < p && 0 <= j < lists[c].len() ==> #[trigger] lists[c][j] < d.len(),
    ensures
        keyed_rows(probe_items(lists, order, d), d, d.len() as usize),
    decreases order.len(),
{
    if order.len() > 0 {
        let o = order.drop_last();
        assert forall|x: int| 0 <= x < o.len() implies #[trigger] o[x] < p by {
            assert(o[x] == order[x]);
        }
        lemma_probe_items_keyed(lists, o, d, p);
        let a = probe_items(lists, o, d);
        let c = order.last() as int;
        let b = lists[c].map_values(|r: usize| nb_of(d, r));
        let s = probe_items(lists, order, d);
        assert(s == a + b);
        assert(order[order.len() - 1] < p);
        assert forall|i: int| 0 <= i < s.len() implies #[trigger] s[i].row < d.len() && s[i].distance
            == d[s[i].row as int] by {
            if i < a.len() {
                assert(s[i] == a[i]);
            } else {
                assert(s[i] == b[i - a.len()]);
                assert(b[i - a.len()] == nb_of(d, lists[c][i - a.len()]));
                assert(lists[c][i - a.len()] < d.len());
            }
        }
    }
}

impl<T: Clone> Clone for IvfFlatIndex<T> {
    /// The same lists, metric and configuration, cloned centroids, over a
    /// clone of the dataset.
    fn clone(&self) -> (c: Self)
        ensures
            c.spec_lists() == self.spec_lists(),
            c.spec_centroids().len() == self.spec_centroids().len(),
            forall|j: int|
                0 <= j < self.spec_centroids().len() ==> cloned::<Vec<T>>(self.spec_centroids()[j], #[trigger] c.spec_centroids()[j]),
            c.spec_metric() == self.spec_metric(),
            c.spec_config() == self.spec_config(),
            c.data().rows().len() == self.data().rows().len(),
            c.data().dim() == self.data().dim(),
            forall|j: int|
                0 <= j < self.data().rows().len() ==> cloned::<Vec<T>>(self.data().rows()[j], #[trigger] c.data().rows()[j]),
    {
        proof {
            use_type_invariant(self);
        }
        let dataset = self.dataset.clone();
        let centroids = self.centroids.clone();
        let lists = copy_lists(&self.lists);
        assert(lists@.len() == lists_view(lists@).len());
        IvfFlatIndex { dataset, metric: self.metric, config: self.config, centroids, lists }
    }
}

} // verus!
