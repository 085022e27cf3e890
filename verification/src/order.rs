//! Neighbours, their order, and sequences kept sorted by that order.
use vstd::prelude::*;

verus! {

/// A row of the dataset together with the key of its distance to a query.
///
/// Keys order rows exactly as the underlying distances do: a smaller key is
/// a closer row.  Two neighbours are compared by key first and by row id
/// second, so the order is total.
#[derive(Clone, Copy, Debug, PartialEq, Eq, Structural)]
pub struct Neighbor {
    pub row: usize,
    pub distance: u32,
}

/// `a` comes strictly before `b`: closer, or as close with a smaller row id.
pub open spec fn nb_lt(a: Neighbor, b: Neighbor) -> bool {
    a.distance < b.distance || (a.distance == b.distance && a.row < b.row)
}

pub open spec fn nb_le(a: Neighbor, b: Neighbor) -> bool {
    nb_lt(a, b) || a == b
}

/// Executable form of `nb_lt`.
pub fn neighbor_lt(a: &Neighbor, b: &Neighbor) -> (r: bool)
    ensures
        r == nb_lt(*a, *b),
{
    a.distance < b.distance || (a.distance == b.distance && a.row < b.row)
}

/// Ascending order, equal elements allowed.
pub open spec fn sorted(s: Seq<Neighbor>) -> bool {
    forall|i: int, j: int| 0 <= i < j < s.len() ==> nb_le(#[trigger] s[i], #[trigger] s[j])
}

/// Where `x` goes in a sorted sequence: in front of the first element that
/// does not come strictly before it.
pub open spec fn insert_pos(s: Seq<Neighbor>, x: Neighbor) -> nat
    decreases s.len(),
{
    if s.len() == 0 {
        0
    } else if nb_lt(s[0], x) {
        1 + insert_pos(s.drop_first(), x)
    } else {
        0
    }
}

/// `s` with `x` added at its place in the order.
pub open spec fn insert_sorted(s: Seq<Neighbor>, x: Neighbor) -> Seq<Neighbor> {
    s.insert(insert_pos(s, x) as int, x)
}

pub proof fn lemma_insert_pos(s: Seq<Neighbor>, x: Neighbor)
    ensures
        insert_pos(s, x) <= s.len(),
        forall|j: int| 0 <= j < insert_pos(s, x) ==> nb_lt(#[trigger] s[j], x),
        insert_pos(s, x) < s.len() ==> !nb_lt(s[insert_pos(s, x) as int], x),
    decreases s.len(),
{
    if s.len() > 0 && nb_lt(s[0], x) {
        lemma_insert_pos(s.drop_first(), x);
        assert forall|j: int| 0 <= j < insert_pos(s, x) implies nb_lt(#[trigger] s[j], x) by {
            if j > 0 {
                assert(s[j] == s.drop_first()[j - 1]);
            }
        }
    }
}

pub proof fn lemma_insert_pos_at(s: Seq<Neighbor>, x: Neighbor, i: int)
    requires
        0 <= i <= s.len(),
        forall|j: int| 0 <= j < i ==> nb_lt(#[trigger] s[j], x),
        i < s.len() ==> !nb_lt(s[i], x),
    ensures
        insert_pos(s, x) == i,
    decreases s.len(),
{
    if i > 0 {
        assert(nb_lt(s[0], x));
        assert forall|j: int| 0 <= j < i - 1 implies nb_lt(#[trigger] s.drop_first()[j], x) by {
            assert(s.drop_first()[j] == s[j + 1]);
        }
        lemma_insert_pos_at(s.drop_first(), x, i - 1);
    }
}

/// What an insertion does, index by index.
pub proof fn lemma_insert_sorted(s: Seq<Neighbor>, x: Neighbor)
    ensures
        insert_sorted(s, x).len() == s.len() + 1,
        forall|k: int|
            0 <= k < insert_sorted(s, x).len() ==> {
                let p = insert_pos(s, x) as int;
                &&& k < p ==> #[trigger] insert_sorted(s, x)[k] == s[k]
                &&& k == p ==> insert_sorted(s, x)[k] == x
                &&& k > p ==> insert_sorted(s, x)[k] == s[k - 1]
            },
        forall|k: int|
            0 <= k < insert_sorted(s, x).len() ==> #[trigger] insert_sorted(s, x)[k] == x || exists|
                j: int,
            |
                0 <= j < s.len() && insert_sorted(s, x)[k] == s[j],
        forall|j: int|
            0 <= j < s.len() ==> exists|k: int|
                0 <= k < insert_sorted(s, x).len() && insert_sorted(s, x)[k] == #[trigger] s[j],
{
    lemma_insert_pos(s, x);
    let p = insert_pos(s, x) as int;
    s.insert_ensures(p, x);
    assert forall|k: int| 0 <= k < insert_sorted(s, x).len() implies #[trigger] insert_sorted(
        s,
        x,
    )[k] == x || exists|j: int| 0 <= j < s.len() && insert_sorted(s, x)[k] == s[j] by {
        if k < p {
            assert(insert_sorted(s, x)[k] == s[k]);
        } else if k > p {
            assert(insert_sorted(s, x)[k] == s[k - 1]);
        }
    }
    assert forall|j: int| 0 <= j < s.len() implies exists|k: int|
        0 <= k < insert_sorted(s, x).len() && insert_sorted(s, x)[k] == #[trigger] s[j] by {
        if j < p {
            assert(insert_sorted(s, x)[j] == s[j]);
        } else {
            assert(insert_sorted(s, x)[j + 1] == s[j]);
        }
    }
}

pub proof fn lemma_insert_sorted_sorted(s: Seq<Neighbor>, x: Neighbor)
    requires
        sorted(s),
    ensures
        sorted(insert_sorted(s, x)),
{
    lemma_insert_pos(s, x);
    let p = insert_pos(s, x) as int;
    s.insert_ensures(p, x);
    let t = insert_sorted(s, x);
    assert forall|i: int, j: int| 0 <= i < j < t.len() implies nb_le(#[trigger] t[i], #[trigger] t[j]) by {
        let a = if i < p { i } else if i == p { -1 } else { i - 1 };
        let b = if j < p { j } else if j == p { -1 } else { j - 1 };
        if i == p {
            // x sits before every later element, since s[p] does not come before x
            let sp = s[p];
            assert(!nb_lt(sp, x));
            assert(t[j] == s[b]);
            if b > p {
                assert(nb_le(s[p], s[b]));
            }
        } else if j == p {
            assert(t[i] == s[a]);
            assert(nb_lt(s[a], x));
        } else {
            assert(t[i] == s[a] && t[j] == s[b]);
            assert(nb_le(s[a], s[b]));
        }
    }
}

pub proof fn lemma_sorted_drop_last(s: Seq<Neighbor>)
    requires
        sorted(s),
        s.len() > 0,
    ensures
        sorted(s.drop_last()),
{
    assert forall|i: int, j: int| 0 <= i < j < s.drop_last().len() implies nb_le(
        #[trigger] s.drop_last()[i],
        #[trigger] s.drop_last()[j],
    ) by {
        assert(s.drop_last()[i] == s[i] && s.drop_last()[j] == s[j]);
    }
}

pub proof fn lemma_sorted_drop_first(s: Seq<Neighbor>)
    requires
        sorted(s),
        s.len() > 0,
    ensures
        sorted(s.drop_first()),
{
    assert forall|i: int, j: int| 0 <= i < j < s.drop_first().len() implies nb_le(
        #[trigger] s.drop_first()[i],
        #[trigger] s.drop_first()[j],
    ) by {
        assert(s.drop_first()[i] == s[i + 1] && s.drop_first()[j] == s[j + 1]);
    }
}

/// Adds `x` to a sorted vector at its place in the order.
pub fn sorted_insert(v: &mut Vec<Neighbor>, x: Neighbor)
    ensures
        final(v)@ == insert_sorted(old(v)@, x),
{
    let mut i: usize = 0;
    while i < v.len() && neighbor_lt(&v[i], &x)
        invariant
            i <= v.len(),
            v@ == old(v)@,
            forall|j: int| 0 <= j < i ==> nb_lt(#[trigger] v@[j], x),
        decreases v.len() - i,
    {
        i = i + 1;
    }
    proof {
        lemma_insert_pos_at(v@, x, i as int);
    }
    v.insert(i, x);
}

} // verus!
