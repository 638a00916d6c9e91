//! Stable ordering by key: the places of a list, lowest key first, and first come first among
//! equal keys.
use vstd::prelude::*;
use vstd::relations::{sorted_by, total_ordering};
use vstd::seq_lib::{lemma_sorted_unique, to_multiset_build, to_multiset_insert};

verus! {

/// What a list is ordered by: three numbers, the first of them first.
pub type Key = (u64, u64, u128);

/// `a` comes before `b`, or they are equal.
pub open spec fn key_leq(a: Key, b: Key) -> bool {
    a.0 < b.0 || (a.0 == b.0 && (a.1 < b.1 || (a.1 == b.1 && a.2 <= b.2)))
}

/// A key at one place comes before another: by key, and by place where the keys are equal.
pub open spec fn placed_leq(a: (Key, int), b: (Key, int)) -> bool {
    key_leq(a.0, b.0) && (a.0 == b.0 ==> a.1 <= b.1)
}

/// The keys of a list with their places.
pub open spec fn placed(keys: Seq<Key>) -> Seq<(Key, int)> {
    Seq::new(keys.len(), |i: int| (keys[i], i))
}

/// The places of a list in the order of its keys, first come first among equal keys.
pub open spec fn order_of(keys: Seq<Key>) -> Seq<int> {
    placed(keys).sort_by(|a: (Key, int), b: (Key, int)| placed_leq(a, b)).map_values(
        |p: (Key, int)| p.1,
    )
}

/// The keys at the places `at`, with their places.
spec fn placed_at(keys: Seq<Key>, at: Seq<usize>) -> Seq<(Key, int)> {
    at.map_values(|i: usize| (keys[i as int], i as int))
}

proof fn placed_order_is_total()
    ensures
        total_ordering(|a: (Key, int), b: (Key, int)| placed_leq(a, b)),
{
    let leq = |a: (Key, int), b: (Key, int)| placed_leq(a, b);
    assert forall|a: (Key, int), b: (Key, int)| #[trigger] leq(a, b) && #[trigger] leq(
        b,
        a,
    ) implies a == b by {
        assert(a.0.0 == b.0.0 && a.0.1 == b.0.1 && a.0.2 == b.0.2);
        assert(a.0 == b.0);
    }
}

/// Whether the key `a` comes strictly before the key `b`.
fn key_before(a: Key, b: Key) -> (r: bool)
    ensures
        r == !key_leq(b, a),
{
    a.0 < b.0 || (a.0 == b.0 && (a.1 < b.1 || (a.1 == b.1 && a.2 < b.2)))
}

/// The places of `keys` in their order.
pub fn stable_order(keys: &Vec<Key>) -> (r: Vec<usize>)
    ensures
        r@.map_values(|i: usize| i as int) == order_of(keys@),
        r@.len() == keys@.len(),
        forall|i: int| 0 <= i < r@.len() ==> #[trigger] r@[i] < keys@.len(),
{
    let ghost leq = |a: (Key, int), b: (Key, int)| placed_leq(a, b);
    let mut out: Vec<usize> = Vec::new();
    let mut i: usize = 0;
    assert(placed_at(keys@, out@) =~= placed(keys@).take(0));
    while i < keys.len()
        invariant
            i <= keys@.len(),
            out@.len() == i,
            leq == |a: (Key, int), b: (Key, int)| placed_leq(a, b),
            forall|k: int| 0 <= k < i ==> #[trigger] out@[k] < i,
            sorted_by(placed_at(keys@, out@), leq),
            placed_at(keys@, out@).to_multiset() == placed(keys@).take(i as int).to_multiset(),
        decreases keys@.len() - i,
    {
        let mut j: usize = i;
        while j > 0 && key_before(keys[i], keys[out[j - 1]])
            invariant
                i < keys@.len(),
                j <= i,
                out@.len() == i,
                forall|k: int| 0 <= k < i ==> #[trigger] out@[k] < i,
                forall|k: int|
                    j <= k < i ==> !key_leq(keys@[#[trigger] out@[k] as int], keys@[i as int]),
            decreases j,
        {
            j = j - 1;
        }
        let ghost before = out@;
        let ghost tags = placed_at(keys@, before);
        out.insert(j, i);
        proof {
            let new = (keys@[i as int], i as int);
            assert(placed_at(keys@, out@) =~= tags.insert(j as int, new));
            to_multiset_insert(tags, j as int, new);
            to_multiset_build(placed(keys@).take(i as int), new);
            assert(placed(keys@).take(i + 1) =~= placed(keys@).take(i as int).push(new));
            let now = placed_at(keys@, out@);
            assert forall|a: int, b: int| 0 <= a < b < now.len() implies #[trigger] leq(
                now[a],
                now[b],
            ) by {
                if a < j && b == j {
                    assert(now[a] == tags[a]);
                    assert(a < j - 1 ==> leq(tags[a], tags[j - 1]));
                } else if a == j && b > j {
                    assert(now[b] == tags[b - 1]);
                    assert(before[b - 1] < i);
                } else {
                    let a0 = if a < j {
                        a
                    } else {
                        a - 1
                    };
                    let b0 = if b < j {
                        b
                    } else {
                        b - 1
                    };
                    assert(now[a] == tags[a0] && now[b] == tags[b0]);
                    assert(leq(tags[a0], tags[b0]));
                }
            }
            assert forall|k: int| 0 <= k < i + 1 implies #[trigger] out@[k] < i + 1 by {
                if k < j {
                    assert(out@[k] == before[k]);
                } else if k > j {
                    assert(out@[k] == before[k - 1]);
                }
            }
        }
        i = i + 1;
    }
    proof {
        placed_order_is_total();
        assert(placed(keys@).take(i as int) =~= placed(keys@));
        placed(keys@).lemma_sort_by_ensures(leq);
        let sorted = placed(keys@).sort_by(leq);
        lemma_sorted_unique(placed_at(keys@, out@), sorted, leq);
        assert(out@.map_values(|i: usize| i as int) =~= order_of(keys@));
    }
    out
}

/// The order of a list holds each place once; a place whose key is lower comes first, and of two
/// places with equal keys the first.
pub proof fn order_is_stable(keys: Seq<Key>)
    ensures
        order_of(keys).len() == keys.len(),
        forall|p: int| #[trigger] order_of(keys).contains(p) <==> 0 <= p < keys.len(),
        order_of(keys).no_duplicates(),
        forall|i: int, j: int|
            0 <= i < j < keys.len() ==> placed_leq(
                (keys[#[trigger] order_of(keys)[i]], order_of(keys)[i]),
                (keys[#[trigger] order_of(keys)[j]], order_of(keys)[j]),
            ),
{
    let leq = |a: (Key, int), b: (Key, int)| placed_leq(a, b);
    let tags = placed(keys);
    let sorted = tags.sort_by(leq);
    placed_order_is_total();
    tags.lemma_sort_by_ensures(leq);
    tags.to_multiset_ensures();
    sorted.to_multiset_ensures();
    let order = order_of(keys);
    assert forall|i: int| 0 <= i < sorted.len() implies #[trigger] sorted[i] == (
        keys[order[i]],
        order[i],
    ) && 0 <= order[i] < keys.len() by {
        assert(sorted.contains(sorted[i]));
        assert(tags.contains(sorted[i]));
    }
    assert forall|p: int| #[trigger] order.contains(p) <==> 0 <= p < keys.len() by {
        if 0 <= p < keys.len() {
            assert(tags[p] == (keys[p], p));
            assert(tags.contains(tags[p]));
            assert(tags.to_multiset().count(tags[p]) > 0);
            assert(sorted.contains(tags[p]));
            let i = choose|i: int| 0 <= i < sorted.len() && sorted[i] == tags[p];
            assert(order[i] == p);
        }
        if order.contains(p) {
            let i = choose|i: int| 0 <= i < order.len() && order[i] == p;
            assert(sorted[i] == (keys[order[i]], order[i]));
        }
    }
    assert(order.no_duplicates()) by {
        tags_are_unique(keys);
        tags.lemma_multiset_has_no_duplicates();
        sorted.lemma_multiset_has_no_duplicates_conv();
        assert forall|i: int, j: int| 0 <= i < order.len() && 0 <= j < order.len() && i
            != j implies order[i] != order[j] by {
            assert(sorted[i] != sorted[j]);
        }
    }
    assert forall|i: int, j: int| 0 <= i < j < keys.len() implies placed_leq(
        (keys[#[trigger] order[i]], order[i]),
        (keys[#[trigger] order[j]], order[j]),
    ) by {
        assert(leq(sorted[i], sorted[j]));
    }
}

proof fn tags_are_unique(keys: Seq<Key>)
    ensures
        placed(keys).no_duplicates(),
{
}

/// Keys are compared part by part: the first part in which two keys differ decides.
pub proof fn first_difference_decides(a: Key, b: Key)
    ensures
        a.0 != b.0 ==> (key_leq(a, b) <==> a.0 < b.0),
        a.0 == b.0 && a.1 != b.1 ==> (key_leq(a, b) <==> a.1 < b.1),
        a.0 == b.0 && a.1 == b.1 ==> (key_leq(a, b) <==> a.2 <= b.2),
{
}

} // verus!
