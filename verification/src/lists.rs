//! Lists of peers: keeping the first of each, and walking a list round from a starting point.
use vstd::prelude::*;
use crate::text::{list_has, same_text, texts, texts_push};

verus! {

/// `base`, and behind it those of `more` that do not stand there already, in order and each once.
pub open spec fn with_new(base: Seq<Seq<char>>, more: Seq<Seq<char>>) -> Seq<Seq<char>>
    decreases more.len(),
{
    if more.len() == 0 {
        base
    } else {
        let list = with_new(base, more.drop_last());
        if list.contains(more.last()) {
            list
        } else {
            list.push(more.last())
        }
    }
}

/// The texts of `list`, each at its first place only.
pub open spec fn distinct(list: Seq<Seq<char>>) -> Seq<Seq<char>> {
    with_new(Seq::empty(), list)
}

/// Adds `s` at the end of `list` where the list does not hold it yet; whether it was added.
pub fn push_new(list: &mut Vec<String>, s: &str) -> (r: bool)
    ensures
        r == !texts(old(list)@).contains(s@),
        texts(final(list)@) == if r {
            texts(old(list)@).push(s@)
        } else {
            texts(old(list)@)
        },
{
    if list_has(list, s) {
        return false;
    }
    let text = s.to_owned();
    list.push(text);
    proof {
        texts_push(old(list)@, text);
    }
    true
}

/// Adds those of `more` that `list` does not hold yet.
pub fn extend_new(list: &mut Vec<String>, more: &Vec<String>)
    ensures
        texts(final(list)@) == with_new(texts(old(list)@), texts(more@)),
{
    let mut i: usize = 0;
    assert(texts(more@).take(0) =~= Seq::<Seq<char>>::empty());
    while i < more.len()
        invariant
            i <= more@.len(),
            texts(list@) == with_new(texts(old(list)@), texts(more@).take(i as int)),
        decreases more@.len() - i,
    {
        push_new(list, more[i].as_str());
        i = i + 1;
        let ghost upto = texts(more@).take(i as int);
        assert(upto.drop_last() =~= texts(more@).take(i - 1));
        assert(upto.last() == more@[i - 1]@);
    }
    assert(texts(more@).take(i as int) =~= texts(more@));
}

/// Adding keeps what was there, brings in everything, and nothing else.
pub proof fn with_new_holds(base: Seq<Seq<char>>, more: Seq<Seq<char>>)
    ensures
        base.len() <= with_new(base, more).len() <= base.len() + more.len(),
        with_new(base, more).take(base.len() as int) == base,
        forall|s: Seq<char>| #[trigger]
            with_new(base, more).contains(s) <==> base.contains(s) || more.contains(s),
    decreases more.len(),
{
    if more.len() > 0 {
        let before = more.drop_last();
        let list = with_new(base, before);
        with_new_holds(base, before);
        let last = more.last();
        assert forall|s: Seq<char>| #[trigger] with_new(base, more).contains(s) <==> base.contains(s)
            || more.contains(s) by {
            assert(more.contains(s) <==> before.contains(s) || s == last) by {
                if more.contains(s) {
                    let i = choose|i: int| 0 <= i < more.len() && more[i] == s;
                    if i < before.len() {
                        assert(before[i] == s);
                    }
                }
                if before.contains(s) {
                    let i = choose|i: int| 0 <= i < before.len() && before[i] == s;
                    assert(more[i] == s);
                }
                if s == last {
                    assert(more[more.len() - 1] == s);
                }
            }
            assert(list.push(last).contains(s) <==> list.contains(s) || s == last) by {
                let p = list.push(last);
                if list.contains(s) {
                    let i = choose|i: int| 0 <= i < list.len() && list[i] == s;
                    assert(p[i] == s);
                }
                if s == last {
                    assert(p[list.len() as int] == s);
                }
                if p.contains(s) {
                    let i = choose|i: int| 0 <= i < p.len() && p[i] == s;
                    if i < list.len() {
                        assert(list[i] == s);
                    }
                }
            }
        }
        assert(with_new(base, more).take(base.len() as int) =~= base) by {
            assert(list.take(base.len() as int) == base);
        }
    } else {
        assert(base.take(base.len() as int) =~= base);
        assert forall|s: Seq<char>| #[trigger] with_new(base, more).contains(s) <==> base.contains(s)
            || more.contains(s) by {
            assert(!more.contains(s));
        }
    }
}

/// Adding one list and then another is adding both in a row.
pub proof fn with_new_concat(base: Seq<Seq<char>>, one: Seq<Seq<char>>, two: Seq<Seq<char>>)
    ensures
        with_new(with_new(base, one), two) == with_new(base, one + two),
    decreases two.len(),
{
    if two.len() > 0 {
        with_new_concat(base, one, two.drop_last());
        assert((one + two).drop_last() =~= one + two.drop_last());
    } else {
        assert(one + two =~= one);
    }
}

/// No text stands twice where none stood twice before.
pub proof fn with_new_has_no_duplicates(base: Seq<Seq<char>>, more: Seq<Seq<char>>)
    requires
        base.no_duplicates(),
    ensures
        with_new(base, more).no_duplicates(),
    decreases more.len(),
{
    if more.len() > 0 {
        with_new_has_no_duplicates(base, more.drop_last());
    }
}

/// In a list without repeats, two texts keep the order of their first places.
pub proof fn distinct_keeps_order(list: Seq<Seq<char>>, i: int, j: int) -> (r: (int, int))
    requires
        0 <= i < j < list.len(),
        forall|k: int| 0 <= k < i ==> list[k] != list[i],
        forall|k: int| 0 <= k < j ==> list[k] != list[j],
    ensures
        0 <= r.0 < r.1 < distinct(list).len(),
        distinct(list)[r.0] == list[i],
        distinct(list)[r.1] == list[j],
    decreases list.len(),
{
    let before = list.drop_last();
    let d = distinct(before);
    if j < list.len() - 1 {
        assert(before[i] == list[i] && before[j] == list[j]);
        distinct_keeps_order(before, i, j)
    } else {
        with_new_holds(Seq::empty(), before);
        assert(!d.contains(list[j])) by {
            if before.contains(list[j]) {
                let k = choose|k: int| 0 <= k < before.len() && before[k] == list[j];
                assert(list[k] == list[j]);
            }
        }
        assert(before[i] == list[i]);
        assert(before.contains(list[i]));
        assert(d.contains(list[i]));
        let a = choose|a: int| 0 <= a < d.len() && d[a] == list[i];
        assert(distinct(list) == d.push(list[j]));
        assert(d.push(list[j])[a] == list[i]);
        (a, d.len() as int)
    }
}

/// A filter keeps just the items that pass it.
pub proof fn filter_keeps<T>(s: Seq<T>, pred: spec_fn(T) -> bool, x: T)
    ensures
        s.filter(pred).contains(x) <==> s.contains(x) && pred(x),
    decreases s.len(),
{
    reveal(Seq::filter);
    if s.len() > 0 {
        let before = s.drop_last();
        filter_keeps(before, pred, x);
        assert(s =~= before.push(s.last()));
        push_contains(before, s.last(), x);
        push_contains(before.filter(pred), s.last(), x);
    }
}

proof fn push_contains<T>(s: Seq<T>, y: T, x: T)
    ensures
        s.push(y).contains(x) <==> s.contains(x) || x == y,
{
    if s.contains(x) {
        let k = choose|k: int| 0 <= k < s.len() && s[k] == x;
        assert(s.push(y)[k] == x);
    }
    if x == y {
        assert(s.push(y)[s.len() as int] == x);
    }
    if s.push(y).contains(x) {
        let k = choose|k: int| 0 <= k < s.push(y).len() && s.push(y)[k] == x;
        if k < s.len() {
            assert(s[k] == x);
        }
    }
}

/// `list` without the text `s`.
pub open spec fn without(list: Seq<Seq<char>>, s: Seq<char>) -> Seq<Seq<char>> {
    list.filter(|x: Seq<char>| x != s)
}

/// A list without `s` holds what the list holds, but for `s`.
pub proof fn without_holds_others(list: Seq<Seq<char>>, s: Seq<char>, x: Seq<char>)
    ensures
        without(list, s).contains(x) <==> list.contains(x) && x != s,
    decreases list.len(),
{
    reveal(Seq::filter);
    if list.len() > 0 {
        let before = list.drop_last();
        without_holds_others(before, s, x);
        assert(list =~= before.push(list.last()));
        push_contains(before, list.last(), x);
        push_contains(without(before, s), list.last(), x);
    }
}

/// Takes every `s` out of `list`.
pub fn remove_text(list: &mut Vec<String>, s: &str)
    ensures
        texts(final(list)@) == without(texts(old(list)@), s@),
{
    let ghost first = texts(list@);
    let ghost mut done: int = 0;
    let mut i: usize = 0;
    proof {
        reveal(Seq::filter);
        assert(first.take(0) =~= Seq::<Seq<char>>::empty());
        assert(texts(list@).take(0) =~= without(first.take(0), s@));
    }
    while i < list.len()
        invariant
            i <= list@.len(),
            first == texts(old(list)@),
            0 <= done <= first.len(),
            list@.len() - i == first.len() - done,
            texts(list@).take(i as int) == without(first.take(done), s@),
            texts(list@).skip(i as int) == first.skip(done),
        decreases list@.len() - i,
    {
        reveal(Seq::filter);
        let ghost before = list@;
        assert(texts(before)[i as int] == texts(before).skip(i as int)[0]);
        assert(first.skip(done)[0] == first[done]);
        assert(first.take(done + 1).drop_last() =~= first.take(done));
        if same_text(list[i].as_str(), s) {
            list.remove(i);
            assert(texts(list@) =~= texts(before).remove(i as int));
            assert(texts(list@).take(i as int) =~= texts(before).take(i as int));
            assert(texts(list@).skip(i as int) =~= texts(before).skip(i as int).skip(1));
        } else {
            assert(texts(before).take(i + 1) =~= texts(before).take(i as int).push(first[done]));
            assert(texts(before).skip(i + 1) =~= texts(before).skip(i as int).skip(1));
            i = i + 1;
        }
        assert(first.skip(done + 1) =~= first.skip(done).skip(1));
        proof {
            done = done + 1;
        }
    }
    assert(first.take(done) =~= first);
    assert(texts(list@).take(i as int) =~= texts(list@));
}

/// `list` walked round once from `start`.
pub open spec fn rotated(list: Seq<Seq<char>>, start: int) -> Seq<Seq<char>> {
    Seq::new(list.len(), |k: int| list[(start + k) % (list.len() as int)])
}

/// The place `k` steps after `start` in a round of `n`.
pub fn step_round(start: usize, k: usize, n: usize) -> (r: usize)
    requires
        n > 0,
    ensures
        r < n,
        r == (start + k) % n as int,
{
    let a: usize = start % n;
    let b: usize = k % n;
    proof {
        vstd::arithmetic::div_mod::lemma_add_mod_noop(start as int, k as int, n as int);
    }
    if a >= n - b {
        assert((a + b) % (n as int) == a + b - n) by (nonlinear_arith)
            requires
                0 <= a < n,
                0 <= b < n,
                a + b >= n,
        ;
        a - (n - b)
    } else {
        assert((a + b) % (n as int) == a + b) by (nonlinear_arith)
            requires
                0 <= a,
                0 <= b,
                a + b < n,
        ;
        a + b
    }
}

/// A walk round a list meets every text of it.
pub proof fn rotated_holds(list: Seq<Seq<char>>, start: int)
    requires
        0 <= start,
    ensures
        rotated(list, start).len() == list.len(),
        forall|s: Seq<char>| #[trigger] rotated(list, start).contains(s) <==> list.contains(s),
{
    let n = list.len() as int;
    let r = rotated(list, start);
    assert forall|s: Seq<char>| #[trigger] r.contains(s) <==> list.contains(s) by {
        if list.contains(s) {
            let i = choose|i: int| 0 <= i < n && list[i] == s;
            let k = (i - start) % n;
            vstd::arithmetic::div_mod::lemma_add_mod_noop(start, i - start, n);
            vstd::arithmetic::div_mod::lemma_add_mod_noop(start, k, n);
            vstd::arithmetic::div_mod::lemma_mod_twice(i - start, n);
            vstd::arithmetic::div_mod::lemma_small_mod(i as nat, n as nat);
            assert(0 <= k < n) by (nonlinear_arith)
                requires
                    n > 0,
                    k == (i - start) % n,
            ;
            assert((start + k) % n == i);
            assert(r[k] == s);
        }
        if r.contains(s) {
            let k = choose|k: int| 0 <= k < n && r[k] == s;
            let i = (start + k) % n;
            assert(0 <= i < n) by (nonlinear_arith)
                requires
                    n > 0,
                    i == (start + k) % n,
            ;
            assert(list[i] == s);
        }
    }
}

/// A list without repeats is left as it is.
pub proof fn distinct_of_distinct(list: Seq<Seq<char>>)
    requires
        list.no_duplicates(),
    ensures
        distinct(list) == list,
    decreases list.len(),
{
    if list.len() > 0 {
        let before = list.drop_last();
        distinct_of_distinct(before);
        assert(!before.contains(list.last())) by {
            if before.contains(list.last()) {
                let k = choose|k: int| 0 <= k < before.len() && before[k] == list.last();
                assert(list[k] == list[list.len() - 1]);
            }
        }
        assert(list =~= before.push(list.last()));
    }
}

/// A walk round a list starts at its turn, goes on with the next one and comes back to the first
/// behind the last.
pub proof fn rotation_goes_round(list: Seq<Seq<char>>, start: int, k: int)
    requires
        0 <= start < list.len(),
        0 <= k < list.len(),
    ensures
        rotated(list, start)[k] == list[if start + k < list.len() {
            start + k
        } else {
            start + k - list.len()
        }],
        rotated(list, 0) == list,
{
    let n = list.len() as int;
    assert((start + k) % n == if start + k < n {
        start + k
    } else {
        start + k - n
    }) by (nonlinear_arith)
        requires
            0 <= start < n,
            0 <= k < n,
    ;
    assert forall|i: int| 0 <= i < n implies rotated(list, 0)[i] == list[i] by {
        assert((0 + i) % n == i) by (nonlinear_arith)
            requires
                0 <= i < n,
        ;
    }
    assert(rotated(list, 0) =~= list);
}

/// Taking a text out leaves the others in their order.
pub proof fn without_keeps_order(list: Seq<Seq<char>>, s: Seq<char>, x: Seq<char>)
    ensures
        without(list.push(x), s) == if x == s {
            without(list, s)
        } else {
            without(list, s).push(x)
        },
        without(Seq::empty(), s) == Seq::<Seq<char>>::empty(),
{
    reveal(Seq::filter);
    let all = list.push(x);
    assert(all.drop_last() =~= list);
    assert(all.last() == x);
}

} // verus!
